//! Textual IP addresses, in the grammar std's `IpAddr::from_str` accepts:
//! IPv4 as four decimal octets without leading zeros, IPv6 as eight
//! colon-separated groups of one to four hex digits, with at most one `::`
//! standing for one or more zero groups and an optional trailing IPv4.

use vstd::prelude::*;

use crate::client::{decimal, digit_value};
use crate::text::{find_in, is_digit, is_hex, occurs_at, piece_end, split_from};

verus! {

/// An IP address: IPv4 as its 32-bit value, IPv6 as its 128-bit value.
#[derive(Debug, Clone, Copy, PartialEq, Eq, Structural)]
pub enum IpAddr {
    V4(u32),
    V6(u128),
}

// ─── Pieces ───────────────────────────────────────────────────────────────

/// One decimal octet: one to three digits, no leading zero unless it is the
/// only digit, at most 255.
pub open spec fn octet(t: Seq<char>) -> Option<u8> {
    if 1 <= t.len() <= 3 && (forall|k: int| 0 <= k < t.len() ==> is_digit(#[trigger] t[k])) && !(
    t.len() > 1 && t[0] == '0') && decimal(t) <= 255 {
        Some(decimal(t) as u8)
    } else {
        None
    }
}

pub open spec fn hex_digit_value(c: char) -> nat {
    if is_digit(c) {
        digit_value(c)
    } else if 'a' <= c && c <= 'f' {
        ((c as u32) - ('a' as u32) + 10) as nat
    } else {
        ((c as u32) - ('A' as u32) + 10) as nat
    }
}

pub open spec fn hex_value(t: Seq<char>) -> nat
    decreases t.len(),
{
    if t.len() == 0 {
        0
    } else {
        hex_value(t.drop_last()) * 16 + hex_digit_value(t.last())
    }
}

/// One IPv6 group: one to four hex digits.
pub open spec fn hex_group(t: Seq<char>) -> Option<u16> {
    if 1 <= t.len() <= 4 && forall|k: int| 0 <= k < t.len() ==> is_hex(#[trigger] t[k]) {
        Some(hex_value(t) as u16)
    } else {
        None
    }
}

pub open spec fn piece(t: Seq<char>, p: (int, int)) -> Seq<char> {
    t.subrange(p.0, p.1)
}

/// The octets of a dotted quad, or `None`.
pub open spec fn octets(t: Seq<char>, ps: Seq<(int, int)>) -> Option<Seq<u8>>
    decreases ps.len(),
{
    if ps.len() == 0 {
        Some(Seq::empty())
    } else {
        match (octets(t, ps.drop_last()), octet(piece(t, ps.last()))) {
            (Some(os), Some(o)) => Some(os.push(o)),
            _ => None,
        }
    }
}

pub open spec fn octets_value(o: Seq<u8>) -> nat
    decreases o.len(),
{
    if o.len() == 0 {
        0
    } else {
        octets_value(o.drop_last()) * 256 + o.last() as nat
    }
}

/// IPv4: exactly four `.`-separated octets.
pub open spec fn spec_parse_v4(t: Seq<char>) -> Option<u32> {
    let ps = split_from(t, 0, '.');
    if ps.len() != 4 {
        None
    } else {
        match octets(t, ps) {
            Some(o) => Some(octets_value(o) as u32),
            None => None,
        }
    }
}

/// Hex groups, one per piece, or `None`.
pub open spec fn hex_groups(t: Seq<char>, ps: Seq<(int, int)>) -> Option<Seq<u16>>
    decreases ps.len(),
{
    if ps.len() == 0 {
        Some(Seq::empty())
    } else {
        match (hex_groups(t, ps.drop_last()), hex_group(piece(t, ps.last()))) {
            (Some(gs), Some(g)) => Some(gs.push(g)),
            _ => None,
        }
    }
}

/// The two groups an embedded IPv4 address stands for.
pub open spec fn v4_groups(v: u32) -> Seq<u16> {
    seq![(v / 0x1_0000) as u16, (v % 0x1_0000) as u16]
}

/// The groups of a non-empty `:`-separated run whose last piece may be an
/// IPv4 address.
pub open spec fn groups_with_v4(t: Seq<char>) -> Option<Seq<u16>> {
    let ps = split_from(t, 0, ':');
    match hex_groups(t, ps.drop_last()) {
        None => None,
        Some(init) => match hex_group(piece(t, ps.last())) {
            Some(g) => Some(init.push(g)),
            None => match spec_parse_v4(piece(t, ps.last())) {
                Some(v) => Some(init + v4_groups(v)),
                None => None,
            },
        },
    }
}

pub open spec fn groups_value(g: Seq<u16>) -> nat
    decreases g.len(),
{
    if g.len() == 0 {
        0
    } else {
        groups_value(g.drop_last()) * 0x1_0000 + g.last() as nat
    }
}

/// The first `::` in `t`.
pub open spec fn double_colon(t: Seq<char>) -> Option<int> {
    if exists|k: int| occurs_at(t, seq![':', ':'], k) {
        Some(
            choose|k: int|
                occurs_at(t, seq![':', ':'], k) && forall|j: int|
                    0 <= j < k ==> !occurs_at(t, seq![':', ':'], j),
        )
    } else {
        None
    }
}

/// IPv6: eight groups, or fewer around one `::` that stands for at least one
/// zero group; a trailing IPv4 address counts as two groups.
pub open spec fn spec_parse_v6(t: Seq<char>) -> Option<u128> {
    match double_colon(t) {
        None => match groups_with_v4(t) {
            Some(g) => if g.len() == 8 {
                Some(groups_value(g) as u128)
            } else {
                None
            },
            None => None,
        },
        Some(k) => {
            let head = t.take(k);
            let tail = t.skip(k + 2);
            let hg = if head.len() == 0 {
                Some(Seq::empty())
            } else {
                hex_groups(head, split_from(head, 0, ':'))
            };
            let tg = if tail.len() == 0 {
                Some(Seq::empty())
            } else {
                groups_with_v4(tail)
            };
            match (hg, tg) {
                (Some(h), Some(tl)) => if h.len() + tl.len() <= 7 {
                    Some(
                        groups_value(
                            h + Seq::new((8 - h.len() - tl.len()) as nat, |i: int| 0u16) + tl,
                        ) as u128,
                    )
                } else {
                    None
                },
                _ => None,
            }
        },
    }
}

/// An address in std's text forms — IPv4 first, then IPv6.
pub closed spec fn spec_parse_ip(t: Seq<char>) -> Option<IpAddr> {
    match spec_parse_v4(t) {
        Some(v) => Some(IpAddr::V4(v)),
        None => match spec_parse_v6(t) {
            Some(v) => Some(IpAddr::V6(v)),
            None => None,
        },
    }
}

// ─── Executable parsers ───────────────────────────────────────────────────

fn parse_octet(v: &[char], from: usize, to: usize) -> (r: Option<u8>)
    requires
        from <= to <= v.len(),
    ensures
        r == octet(v@.subrange(from as int, to as int)),
{
    let ghost t = v@.subrange(from as int, to as int);
    if to - from < 1 || to - from > 3 {
        return None;
    }
    let mut value: u32 = 0;
    let mut k: usize = from;
    while k < to
        invariant
            from <= k <= to <= v.len(),
            to - from <= 3,
            t == v@.subrange(from as int, to as int),
            forall|j: int| 0 <= j < k - from ==> is_digit(#[trigger] t[j]),
            value == decimal(t.take(k - from)),
            k - from == 0 ==> value == 0,
            k - from == 1 ==> value < 10,
            k - from == 2 ==> value < 100,
            value < 1000,
        decreases to - k,
    {
        let c = v[k];
        if !('0' <= c && c <= '9') {
            proof {
                assert(!is_digit(t[k - from]));
            }
            return None;
        }
        proof {
            assert(t.take(k - from + 1).drop_last() =~= t.take(k - from));
            assert(t[k - from] == c);
        }
        value = value * 10 + (c as u32 - '0' as u32);
        k += 1;
    }
    proof {
        assert(t.take(t.len() as int) =~= t);
    }
    if to - from > 1 && v[from] == '0' {
        return None;
    }
    if value > 255 {
        return None;
    }
    Some(value as u8)
}

pub fn parse_v4(v: &[char], from: usize, to: usize) -> (r: Option<u32>)
    requires
        from <= to <= v.len(),
    ensures
        r == spec_parse_v4(v@.subrange(from as int, to as int)),
{
    let w = crate::text::copy_of(v, from, to);
    let ghost t = w@;
    proof {
        assert(w@.subrange(0, w@.len() as int) =~= t);
    }
    let mut value: u32 = 0;
    let mut count: usize = 0;
    let ghost mut done: Seq<(int, int)> = Seq::empty();
    let ghost mut os: Seq<u8> = Seq::empty();
    let mut at: usize = 0;
    loop
        invariant
            at <= w.len(),
            from <= to <= v.len(),
            t == w@,
            t == v@.subrange(from as int, to as int),
            w@.subrange(0, w@.len() as int) == t,
            split_from(t, 0, '.') == done + split_from(t, at as int, '.'),
            octets(t, done) == Some(os),
            count == done.len(),
            count == os.len(),
            count < 4,
            value as nat == octets_value(os),
            octets_value(os) < pow256(count as nat),
        decreases w.len() - at,
    {
        let e = piece_end(w.as_slice(), at, w.len(), '.');
        proof {
            assert(w@.subrange(at as int, e as int) == piece(t, (at as int, e as int)));
        }
        let o = match parse_octet(w.as_slice(), at, e) {
            Some(o) => o,
            None => {
                proof {
                    let prev = done;
                    done = done.push((at as int, e as int));
                    assert(done.drop_last() =~= prev);
                    assert(done.last() == (at as int, e as int));
                    assert(octets(t, done).is_none());
                    lemma_octets_none_sticks(t, done, split_from(t, e + 1, '.'));
                    if e < w.len() {
                        assert(split_from(t, 0, '.') =~= done + split_from(t, e + 1, '.'));
                    } else {
                        assert(split_from(t, 0, '.') =~= done);
                        assert(done + Seq::<(int, int)>::empty() =~= done);
                    }
                }
                return None;
            },
        };
        proof {
            let prev = done;
            done = done.push((at as int, e as int));
            assert(done.drop_last() =~= prev);
            let prev_os = os;
            os = os.push(o);
            assert(os.drop_last() =~= prev_os);
            lemma_pow256_step(count as nat, octets_value(prev_os), o as nat);
        }
        value = value * 256 + o as u32;
        count += 1;
        if e >= w.len() {
            proof {
                assert(split_from(t, 0, '.') =~= done);
            }
            if count == 4 {
                return Some(value);
            }
            return None;
        }
        if count == 4 {
            proof {
                assert(split_from(t, 0, '.') =~= done + split_from(t, e + 1, '.'));
                assert(split_from(t, e + 1, '.').len() >= 1);
            }
            return None;
        }
        proof {
            assert(split_from(t, 0, '.') =~= done + split_from(t, e + 1, '.'));
        }
        at = e + 1;
    }
}

pub open spec fn pow256(n: nat) -> nat
    decreases n,
{
    if n == 0 {
        1
    } else {
        256 * pow256((n - 1) as nat)
    }
}

proof fn lemma_pow256_step(n: nat, v: nat, o: nat)
    requires
        v < pow256(n),
        o < 256,
        n < 4,
    ensures
        v * 256 + o < pow256(n + 1),
        pow256(n + 1) <= 0x1_0000_0000,
{
    reveal_with_fuel(pow256, 5);
    assert(v * 256 + o < pow256(n) * 256) by (nonlinear_arith)
        requires
            v < pow256(n),
            o < 256,
    ;
}

proof fn lemma_octets_none_sticks(t: Seq<char>, done: Seq<(int, int)>, rest: Seq<(int, int)>)
    requires
        octets(t, done).is_none(),
    ensures
        octets(t, done + rest).is_none(),
    decreases rest.len(),
{
    if rest.len() == 0 {
        assert(done + rest =~= done);
    } else {
        lemma_octets_none_sticks(t, done, rest.drop_last());
        assert((done + rest).drop_last() =~= done + rest.drop_last());
    }
}

fn parse_hex_group(v: &[char], from: usize, to: usize) -> (r: Option<u16>)
    requires
        from <= to <= v.len(),
    ensures
        r == hex_group(v@.subrange(from as int, to as int)),
{
    let ghost t = v@.subrange(from as int, to as int);
    if to - from < 1 || to - from > 4 {
        return None;
    }
    let mut value: u32 = 0;
    let mut k: usize = from;
    while k < to
        invariant
            from <= k <= to <= v.len(),
            to - from <= 4,
            t == v@.subrange(from as int, to as int),
            forall|j: int| 0 <= j < k - from ==> is_hex(#[trigger] t[j]),
            value == hex_value(t.take(k - from)),
            value < pow16((k - from) as nat),
            pow16((k - from) as nat) <= 0x1_0000,
        decreases to - k,
    {
        let c = v[k];
        let d: u32 = if '0' <= c && c <= '9' {
            c as u32 - '0' as u32
        } else if 'a' <= c && c <= 'f' {
            c as u32 - 'a' as u32 + 10
        } else if 'A' <= c && c <= 'F' {
            c as u32 - 'A' as u32 + 10
        } else {
            proof {
                assert(!is_hex(t[k - from]));
            }
            return None;
        };
        proof {
            assert(t.take(k - from + 1).drop_last() =~= t.take(k - from));
            assert(t[k - from] == c);
            assert(d == hex_digit_value(c));
            lemma_pow16_step((k - from) as nat, value as nat, d as nat);
        }
        value = value * 16 + d;
        k += 1;
    }
    proof {
        assert(t.take(t.len() as int) =~= t);
    }
    Some(value as u16)
}

pub open spec fn pow16(n: nat) -> nat
    decreases n,
{
    if n == 0 {
        1
    } else {
        16 * pow16((n - 1) as nat)
    }
}

proof fn lemma_pow16_step(n: nat, v: nat, d: nat)
    requires
        v < pow16(n),
        d < 16,
        n < 4,
    ensures
        v * 16 + d < pow16(n + 1),
        pow16(n + 1) <= 0x1_0000,
{
    reveal_with_fuel(pow16, 5);
    assert(v * 16 + d < pow16(n) * 16) by (nonlinear_arith)
        requires
            v < pow16(n),
            d < 16,
    ;
}

proof fn lemma_hex_groups_none_sticks(t: Seq<char>, done: Seq<(int, int)>, rest: Seq<(int, int)>)
    requires
        hex_groups(t, done).is_none(),
    ensures
        hex_groups(t, done + rest).is_none(),
    decreases rest.len(),
{
    if rest.len() == 0 {
        assert(done + rest =~= done);
    } else {
        lemma_hex_groups_none_sticks(t, done, rest.drop_last());
        assert((done + rest).drop_last() =~= done + rest.drop_last());
    }
}

/// The groups of `w` split on `:` — all hex groups, or with `allow_v4` a
/// trailing IPv4 address standing for the last two.
fn groups_of(w: &Vec<char>, allow_v4: bool) -> (r: Option<Vec<u16>>)
    ensures
        match r {
            Some(g) => (if allow_v4 {
                groups_with_v4(w@)
            } else {
                hex_groups(w@, split_from(w@, 0, ':'))
            }) == Some(g@),
            None => (if allow_v4 {
                groups_with_v4(w@)
            } else {
                hex_groups(w@, split_from(w@, 0, ':'))
            }).is_none(),
        },
{
    let ghost t = w@;
    proof {
        assert(w@.subrange(0, w@.len() as int) =~= t);
    }
    let mut gs: Vec<u16> = Vec::new();
    let ghost mut done: Seq<(int, int)> = Seq::empty();
    let mut at: usize = 0;
    loop
        invariant
            at <= w.len(),
            t == w@,
            w@.subrange(0, w@.len() as int) == t,
            split_from(t, 0, ':') == done + split_from(t, at as int, ':'),
            hex_groups(t, done) == Some(gs@),
        decreases w.len() - at,
    {
        let e = piece_end(w.as_slice(), at, w.len(), ':');
        proof {
            assert(w@.subrange(at as int, e as int) == piece(t, (at as int, e as int)));
        }
        let g = parse_hex_group(w.as_slice(), at, e);
        if e >= w.len() {
            proof {
                assert(split_from(t, 0, ':') =~= done.push((at as int, e as int)));
                assert(split_from(t, 0, ':').drop_last() =~= done);
                assert(done.push((at as int, e as int)).drop_last() =~= done);
            }
            match g {
                Some(g) => {
                    gs.push(g);
                    return Some(gs);
                },
                None => {
                    if !allow_v4 {
                        return None;
                    }
                    match parse_v4(w.as_slice(), at, e) {
                        Some(v) => {
                            let ghost before = gs@;
                            gs.push((v / 0x1_0000) as u16);
                            gs.push((v % 0x1_0000) as u16);
                            proof {
                                assert(gs@ =~= before + v4_groups(v));
                            }
                            return Some(gs);
                        },
                        None => return None,
                    }
                },
            }
        }
        match g {
            Some(g) => {
                proof {
                    let prev = done;
                    done = done.push((at as int, e as int));
                    assert(done.drop_last() =~= prev);
                    assert(split_from(t, 0, ':') =~= done + split_from(t, e + 1, ':'));
                }
                gs.push(g);
            },
            None => {
                proof {
                    let prev = done;
                    done = done.push((at as int, e as int));
                    assert(done.drop_last() =~= prev);
                    assert(hex_groups(t, done).is_none());
                    let rest = split_from(t, e + 1, ':');
                    assert(split_from(t, 0, ':') =~= done + rest);
                    assert(rest.len() > 0);
                    lemma_hex_groups_none_sticks(t, done, rest.drop_last());
                    assert(split_from(t, 0, ':').drop_last() =~= done + rest.drop_last());
                    lemma_hex_groups_none_sticks(t, done, rest);
                }
                return None;
            },
        }
        at = e + 1;
    }
}

pub open spec fn pow65536(n: nat) -> nat
    decreases n,
{
    if n == 0 {
        1
    } else {
        0x1_0000 * pow65536((n - 1) as nat)
    }
}

proof fn lemma_pow65536_step(n: nat, v: nat, g: nat)
    requires
        v < pow65536(n),
        g < 0x1_0000,
        n < 8,
    ensures
        v * 0x1_0000 + g < pow65536(n + 1),
        pow65536(n + 1) <= pow65536(8),
{
    reveal_with_fuel(pow65536, 9);
    assert(v * 0x1_0000 + g < pow65536(n) * 0x1_0000) by (nonlinear_arith)
        requires
            v < pow65536(n),
            g < 0x1_0000,
    ;
    lemma_pow65536_mono((n + 1) as nat, 8);
}

proof fn lemma_pow65536_mono(a: nat, b: nat)
    requires
        a <= b,
    ensures
        pow65536(a) <= pow65536(b),
    decreases b - a,
{
    if a < b {
        lemma_pow65536_mono(a, (b - 1) as nat);
        assert(pow65536(b) == 0x1_0000 * pow65536((b - 1) as nat));
    }
}

/// The 128-bit value of eight groups.
fn value_of_groups(g: &Vec<u16>) -> (r: u128)
    requires
        g.len() == 8,
    ensures
        r as nat == groups_value(g@),
{
    proof {
        reveal_with_fuel(pow65536, 9);
        assert(pow65536(8) == 0x1_0000_0000_0000_0000_0000_0000_0000_0000);
    }
    let mut acc: u128 = 0;
    let mut i: usize = 0;
    while i < 8
        invariant
            0 <= i <= 8,
            g.len() == 8,
            acc as nat == groups_value(g@.take(i as int)),
            groups_value(g@.take(i as int)) < pow65536(i as nat),
            pow65536(8) == 0x1_0000_0000_0000_0000_0000_0000_0000_0000,
        decreases 8 - i,
    {
        proof {
            assert(g@.take(i + 1).drop_last() =~= g@.take(i as int));
            lemma_pow65536_step(i as nat, acc as nat, g@[i as int] as nat);
        }
        acc = acc * 0x1_0000 + g[i] as u128;
        i += 1;
    }
    proof {
        assert(g@.take(8) =~= g@);
    }
    acc
}

proof fn lemma_first_double_colon(t: Seq<char>, k: int)
    requires
        occurs_at(t, seq![':', ':'], k),
        forall|j: int| 0 <= j < k ==> !occurs_at(t, seq![':', ':'], j),
    ensures
        double_colon(t) == Some(k),
{
    let c = choose|c: int|
        occurs_at(t, seq![':', ':'], c) && forall|j: int| 0 <= j < c ==> !occurs_at(t, seq![':', ':'], j);
    if c < k {
    } else if c > k {
    }
}

pub fn parse_v6(v: &[char], from: usize, to: usize) -> (r: Option<u128>)
    requires
        from <= to <= v.len(),
    ensures
        match r {
            Some(x) => spec_parse_v6(v@.subrange(from as int, to as int)) == Some(x),
            None => spec_parse_v6(v@.subrange(from as int, to as int)).is_none(),
        },
{
    let w = crate::text::copy_of(v, from, to);
    let dc = [':', ':'];
    proof {
        assert(dc@ == seq![':', ':']);
    }
    match find_in(w.as_slice(), 0, w.len(), dc.as_slice()) {
        None => {
            proof {
                assert(w@.subrange(0, w@.len() as int) =~= w@);
                assert(!exists|k: int| occurs_at(w@, seq![':', ':'], k));
            }
            v6_without_gap(&w)
        },
        Some(k) => {
            proof {
                assert(w@.subrange(0, w@.len() as int) =~= w@);
                lemma_first_double_colon(w@, k as int);
            }
            v6_with_gap(&w, k)
        },
    }
}

/// IPv6 text with no `::`: exactly eight groups.
fn v6_without_gap(w: &Vec<char>) -> (r: Option<u128>)
    requires
        double_colon(w@).is_none(),
    ensures
        match r {
            Some(x) => spec_parse_v6(w@) == Some(x),
            None => spec_parse_v6(w@).is_none(),
        },
{
    match groups_of(w, true) {
        Some(g) => {
            if g.len() == 8 {
                Some(value_of_groups(&g))
            } else {
                None
            }
        },
        None => None,
    }
}

/// IPv6 text whose first `::` starts at `k`.
fn v6_with_gap(w: &Vec<char>, k: usize) -> (r: Option<u128>)
    requires
        k + 2 <= w.len(),
        double_colon(w@) == Some(k as int),
    ensures
        match r {
            Some(x) => spec_parse_v6(w@) == Some(x),
            None => spec_parse_v6(w@).is_none(),
        },
{
    let ghost t = w@;
    let head = crate::text::copy_of(w.as_slice(), 0, k);
    let tail = crate::text::copy_of(w.as_slice(), k + 2, w.len());
    proof {
        assert(head@ =~= t.take(k as int));
        assert(tail@ =~= t.skip(k + 2));
    }
    let hg = if head.len() == 0 {
        Some(Vec::new())
    } else {
        groups_of(&head, false)
    };
    let tg = if tail.len() == 0 {
        Some(Vec::new())
    } else {
        groups_of(&tail, true)
    };
    match (hg, tg) {
        (Some(h), Some(tl)) => {
            proof {
                if head.len() == 0 {
                    assert(h@ =~= Seq::<u16>::empty());
                }
                if tail.len() == 0 {
                    assert(tl@ =~= Seq::<u16>::empty());
                }
            }
            if h.len() > 7 || tl.len() > 7 - h.len() {
                return None;
            }
            let full = assemble(&h, &tl);
            Some(value_of_groups(&full))
        },
        _ => None,
    }
}

/// `h`, then zero groups, then `tl` — eight groups in all.
fn assemble(h: &Vec<u16>, tl: &Vec<u16>) -> (full: Vec<u16>)
    requires
        h.len() + tl.len() <= 7,
    ensures
        full@ == h@ + Seq::new((8 - h@.len() - tl@.len()) as nat, |i: int| 0u16) + tl@,
        full.len() == 8,
{
    let mut full: Vec<u16> = Vec::new();
    let mut i: usize = 0;
    while i < h.len()
        invariant
            0 <= i <= h.len(),
            full@ == h@.take(i as int),
        decreases h.len() - i,
    {
        full.push(h[i]);
        proof {
            assert(h@.take(i + 1) =~= h@.take(i as int).push(h@[i as int]));
        }
        i += 1;
    }
    let zeros: usize = 8 - h.len() - tl.len();
    let mut j: usize = 0;
    while j < zeros
        invariant
            0 <= j <= zeros,
            h.len() + tl.len() <= 7,
            zeros == 8 - h.len() - tl.len(),
            full@ == h@ + Seq::new(j as nat, |i: int| 0u16),
        decreases zeros - j,
    {
        full.push(0);
        proof {
            assert(h@ + Seq::new((j + 1) as nat, |i: int| 0u16) =~= (h@ + Seq::new(
                j as nat,
                |i: int| 0u16,
            )).push(0));
        }
        j += 1;
    }
    let ghost mid = full@;
    let mut i: usize = 0;
    while i < tl.len()
        invariant
            0 <= i <= tl.len(),
            full@ == mid + tl@.take(i as int),
        decreases tl.len() - i,
    {
        full.push(tl[i]);
        proof {
            assert(mid + tl@.take(i + 1) =~= (mid + tl@.take(i as int)).push(
                tl@[i as int],
            ));
        }
        i += 1;
    }
    proof {
        assert(tl@.take(tl.len() as int) =~= tl@);
        assert(full@ =~= h@ + Seq::new((8 - h@.len() - tl@.len()) as nat, |i: int| 0u16)
            + tl@);
    }
    full
}

/// Parses `v[from..to]` as an IPv4 or IPv6 address.
pub fn parse_ip(v: &[char], from: usize, to: usize) -> (r: Option<IpAddr>)
    requires
        from <= to <= v.len(),
    ensures
        r == spec_parse_ip(v@.subrange(from as int, to as int)),
{
    match parse_v4(v, from, to) {
        Some(x) => Some(IpAddr::V4(x)),
        None => match parse_v6(v, from, to) {
            Some(x) => Some(IpAddr::V6(x)),
            None => None,
        },
    }
}

} // verus!
