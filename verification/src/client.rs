//! Client identification: addresses, address prefixes and names, and the
//! `$client=` scopes that restrict a rule to some clients.

use vstd::prelude::*;

use crate::ip::{spec_parse_ip, IpAddr};
use crate::text::{
    eq_ignore_case, is_digit, lower_seq, piece_end, split_from, string_of,
    trim_bounds, trim_range,
};

verus! {

impl IpAddr {
    /// Parses an IPv4 or IPv6 address in std's textual forms.
    pub fn parse(s: &str) -> (r: Option<IpAddr>)
        ensures
            r == spec_parse_ip(s@),
    {
        let v = crate::text::chars_of(s);
        proof {
            assert(v@.subrange(0, v@.len() as int) =~= s@);
        }
        crate::ip::parse_ip(v.as_slice(), 0, v.len())
    }

    /// The IPv4 address `a.b.c.d`.
    pub fn v4(a: u8, b: u8, c: u8, d: u8) -> (r: IpAddr)
        ensures
            r == IpAddr::V4(((a as u32) * 0x100_0000 + (b as u32) * 0x1_0000 + (c as u32) * 0x100
                + d as u32) as u32),
    {
        IpAddr::V4((a as u32) * 0x100_0000 + (b as u32) * 0x1_0000 + (c as u32) * 0x100 + d as u32)
    }

    /// The widest prefix length of the address family.
    pub open spec fn max_prefix(self) -> u8 {
        if self is V4 {
            32
        } else {
            128
        }
    }
}

/// Parses `v[from..to]` as an address.
fn parse_ip_range(v: &[char], from: usize, to: usize) -> (r: Option<IpAddr>)
    requires
        from <= to <= v.len(),
    ensures
        r == spec_parse_ip(v@.subrange(from as int, to as int)),
{
    crate::ip::parse_ip(v, from, to)
}

// ─── Decimal u8 ───────────────────────────────────────────────────────────

pub open spec fn digit_value(c: char) -> nat {
    ((c as u32) - ('0' as u32)) as nat
}

/// The value of a run of decimal digits.
pub open spec fn decimal(d: Seq<char>) -> nat
    decreases d.len(),
{
    if d.len() == 0 {
        0
    } else {
        decimal(d.drop_last()) * 10 + digit_value(d.last())
    }
}

pub proof fn lemma_decimal_grows(d: Seq<char>, k: int)
    requires
        0 <= k <= d.len(),
    ensures
        decimal(d.take(k)) <= decimal(d),
    decreases d.len() - k,
{
    if k < d.len() {
        lemma_decimal_grows(d, k + 1);
        assert(d.take(k + 1).drop_last() =~= d.take(k));
        let x = decimal(d.take(k));
        assert(x * 10 + digit_value(d.take(k + 1).last()) >= x) by (nonlinear_arith)
            requires
                x >= 0,
        ;
    } else {
        assert(d.take(k) =~= d);
    }
}

/// The digits of a `u8` text: all of it but a leading `+`.
pub open spec fn u8_digits(s: Seq<char>) -> Seq<char> {
    if s.len() > 0 && s[0] == '+' {
        s.drop_first()
    } else {
        s
    }
}

/// One or more decimal digits whose value fits in a `u8`.
pub open spec fn digits_u8(d: Seq<char>) -> Option<u8> {
    if d.len() == 0 || exists|k: int| 0 <= k < d.len() && !is_digit(#[trigger] d[k]) {
        None
    } else if decimal(d) > 255 {
        None
    } else {
        Some(decimal(d) as u8)
    }
}

/// std's `u8::from_str`: an optional `+`, then one or more decimal digits
/// whose value fits in a `u8`.
pub open spec fn spec_parse_u8(s: Seq<char>) -> Option<u8> {
    digits_u8(u8_digits(s))
}

#[verifier::loop_isolation(false)]
pub fn parse_u8_range(v: &[char], from: usize, to: usize) -> (r: Option<u8>)
    requires
        from <= to <= v.len(),
    ensures
        r == spec_parse_u8(v@.subrange(from as int, to as int)),
{
    let ghost s = v@.subrange(from as int, to as int);
    let start: usize = if from < to && v[from] == '+' {
        from + 1
    } else {
        from
    };
    let ghost d = v@.subrange(start as int, to as int);
    proof {
        if from < to && v@[from as int] == '+' {
            assert(d =~= s.drop_first());
        } else {
            assert(d =~= s);
        }
    }
    if start == to {
        return None;
    }
    let mut value: u32 = 0;
    let mut k: usize = start;
    while k < to
        invariant
            start <= k <= to <= v.len(),
            d == v@.subrange(start as int, to as int),
            s == v@.subrange(from as int, to as int),
            d == u8_digits(s),
            d.len() > 0,
            forall|j: int| 0 <= j < k - start ==> is_digit(#[trigger] d[j]),
            value == decimal(d.take(k - start)),
            value <= 255,
        decreases to - k,
    {
        let c = v[k];
        if !('0' <= c && c <= '9') {
            proof {
                assert(!is_digit(d[k - start]));
            }
            return None;
        }
        proof {
            assert(d.take(k - start + 1).drop_last() =~= d.take(k - start));
            assert(d[k - start] == c);
        }
        value = value * 10 + (c as u32 - '0' as u32);
        proof {
            assert(is_digit(d[k - start]));
            assert(value == decimal(d.take(k - start + 1)));
        }
        if value > 255 {
            proof {
                lemma_decimal_grows(d, k - start + 1);
                assert(decimal(d) > 255);
                // every remaining character is either a digit, leaving the
                // value above 255, or not one, making the text no number
            }
            let mut j: usize = k + 1;
            while j < to
                invariant
                    k < j <= to <= v.len(),
                    d == v@.subrange(start as int, to as int),
                    decimal(d) > 255,
                    forall|i: int| 0 <= i < j - start ==> is_digit(#[trigger] d[i]),
                decreases to - j,
            {
                if !('0' <= v[j] && v[j] <= '9') {
                    proof {
                        assert(!is_digit(d[j - start]));
                    }
                    return None;
                }
                j += 1;
            }
            proof {
                assert(forall|i: int| 0 <= i < d.len() ==> is_digit(#[trigger] d[i]));
            }
            return None;
        }
        k += 1;
    }
    proof {
        assert(d.take(d.len() as int) =~= d);
    }
    Some(value as u8)
}

// ─── Selectors ────────────────────────────────────────────────────────────

/// One client selector: an exact address, an address prefix, or a
/// user-assigned client name.
#[derive(Debug, Clone, PartialEq, Eq)]
pub enum ClientSelector {
    Ip(IpAddr),
    Network { address: IpAddr, prefix_len: u8 },
    Name(Box<str>),
}

pub enum SelectorV {
    Ip(IpAddr),
    Network { address: IpAddr, prefix_len: u8 },
    Name(Seq<char>),
}

impl View for ClientSelector {
    type V = SelectorV;

    open spec fn view(&self) -> SelectorV {
        match self {
            ClientSelector::Ip(a) => SelectorV::Ip(*a),
            ClientSelector::Network { address, prefix_len } => SelectorV::Network {
                address: *address,
                prefix_len: *prefix_len,
            },
            ClientSelector::Name(n) => SelectorV::Name(n@),
        }
    }
}

/// Index of the first `'/'` in `t`, if any.
pub open spec fn first_slash(t: Seq<char>) -> Option<int> {
    if exists|k: int| 0 <= k < t.len() && t[k] == '/' {
        Some(choose|k: int| 0 <= k < t.len() && t[k] == '/' && forall|j: int| 0 <= j < k ==> t[j] != '/')
    } else {
        None
    }
}

/// `address/prefix`, the prefix no longer than the address.
pub open spec fn spec_network(address: Seq<char>, prefix: Seq<char>) -> Option<SelectorV> {
    match (spec_parse_ip(address), spec_parse_u8(prefix)) {
        (Some(address), Some(prefix_len)) => if prefix_len <= address.max_prefix() {
            Some(SelectorV::Network { address, prefix_len })
        } else {
            None
        },
        _ => None,
    }
}

proof fn lemma_first_slash(t: Seq<char>, x: int)
    requires
        0 <= x < t.len(),
        t[x] == '/',
        forall|j: int| 0 <= j < x ==> t[j] != '/',
    ensures
        first_slash(t) == Some(x),
{
    let c = choose|c: int| 0 <= c < t.len() && t[c] == '/' && forall|j: int|
        0 <= j < c ==> t[j] != '/';
    assert(0 <= x < t.len() && t[x] == '/' && forall|j: int| 0 <= j < x ==> t[j] != '/');
    if c < x {
    } else if c > x {
        assert(t[x] != '/');
    }
}

/// `192.168.1.50`, `192.168.1.0/24`, or a client name. A `/` commits the value
/// to being a prefix, so a malformed address cannot quietly become a name.
pub open spec fn spec_parse_selector(s: Seq<char>) -> Option<SelectorV> {
    let (a, b) = trim_bounds(s, 0, s.len() as int);
    let t = s.subrange(a, b);
    if t.len() == 0 {
        None
    } else {
        match first_slash(t) {
            Some(k) => spec_network(t.take(k), t.skip(k + 1)),
            None => match spec_parse_ip(t) {
                Some(address) => Some(SelectorV::Ip(address)),
                None => Some(SelectorV::Name(t)),
            },
        }
    }
}

pub fn parse_selector(v: &[char], from: usize, to: usize) -> (r: Option<ClientSelector>)
    requires
        from <= to <= v.len(),
    ensures
        match r {
            Some(sel) => spec_parse_selector(v@.subrange(from as int, to as int)) == Some(sel@),
            None => spec_parse_selector(v@.subrange(from as int, to as int)).is_none(),
        },
{
    let ghost s = v@.subrange(from as int, to as int);
    let (a, b) = trim_range(v, from, to);
    let ghost t = v@.subrange(a as int, b as int);
    proof {
        crate::text::lemma_trim_shift(v@, from as int, to as int);
        assert(trim_bounds(s, 0, s.len() as int) == ((a - from) as int, (b - from) as int));
        assert(s.subrange((a - from) as int, (b - from) as int) =~= t);
    }
    if a == b {
        return None;
    }
    let mut k: usize = a;
    while k < b && v[k] != '/'
        invariant
            a <= k <= b <= v.len(),
            t == v@.subrange(a as int, b as int),
            forall|j: int| 0 <= j < k - a ==> t[j] != '/',
        decreases b - k,
    {
        k += 1;
    }
    if k < b {
        proof {
            assert(t[k - a] == '/');
            lemma_first_slash(t, k - a);
            assert(t.take(k - a) =~= v@.subrange(a as int, k as int));
            assert(t.skip(k - a + 1) =~= v@.subrange(k + 1, b as int));
        }
        parse_network(v, a, k, b)
    } else {
        proof {
            assert(forall|j: int| 0 <= j < t.len() ==> t[j] != '/');
            assert(first_slash(t).is_none());
        }
        match parse_ip_range(v, a, b) {
            Some(address) => Some(ClientSelector::Ip(address)),
            None => Some(ClientSelector::Name(crate::text::boxed_of_range(v, a, b))),
        }
    }
}

/// The selector `v[a..k]/v[k+1..b]`: an address prefix.
fn parse_network(v: &[char], a: usize, k: usize, b: usize) -> (r: Option<ClientSelector>)
    requires
        a <= k < b <= v.len(),
    ensures
        match r {
            Some(sel) => spec_network(v@.subrange(a as int, k as int), v@.subrange(k + 1, b as int))
                == Some(sel@),
            None => spec_network(v@.subrange(a as int, k as int), v@.subrange(k + 1, b as int)).is_none(),
        },
{
    let address = parse_ip_range(v, a, k);
    let prefix = parse_u8_range(v, k + 1, b);
    match (address, prefix) {
        (Some(address), Some(prefix_len)) => {
            let max: u8 = match address {
                IpAddr::V4(_) => 32,
                IpAddr::V6(_) => 128,
            };
            if prefix_len <= max {
                Some(ClientSelector::Network { address, prefix_len })
            } else {
                None
            }
        },
        _ => None,
    }
}

/// Whether `len` leading bits of two 32-bit values agree.
pub open spec fn prefix_eq_32(x: u32, y: u32, len: u8) -> bool {
    len == 0 || (len <= 32 && (x >> ((32 - len) as u32)) == (y >> ((32 - len) as u32)))
}

/// Whether `len` leading bits of two 128-bit values agree.
pub open spec fn prefix_eq_128(x: u128, y: u128, len: u8) -> bool {
    len == 0 || (len <= 128 && (x >> ((128 - len) as u32)) == (y >> ((128 - len) as u32)))
}

/// Whether an address falls inside a prefix of the same family.
pub open spec fn in_network(ip: IpAddr, net: IpAddr, len: u8) -> bool {
    match (ip, net) {
        (IpAddr::V4(x), IpAddr::V4(y)) => prefix_eq_32(x, y, len),
        (IpAddr::V6(x), IpAddr::V6(y)) => prefix_eq_128(x, y, len),
        _ => false,
    }
}

pub fn ip_in_network(ip: IpAddr, net: IpAddr, len: u8) -> (b: bool)
    ensures
        b == in_network(ip, net, len),
{
    match (ip, net) {
        (IpAddr::V4(x), IpAddr::V4(y)) => len == 0 || (len <= 32 && (x >> ((32 - len) as u32))
            == (y >> ((32 - len) as u32))),
        (IpAddr::V6(x), IpAddr::V6(y)) => len == 0 || (len <= 128 && (x >> ((128 - len) as u32))
            == (y >> ((128 - len) as u32))),
        _ => false,
    }
}

/// Whether a selector names this client: an address selector by the
/// client's address, a name selector by its name (ASCII case ignored).
pub open spec fn selector_matches(sel: SelectorV, ip: IpAddr, name: Option<Seq<char>>) -> bool {
    match sel {
        SelectorV::Ip(a) => ip == a,
        SelectorV::Network { address, prefix_len } => in_network(ip, address, prefix_len),
        SelectorV::Name(n) => match name {
            Some(x) => lower_seq(x) == lower_seq(n),
            None => false,
        },
    }
}

pub open spec fn opt_str_view(o: Option<&str>) -> Option<Seq<char>> {
    match o {
        Some(s) => Some(s@),
        None => None,
    }
}

impl ClientSelector {
    pub fn matches(&self, ip: IpAddr, name: Option<&str>) -> (b: bool)
        ensures
            b == selector_matches(self@, ip, opt_str_view(name)),
    {
        match self {
            ClientSelector::Ip(a) => ip == *a,
            ClientSelector::Network { address, prefix_len } => ip_in_network(
                ip,
                *address,
                *prefix_len,
            ),
            ClientSelector::Name(n) => match name {
                Some(x) => {
                    let xs = crate::text::chars_of(x);
                    let ns = crate::text::chars_of(&**n);
                    eq_ignore_case(xs.as_slice(), ns.as_slice())
                },
                None => false,
            },
        }
    }
}

// ─── `$client=` scopes ────────────────────────────────────────────────────

#[derive(Debug, Clone, PartialEq, Eq)]
pub struct ScopeTerm {
    pub negated: bool,
    pub selector: ClientSelector,
}

/// A compiled `$client=` payload — a rule scoped to particular clients.
#[derive(Debug, Clone, PartialEq, Eq)]
pub struct ClientScope {
    /// The payload as written, for reconstruction and identity.
    pub raw: Box<str>,
    pub terms: Vec<ScopeTerm>,
    pub has_positive: bool,
}

/// One `|`-separated term of a scope payload: trimmed, with a leading `~`
/// meaning negation. `None` for an empty term (skipped), `Some(None)` for one
/// whose selector does not parse.
pub open spec fn scope_term(s: Seq<char>, piece: (int, int)) -> Option<Option<(bool, SelectorV)>> {
    let (a, b) = trim_bounds(s, piece.0, piece.1);
    if a >= b {
        None
    } else if s[a] == '~' {
        match spec_parse_selector(s.subrange(a + 1, b)) {
            Some(sel) => Some(Some((true, sel))),
            None => Some(None),
        }
    } else {
        match spec_parse_selector(s.subrange(a, b)) {
            Some(sel) => Some(Some((false, sel))),
            None => Some(None),
        }
    }
}

/// The terms of a payload given as piece bounds, or `None` when any term's
/// selector does not parse.
pub open spec fn scope_terms(s: Seq<char>, pieces: Seq<(int, int)>) -> Option<Seq<(bool, SelectorV)>>
    decreases pieces.len(),
{
    if pieces.len() == 0 {
        Some(Seq::empty())
    } else {
        match scope_terms(s, pieces.drop_last()) {
            None => None,
            Some(terms) => match scope_term(s, pieces.last()) {
                None => Some(terms),
                Some(None) => None,
                Some(Some(t)) => Some(terms.push(t)),
            },
        }
    }
}

/// What a `$client=` payload compiles to: its terms, or `None` when a term
/// does not parse or there is no term at all.
pub open spec fn spec_parse_scope(s: Seq<char>) -> Option<Seq<(bool, SelectorV)>> {
    match scope_terms(s, split_from(s, 0, '|')) {
        Some(terms) => if terms.len() == 0 {
            None
        } else {
            Some(terms)
        },
        None => None,
    }
}

/// Whether some term is positive (not negated).
pub open spec fn any_positive(terms: Seq<ScopeTerm>) -> bool {
    exists|i: int| 0 <= i < terms.len() && !#[trigger] terms[i].negated
}

proof fn lemma_any_positive_push(terms: Seq<ScopeTerm>, t: ScopeTerm)
    ensures
        any_positive(terms.push(t)) == (any_positive(terms) || !t.negated),
{
    let all = terms.push(t);
    if any_positive(terms) {
        let i = choose|i: int| 0 <= i < terms.len() && !#[trigger] terms[i].negated;
        assert(all[i] == terms[i]);
    }
    if !t.negated {
        assert(!all[terms.len() as int].negated);
    }
    if any_positive(all) {
        let i = choose|i: int| 0 <= i < all.len() && !#[trigger] all[i].negated;
        if i < terms.len() {
            assert(all[i] == terms[i]);
        }
    }
}

/// The scope's terms, as characters.
pub open spec fn terms_view(terms: Seq<ScopeTerm>) -> Seq<(bool, SelectorV)> {
    terms.map_values(|t: ScopeTerm| (t.negated, t.selector@))
}

/// Whether a term names this client. A client with no address matches only
/// name selectors.
pub open spec fn term_matches(
    term: (bool, SelectorV),
    ip: Option<IpAddr>,
    name: Option<Seq<char>>,
) -> bool {
    match term.1 {
        SelectorV::Name(_) => selector_matches(term.1, IpAddr::V4(0), name),
        _ => match ip {
            Some(ip) => selector_matches(term.1, ip, name),
            None => false,
        },
    }
}

/// Whether a rule scoped by `terms` applies to this client: no negated term
/// names it, and — when any term is positive — some positive term does.
pub open spec fn spec_admits(
    terms: Seq<(bool, SelectorV)>,
    ip: Option<IpAddr>,
    name: Option<Seq<char>>,
) -> bool {
    &&& forall|i: int| 0 <= i < terms.len() && #[trigger] terms[i].0 ==> !term_matches(terms[i], ip, name)
    &&& (exists|i: int| 0 <= i < terms.len() && !#[trigger] terms[i].0) ==> exists|i: int|
        0 <= i < terms.len() && !#[trigger] terms[i].0 && term_matches(terms[i], ip, name)
}

impl ClientScope {
    pub open spec fn wf(&self) -> bool {
        &&& spec_parse_scope(self.raw@) == Some(terms_view(self.terms@))
        &&& self.has_positive == any_positive(self.terms@)
    }

    /// Compiles `a|b|~c`. `None` when nothing in the payload parses, or when
    /// any term fails to — applying the rest would widen the rule.
    pub fn parse(raw: &str) -> (r: Option<ClientScope>)
        ensures
            match r {
                Some(scope) => scope.wf() && scope.raw@ == raw@,
                None => spec_parse_scope(raw@).is_none(),
            },
    {
        let v = crate::text::chars_of(raw);
        proof {
            assert(v@.subrange(0, v@.len() as int) =~= raw@);
        }
        Self::parse_chars(v.as_slice(), 0, v.len())
    }

    /// [`Self::parse`] of `v[from..to]`.
    pub fn parse_chars(v: &[char], from: usize, to: usize) -> (r: Option<ClientScope>)
        requires
            from <= to <= v.len(),
        ensures
            match r {
                Some(scope) => scope.wf() && scope.raw@ == v@.subrange(from as int, to as int),
                None => spec_parse_scope(v@.subrange(from as int, to as int)).is_none(),
            },
    {
        let w: Vec<char> = crate::text::copy_of(v, from, to);
        let ghost s = w@;
        let mut terms: Vec<ScopeTerm> = Vec::new();
        let mut has_positive = false;
        let ghost mut done: Seq<(int, int)> = Seq::empty();
        let mut at: usize = 0;
        proof {
            assert(w@.subrange(0, w@.len() as int) =~= s);
        }
        loop
            invariant
                at <= w.len(),
                from <= to <= v.len(),
                s == v@.subrange(from as int, to as int),
                s == w@,
                w@.subrange(0, w@.len() as int) == s,
                split_from(s, 0, '|') == done + split_from(s, at as int, '|'),
                scope_terms(s, done) == Some(terms_view(terms@)),
                has_positive == any_positive(terms@),
            decreases w.len() - at,
        {
            let e = piece_end(w.as_slice(), at, w.len(), '|');
            let ghost prev = done;
            proof {
                done = done.push((at as int, e as int));
                assert(done.drop_last() == prev);
                assert(done.last() == (at as int, e as int));
            }
            match term_at(w.as_slice(), at, e) {
                Err(()) => {
                    proof {
                        let rest = split_from(s, e + 1, '|');
                        lemma_scope_terms_none_sticks(s, done, rest, e as int, at as int);
                        if e >= w.len() {
                            assert(split_from(s, 0, '|') =~= done);
                            assert(done + Seq::<(int, int)>::empty() =~= done);
                            lemma_scope_terms_none_sticks(s, done, Seq::empty(), e as int, at as int);
                        } else {
                            assert(split_from(s, 0, '|') =~= done + rest);
                        }
                    }
                    return None;
                },
                Ok(None) => {},
                Ok(Some(term)) => {
                    let ghost pv = terms@;
                    let negated = term.negated;
                    has_positive = has_positive || !negated;
                    terms.push(term);
                    proof {
                        assert(terms_view(terms@) =~= terms_view(pv).push((term.negated, term.selector@)));
                        lemma_any_positive_push(pv, term);
                    }
                },
            }
            if e >= w.len() {
                proof {
                    assert(split_from(s, 0, '|') =~= done);
                }
                if terms.len() == 0 {
                    return None;
                }
                let raw = into_boxed_copy(&w);
                return Some(ClientScope { raw, terms, has_positive });
            }
            proof {
                assert(split_from(s, 0, '|') =~= done + split_from(s, e + 1, '|'));
            }
            at = e + 1;
        }
    }

    /// Whether a rule so scoped applies to this client — see [`spec_admits`].
    pub fn admits(&self, ip: Option<IpAddr>, name: Option<&str>) -> (b: bool)
        requires
            self.wf(),
        ensures
            b == spec_admits(terms_view(self.terms@), ip, opt_str_view(name)),
    {
        let ghost tv = terms_view(self.terms@);
        let mut i: usize = 0;
        while i < self.terms.len()
            invariant
                0 <= i <= self.terms.len(),
                tv == terms_view(self.terms@),
                forall|j: int| 0 <= j < i && #[trigger] tv[j].0 ==> !term_matches(tv[j], ip, opt_str_view(name)),
            decreases self.terms.len() - i,
        {
            let term = &self.terms[i];
            if term.negated && self.term_matches_exec(term, ip, name) {
                proof {
                    assert(tv[i as int].0);
                }
                return false;
            }
            i += 1;
        }
        if !self.has_positive {
            proof {
                assert forall|j: int| 0 <= j < tv.len() && !#[trigger] tv[j].0 implies false by {
                    assert(!self.terms@[j].negated);
                }
            }
            return true;
        }
        let mut i: usize = 0;
        while i < self.terms.len()
            invariant
                0 <= i <= self.terms.len(),
                tv == terms_view(self.terms@),
                forall|j: int| 0 <= j < tv.len() && #[trigger] tv[j].0 ==> !term_matches(tv[j], ip, opt_str_view(name)),
                forall|j: int| 0 <= j < i && !#[trigger] tv[j].0 ==> !term_matches(tv[j], ip, opt_str_view(name)),
            decreases self.terms.len() - i,
        {
            let term = &self.terms[i];
            if !term.negated && self.term_matches_exec(term, ip, name) {
                proof {
                    assert(!tv[i as int].0);
                }
                return true;
            }
            i += 1;
        }
        proof {
            let j = choose|j: int| 0 <= j < self.terms@.len() && !#[trigger] self.terms@[j].negated;
            assert(!tv[j].0);
        }
        false
    }

    fn term_matches_exec(&self, term: &ScopeTerm, ip: Option<IpAddr>, name: Option<&str>) -> (b: bool)
        ensures
            b == term_matches((term.negated, term.selector@), ip, opt_str_view(name)),
    {
        match &term.selector {
            ClientSelector::Name(_) => term.selector.matches(IpAddr::V4(0), name),
            _ => match ip {
                Some(ip) => term.selector.matches(ip, name),
                None => false,
            },
        }
    }
}

/// The term of `v[at..e]`: `Ok(None)` for an empty one, `Err(())` for one
/// whose selector does not parse.
fn term_at(v: &[char], at: usize, e: usize) -> (r: Result<Option<ScopeTerm>, ()>)
    requires
        at <= e <= v.len(),
    ensures
        match r {
            Err(()) => scope_term(v@, (at as int, e as int)) == Some(None::<(bool, SelectorV)>),
            Ok(None) => scope_term(v@, (at as int, e as int)).is_none(),
            Ok(Some(t)) => scope_term(v@, (at as int, e as int)) == Some(Some((t.negated, t.selector@))),
        },
{
    let (a, b) = trim_range(v, at, e);
    if a >= b {
        return Ok(None);
    }
    let negated = v[a] == '~';
    let start: usize = if negated {
        a + 1
    } else {
        a
    };
    match parse_selector(v, start, b) {
        None => Err(()),
        Some(selector) => Ok(Some(ScopeTerm { negated, selector })),
    }
}


pub proof fn lemma_scope_terms_none_sticks(
    s: Seq<char>,
    done: Seq<(int, int)>,
    rest: Seq<(int, int)>,
    e: int,
    at: int,
)
    requires
        scope_terms(s, done).is_none(),
    ensures
        scope_terms(s, done + rest).is_none(),
    decreases rest.len(),
{
    if rest.len() == 0 {
        assert(done + rest =~= done);
    } else {
        lemma_scope_terms_none_sticks(s, done, rest.drop_last(), e, at);
        assert((done + rest).drop_last() =~= done + rest.drop_last());
    }
}

fn into_boxed_copy(w: &Vec<char>) -> (b: Box<str>)
    ensures
        b@ == w@,
{
    crate::text::into_boxed(string_of(w.as_slice()))
}

} // verus!
