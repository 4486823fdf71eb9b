//! Domain-string normalization shared by every rule parser.

use vstd::prelude::*;

use crate::text::{
    char_is_alnum, chars_of, is_alnum, lower_seq, lowered_string_of_range, trim_bounds, trim_range,
};

verus! {

/// Longest name a rule may anchor to — the maximum length of a DNS name
/// (RFC 1035), and inside the `u8` length a compiled record addresses the
/// arena with.
pub const MAX_DOMAIN_LEN: usize = 253;

/// One past the last character of `s[from..to]` that is not a `'.'`.
pub open spec fn back_dots(s: Seq<char>, from: int, to: int) -> int
    decreases to - from,
{
    if to <= from || s[to - 1] != '.' {
        to
    } else {
        back_dots(s, from, to - 1)
    }
}

pub proof fn lemma_back_dots_bounds(s: Seq<char>, from: int, to: int)
    requires
        0 <= from <= to <= s.len(),
    ensures
        from <= back_dots(s, from, to) <= to,
        back_dots(s, from, to) > from ==> s[back_dots(s, from, to) - 1] != '.',
    decreases to - from,
{
    if to > from && s[to - 1] == '.' {
        lemma_back_dots_bounds(s, from, to - 1);
    }
}

/// A character a domain anchor may contain.
pub open spec fn is_domain_char(c: char) -> bool {
    is_alnum(c) || c == '-' || c == '.' || c == '_'
}

/// `candidate` trimmed of whitespace, then of trailing dots.
pub open spec fn domain_core_bounds(s: Seq<char>, from: int, to: int) -> (int, int) {
    let (a, b) = trim_bounds(s, from, to);
    (a, back_dots(s, a, b))
}

/// What `s[from..to]` normalizes to as a domain anchor: trimmed of
/// whitespace and trailing dots, non-empty, at most [`MAX_DOMAIN_LEN`] long,
/// made only of letters, digits, `-`, `.` and `_`, not starting with `-` or
/// `.` and not ending with `-` — and then lower-cased. `None` when any of that
/// fails.
///
/// Length is counted in characters: every accepted character is ASCII, so for
/// an accepted name that is also its length in bytes, and a name holding any
/// other character is refused whatever its length.
pub open spec fn normalized_domain(s: Seq<char>, from: int, to: int) -> Option<Seq<char>> {
    let (a, b) = domain_core_bounds(s, from, to);
    let core = s.subrange(a, b);
    if core.len() == 0 || core.len() > MAX_DOMAIN_LEN {
        None
    } else if exists|k: int| 0 <= k < core.len() && !is_domain_char(#[trigger] core[k]) {
        None
    } else if core[0] == '-' || core[0] == '.' || core[core.len() - 1] == '-' {
        None
    } else {
        Some(lower_seq(core))
    }
}

/// [`normalized_domain`] of the whole of `s`.
pub open spec fn spec_normalize_domain(s: Seq<char>) -> Option<Seq<char>> {
    normalized_domain(s, 0, s.len() as int)
}

/// Normalizes `v[from..to]` as a domain anchor — see [`normalized_domain`].
pub fn normalize_domain_range(v: &[char], from: usize, to: usize) -> (r: Option<String>)
    requires
        from <= to <= v.len(),
    ensures
        match r {
            Some(d) => normalized_domain(v@, from as int, to as int) == Some(d@),
            None => normalized_domain(v@, from as int, to as int).is_none(),
        },
{
    let (a, b0) = trim_range(v, from, to);
    let mut b: usize = b0;
    while b > a && v[b - 1] == '.'
        invariant
            from <= a <= b <= b0 <= to <= v.len(),
            back_dots(v@, a as int, b0 as int) == back_dots(v@, a as int, b as int),
        decreases b - a,
    {
        b -= 1;
    }
    proof {
        lemma_back_dots_bounds(v@, a as int, b0 as int);
        assert(domain_core_bounds(v@, from as int, to as int) == (a as int, b as int));
    }
    let ghost core = v@.subrange(a as int, b as int);
    if b == a || b - a > MAX_DOMAIN_LEN {
        return None;
    }
    let mut k: usize = a;
    while k < b
        invariant
            a <= k <= b <= v.len(),
            core == v@.subrange(a as int, b as int),
            domain_core_bounds(v@, from as int, to as int) == (a as int, b as int),
            0 < b - a <= MAX_DOMAIN_LEN,
            forall|j: int| 0 <= j < k - a ==> is_domain_char(#[trigger] core[j]),
        decreases b - k,
    {
        let c = v[k];
        if !(char_is_alnum(c) || c == '-' || c == '.' || c == '_') {
            proof {
                assert(!is_domain_char(core[k - a]));
            }
            return None;
        }
        k += 1;
    }
    proof {
        assert(core[0] == v@[a as int]);
        assert(core[core.len() - 1] == v@[b - 1]);
    }
    if v[a] == '-' || v[a] == '.' || v[b - 1] == '-' {
        return None;
    }
    Some(lowered_string_of_range(v, a, b))
}

/// Normalizes a candidate domain: trims, strips trailing dots, validates and
/// lower-cases it — see [`normalized_domain`].
pub fn normalize_domain(candidate: &str) -> (r: Option<String>)
    ensures
        match r {
            Some(d) => spec_normalize_domain(candidate@) == Some(d@),
            None => spec_normalize_domain(candidate@).is_none(),
        },
{
    let v = chars_of(candidate);
    normalize_domain_range(v.as_slice(), 0, v.len())
}

} // verus!
