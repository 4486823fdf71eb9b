//! The URL tier: request-level rules and the wildcard matcher they run on.
//!
//! A pattern is bytes with two metacharacters: `*` matches any run of bytes,
//! `^` one separator byte or the end of the URL. [`match_from`] is an
//! iterative two-pointer matcher with a single backtrack point and a work
//! allowance; it is proved against the recursive definition
//! [`matches_at`]: a match it reports is real, and a miss it reports is real
//! unless the allowance ran out.
//!
//! A lookup does not check every rule. Each rule is filed under one key its
//! pattern offers (see [`crate::url_keys`]): the rarest token key across the
//! compile, else the rarest window of its literal runs. A lookup checks the
//! rules filed under the keys the URL's tokens and windows carry, plus the
//! few that offer no key. [`UrlIndex::lookup_metered`] proves that this
//! reaches every rule that applies: with the allowance intact its decision
//! is of the kind a full scan's is.

use std::collections::HashMap;
use std::sync::atomic::{AtomicU64, Ordering};
use vstd::prelude::*;
use vstd::string::StringSliceAdditionalSpecFns;

use crate::resource::{bit_for_request, spec_request_bit, ResourceType};
use crate::rule::{Party, RuleAction, UrlAnchor, UrlRule, UrlRuleV};
use crate::matcher::join_options;
use crate::url_keys::{
    bloom_has, bloom_slot, hash_range, index_keys, lemma_set_bit, lemma_token_key_probed,
    lemma_window_found, ngram_hash, ngram_keys, window_word, offered_hash, probe_at, range_hash, spec_ngram_hash, token_key_of,
    token_run, word_at, windowed, keys_from, words_from, key_at, window_ok, run_end, key_range, key_hash, KeyKind, MIN_TOKEN_LEN,
};
use crate::text::{
    chars_of, push_chars, push_str, string_of, eq_ignore_case, split_from, lower_char, lower_seq, string_of_range, to_lower_char,
};

verus! {

/// `*`: any run of bytes.
pub const STAR: u8 = 42;

/// `^`: one separator byte, or the end of the URL.
pub const CARET: u8 = 94;

// ─── Bytes ────────────────────────────────────────────────────────────────

pub open spec fn is_alnum_byte(b: u8) -> bool {
    (48 <= b && b <= 57) || (65 <= b && b <= 90) || (97 <= b && b <= 122)
}

/// A URL/pattern token byte: ASCII letters and digits, `_`, `%`.
pub open spec fn spec_is_token_byte(b: u8) -> bool {
    is_alnum_byte(b) || b == 95 || b == 37
}

/// What `^` matches: anything but an ASCII letter or digit, `_`, `-`, `.`,
/// `%`.
pub open spec fn spec_is_separator(b: u8) -> bool {
    !(is_alnum_byte(b) || b == 95 || b == 45 || b == 46 || b == 37)
}

/// ASCII lower-casing of a byte.
pub open spec fn fold_byte(b: u8) -> u8 {
    if 65 <= b && b <= 90 {
        (b + 32) as u8
    } else {
        b
    }
}

/// A pattern byte against a text byte: exactly under `$match-case`, else
/// against the lower-cased text byte.
pub open spec fn byte_ok(pb: u8, tb: u8, match_case: bool) -> bool {
    if match_case {
        pb == tb
    } else {
        pb == fold_byte(tb)
    }
}

pub fn is_token_byte(b: u8) -> (r: bool)
    ensures
        r == spec_is_token_byte(b),
{
    (48 <= b && b <= 57) || (65 <= b && b <= 90) || (97 <= b && b <= 122) || b == 95 || b == 37
}

pub fn is_separator(b: u8) -> (r: bool)
    ensures
        r == spec_is_separator(b),
{
    !((48 <= b && b <= 57) || (65 <= b && b <= 90) || (97 <= b && b <= 122) || b == 95 || b
        == 45 || b == 46 || b == 37)
}

fn byte_matches(pb: u8, tb: u8, match_case: bool) -> (r: bool)
    ensures
        r == byte_ok(pb, tb, match_case),
{
    if match_case {
        pb == tb
    } else {
        let folded: u8 = if 65 <= tb && tb <= 90 {
            tb + 32
        } else {
            tb
        };
        pb == folded
    }
}

// ─── What a pattern matches ───────────────────────────────────────────────

/// Where one non-`*` element at `pat[p]` leaves the text position `t`, if it
/// matches there: a literal consumes one matching byte; `^` one separator,
/// or nothing at the end of the text.
pub open spec fn step(pat: Seq<u8>, p: int, text: Seq<u8>, t: int, mc: bool) -> Option<int> {
    if pat[p] == CARET {
        if t == text.len() {
            Some(t)
        } else if 0 <= t < text.len() && spec_is_separator(text[t]) {
            Some(t + 1)
        } else {
            None
        }
    } else if 0 <= t < text.len() && byte_ok(pat[p], text[t], mc) {
        Some(t + 1)
    } else {
        None
    }
}

/// `pat[p..]` matches the text from position `t`: to its end when
/// `end_anchored`, else any prefix of what is left.
pub open spec fn matches_at(
    pat: Seq<u8>,
    p: int,
    text: Seq<u8>,
    t: int,
    end_anchored: bool,
    mc: bool,
) -> bool
    decreases pat.len() - p, text.len() + 2 - t,
{
    if p < 0 || p > pat.len() || t < 0 || t > text.len() {
        false
    } else if p == pat.len() {
        !end_anchored || t == text.len()
    } else if pat[p] == STAR {
        star_from(pat, p + 1, text, t, end_anchored, mc)
    } else {
        match step(pat, p, text, t, mc) {
            Some(q) => matches_at(pat, p + 1, text, q, end_anchored, mc),
            None => false,
        }
    }
}

/// `pat[a..]` matches from some position `k` or later: what a `*` just
/// before `a` allows.
pub open spec fn star_from(
    pat: Seq<u8>,
    a: int,
    text: Seq<u8>,
    k: int,
    end_anchored: bool,
    mc: bool,
) -> bool
    decreases pat.len() - a + 1, text.len() + 1 - k,
{
    if a < 1 || a > pat.len() || k < 0 || k > text.len() {
        false
    } else {
        matches_at(pat, a, text, k, end_anchored, mc) || (k < text.len() && star_from(
            pat,
            a,
            text,
            k + 1,
            end_anchored,
            mc,
        ))
    }
}

/// No `*` in `pat[a..p]`.
pub open spec fn star_free(pat: Seq<u8>, a: int, p: int) -> bool {
    forall|i: int| a <= i < p ==> pat[i] != STAR
}

/// The rule offers a token key: a run of token bytes the index can file it
/// under.
pub open spec fn offers_token_key(r: RecordV) -> bool {
    keys_from(r.pattern, r.anchor, r.end_anchored, 0).len() > 0
}

/// The rule offers a window: three bytes of a literal run, free of `*` and
/// `^`.
pub open spec fn offers_window(r: RecordV) -> bool {
    words_from(r.pattern, 0).len() > 0
}

proof fn lemma_run_tokens(p: Seq<u8>, a: int, k: int)
    requires
        0 <= a <= k < run_end(p, a),
    ensures
        spec_is_token_byte(p[k]),
    decreases k - a,
{
    if k > a {
        lemma_run_tokens(p, a + 1, k);
    }
}

proof fn lemma_key_gives_window(p: Seq<u8>, anchor: UrlAnchor, ea: bool, a: int)
    requires
        0 <= a,
        keys_from(p, anchor, ea, a).len() > 0,
    ensures
        words_from(p, a).len() > 0,
    decreases p.len() - a,
{
    if a < p.len() {
        if key_at(p, anchor, ea, a).len() > 0 {
            lemma_run_end_bounds(p, a);
            assert forall|k: int| a <= k < a + 3 implies #[trigger] p[k] != STAR && p[k] != CARET by {
                lemma_run_tokens(p, a, k);
            }
            assert(window_ok(p, a));
        } else {
            lemma_key_gives_window(p, anchor, ea, a + 1);
        }
    }
}

/// A rule that offers a token key offers a window too: a token of three or
/// more bytes is a literal run. So, while the n-gram tier has room, the
/// rules checked on every lookup are exactly those with no literal run of
/// three bytes.
pub proof fn lemma_token_key_gives_window(r: RecordV)
    ensures
        offers_token_key(r) ==> offers_window(r),
{
    if offers_token_key(r) {
        lemma_key_gives_window(r.pattern, r.anchor, r.end_anchored, 0);
    }
}

/// What [`match_from`] may charge for one attempt from `start`: one unit for
/// a pattern without `*`, else one for every position a `*` may widen to.
pub open spec fn match_cost(pat: Seq<u8>, text_len: int, start: int) -> int {
    if star_free(pat, 0, pat.len() as int) {
        1
    } else {
        1 + text_len - start
    }
}

/// What the byte search stops at for pattern byte `b`: the byte itself, or
/// either case of a lower-case letter when case is folded.
pub open spec fn spec_hit(b: u8, tb: u8, mc: bool) -> bool {
    if !mc && 97 <= b && b <= 122 {
        tb == b || tb == b - 32
    } else {
        tb == b
    }
}

/// The first position at or after `from` where the byte search for `b`
/// stops.
pub open spec fn first_ok(text: Seq<u8>, from: int, b: u8, mc: bool) -> Option<int>
    decreases text.len() - from,
{
    if from < 0 || from >= text.len() {
        None
    } else if spec_hit(b, text[from], mc) {
        Some(from)
    } else {
        first_ok(text, from + 1, b, mc)
    }
}

proof fn lemma_first_ok(text: Seq<u8>, from: int, b: u8, mc: bool, r: Option<int>)
    requires
        0 <= from <= text.len(),
        match r {
            Some(at) => from <= at < text.len() && spec_hit(b, text[at], mc) && forall|j: int|
                from <= j < at ==> !spec_hit(b, #[trigger] text[j], mc),
            None => forall|j: int| from <= j < text.len() ==> !spec_hit(b, #[trigger] text[j], mc),
        },
    ensures
        first_ok(text, from, b, mc) == r,
    decreases text.len() - from,
{
    if from < text.len() {
        match r {
            Some(at) => {
                if at > from {
                    assert(!spec_hit(b, text[from], mc));
                    lemma_first_ok(text, from + 1, b, mc, r);
                }
            },
            None => {
                assert(!spec_hit(b, text[from], mc));
                lemma_first_ok(text, from + 1, b, mc, r);
            },
        }
    }
}

/// A first match lies in the text, at or after where the search began.
pub proof fn lemma_first_ok_bounds(text: Seq<u8>, from: int, b: u8, mc: bool)
    ensures
        first_ok(text, from, b, mc) matches Some(at) ==> from <= at < text.len(),
    decreases text.len() - from,
{
    if 0 <= from < text.len() && !spec_hit(b, text[from], mc) {
        lemma_first_ok_bounds(text, from + 1, b, mc);
    }
}

/// The position a `*` last widened to, or where the attempt began.
pub open spec fn tried_from(star: Option<(int, int)>, lo: int) -> int {
    match star {
        Some(s) => s.1,
        None => lo,
    }
}

/// How many times [`match_from`]'s walk widens a `*` from state `(p, t)`,
/// `star` holding the element after the last `*` and the position it
/// reached, until the walk decides. A widening moves to the next position
/// where the element after the `*` can match, or gives up when there is
/// none.
pub open spec fn widenings(
    pat: Seq<u8>,
    text: Seq<u8>,
    p: int,
    t: int,
    star: Option<(int, int)>,
    lo: int,
    ea: bool,
    mc: bool,
) -> nat
    decreases text.len() - tried_from(star, lo), pat.len() - p + text.len() - t,
{
    let tr = tried_from(star, lo);
    if !(0 <= p <= pat.len() && 0 <= tr <= t <= text.len()) {
        0
    } else if p == pat.len() && (!ea || t == text.len()) {
        0
    } else if p < pat.len() && pat[p] == STAR {
        widenings(pat, text, p + 1, t, Some((p + 1, t)), lo, ea, mc)
    } else if p < pat.len() && step(pat, p, text, t, mc) is Some {
        widenings(pat, text, p + 1, step(pat, p, text, t, mc)->0, star, lo, ea, mc)
    } else {
        match star {
            None => 0,
            Some(s) => if s.1 < text.len() {
                1 + if s.0 < pat.len() && pat[s.0] != STAR && pat[s.0] != CARET {
                    match first_ok(text, s.1 + 1, pat[s.0], mc) {
                        Some(at) => {
                            proof {
                                lemma_first_ok_bounds(text, s.1 + 1, pat[s.0], mc);
                            }
                            widenings(pat, text, s.0, at, Some((s.0, at)), lo, ea, mc)
                        },
                        None => 0,
                    }
                } else {
                    widenings(pat, text, s.0, s.1 + 1, Some((s.0, s.1 + 1)), lo, ea, mc)
                }
            } else {
                0
            },
        }
    }
}

/// The units [`match_from`] charges for an attempt from `start` when the
/// allowance does not run out: one to enter, one per widening.
pub open spec fn mf_need(pat: Seq<u8>, text: Seq<u8>, start: int, ea: bool, mc: bool) -> nat {
    1 + widenings(pat, text, 0, start, None, start, ea, mc)
}

/// The exec star state as values.
pub open spec fn star_view(star: Option<(usize, usize)>) -> Option<(int, int)> {
    match star {
        Some(s) => Some((s.0 as int, s.1 as int)),
        None => None,
    }
}

/// Where the `*`-free run `pat[a..p]` leaves position `k`, if it matches.
pub open spec fn seg_pos(pat: Seq<u8>, a: int, p: int, text: Seq<u8>, k: int, mc: bool) -> Option<
    int,
>
    decreases p - a,
{
    if p <= a {
        Some(k)
    } else {
        match seg_pos(pat, a, p - 1, text, k, mc) {
            Some(q) => step(pat, p - 1, text, q, mc),
            None => None,
        }
    }
}

/// A `*`-free run matches deterministically: the pattern from `a` matches
/// at `k` exactly when the run gets through and the rest matches after it.
proof fn lemma_seg(
    pat: Seq<u8>,
    a: int,
    p: int,
    text: Seq<u8>,
    k: int,
    ea: bool,
    mc: bool,
)
    requires
        0 <= a <= p <= pat.len(),
        0 <= k <= text.len(),
        star_free(pat, a, p),
    ensures
        match seg_pos(pat, a, p, text, k, mc) {
            Some(q) => k <= q <= text.len() && matches_at(pat, a, text, k, ea, mc) == matches_at(
                pat,
                p,
                text,
                q,
                ea,
                mc,
            ),
            None => !matches_at(pat, a, text, k, ea, mc),
        },
    decreases p - a,
{
    if p > a {
        lemma_seg(pat, a, p - 1, text, k, ea, mc);
        match seg_pos(pat, a, p - 1, text, k, mc) {
            Some(q) => {
                assert(pat[p - 1] != STAR);
            },
            None => {},
        }
    }
}

/// From a later start, a `*`-free run ends no earlier.
proof fn lemma_seg_monotone(
    pat: Seq<u8>,
    a: int,
    p: int,
    text: Seq<u8>,
    k1: int,
    k2: int,
    mc: bool,
)
    requires
        0 <= a <= p <= pat.len(),
        0 <= k1 <= k2 <= text.len(),
        seg_pos(pat, a, p, text, k1, mc) is Some,
        seg_pos(pat, a, p, text, k2, mc) is Some,
    ensures
        seg_pos(pat, a, p, text, k1, mc).unwrap() <= seg_pos(pat, a, p, text, k2, mc).unwrap(),
    decreases p - a,
{
    if p > a {
        lemma_seg_monotone(pat, a, p - 1, text, k1, k2, mc);
    }
}

/// A match at `k` is a match from any `y <= k` on.
proof fn lemma_star_intro(
    pat: Seq<u8>,
    a: int,
    text: Seq<u8>,
    y: int,
    k: int,
    ea: bool,
    mc: bool,
)
    requires
        1 <= a <= pat.len(),
        0 <= y <= k <= text.len(),
        matches_at(pat, a, text, k, ea, mc),
    ensures
        star_from(pat, a, text, y, ea, mc),
    decreases k - y,
{
    if y < k {
        lemma_star_intro(pat, a, text, y + 1, k, ea, mc);
    }
}

/// A match from `k` on has a witness at some `j >= k`.
pub proof fn lemma_star_witness(pat: Seq<u8>, a: int, text: Seq<u8>, k: int, ea: bool, mc: bool) -> (j:
    int)
    requires
        star_from(pat, a, text, k, ea, mc),
    ensures
        1 <= a <= pat.len(),
        0 <= k <= j <= text.len(),
        matches_at(pat, a, text, j, ea, mc),
    decreases text.len() + 1 - k,
{
    if matches_at(pat, a, text, k, ea, mc) {
        k
    } else {
        lemma_star_witness(pat, a, text, k + 1, ea, mc)
    }
}

// ─── The work allowance ───────────────────────────────────────────────────

/// Backstop allowance for a whole lookup.
pub const LOOKUP_STEP_CAP: usize = 8_000_000;

/// What one rule may spend against a URL of `url_len` bytes: two attempted
/// positions per byte, plus a little.
pub open spec fn spec_rule_step_cap(url_len: usize) -> usize {
    let doubled = if url_len <= usize::MAX / 2 {
        2 * url_len
    } else {
        usize::MAX as int
    };
    if doubled <= usize::MAX - 64 {
        (doubled + 64) as usize
    } else {
        usize::MAX
    }
}

pub fn rule_step_cap(url_len: usize) -> (r: usize)
    ensures
        r == spec_rule_step_cap(url_len),
{
    let doubled: usize = match url_len.checked_mul(2) {
        Some(d) => d,
        None => usize::MAX,
    };
    doubled.saturating_add(64)
}

/// The work allowance of one lookup, and whether it ever ran out.
pub struct Budget {
    pub remaining: usize,
    pub floor: usize,
    pub exhausted: bool,
}

impl Budget {
    pub fn new() -> (b: Budget)
        ensures
            b.remaining == LOOKUP_STEP_CAP,
            b.floor == 0,
            !b.exhausted,
    {
        Budget { remaining: LOOKUP_STEP_CAP, floor: 0, exhausted: false }
    }

    /// Re-arms the per-rule allowance before a rule is matched.
    pub fn open(&mut self, url_len: usize)
        ensures
            final(self).remaining == old(self).remaining,
            final(self).exhausted == old(self).exhausted,
            final(self).floor == if old(self).remaining >= spec_rule_step_cap(url_len) {
                old(self).remaining - spec_rule_step_cap(url_len)
            } else {
                0
            },
    {
        self.floor = self.remaining.saturating_sub(rule_step_cap(url_len));
    }

    /// Charges one attempted match position; `false` once the allowance is
    /// gone, which is remembered.
    pub fn spend(&mut self) -> (ok: bool)
        ensures
            ok == (old(self).remaining > old(self).floor),
            final(self).floor == old(self).floor,
            ok ==> final(self).remaining == old(self).remaining - 1 && final(self).exhausted
                == old(self).exhausted,
            !ok ==> final(self).remaining == old(self).remaining && final(self).exhausted,
    {
        if self.remaining <= self.floor {
            self.exhausted = true;
            return false;
        }
        self.remaining -= 1;
        true
    }
}

// ─── Matching ─────────────────────────────────────────────────────────────

/// `memchr::memchr` on `haystack[from..]`: the offset of the first `needle`
/// there, as the crate documents.
#[verifier::external_body]
fn memchr_from(needle: u8, haystack: &[u8], from: usize) -> (r: Option<usize>)
    requires
        from <= haystack.len(),
    ensures
        match r {
            Some(i) => from + i < haystack.len() && haystack@[from + i] == needle && forall|j: int|
                from <= j < from + i ==> haystack@[j] != needle,
            None => forall|j: int| from <= j < haystack.len() ==> haystack@[j] != needle,
        },
{
    memchr::memchr(needle, &haystack[from..])
}

/// `memchr::memchr2` on `haystack[from..]`: the offset of the first byte
/// equal to either needle there, as the crate documents.
#[verifier::external_body]
fn memchr2_from(needle1: u8, needle2: u8, haystack: &[u8], from: usize) -> (r: Option<usize>)
    requires
        from <= haystack.len(),
    ensures
        match r {
            Some(i) => from + i < haystack.len() && (haystack@[from + i] == needle1 || haystack@[from
                + i] == needle2) && forall|j: int|
                from <= j < from + i ==> haystack@[j] != needle1 && haystack@[j] != needle2,
            None => forall|j: int|
                from <= j < haystack.len() ==> haystack@[j] != needle1 && haystack@[j] != needle2,
        },
{
    memchr::memchr2(needle1, needle2, &haystack[from..])
}

/// The first position at or after `from` where a literal pattern byte could
/// match; every position skipped cannot.
fn find_byte(text: &[u8], from: usize, pattern_byte: u8, match_case: bool) -> (r: Option<usize>)
    requires
        from <= text.len(),
    ensures
        match r {
            Some(at) => from <= at < text.len() && forall|j: int|
                from <= j < at ==> !byte_ok(pattern_byte, #[trigger] text@[j], match_case),
            None => forall|j: int|
                from <= j < text.len() ==> !byte_ok(pattern_byte, #[trigger] text@[j], match_case),
        },
        match r {
            Some(at) => spec_hit(pattern_byte, text@[at as int], match_case) && forall|j: int|
                from <= j < at ==> !spec_hit(pattern_byte, #[trigger] text@[j], match_case),
            None => forall|j: int|
                from <= j < text.len() ==> !spec_hit(pattern_byte, #[trigger] text@[j], match_case),
        },
{
    let found = if !match_case && 97 <= pattern_byte && pattern_byte <= 122 {
        memchr2_from(pattern_byte, pattern_byte - 32, text, from)
    } else {
        memchr_from(pattern_byte, text, from)
    };
    match found {
        Some(offset) => Some(from + offset),
        None => None,
    }
}

/// Matches `pattern` against `text` from `start`. Entering costs one unit of
/// the allowance, and so does each widening of a `*`; when the allowance is
/// gone the answer is "no match" and the budget says so.
#[verifier::rlimit(80)]
pub fn match_from(
    pattern: &[u8],
    text: &[u8],
    start: usize,
    end_anchored: bool,
    match_case: bool,
    budget: &mut Budget,
) -> (r: bool)
    requires
        start <= text.len(),
    ensures
        r ==> matches_at(pattern@, 0, text@, start as int, end_anchored, match_case),
        !r ==> (!matches_at(pattern@, 0, text@, start as int, end_anchored, match_case)
            || final(budget).exhausted),
        old(budget).exhausted ==> final(budget).exhausted,
        final(budget).floor == old(budget).floor,
        final(budget).remaining <= old(budget).remaining,
        old(budget).remaining - final(budget).remaining <= 1 + text.len() - start,
        old(budget).remaining - final(budget).remaining <= match_cost(pattern@, text.len() as int, start as int),
        old(budget).remaining - old(budget).floor >= match_cost(pattern@, text.len() as int, start as int)
            ==> final(budget).exhausted == old(budget).exhausted && r == matches_at(
            pattern@,
            0,
            text@,
            start as int,
            end_anchored,
            match_case,
        ),
        mf_need(pattern@, text@, start as int, end_anchored, match_case) <= old(budget).remaining
            - old(budget).floor ==> r == matches_at(pattern@, 0, text@, start as int, end_anchored, match_case)
            && final(budget).exhausted == old(budget).exhausted && old(budget).remaining
            - final(budget).remaining == mf_need(pattern@, text@, start as int, end_anchored, match_case),
        mf_need(pattern@, text@, start as int, end_anchored, match_case) > old(budget).remaining
            - old(budget).floor ==> !r && final(budget).exhausted && final(budget).remaining == if old(
            budget).remaining > old(budget).floor {
            old(budget).floor
        } else {
            old(budget).remaining
        },
        old(budget).remaining <= old(budget).floor ==> !r && final(budget).exhausted
            && final(budget).remaining == old(budget).remaining,
{
    let ghost cost: int = match_cost(pattern@, text.len() as int, start as int);
    let ghost ample: bool = old(budget).remaining - old(budget).floor >= cost;
    let ghost need: int = mf_need(pattern@, text@, start as int, end_anchored, match_case) as int;
    if !budget.spend() {
        return false;
    }
    let ghost pat = pattern@;
    let ghost txt = text@;
    let ghost goal = matches_at(pat, 0, txt, start as int, end_anchored, match_case);
    let mut p: usize = 0;
    let mut t: usize = start;
    let mut star: Option<(usize, usize)> = None;
    let ghost mut a: int = 0;
    let ghost mut tr: int = start as int;
    loop
        invariant
            pat == pattern@,
            txt == text@,
            goal == matches_at(pat, 0, txt, start as int, end_anchored, match_case),
            start <= text.len(),
            0 <= a <= p <= pattern.len(),
            0 <= tr <= t <= text.len(),
            star_free(pat, a, p as int),
            seg_pos(pat, a, p as int, txt, tr, match_case) == Some(t as int),
            star is None ==> a == 0 && tr == start,
            star matches Some(s) ==> s.0 == a && s.1 == tr && 1 <= a && pat[a - 1] == STAR && (goal
                <==> star_from(pat, a, txt, tr, end_anchored, match_case)),
            old(budget).exhausted ==> budget.exhausted,
            budget.floor == old(budget).floor,
            budget.remaining <= old(budget).remaining,
            old(budget).remaining - budget.remaining <= 1 + tr - start,
            star is None ==> old(budget).remaining - budget.remaining <= 1,
            star_free(pat, 0, pat.len() as int) ==> star is None,
            cost == match_cost(pat, text.len() as int, start as int),
            ample == (old(budget).remaining - old(budget).floor >= cost),
            budget.exhausted == old(budget).exhausted,
            budget.remaining >= budget.floor,
            need == mf_need(pat, txt, start as int, end_anchored, match_case),
            old(budget).remaining - budget.remaining + widenings(
                pat,
                txt,
                p as int,
                t as int,
                star_view(star),
                start as int,
                end_anchored,
                match_case,
            ) == need,
            star matches Some(s) ==> s.0 <= pattern.len() && s.1 <= text.len(),
        decreases text.len() - tr, pattern.len() - p + text.len() - t,
    {
        proof {
            lemma_seg(pat, a, p as int, txt, tr, end_anchored, match_case);
        }
        if p == pattern.len() {
            if !end_anchored || t == text.len() {
                proof {
                    if star.is_some() {
                        lemma_star_intro(pat, a, txt, tr, tr, end_anchored, match_case);
                    }
                }
                return true;
            }
        } else {
            let pb = pattern[p];
            if pb == STAR {
                proof {
                    let sp = p as int;
                    if star.is_some() {
                        if goal {
                            let j = lemma_star_witness(pat, a, txt, tr, end_anchored, match_case);
                            lemma_seg(pat, a, sp, txt, j, end_anchored, match_case);
                            lemma_seg_monotone(pat, a, sp, txt, tr, j, match_case);
                            let q = seg_pos(pat, a, sp, txt, j, match_case).unwrap();
                            assert(star_from(pat, sp + 1, txt, q, end_anchored, match_case));
                            if t < q {
                                let w = lemma_star_witness(
                                    pat,
                                    sp + 1,
                                    txt,
                                    q,
                                    end_anchored,
                                    match_case,
                                );
                                lemma_star_intro(pat, sp + 1, txt, t as int, w, end_anchored, match_case);
                            }
                        }
                        if star_from(pat, sp + 1, txt, t as int, end_anchored, match_case) {
                            lemma_star_intro(pat, a, txt, tr, tr, end_anchored, match_case);
                        }
                    }
                    a = sp + 1;
                    tr = t as int;
                    assert(seg_pos(pat, a, sp + 1, txt, tr, match_case) == Some(t as int));
                }
                star = Some((p + 1, t));
                p += 1;
                continue;
            }
            if pb == CARET {
                if t == text.len() {
                    proof {
                        assert(step(pat, p as int, txt, t as int, match_case) == Some(t as int));
                    }
                    p += 1;
                    continue;
                }
                if is_separator(text[t]) {
                    proof {
                        assert(step(pat, p as int, txt, t as int, match_case) == Some(t + 1));
                    }
                    p += 1;
                    t += 1;
                    continue;
                }
            } else if t < text.len() && byte_matches(pb, text[t], match_case) {
                proof {
                    assert(step(pat, p as int, txt, t as int, match_case) == Some(t + 1));
                }
                p += 1;
                t += 1;
                continue;
            }
        }
        // Mismatch here, so the attempt from `tr` fails.
        proof {
            assert(!matches_at(pat, p as int, txt, t as int, end_anchored, match_case));
            assert(!matches_at(pat, a, txt, tr, end_anchored, match_case));
        }
        match star {
            Some((after, tried)) => {
                if tried < text.len() && budget.spend() {
                    let mut next = tried + 1;
                    if after < pattern.len() && pattern[after] != STAR && pattern[after] != CARET {
                        let literal = pattern[after];
                        let found = find_byte(text, next, literal, match_case);
                        proof {
                            lemma_first_ok(txt, next as int, literal, match_case, match found {
                                Some(at) => Some(at as int),
                                None => None,
                            });
                        }
                        match found {
                            Some(at) => {
                                proof {
                                    if goal {
                                        let j = lemma_star_witness(
                                            pat,
                                            a,
                                            txt,
                                            tr,
                                            end_anchored,
                                            match_case,
                                        );
                                        assert(j != tr);
                                        if j < at {
                                            assert(!byte_ok(literal, txt[j], match_case));
                                            assert(step(pat, a, txt, j, match_case) is None);
                                        }
                                        lemma_star_intro(pat, a, txt, at as int, j, end_anchored, match_case);
                                    }
                                    if star_from(pat, a, txt, at as int, end_anchored, match_case) {
                                        let j = lemma_star_witness(
                                            pat,
                                            a,
                                            txt,
                                            at as int,
                                            end_anchored,
                                            match_case,
                                        );
                                        lemma_star_intro(pat, a, txt, tr, j, end_anchored, match_case);
                                    }
                                }
                                next = at;
                            },
                            None => {
                                proof {
                                    if goal {
                                        let j = lemma_star_witness(
                                            pat,
                                            a,
                                            txt,
                                            tr,
                                            end_anchored,
                                            match_case,
                                        );
                                        assert(j != tr);
                                        if j < text.len() {
                                            assert(!byte_ok(literal, txt[j], match_case));
                                        }
                                        assert(step(pat, a, txt, j, match_case) is None);
                                    }
                                }
                                return false;
                            },
                        }
                    } else {
                        proof {
                            if goal {
                                let j = lemma_star_witness(
                                    pat,
                                    a,
                                    txt,
                                    tr,
                                    end_anchored,
                                    match_case,
                                );
                                lemma_star_intro(pat, a, txt, tr + 1, j, end_anchored, match_case);
                            }
                            if star_from(pat, a, txt, tr + 1, end_anchored, match_case) {
                                let j = lemma_star_witness(
                                    pat,
                                    a,
                                    txt,
                                    tr + 1,
                                    end_anchored,
                                    match_case,
                                );
                                lemma_star_intro(pat, a, txt, tr, j, end_anchored, match_case);
                            }
                        }
                    }
                    proof {
                        tr = next as int;
                    }
                    star = Some((after, next));
                    p = after;
                    t = next;
                } else {
                    proof {
                        if tried >= text.len() && goal {
                            let j = lemma_star_witness(pat, a, txt, tr, end_anchored, match_case);
                        }
                    }
                    return false;
                }
            },
            None => {
                return false;
            },
        }
    }
}

// ─── Where the host sits ──────────────────────────────────────────────────

/// `://` at `i`.
pub open spec fn scheme_sep_at(u: Seq<u8>, i: int) -> bool {
    0 <= i && i + 3 <= u.len() && u[i] == 58 && u[i + 1] == 47 && u[i + 2] == 47
}

/// The first `://` at or after `i`.
pub open spec fn scheme_sep_from(u: Seq<u8>, i: int) -> Option<int>
    decreases u.len() - i,
{
    if i < 0 || i + 3 > u.len() {
        None
    } else if scheme_sep_at(u, i) {
        Some(i)
    } else {
        scheme_sep_from(u, i + 1)
    }
}

/// `/`, `?` or `#`: where the authority ends.
pub open spec fn ends_authority(b: u8) -> bool {
    b == 47 || b == 63 || b == 35
}

/// The first byte ending the authority at or after `j`, or the length.
pub open spec fn authority_end_from(u: Seq<u8>, j: int) -> int
    decreases u.len() - j,
{
    if j < 0 || j >= u.len() {
        u.len() as int
    } else if ends_authority(u[j]) {
        j
    } else {
        authority_end_from(u, j + 1)
    }
}

/// Where the host starts: after the first `://`, or at 0 with no scheme.
pub open spec fn spec_host_start(u: Seq<u8>) -> int {
    match scheme_sep_from(u, 0) {
        Some(i) => i + 3,
        None => 0,
    }
}

/// Where the host ends: at the first `/`, `?` or `#` after its start.
pub open spec fn spec_host_end(u: Seq<u8>) -> int {
    authority_end_from(u, spec_host_start(u))
}

proof fn lemma_authority_end_bounds(u: Seq<u8>, j: int)
    requires
        0 <= j <= u.len(),
    ensures
        j <= authority_end_from(u, j) <= u.len(),
    decreases u.len() - j,
{
    if j < u.len() && !ends_authority(u[j]) {
        lemma_authority_end_bounds(u, j + 1);
    }
}

proof fn lemma_scheme_sep_bounds(u: Seq<u8>, i: int)
    requires
        0 <= i,
    ensures
        scheme_sep_from(u, i) matches Some(k) ==> i <= k && k + 3 <= u.len(),
    decreases u.len() - i,
{
    if i + 3 <= u.len() && !scheme_sep_at(u, i) {
        lemma_scheme_sep_bounds(u, i + 1);
    }
}

/// Where the host sits inside an absolute URL; the whole string up to the
/// path when there is no scheme.
pub fn host_span(url: &[u8]) -> (r: (usize, usize))
    ensures
        r.0 == spec_host_start(url@),
        r.1 == spec_host_end(url@),
        r.0 <= r.1 <= url.len(),
{
    let mut i: usize = 0;
    while url.len() >= 3 && i <= url.len() - 3 && !(url[i] == 58 && url[i + 1] == 47 && url[i
        + 2] == 47)
        invariant
            i <= url.len(),
            scheme_sep_from(url@, 0) == scheme_sep_from(url@, i as int),
        decreases url.len() - i,
    {
        i += 1;
    }
    let start: usize = if url.len() >= 3 && i <= url.len() - 3 {
        i + 3
    } else {
        0
    };
    proof {
        lemma_scheme_sep_bounds(url@, 0);
    }
    assert(start == spec_host_start(url@));
    let mut end: usize = start;
    while end < url.len() && !(url[end] == 47 || url[end] == 63 || url[end] == 35)
        invariant
            start <= end <= url.len(),
            authority_end_from(url@, start as int) == authority_end_from(url@, end as int),
        decreases url.len() - end,
    {
        end += 1;
    }
    proof {
        lemma_authority_end_bounds(url@, start as int);
    }
    (start, end)
}

// ─── Hosts ────────────────────────────────────────────────────────────────

/// Whether `a[from..from + b.len()]` equals `b` ignoring ASCII case.
fn eq_ci_at(a: &[char], from: usize, b: &[char]) -> (r: bool)
    requires
        from <= a.len(),
        b.len() <= a.len() - from,
    ensures
        r == (lower_seq(a@.subrange(from as int, from + b.len())) == lower_seq(b@)),
{
    let ghost x = a@.subrange(from as int, from + b.len());
    let mut k: usize = 0;
    while k < b.len()
        invariant
            from <= a.len(),
            b.len() <= a.len() - from,
            x == a@.subrange(from as int, from + b.len()),
            k <= b.len(),
            forall|j: int| 0 <= j < k ==> lower_char(x[j]) == lower_char(b@[j]),
        decreases b.len() - k,
    {
        if to_lower_char(a[from + k]) != to_lower_char(b[k]) {
            proof {
                assert(lower_seq(x)[k as int] != lower_seq(b@)[k as int]);
            }
            return false;
        }
        k += 1;
    }
    proof {
        assert(lower_seq(x) =~= lower_seq(b@));
    }
    true
}

/// Where the last two labels of `h[..i]` start, `seen` dots having been
/// passed already: just after the second dot from the end, or 0.
pub open spec fn reg_start(h: Seq<char>, i: int, seen: nat) -> int
    decreases i,
{
    if i <= 0 || i > h.len() {
        0
    } else if h[i - 1] == '.' {
        if seen >= 1 {
            i
        } else {
            reg_start(h, i - 1, seen + 1)
        }
    } else {
        reg_start(h, i - 1, seen)
    }
}

/// The registrable-domain approximation: the last two labels. Not a public
/// suffix list: `a.co.uk` and `b.co.uk` both give `co.uk`.
pub open spec fn spec_registrable(h: Seq<char>) -> Seq<char> {
    h.skip(reg_start(h, h.len() as int, 0))
}

proof fn lemma_reg_start_bounds(h: Seq<char>, i: int, seen: nat)
    requires
        0 <= i <= h.len(),
    ensures
        0 <= reg_start(h, i, seen) <= i,
    decreases i,
{
    if i > 0 {
        if h[i - 1] == '.' {
            if seen < 1 {
                lemma_reg_start_bounds(h, i - 1, seen + 1);
            }
        } else {
            lemma_reg_start_bounds(h, i - 1, seen);
        }
    }
}

fn registrable_start(h: &[char]) -> (r: usize)
    ensures
        r == reg_start(h@, h.len() as int, 0),
        r <= h.len(),
{
    let mut i: usize = h.len();
    let mut seen: usize = 0;
    while i > 0
        invariant
            i <= h.len(),
            seen <= 1,
            reg_start(h@, h.len() as int, 0) == reg_start(h@, i as int, seen as nat),
        decreases i,
    {
        if h[i - 1] == '.' {
            if seen >= 1 {
                proof {
                    lemma_reg_start_bounds(h@, h.len() as int, 0);
                }
                return i;
            }
            seen += 1;
        }
        i -= 1;
    }
    0
}

/// The last two labels of `host`.
pub fn registrable(host: &str) -> (r: String)
    ensures
        r@ == spec_registrable(host@),
{
    let h = chars_of(host);
    let start = registrable_start(h.as_slice());
    proof {
        assert(h@.subrange(start as int, h@.len() as int) =~= spec_registrable(host@));
    }
    string_of_range(h.as_slice(), start, h.len())
}

/// How many dots `s` holds.
pub open spec fn dots(s: Seq<char>) -> nat
    decreases s.len(),
{
    if s.len() == 0 {
        0
    } else {
        dots(s.drop_last()) + if s.last() == '.' {
            1nat
        } else {
            0nat
        }
    }
}

/// `at` begins a label of `h`.
pub open spec fn label_begins(h: Seq<char>, at: int) -> bool {
    at == 0 || (0 < at <= h.len() && h[at - 1] == '.')
}

/// `stem` as the label run at `at`, followed by one or two more labels.
pub open spec fn stem_at(h: Seq<char>, at: int, stem: Seq<char>) -> bool {
    let c = h.skip(at);
    &&& c.len() > stem.len()
    &&& c[stem.len() as int] == '.'
    &&& lower_seq(c.take(stem.len() as int)) == lower_seq(stem)
    &&& c.skip(stem.len() as int + 1).len() > 0
    &&& dots(c.skip(stem.len() as int + 1)) < 2
}

/// `example.*`: the stem at a label boundary with at most two labels after
/// it, the public suffix approximated as in `spec_registrable`.
pub open spec fn under_any_suffix(h: Seq<char>, stem: Seq<char>) -> bool {
    stem.len() > 0 && exists|at: int| 0 <= at <= h.len() && #[trigger] label_begins(h, at) && stem_at(h, at, stem)
}

/// A `$domain=` entry ending in `.*`.
pub open spec fn wildcard_tld(e: Seq<char>) -> bool {
    e.len() >= 2 && e[e.len() - 2] == '.' && e[e.len() - 1] == '*'
}

/// `host` falls under the entry: the entry itself or anything below it,
/// ASCII case ignored.
pub open spec fn spec_host_under(h: Seq<char>, e: Seq<char>) -> bool {
    if wildcard_tld(e) {
        under_any_suffix(h, e.take(e.len() - 2))
    } else {
        lower_seq(h) == lower_seq(e) || (h.len() > e.len() && h[h.len() - e.len() - 1] == '.'
            && lower_seq(h.skip(h.len() - e.len())) == lower_seq(e))
    }
}

fn dot_count(v: &[char], from: usize) -> (n: usize)
    requires
        from <= v.len(),
    ensures
        n == dots(v@.skip(from as int)),
{
    let mut n: usize = 0;
    let mut k: usize = from;
    while k < v.len()
        invariant
            from <= k <= v.len(),
            n == dots(v@.subrange(from as int, k as int)),
            n <= k - from,
        decreases v.len() - k,
    {
        proof {
            assert(v@.subrange(from as int, k + 1).drop_last() =~= v@.subrange(from as int, k as int));
        }
        if v[k] == '.' {
            n += 1;
        }
        k += 1;
    }
    proof {
        assert(v@.subrange(from as int, v.len() as int) =~= v@.skip(from as int));
    }
    n
}

fn stem_fits(h: &[char], at: usize, stem: &[char]) -> (r: bool)
    requires
        at <= h.len(),
    ensures
        r == stem_at(h@, at as int, stem@),
{
    let rest = h.len() - at;
    if rest <= stem.len() {
        return false;
    }
    if h[at + stem.len()] != '.' {
        return false;
    }
    if !eq_ci_at(h, at, stem) {
        proof {
            assert(h@.skip(at as int).take(stem.len() as int) =~= h@.subrange(at as int, at + stem.len()));
        }
        return false;
    }
    proof {
        assert(h@.skip(at as int).take(stem.len() as int) =~= h@.subrange(at as int, at + stem.len()));
        assert(h@.skip(at as int).skip(stem.len() + 1) =~= h@.skip(at + stem.len() + 1));
    }
    at + stem.len() + 1 < h.len() && dot_count(h, at + stem.len() + 1) < 2
}

fn host_under_any_suffix(h: &[char], stem: &[char]) -> (r: bool)
    ensures
        r == under_any_suffix(h@, stem@),
{
    if stem.len() == 0 {
        return false;
    }
    let mut at: usize = 0;
    loop
        invariant
            stem.len() > 0,
            at <= h.len(),
            label_begins(h@, at as int),
            forall|x: int| 0 <= x < at && #[trigger] label_begins(h@, x) ==> !stem_at(h@, x, stem@),
        decreases h.len() - at,
    {
        if stem_fits(h, at, stem) {
            return true;
        }
        let mut k: usize = at;
        while k < h.len() && h[k] != '.'
            invariant
                at <= k <= h.len(),
                forall|j: int| at <= j < k ==> h@[j] != '.',
            decreases h.len() - k,
        {
            k += 1;
        }
        if k == h.len() {
            proof {
                assert forall|x: int| 0 <= x <= h.len() && #[trigger] label_begins(h@, x) implies !stem_at(h@, x, stem@) by {
                    if x > at {
                        assert(h@[x - 1] != '.');
                    }
                }
            }
            return false;
        }
        proof {
            assert forall|x: int| 0 <= x < k + 1 && #[trigger] label_begins(h@, x) implies !stem_at(h@, x, stem@) by {
                if x > at {
                    assert(h@[x - 1] != '.');
                }
            }
        }
        at = k + 1;
    }
}

/// Whether a host falls under a `$domain=` entry.
pub fn host_under(h: &[char], e: &[char]) -> (r: bool)
    ensures
        r == spec_host_under(h@, e@),
{
    if e.len() >= 2 && e[e.len() - 2] == '.' && e[e.len() - 1] == '*' {
        let stem = crate::text::copy_of(e, 0, e.len() - 2);
        proof {
            assert(stem@ =~= e@.take(e.len() - 2));
        }
        return host_under_any_suffix(h, stem.as_slice());
    }
    if eq_ignore_case(h, e) {
        return true;
    }
    if h.len() > e.len() && h[h.len() - e.len() - 1] == '.' {
        let r = eq_ci_at(h, h.len() - e.len(), e);
        proof {
            assert(h@.subrange(h.len() - e.len(), h.len() - e.len() + e.len()) =~= h@.skip(
                h.len() - e.len(),
            ));
        }
        r
    } else {
        false
    }
}

// ─── `$domain=` and `$method=` lists ──────────────────────────────────────

/// What a `|`-separated option list is asked about: the document's host
/// (`$domain=`), or the request method (`$method=`).
pub enum Subject {
    Document(Option<Seq<char>>),
    Method(Seq<char>),
}

/// Whether one entry names the subject.
pub open spec fn hits(s: Subject, e: Seq<char>) -> bool {
    match s {
        Subject::Document(Some(h)) => spec_host_under(h, e),
        Subject::Document(None) => false,
        Subject::Method(m) => lower_seq(m) == lower_seq(e),
    }
}

/// The text of a piece `raw[pc.0..pc.1]`.
pub open spec fn piece_text(raw: Seq<char>, pc: (int, int)) -> Seq<char> {
    raw.subrange(pc.0, pc.1)
}

/// A piece starting with `~` is a veto.
pub open spec fn is_negated(t: Seq<char>) -> bool {
    t.len() > 0 && t[0] == '~'
}

/// The entry a piece names, `~` dropped.
pub open spec fn entry_text(t: Seq<char>) -> Seq<char> {
    if is_negated(t) {
        t.skip(1)
    } else {
        t
    }
}

/// A non-empty negated entry that names the subject.
pub open spec fn piece_vetoes(s: Subject, raw: Seq<char>, pc: (int, int)) -> bool {
    let t = piece_text(raw, pc);
    is_negated(t) && entry_text(t).len() > 0 && hits(s, entry_text(t))
}

/// A non-empty positive entry.
pub open spec fn piece_positive(raw: Seq<char>, pc: (int, int)) -> bool {
    let t = piece_text(raw, pc);
    !is_negated(t) && t.len() > 0
}

/// A non-empty positive entry that names the subject.
pub open spec fn piece_selects(s: Subject, raw: Seq<char>, pc: (int, int)) -> bool {
    piece_positive(raw, pc) && hits(s, piece_text(raw, pc))
}

/// An option list applies: no veto names the subject, and either there are
/// no positive entries or one of them names it.
pub open spec fn list_applies(s: Subject, raw: Seq<char>) -> bool {
    let pcs = split_from(raw, 0, '|');
    &&& !exists|i: int| 0 <= i < pcs.len() && #[trigger] piece_vetoes(s, raw, pcs[i])
    &&& (!(exists|i: int| 0 <= i < pcs.len() && #[trigger] piece_positive(raw, pcs[i]))
        || exists|i: int| 0 <= i < pcs.len() && #[trigger] piece_selects(s, raw, pcs[i]))
}

/// Whether the entry `raw[from..to]` names the subject.
fn entry_hits(raw: &[char], from: usize, to: usize, host: Option<&[char]>, method: Option<&[char]>) -> (r:
    bool)
    requires
        from <= to <= raw.len(),
        host is Some || method is Some,
    ensures
        r == match method {
            Some(m) => hits(Subject::Method(m@), raw@.subrange(from as int, to as int)),
            None => hits(
                Subject::Document(Some(host.unwrap()@)),
                raw@.subrange(from as int, to as int),
            ),
        },
{
    let entry = crate::text::copy_of(raw, from, to);
    match method {
        Some(m) => eq_ignore_case(m, entry.as_slice()),
        None => host_under(host.unwrap(), entry.as_slice()),
    }
}

/// The walk shared by `$domain=` and `$method=`: `method` set asks about a
/// method, else about `host`, and no host at all names nothing.
fn option_list_applies(raw: &[char], host: Option<&[char]>, method: Option<&[char]>) -> (r: bool)
    ensures
        r == list_applies(
            match method {
                Some(m) => Subject::Method(m@),
                None => Subject::Document(
                    match host {
                        Some(h) => Some(h@),
                        None => None,
                    },
                ),
            },
            raw@,
        ),
{
    let ghost subj = match method {
        Some(m) => Subject::Method(m@),
        None => Subject::Document(
            match host {
                Some(h) => Some(h@),
                None => None,
            },
        ),
    };
    let ghost all = split_from(raw@, 0, '|');
    let ghost mut done: Seq<(int, int)> = Seq::empty();
    let mut has_positive = false;
    let mut positive_hit = false;
    let mut from: usize = 0;
    proof {
        assert(raw@.subrange(0, raw.len() as int) =~= raw@);
    }
    loop
        invariant
            from <= raw.len(),
            all == split_from(raw@, 0, '|'),
            all == done + split_from(raw@, from as int, '|'),
            subj == match method {
                Some(m) => Subject::Method(m@),
                None => Subject::Document(
                    match host {
                        Some(h) => Some(h@),
                        None => None,
                    },
                ),
            },
            forall|i: int| 0 <= i < done.len() ==> !#[trigger] piece_vetoes(subj, raw@, done[i]),
            has_positive == exists|i: int| 0 <= i < done.len() && #[trigger] piece_positive(raw@, done[i]),
            positive_hit == exists|i: int| 0 <= i < done.len() && #[trigger] piece_selects(subj, raw@, done[i]),
        decreases raw.len() - from,
    {
        let e = crate::text::piece_end(raw, from, raw.len(), '|');
        proof {
            assert(raw@.subrange(0, raw.len() as int) =~= raw@);
        }
        let ghost pc = (from as int, e as int);
        let ghost t = piece_text(raw@, pc);
        let negated = e > from && raw[from] == '~';
        let s: usize = if negated {
            from + 1
        } else {
            from
        };
        proof {
            assert(t.len() > 0 ==> t[0] == raw@[from as int]);
            assert(negated == is_negated(t));
            assert(entry_text(t) =~= raw@.subrange(s as int, e as int));
        }
        if s < e {
            let hit = if method.is_none() && host.is_none() {
                false
            } else {
                entry_hits(raw, s, e, host, method)
            };
            assert(hit == hits(subj, entry_text(t)));
            if negated {
                if hit {
                    proof {
                        assert(all[done.len() as int] == pc);
                        assert(piece_vetoes(subj, raw@, all[done.len() as int]));
                    }
                    return false;
                }
            } else {
                has_positive = true;
                positive_hit = positive_hit || hit;
            }
        }
        proof {
            let old_done = done;
            done = done.push(pc);
            assert(done[old_done.len() as int] == pc);
            assert forall|i: int| 0 <= i < done.len() implies !#[trigger] piece_vetoes(subj, raw@, done[i]) by {
                if i < old_done.len() {
                    assert(done[i] == old_done[i]);
                }
            }
            if has_positive {
                if !(exists|i: int| 0 <= i < old_done.len() && #[trigger] piece_positive(raw@, old_done[i])) {
                    assert(piece_positive(raw@, done[old_done.len() as int]));
                } else {
                    let i = choose|i: int| 0 <= i < old_done.len() && #[trigger] piece_positive(raw@, old_done[i]);
                    assert(done[i] == old_done[i]);
                }
            }
            if exists|i: int| 0 <= i < done.len() && #[trigger] piece_positive(raw@, done[i]) {
                let i = choose|i: int| 0 <= i < done.len() && #[trigger] piece_positive(raw@, done[i]);
                if i < old_done.len() {
                    assert(done[i] == old_done[i]);
                }
            }
            if positive_hit {
                if !(exists|i: int| 0 <= i < old_done.len() && #[trigger] piece_selects(subj, raw@, old_done[i])) {
                    assert(piece_selects(subj, raw@, done[old_done.len() as int]));
                } else {
                    let i = choose|i: int| 0 <= i < old_done.len() && #[trigger] piece_selects(subj, raw@, old_done[i]);
                    assert(done[i] == old_done[i]);
                }
            }
            if exists|i: int| 0 <= i < done.len() && #[trigger] piece_selects(subj, raw@, done[i]) {
                let i = choose|i: int| 0 <= i < done.len() && #[trigger] piece_selects(subj, raw@, done[i]);
                if i < old_done.len() {
                    assert(done[i] == old_done[i]);
                }
            }
        }
        if e >= raw.len() {
            proof {
                assert(all =~= done);
            }
            return !has_positive || positive_hit;
        }
        proof {
            assert(all =~= done + split_from(raw@, e + 1, '|'));
        }
        from = e + 1;
    }
}

/// `$domain=a.com|~b.com` against the document's host: positive entries
/// are a whitelist, negated ones a veto.
pub fn domains_apply(raw: &[char], document_host: Option<&[char]>) -> (r: bool)
    ensures
        r == list_applies(
            Subject::Document(
                match document_host {
                    Some(h) => Some(h@),
                    None => None,
                },
            ),
            raw@,
        ),
{
    option_list_applies(raw, document_host, None)
}

/// `$method=get|post`, or `$method=~post`, against the request method.
pub fn methods_apply(raw: &[char], method: &[char]) -> (r: bool)
    ensures
        r == list_applies(Subject::Method(method@), raw@),
{
    option_list_applies(raw, None, Some(method))
}

// ─── Requests ─────────────────────────────────────────────────────────────

/// One HTTP request as the proxy sees it.
pub struct HttpRequest<'a> {
    pub url: &'a str,
    pub host: &'a str,
    pub method: &'a str,
    pub resource_type: ResourceType,
    /// The referring document's host, when there is a referer.
    pub document_host: Option<&'a str>,
}

pub open spec fn opt_chars(o: Option<&str>) -> Option<Seq<char>> {
    match o {
        Some(s) => Some(s@),
        None => None,
    }
}

/// A request leaves the document's registrable domain; with no referer it
/// is first-party.
pub open spec fn spec_third_party(document: Option<Seq<char>>, host: Seq<char>) -> bool {
    match document {
        Some(d) => lower_seq(spec_registrable(d)) != lower_seq(spec_registrable(host)),
        None => false,
    }
}

pub fn is_third_party(request: &HttpRequest) -> (b: bool)
    ensures
        b == spec_third_party(opt_chars(request.document_host), request.host@),
{
    match request.document_host {
        Some(document) => {
            let d = registrable(document);
            let h = registrable(request.host);
            let dv = chars_of(d.as_str());
            let hv = chars_of(h.as_str());
            !eq_ignore_case(dv.as_slice(), hv.as_slice())
        },
        None => false,
    }
}

// ─── Compiled rules ───────────────────────────────────────────────────────

/// One compiled URL rule: everything the rule's decision depends on.
pub struct RecordV {
    /// The pattern's UTF-8 bytes, which the matcher runs on.
    pub pattern: Seq<u8>,
    /// The pattern as written.
    pub text: Seq<char>,
    /// The raw `$domain=` list, empty without one.
    pub domains: Seq<char>,
    /// The raw `$method=` list.
    pub methods: Option<Seq<char>>,
    /// Resource types, zero for any.
    pub types: u16,
    pub allow: bool,
    pub anchor: UrlAnchor,
    pub end_anchored: bool,
    pub match_case: bool,
    pub party: Party,
}

struct Record {
    pattern: Vec<u8>,
    text: Vec<char>,
    domains: Vec<char>,
    methods: Option<Vec<char>>,
    types: u16,
    allow: bool,
    anchor: UrlAnchor,
    end_anchored: bool,
    match_case: bool,
    party: Party,
}

pub open spec fn opt_vec_view(o: Option<Vec<char>>) -> Option<Seq<char>> {
    match o {
        Some(v) => Some(v@),
        None => None,
    }
}

impl View for Record {
    type V = RecordV;

    closed spec fn view(&self) -> RecordV {
        RecordV {
            pattern: self.pattern@,
            text: self.text@,
            domains: self.domains@,
            methods: opt_vec_view(self.methods),
            types: self.types,
            allow: self.allow,
            anchor: self.anchor,
            end_anchored: self.end_anchored,
            match_case: self.match_case,
            party: self.party,
        }
    }
}

/// The record a rule compiles to.
pub open spec fn record_of(rule: UrlRuleV, pattern: Seq<u8>) -> RecordV {
    RecordV {
        pattern,
        text: rule.pattern,
        domains: match rule.domains {
            Some(d) => d,
            None => Seq::empty(),
        },
        methods: rule.methods,
        types: rule.resource_types,
        allow: rule.action == RuleAction::Allow,
        anchor: rule.anchor,
        end_anchored: rule.end_anchored,
        match_case: rule.match_case,
        party: rule.party,
    }
}

// ─── When a rule applies ──────────────────────────────────────────────────

/// The type test: an untyped rule takes any request; a typed one needs the
/// request's bit, except that an exception still applies to a request of
/// undetermined type.
pub open spec fn type_ok(types: u16, type_bit: u16, allow: bool) -> bool {
    types == 0 || types & type_bit != 0 || (type_bit == 0 && allow)
}

pub open spec fn party_ok(party: Party, third: bool) -> bool {
    match party {
        Party::Any => true,
        Party::Third => third,
        Party::First => !third,
    }
}

/// A `||` pattern may start at the host or just after any dot inside it.
pub open spec fn domain_start(url: Seq<u8>, at: int) -> bool {
    at == spec_host_start(url) || (spec_host_start(url) < at <= spec_host_end(url) && url[at - 1]
        == 46)
}

/// The pattern matches the URL where its anchor allows.
pub open spec fn pattern_applies(r: RecordV, url: Seq<u8>) -> bool {
    match r.anchor {
        UrlAnchor::Start => matches_at(r.pattern, 0, url, 0, r.end_anchored, r.match_case),
        UrlAnchor::Domain => exists|at: int|
            #[trigger] domain_start(url, at) && matches_at(
                r.pattern,
                0,
                url,
                at,
                r.end_anchored,
                r.match_case,
            ),
        UrlAnchor::Anywhere => exists|at: int|
            0 <= at <= url.len() && #[trigger] matches_at(
                r.pattern,
                0,
                url,
                at,
                r.end_anchored,
                r.match_case,
            ),
    }
}

/// Everything of a request that a rule can look at.
pub struct RequestV {
    pub url: Seq<u8>,
    pub host: Seq<char>,
    pub method: Seq<char>,
    pub type_bit: u16,
    pub document: Option<Seq<char>>,
}

pub open spec fn request_view(r: &HttpRequest) -> RequestV {
    RequestV {
        url: r.url.spec_bytes(),
        host: r.host@,
        method: r.method@,
        type_bit: spec_request_bit(r.resource_type),
        document: opt_chars(r.document_host),
    }
}

/// A compiled rule decides this request.
pub open spec fn applies(r: RecordV, q: RequestV) -> bool {
    &&& type_ok(r.types, q.type_bit, r.allow)
    &&& party_ok(r.party, spec_third_party(q.document, q.host))
    &&& match r.methods {
        Some(m) => list_applies(Subject::Method(q.method), m),
        None => true,
    }
    &&& (r.domains.len() == 0 || list_applies(Subject::Document(q.document), r.domains))
    &&& pattern_applies(r, q.url)
}

/// Everything but the pattern lets the rule decide this request.
pub open spec fn filters_ok(r: RecordV, q: RequestV) -> bool {
    &&& type_ok(r.types, q.type_bit, r.allow)
    &&& party_ok(r.party, spec_third_party(q.document, q.host))
    &&& match r.methods {
        Some(m) => list_applies(Subject::Method(q.method), m),
        None => true,
    }
    &&& (r.domains.len() == 0 || list_applies(Subject::Document(q.document), r.domains))
}

/// The units checking rule `r` against request `q` charges: none when its
/// options already rule it out, else its pattern's.
pub open spec fn check_need(r: RecordV, q: RequestV) -> nat {
    if filters_ok(r, q) {
        pattern_need(r, q.url)
    } else {
        0
    }
}

/// Whether checking the rules `w` in order, with `rem` units of the lookup's
/// allowance left, runs out: some rule needs more than it may spend before
/// an allowing rule that applies ends the walk. Each rule may spend its own
/// cap or what is left, whichever is less.
pub open spec fn walk_cut(recs: Seq<RecordV>, q: RequestV, w: Seq<u32>, rem: int) -> bool
    decreases w.len(),
{
    if w.len() == 0 {
        false
    } else {
        let x = w[0] as int;
        let need: int = if 0 <= x < recs.len() {
            check_need(recs[x], q) as int
        } else {
            0
        };
        if need > rule_avail(rem, q.url.len() as usize) {
            true
        } else if 0 <= x < recs.len() && recs[x].allow && applies(recs[x], q) {
            false
        } else {
            walk_cut(recs, q, w.drop_first(), rem - need)
        }
    }
}

/// What checking the rules `head` in front of any `tail` leaves: a cut the
/// walk over both has; without one, the walk over both is the walk over
/// `tail` from what is left, unless an allowing rule ended it.
pub open spec fn walk_through(
    recs: Seq<RecordV>,
    q: RequestV,
    head: Seq<u32>,
    tail: Seq<u32>,
    rem0: int,
    rem1: int,
    cut: bool,
    allowed: bool,
) -> bool {
    &&& cut ==> walk_cut(recs, q, head + tail, rem0)
    &&& !cut && !allowed ==> walk_cut(recs, q, head + tail, rem0) == walk_cut(recs, q, tail, rem1)
    &&& !cut && allowed ==> !walk_cut(recs, q, head + tail, rem0)
}

/// The n-gram buckets a sweep has checked, as bucket numbers.
pub open spec fn seen_set(seen: Seq<bool>, ns: int) -> Set<int> {
    Set::new(|b: int| ns <= b < ns + seen.len() && seen[b - ns])
}

/// A token runs on past its first byte.
pub proof fn lemma_run_end_past(url: Seq<u8>, at: int)
    requires
        0 <= at < url.len(),
        spec_is_token_byte(url[at]),
    ensures
        at < run_end(url, at) <= url.len(),
{
    lemma_run_end_bounds(url, at + 1);
}

proof fn lemma_run_end_bounds(url: Seq<u8>, k: int)
    requires
        0 <= k <= url.len(),
    ensures
        k <= run_end(url, k) <= url.len(),
    decreases url.len() - k,
{
    if k < url.len() && spec_is_token_byte(url[k]) {
        lemma_run_end_bounds(url, k + 1);
    }
}

/// Every rule index below `n`, in order.
pub open spec fn all_indices(n: nat) -> Seq<u32> {
    Seq::new(n, |i: int| i as u32)
}

/// What one request derives once and reuses for every rule.
struct Probe {
    url: Vec<u8>,
    host_start: usize,
    host_end: usize,
    type_bit: u16,
    third_party: bool,
    method: Vec<char>,
    document: Option<Vec<char>>,
    budget: Budget,
    request: Ghost<RequestV>,
}

impl Probe {
    spec fn wf(&self) -> bool {
        &&& self.url@ == self.request@.url
        &&& self.host_start == spec_host_start(self.url@)
        &&& self.host_end == spec_host_end(self.url@)
        &&& self.host_start <= self.host_end <= self.url.len()
        &&& self.type_bit == self.request@.type_bit
        &&& self.third_party == spec_third_party(self.request@.document, self.request@.host)
        &&& self.method@ == self.request@.method
        &&& opt_vec_view(self.document) == self.request@.document
    }

    fn new(request: &HttpRequest) -> (p: Probe)
        ensures
            p.wf(),
            p.request@ == request_view(request),
            !p.budget.exhausted,
            p.budget.remaining == LOOKUP_STEP_CAP,
    {
        let bytes = request.url.as_bytes();
        let mut url: Vec<u8> = Vec::new();
        let mut k: usize = 0;
        while k < bytes.len()
            invariant
                k <= bytes.len(),
                url@ == bytes@.take(k as int),
            decreases bytes.len() - k,
        {
            url.push(bytes[k]);
            k += 1;
            proof {
                assert(url@ =~= bytes@.take(k as int));
            }
        }
        proof {
            assert(bytes@.take(bytes.len() as int) =~= bytes@);
        }
        let (host_start, host_end) = host_span(url.as_slice());
        let document = match request.document_host {
            Some(d) => Some(chars_of(d)),
            None => None,
        };
        Probe {
            url,
            host_start,
            host_end,
            type_bit: bit_for_request(request.resource_type),
            third_party: is_third_party(request),
            method: chars_of(request.method),
            document,
            budget: Budget::new(),
            request: Ghost(request_view(request)),
        }
    }
}

/// With `*` first, a match anywhere is a match at 0.
proof fn lemma_leading_star(pat: Seq<u8>, url: Seq<u8>, at: int, ea: bool, mc: bool)
    requires
        pat.len() > 0,
        pat[0] == STAR,
        0 <= at <= url.len(),
        matches_at(pat, 0, url, at, ea, mc),
    ensures
        matches_at(pat, 0, url, 0, ea, mc),
{
    let j = lemma_star_witness(pat, 1, url, at, ea, mc);
    lemma_star_intro(pat, 1, url, 0, j, ea, mc);
}

proof fn lemma_anywhere(r: RecordV, url: Seq<u8>, x: int)
    requires
        r.anchor == UrlAnchor::Anywhere,
        0 <= x <= url.len(),
        matches_at(r.pattern, 0, url, x, r.end_anchored, r.match_case),
    ensures
        pattern_applies(r, url),
{
}

/// The first `.` at or after `k` and before `he`, else `he`.
pub open spec fn next_dot(u: Seq<u8>, k: int, he: int) -> int
    decreases he - k,
{
    if k >= he {
        he
    } else if 0 <= k < u.len() && u[k] == 46 {
        k
    } else {
        next_dot(u, k + 1, he)
    }
}

/// The first separator at or after `k`, else the end of the text.
pub open spec fn next_sep(u: Seq<u8>, k: int) -> int
    decreases u.len() - k,
{
    if k >= u.len() {
        u.len() as int
    } else if 0 <= k && spec_is_separator(u[k]) {
        k
    } else {
        next_sep(u, k + 1)
    }
}

/// Later positions searched from come no earlier.
pub proof fn lemma_next_bounds(u: Seq<u8>, k: int, he: int)
    ensures
        k <= he ==> k <= next_dot(u, k, he) <= he,
        k <= u.len() ==> k <= next_sep(u, k) <= u.len(),
{
    lemma_next_dot_bounds(u, k, he);
    lemma_next_sep_bounds(u, k);
}

/// A `.` searched for from `k` is found no earlier.
pub proof fn lemma_next_dot_bounds(u: Seq<u8>, k: int, he: int)
    ensures
        k <= he ==> k <= next_dot(u, k, he) <= he,
    decreases he - k,
{
    if k < he {
        lemma_next_dot_bounds(u, k + 1, he);
    }
}

/// A separator searched for from `k` is found no earlier.
pub proof fn lemma_next_sep_bounds(u: Seq<u8>, k: int)
    ensures
        k <= u.len() ==> k <= next_sep(u, k) <= u.len(),
    decreases u.len() - k,
{
    if k < u.len() {
        lemma_next_sep_bounds(u, k + 1);
    }
}

/// The units matching a `||`-anchored rule charges from domain start `at`
/// on: one attempt per label start, until one matches.
pub open spec fn domain_need(r: RecordV, u: Seq<u8>, at: int, he: int) -> nat
    decreases he - at,
{
    if at < 0 || at > he {
        0
    } else {
        mf_need(r.pattern, u, at, r.end_anchored, r.match_case) + if matches_at(
            r.pattern,
            0,
            u,
            at,
            r.end_anchored,
            r.match_case,
        ) {
            0nat
        } else {
            let k = next_dot(u, at, he);
            if k >= he {
                0nat
            } else {
                proof {
                    lemma_next_bounds(u, at, he);
                }
                domain_need(r, u, k + 1, he)
            }
        }
    }
}

/// Where an unanchored rule is next tried at or after `at`: where its
/// first element can begin.
pub open spec fn next_candidate(r: RecordV, u: Seq<u8>, at: int) -> Option<int> {
    if r.pattern[0] == CARET {
        Some(next_sep(u, at))
    } else {
        first_ok(u, at, r.pattern[0], r.match_case)
    }
}

/// The units matching an unanchored rule charges from `at` on: one attempt
/// per candidate position, until one matches.
pub open spec fn any_need(r: RecordV, u: Seq<u8>, at: int) -> nat
    decreases u.len() + 1 - at,
{
    if at < 0 || at > u.len() || r.pattern.len() == 0 {
        0
    } else {
        match next_candidate(r, u, at) {
            None => 0,
            Some(f) => {
                proof {
                    lemma_next_bounds(u, at, u.len() as int);
                    lemma_first_ok_bounds(u, at, r.pattern[0], r.match_case);
                }
                mf_need(r.pattern, u, f, r.end_anchored, r.match_case) + if matches_at(
                    r.pattern,
                    0,
                    u,
                    f,
                    r.end_anchored,
                    r.match_case,
                ) || f >= u.len() {
                    0nat
                } else {
                    any_need(r, u, f + 1)
                }
            },
        }
    }
}

/// The units matching rule `r` against URL `u` charges when the allowance
/// does not run out.
pub open spec fn pattern_need(r: RecordV, u: Seq<u8>) -> nat {
    match r.anchor {
        UrlAnchor::Start => mf_need(r.pattern, u, 0, r.end_anchored, r.match_case),
        UrlAnchor::Domain => domain_need(r, u, spec_host_start(u), spec_host_end(u)),
        UrlAnchor::Anywhere => if r.pattern.len() == 0 {
            0
        } else if r.pattern[0] == STAR {
            mf_need(r.pattern, u, 0, r.end_anchored, r.match_case)
        } else {
            any_need(r, u, 0)
        },
    }
}

/// What one rule may spend when `rem` units are left: its own cap, or what
/// is left when that is less.
pub open spec fn rule_avail(rem: int, url_len: usize) -> int {
    if rem >= spec_rule_step_cap(url_len) {
        spec_rule_step_cap(url_len) as int
    } else {
        rem
    }
}

/// Tries the pattern at every position its anchor allows. The match is
/// exact, and charges [`pattern_need`], when that fits the rule's
/// allowance; otherwise it is cut: "no match", the budget marked.
fn pattern_matches(r: &Record, probe: &mut Probe) -> (m: bool)
    requires
        old(probe).wf(),
    ensures
        final(probe).wf(),
        final(probe).request == old(probe).request,
        m ==> pattern_applies(r@, final(probe).url@),
        !m ==> !pattern_applies(r@, final(probe).url@) || final(probe).budget.exhausted,
        old(probe).budget.exhausted ==> final(probe).budget.exhausted,
        final(probe).budget.remaining <= old(probe).budget.remaining,
        pattern_need(r@, old(probe).url@) <= rule_avail(old(probe).budget.remaining as int, old(probe).url.len())
            ==> m == pattern_applies(r@, old(probe).url@) && final(probe).budget.exhausted == old(
            probe).budget.exhausted && old(probe).budget.remaining - final(probe).budget.remaining
            == pattern_need(r@, old(probe).url@),
        pattern_need(r@, old(probe).url@) > rule_avail(old(probe).budget.remaining as int, old(probe).url.len())
            ==> !m && final(probe).budget.exhausted,
{
    let ghost rv = r@;
    let ghost url = probe.url@;
    let ghost rem0: int = old(probe).budget.remaining as int;
    let ghost total: int = pattern_need(r@, old(probe).url@) as int;
    let ea = r.end_anchored;
    let mc = r.match_case;
    let n = probe.url.len();
    probe.budget.open(n);
    let ghost floor0: int = probe.budget.floor as int;
    let ghost avail: int = rem0 - floor0;
    assert(avail == rule_avail(rem0, n));
    let ghost mut cut: bool = false;
    match r.anchor {
        UrlAnchor::Start => match_from(r.pattern.as_slice(), probe.url.as_slice(), 0, ea, mc, &mut probe.budget),
        UrlAnchor::Domain => {
            let mut at = probe.host_start;
            let he = probe.host_end;
            loop
                invariant
                    probe.wf(),
                    probe.url@ == url,
                    rv == r@,
                    ea == r.end_anchored,
                    mc == r.match_case,
                    rv.anchor == UrlAnchor::Domain,
                    he == probe.host_end,
                    probe.request == old(probe).request,
                    probe.host_start <= at <= he,
                    domain_start(url, at as int),
                    old(probe).budget.exhausted ==> probe.budget.exhausted,
                    n == url.len(),
                    probe.budget.floor == floor0,
                    probe.budget.remaining <= rem0,
                    rem0 == old(probe).budget.remaining,
                    url == old(probe).url@,
                    avail == rem0 - floor0,
                    avail == rule_avail(rem0, n),
                    n == old(probe).url.len(),
                    total == pattern_need(rv, url),
                    total == domain_need(rv, url, spec_host_start(url), spec_host_end(url)),
                    !cut ==> probe.budget.exhausted == old(probe).budget.exhausted && probe.budget.remaining
                        >= floor0 && rem0 - probe.budget.remaining + domain_need(rv, url, at as int, he as int)
                        == total,
                    cut ==> probe.budget.exhausted && probe.budget.remaining <= floor0 && total > avail,
                    forall|x: int|
                        #![trigger domain_start(url, x)]
                        0 <= x < at && domain_start(url, x) ==> !matches_at(rv.pattern, 0, url, x, ea, mc)
                            || cut,
                decreases he - at,
            {
                let ghost rb: int = probe.budget.remaining as int;
                let ghost need_at: int = mf_need(rv.pattern, url, at as int, ea, mc) as int;
                proof {
                    lemma_next_bounds(url, at as int, he as int);
                }
                let hit = match_from(r.pattern.as_slice(), probe.url.as_slice(), at, ea, mc, &mut probe.budget);
                proof {
                    if !cut && need_at > rb - floor0 {
                        cut = true;
                    }
                }
                if hit {
                    proof {
                        assert(!cut);
                        assert(domain_need(rv, url, at as int, he as int) == need_at);
                    }
                    return true;
                }
                let mut k = at;
                while k < he && probe.url[k] != 46
                    invariant
                        at <= k <= he,
                        he <= probe.url.len(),
                        forall|j: int| at <= j < k ==> probe.url@[j] != 46,
                        next_dot(probe.url@, at as int, he as int) == next_dot(probe.url@, k as int, he as int),
                    decreases he - k,
                {
                    k += 1;
                }
                if k == he {
                    proof {
                        if !cut {
                            assert(domain_need(rv, url, at as int, he as int) == need_at);
                        }
                        assert forall|x: int| #[trigger] domain_start(url, x) implies !matches_at(
                            rv.pattern,
                            0,
                            url,
                            x,
                            ea,
                            mc,
                        ) || cut by {
                            if x > at {
                                assert(url[x - 1] != 46);
                            }
                        }
                    }
                    return false;
                }
                proof {
                    assert forall|x: int|
                        0 <= x < k + 1 && #[trigger] domain_start(url, x) implies !matches_at(
                            rv.pattern,
                            0,
                            url,
                            x,
                            ea,
                            mc,
                        ) || cut by {
                        if x > at && x <= k {
                            assert(url[x - 1] != 46);
                        }
                    }
                }
                proof {
                    if !cut {
                        assert(domain_need(rv, url, at as int, he as int) == need_at + domain_need(
                            rv,
                            url,
                            k + 1,
                            he as int,
                        ));
                    }
                }
                at = k + 1;
            }
        },
        UrlAnchor::Anywhere => {
            if r.pattern.len() == 0 {
                proof {
                    lemma_anywhere(rv, url, n as int);
                }
                return true;
            }
            let first = r.pattern[0];
            if first == STAR {
                let m = match_from(r.pattern.as_slice(), probe.url.as_slice(), 0, ea, mc, &mut probe.budget);
                proof {
                    if m {
                        lemma_anywhere(rv, url, 0);
                    }
                    if !m && total <= avail {
                        assert forall|x: int| 0 <= x <= url.len() implies !#[trigger] matches_at(
                            rv.pattern,
                            0,
                            url,
                            x,
                            ea,
                            mc,
                        ) by {
                            if matches_at(rv.pattern, 0, url, x, ea, mc) {
                                lemma_leading_star(rv.pattern, url, x, ea, mc);
                            }
                        }
                    }
                }
                return m;
            }
            let mut at: usize = 0;
            loop
                invariant
                    probe.wf(),
                    probe.url@ == url,
                    rv == r@,
                    ea == r.end_anchored,
                    mc == r.match_case,
                    rv.anchor == UrlAnchor::Anywhere,
                    rv.pattern.len() > 0,
                    first == rv.pattern[0],
                    first != STAR,
                    n == url.len(),
                    probe.request == old(probe).request,
                    at <= n,
                    old(probe).budget.exhausted ==> probe.budget.exhausted,
                    probe.budget.floor == floor0,
                    probe.budget.remaining <= rem0,
                    rem0 == old(probe).budget.remaining,
                    url == old(probe).url@,
                    avail == rem0 - floor0,
                    avail == rule_avail(rem0, n),
                    n == old(probe).url.len(),
                    total == pattern_need(rv, url),
                    total == any_need(rv, url, 0),
                    !cut ==> probe.budget.exhausted == old(probe).budget.exhausted && probe.budget.remaining
                        >= floor0 && rem0 - probe.budget.remaining + any_need(rv, url, at as int) == total,
                    cut ==> probe.budget.exhausted && probe.budget.remaining <= floor0 && total > avail,
                    forall|x: int|
                        0 <= x < at ==> !#[trigger] matches_at(rv.pattern, 0, url, x, ea, mc) || cut,
                decreases n + 1 - at,
            {
                let candidate: Option<usize> = if first == CARET {
                    let mut k = at;
                    while k < n && !is_separator(probe.url[k])
                        invariant
                            at <= k <= n,
                            n == probe.url.len(),
                            forall|j: int| at <= j < k ==> !spec_is_separator(probe.url@[j]),
                            next_sep(probe.url@, at as int) == next_sep(probe.url@, k as int),
                        decreases n - k,
                    {
                        k += 1;
                    }
                    Some(k)
                } else {
                    let f = find_byte(probe.url.as_slice(), at, first, mc);
                    proof {
                        lemma_first_ok(url, at as int, first, mc, match f {
                            Some(x) => Some(x as int),
                            None => None,
                        });
                    }
                    f
                };
                proof {
                    assert(next_candidate(rv, url, at as int) == match candidate {
                        Some(x) => Some(x as int),
                        None => None::<int>,
                    });
                }
                match candidate {
                    None => {
                        proof {
                            assert(any_need(rv, url, at as int) == 0);
                            assert forall|x: int| 0 <= x <= url.len() implies !#[trigger] matches_at(
                                rv.pattern,
                                0,
                                url,
                                x,
                                ea,
                                mc,
                            ) || cut by {
                                if x >= at && x < n {
                                    assert(!byte_ok(first, url[x], mc));
                                }
                            }
                        }
                        return false;
                    },
                    Some(found) => {
                        proof {
                            assert forall|x: int| 0 <= x < found implies !#[trigger] matches_at(
                                rv.pattern,
                                0,
                                url,
                                x,
                                ea,
                                mc,
                            ) || cut by {
                                if x >= at {
                                    if first == CARET {
                                        assert(!spec_is_separator(url[x]));
                                    } else {
                                        assert(!byte_ok(first, url[x], mc));
                                    }
                                }
                            }
                        }
                        let ghost rb: int = probe.budget.remaining as int;
                        let ghost need_at: int = mf_need(rv.pattern, url, found as int, ea, mc) as int;
                        let hit = match_from(r.pattern.as_slice(), probe.url.as_slice(), found, ea, mc, &mut probe.budget);
                        proof {
                            if !cut && need_at > rb - floor0 {
                                cut = true;
                            }
                        }
                        if hit {
                            proof {
                                lemma_anywhere(rv, url, found as int);
                                assert(!cut);
                                assert(any_need(rv, url, at as int) == need_at);
                            }
                            return true;
                        }
                        proof {
                            if !cut {
                                if found >= n {
                                    assert(any_need(rv, url, at as int) == need_at);
                                } else {
                                    assert(any_need(rv, url, at as int) == need_at + any_need(rv, url, found + 1));
                                }
                            }
                        }
                        if found >= n {
                            proof {
                                assert forall|x: int| 0 <= x <= url.len() implies !#[trigger] matches_at(
                                    rv.pattern,
                                    0,
                                    url,
                                    x,
                                    ea,
                                    mc,
                                ) || cut by {}
                            }
                            return false;
                        }
                        at = found + 1;
                    },
                }
            }
        },
    }
}

/// Whether a compiled rule decides a request: `Some(is_allow)` when it
/// applies, `None` when it does not or the allowance ran out first.
fn check(r: &Record, probe: &mut Probe) -> (res: Option<bool>)
    requires
        old(probe).wf(),
    ensures
        final(probe).wf(),
        final(probe).request == old(probe).request,
        old(probe).budget.exhausted ==> final(probe).budget.exhausted,
        res matches Some(a) ==> a == r@.allow && applies(r@, old(probe).request@),
        res is None ==> !applies(r@, old(probe).request@) || final(probe).budget.exhausted,
        final(probe).budget.remaining <= old(probe).budget.remaining,
        check_need(r@, old(probe).request@) <= rule_avail(old(probe).budget.remaining as int, old(probe).url.len())
            ==> res == (if applies(r@, old(probe).request@) {
            Some(r@.allow)
        } else {
            None
        }) && final(probe).budget.exhausted == old(probe).budget.exhausted && old(probe).budget.remaining
            - final(probe).budget.remaining == check_need(r@, old(probe).request@),
        check_need(r@, old(probe).request@) > rule_avail(old(probe).budget.remaining as int, old(probe).url.len())
            ==> res is None && final(probe).budget.exhausted,
{
    if r.types != 0 && r.types & probe.type_bit == 0 {
        if probe.type_bit != 0 || !r.allow {
            return None;
        }
    }
    match r.party {
        Party::Third => {
            if !probe.third_party {
                return None;
            }
        },
        Party::First => {
            if probe.third_party {
                return None;
            }
        },
        Party::Any => {},
    }
    match &r.methods {
        Some(m) => {
            if !methods_apply(m.as_slice(), probe.method.as_slice()) {
                return None;
            }
        },
        None => {},
    }
    if r.domains.len() != 0 {
        let document = match &probe.document {
            Some(d) => Some(d.as_slice()),
            None => None,
        };
        if !domains_apply(r.domains.as_slice(), document) {
            return None;
        }
    }
    if pattern_matches(r, probe) {
        Some(r.allow)
    } else {
        None
    }
}

// ─── Build ────────────────────────────────────────────────────────────────

/// The bytes of `s`.
fn bytes_of(s: &str) -> (v: Vec<u8>)
    ensures
        v@ == s.spec_bytes(),
{
    let bytes = s.as_bytes();
    let mut v: Vec<u8> = Vec::new();
    let mut k: usize = 0;
    while k < bytes.len()
        invariant
            k <= bytes.len(),
            v@ == bytes@.take(k as int),
        decreases bytes.len() - k,
    {
        v.push(bytes[k]);
        k += 1;
        proof {
            assert(v@ =~= bytes@.take(k as int));
        }
    }
    proof {
        assert(bytes@.take(bytes.len() as int) =~= bytes@);
    }
    v
}

pub open spec fn record_views(rs: Seq<Record>) -> Seq<RecordV> {
    rs.map_values(|r: Record| r@)
}

/// A rule the URL tier can hold: a pattern of 1 to 65535 bytes and a
/// `$domain=` list of at most 65535.
pub open spec fn url_rule_fits(rule: UrlRuleV) -> bool {
    let pattern = encode_utf8_of(rule.pattern);
    &&& 0 < pattern.len() <= 0xFFFF
    &&& match rule.domains {
        Some(d) => encode_utf8_of(d).len() <= 0xFFFF,
        None => true,
    }
}

/// The UTF-8 bytes of a text.
pub open spec fn encode_utf8_of(t: Seq<char>) -> Seq<u8> {
    vstd::utf8::encode_utf8(t)
}

/// What adding a rule does to the compiled records: nothing for a rule the
/// tier cannot hold; nothing but a count for a rule already compiled;
/// otherwise its record is appended.
pub open spec fn url_add_view(recs: Seq<RecordV>, rule: UrlRuleV) -> (Seq<RecordV>, bool) {
    if !url_rule_fits(rule) {
        (recs, false)
    } else {
        let r = record_of(rule, encode_utf8_of(rule.pattern));
        if recs.contains(r) {
            (recs, true)
        } else {
            (recs.push(r), false)
        }
    }
}

/// URL-tier record indices stay below this, so a decision can carry its
/// tier in the top bit of a `u32`.
pub const MAX_URL_RULES: u32 = 0x8000_0000;

/// Accumulates URL rules, each distinct rule once.
pub struct UrlIndexBuilder {
    records: Vec<Record>,
    list_ids: Vec<u16>,
    duplicates_removed: usize,
    /// Identity hash to the records carrying it, so a duplicate is found
    /// without comparing against every record.
    dedup: HashMap<u64, Vec<u32>>,
}

/// The hash a record's identity is looked up by: that of its pattern.
pub open spec fn identity_hash(r: RecordV) -> u64 {
    key_hash(KeyKind::Exact, r.pattern)
}

impl UrlIndexBuilder {
    pub closed spec fn records(&self) -> Seq<RecordV> {
        record_views(self.records@)
    }

    pub closed spec fn list_ids(&self) -> Seq<u16> {
        self.list_ids@
    }

    pub closed spec fn duplicates(&self) -> nat {
        self.duplicates_removed as nat
    }

    /// One list id per record, and no record twice; every record is filed
    /// under its identity hash.
    pub closed spec fn wf(&self) -> bool {
        &&& self.records@.len() == self.list_ids@.len()
        &&& self.records().no_duplicates()
        &&& self.records@.len() < MAX_URL_RULES
        &&& forall|i: int|
            0 <= i < self.records@.len() ==> self.dedup@.contains_key(
                identity_hash(#[trigger] self.records()[i]),
            ) && self.dedup@[identity_hash(self.records()[i])]@.contains(i as u32)
        &&& forall|h: u64, k: int|
            #![trigger self.dedup@[h]@[k]]
            self.dedup@.contains_key(h) && 0 <= k < self.dedup@[h]@.len() ==> self.dedup@[h]@[k]
                < self.records@.len()
    }

    /// Room for `n` more rules: every index stays below `MAX_URL_RULES` and
    /// the duplicate count cannot overflow.
    pub open spec fn room_for(&self, n: nat) -> bool {
        &&& self.records().len() + n < MAX_URL_RULES
        &&& self.duplicates() + n <= usize::MAX
    }

    /// Room for one more rule.
    pub open spec fn has_room(&self) -> bool {
        self.room_for(1)
    }

    pub fn new() -> (b: UrlIndexBuilder)
        ensures
            b.wf(),
            b.has_room(),
            b.records().len() == 0,
            b.list_ids().len() == 0,
            b.duplicates() == 0,
    {
        let b = UrlIndexBuilder {
            records: Vec::new(),
            list_ids: Vec::new(),
            duplicates_removed: 0,
            dedup: HashMap::new(),
        };
        assert(b.records() =~= Seq::<RecordV>::empty());
        b
    }

    /// How many distinct rules are compiled.
    pub fn len(&self) -> (n: usize)
        ensures
            n == self.records().len(),
    {
        self.records.len()
    }

    pub fn duplicates_removed(&self) -> (n: usize)
        ensures
            n == self.duplicates(),
    {
        self.duplicates_removed
    }

    /// Index of a compiled record equal to `r`, if any, found among those
    /// sharing its identity hash `h`.
    fn find(&self, r: &Record, h: u64) -> (i: Option<usize>)
        requires
            self.wf(),
            h == identity_hash(r@),
        ensures
            match i {
                Some(k) => k < self.records@.len() && self.records()[k as int] == r@,
                None => !self.records().contains(r@),
            },
    {
        broadcast use vstd::std_specs::hash::group_hash_axioms;

        match self.dedup.get(&h) {
            None => {
                proof {
                    if self.records().contains(r@) {
                        let j = choose|j: int| 0 <= j < self.records().len() && self.records()[j] == r@;
                        assert(self.dedup@.contains_key(identity_hash(self.records()[j])));
                    }
                }
                None
            },
            Some(candidates) => {
                let mut k: usize = 0;
                while k < candidates.len()
                    invariant
                        self.wf(),
                        self.dedup@.contains_key(h),
                        candidates@ == self.dedup@[h]@,
                        k <= candidates.len(),
                        forall|x: int| 0 <= x < k ==> self.records()[candidates@[x] as int] != r@,
                    decreases candidates.len() - k,
                {
                    let index = candidates[k] as usize;
                    assert(self.dedup@[h]@[k as int] < self.records@.len());
                    if same_record(&self.records[index], r) {
                        return Some(index);
                    }
                    k += 1;
                }
                proof {
                    if self.records().contains(r@) {
                        let j = choose|j: int| 0 <= j < self.records().len() && self.records()[j] == r@;
                        assert(self.dedup@[identity_hash(self.records()[j])]@.contains(j as u32));
                        let x = choose|x: int| 0 <= x < candidates@.len() && candidates@[x] == j as u32;
                        assert(self.records()[candidates@[x] as int] != r@);
                    }
                }
                None
            },
        }
    }

    /// Compiles one rule of list `list_id`.
    pub fn add(&mut self, list_id: u16, rule: &UrlRule)
        requires
            old(self).wf(),
            old(self).has_room(),
        ensures
            final(self).wf(),
            final(self).records() == url_add_view(old(self).records(), rule@).0,
            final(self).duplicates() == old(self).duplicates() + if url_add_view(
                old(self).records(),
                rule@,
            ).1 {
                1nat
            } else {
                0nat
            },
            final(self).list_ids() == if final(self).records().len() > old(self).records().len() {
                old(self).list_ids().push(list_id)
            } else {
                old(self).list_ids()
            },
            final(self).records().len() <= old(self).records().len() + 1,
            final(self).duplicates() <= old(self).duplicates() + 1,
    {
        let pattern = bytes_of(&*rule.pattern);
        assert(pattern@ == encode_utf8_of(rule@.pattern));
        if pattern.len() > 0xFFFF || pattern.len() == 0 {
            assert(!url_rule_fits(rule@));
            return;
        }
        let domains: Vec<char> = match &rule.domains {
            Some(d) => {
                let dv: &str = &**d;
                assert(dv@ == rule@.domains.unwrap());
                if bytes_of(dv).len() > 0xFFFF {
                    assert(dv@ == rule@.domains.unwrap());
                    assert(!url_rule_fits(rule@));
                    return;
                }
                assert(encode_utf8_of(rule@.domains.unwrap()).len() <= 0xFFFF);
                chars_of(dv)
            },
            None => Vec::new(),
        };
        assert(url_rule_fits(rule@));
        let methods: Option<Vec<char>> = match &rule.methods {
            Some(m) => Some(chars_of(&**m)),
            None => None,
        };
        let record = Record {
            pattern,
            text: chars_of(&*rule.pattern),
            domains,
            methods,
            types: rule.resource_types,
            allow: rule.action == RuleAction::Allow,
            anchor: rule.anchor,
            end_anchored: rule.end_anchored,
            match_case: rule.match_case,
            party: rule.party,
        };
        proof {
            assert(domains@ == match rule@.domains {
                Some(d) => d,
                None => Seq::<char>::empty(),
            });
            assert(record@ == record_of(rule@, encode_utf8_of(rule@.pattern)));
        }
        let h = hash_range(KeyKind::Exact, record.pattern.as_slice(), 0, record.pattern.len());
        proof {
            assert(record.pattern@.subrange(0, record.pattern@.len() as int) =~= record.pattern@);
        }
        match self.find(&record, h) {
            Some(_) => {
                assert(self.records().contains(record@));
                self.duplicates_removed = self.duplicates_removed + 1;
            },
            None => {
                broadcast use vstd::std_specs::hash::group_hash_axioms;

                let ghost before = self.records();
                let ghost old_dedup = self.dedup@;
                let ghost rv = record@;
                let idx = self.records.len();
                self.records.push(record);
                self.list_ids.push(list_id);
                let mut filed: Vec<u32> = match self.dedup.remove(&h) {
                    Some(v) => v,
                    None => Vec::new(),
                };
                let ghost prior = filed@;
                filed.push(idx as u32);
                self.dedup.insert(h, filed);
                proof {
                    assert(self.records() =~= before.push(rv));
                    assert(self.dedup@[h]@ == prior.push(idx as u32));
                    assert(old_dedup.contains_key(h) ==> prior == old_dedup[h]@);
                    assert forall|i: int| 0 <= i < self.records@.len() implies self.dedup@.contains_key(
                        identity_hash(#[trigger] self.records()[i]),
                    ) && self.dedup@[identity_hash(self.records()[i])]@.contains(i as u32) by {
                        if i < idx {
                            let g = identity_hash(self.records()[i]);
                            assert(self.records()[i] == before[i]);
                            assert(old_dedup.contains_key(g) && old_dedup[g]@.contains(i as u32));
                            if g == h {
                                let x = choose|x: int| 0 <= x < prior.len() && prior[x] == i as u32;
                                assert(self.dedup@[h]@[x] == i as u32);
                            }
                        } else {
                            assert(self.dedup@[h]@[prior.len() as int] == idx as u32);
                        }
                    }
                    assert forall|g: u64, k: int|
                        #![trigger self.dedup@[g]@[k]]
                        self.dedup@.contains_key(g) && 0 <= k < self.dedup@[g]@.len() implies self.dedup@[g]@[k]
                            < self.records@.len() by {
                        if g == h {
                            if k < prior.len() {
                                assert(old_dedup[h]@[k] < before.len());
                            }
                        } else {
                            assert(old_dedup[g]@[k] < before.len());
                        }
                    }
                }
            },
        }
    }

    /// Freezes the compiled rules and files each under its rarest key.
    ///
    /// Each rule takes the least common token key it offers across the whole
    /// compile, the longer token breaking ties. A rule with none takes the
    /// least common window of its literal runs, counted across those rules
    /// only; the n-gram buckets that opens are capped at
    /// [`NGRAM_BUCKET_CAP`], and the overflow — with every rule that offers
    /// no key at all — is checked on every lookup. No rule is ever dropped.
    pub fn build(self) -> (index: UrlIndex)
        requires
            self.wf(),
        ensures
            index.wf(),
            index.records() == self.records(),
            index.list_ids() == self.list_ids(),
            index.duplicates() == self.duplicates(),
            index.unindexed_count() <= index.records().len(),
            index.unindexed_count() == count_where(|i: int| index.is_unindexed(i), index.records().len() as int),
            index.ngram_key_count() < NGRAM_BUCKET_CAP ==> index.unindexed_count() == count_where(
                |i: int| !offers_token_key(index.records()[i]) && !offers_window(index.records()[i]),
                index.records().len() as int,
            ),
            index.ngram_key_count() < NGRAM_BUCKET_CAP ==> index.unindexed_count() == count_where(
                |i: int| !offers_window(index.records()[i]),
                index.records().len() as int,
            ),
            index.ngram_key_count() <= NGRAM_BUCKET_CAP,
            index.token_choice().len() == index.records().len(),
            index.window_choice().len() == index.records().len(),
            forall|i: int|
                0 <= i < index.records().len() ==> ((#[trigger] index.token_choice()[i] is Some)
                    == offers_token_key(index.records()[i])) && (index.token_choice()[i] matches Some(h)
                    ==> token_key_of(index.records()[i], h)),
            forall|i: int|
                0 <= i < index.records().len() ==> ((#[trigger] index.window_choice()[i] is Some) == (
                !offers_token_key(index.records()[i]) && offers_window(index.records()[i]))) && (
                index.window_choice()[i] matches Some(w) ==> windowed(index.records()[i].pattern, w)),
            index.ngram_key_count() == ngram_opened(
                keys_upto(index.token_choice(), index.records().len() as int),
                index.window_choice(),
                index.records().len() as int,
            ).len(),
            forall|i: int|
                0 <= i < index.records().len() ==> (#[trigger] index.is_unindexed(i) == (
                index.token_choice()[i] is None && (index.window_choice()[i] is None || ngram_overflow(
                    keys_upto(index.token_choice(), index.records().len() as int),
                    index.window_choice(),
                    i,
                )))),
            forall|i: int|
                0 <= i < index.records().len() && offers_token_key(#[trigger] index.records()[i])
                    ==> !index.is_unindexed(i),
            forall|i: int|
                0 <= i < index.records().len() && !offers_token_key(#[trigger] index.records()[i])
                    && !offers_window(index.records()[i]) ==> index.is_unindexed(i),
            index.ngram_key_count() < NGRAM_BUCKET_CAP ==> forall|i: int|
                0 <= i < index.records().len() && index.is_unindexed(i) ==> !offers_token_key(
                    #[trigger] index.records()[i],
                ) && !offers_window(index.records()[i]),
    {
        let ghost recs = self.records();
        let n = self.records.len();
        // How common each token key is across the compile.
        let mut frequency: HashMap<u64, u32> = HashMap::new();
        let mut i: usize = 0;
        while i < n
            invariant
                n == self.records@.len(),
                i <= n,
            decreases n - i,
        {
            let r = &self.records[i];
            let keys = index_keys(r.pattern.as_slice(), r.anchor, r.end_anchored);
            let mut k: usize = 0;
            while k < keys.len()
                invariant
                    k <= keys.len(),
                decreases keys.len() - k,
            {
                let h = keys[k].0;
                let count: u32 = match frequency.get(&h) {
                    Some(c) => *c,
                    None => 0,
                };
                frequency.insert(h, count.saturating_add(1));
                k += 1;
            }
            i += 1;
        }
        // Each rule's rarest token key.
        let mut token_key: Vec<Option<u64>> = Vec::new();
        i = 0;
        while i < n
            invariant
                n == self.records@.len(),
                recs == self.records(),
                i <= n,
                token_key.len() == i,
                forall|j: int|
                    0 <= j < i ==> (#[trigger] token_key@[j] matches Some(h) ==> token_key_of(recs[j], h)),
                forall|j: int| 0 <= j < i ==> ((#[trigger] token_key@[j] is Some) == offers_token_key(recs[j])),
            decreases n - i,
        {
            let r = &self.records[i];
            let keys = index_keys(r.pattern.as_slice(), r.anchor, r.end_anchored);
            let best = rarest_key(&keys, &frequency);
            proof {
                if let Some(h) = best {
                    let k = choose|k: int| 0 <= k < keys.len() && keys@[k].0 == h;
                    assert(offered_hash(r.pattern@, r.anchor, r.end_anchored, keys@[k].0));
                }
            }
            proof {
                assert(recs[i as int] == self.records@[i as int]@);
            }
            token_key.push(best);
            i += 1;
        }
        // The same over literal-run windows, for the rules left over.
        let mut ngram_frequency: HashMap<u32, u32> = HashMap::new();
        i = 0;
        while i < n
            invariant
                n == self.records@.len(),
                token_key.len() == n,
                i <= n,
            decreases n - i,
        {
            if token_key[i].is_none() {
                let words = ngram_keys(self.records[i].pattern.as_slice());
                let mut k: usize = 0;
                while k < words.len()
                    invariant
                        k <= words.len(),
                    decreases words.len() - k,
                {
                    let w = words[k].0;
                    let count: u32 = match ngram_frequency.get(&w) {
                        Some(c) => *c,
                        None => 0,
                    };
                    ngram_frequency.insert(w, count.saturating_add(1));
                    k += 1;
                }
            }
            i += 1;
        }
        let mut window_key: Vec<Option<u32>> = Vec::new();
        i = 0;
        while i < n
            invariant
                n == self.records@.len(),
                recs == self.records(),
                token_key.len() == n,
                i <= n,
                window_key.len() == i,
                forall|j: int|
                    0 <= j < i ==> (#[trigger] window_key@[j] matches Some(w) ==> windowed(recs[j].pattern, w)),
                forall|j: int|
                    0 <= j < i && token_key@[j] is None ==> ((#[trigger] window_key@[j] is Some) == offers_window(
                        recs[j],
                    )),
                forall|j: int| 0 <= j < i && (#[trigger] token_key@[j]) is Some ==> window_key@[j] is None,
            decreases n - i,
        {
            if token_key[i].is_none() {
                let words = ngram_keys(self.records[i].pattern.as_slice());
                let best = rarest_word(&words, &ngram_frequency);
                proof {
                    if let Some(w) = best {
                        let k = choose|k: int| 0 <= k < words.len() && words@[k].0 == w;
                        assert(windowed(self.records@[i as int].pattern@, words@[k].0));
                    }
                }
                proof {
                    assert(recs[i as int] == self.records@[i as int]@);
                }
                window_key.push(best);
            } else {
                window_key.push(None);
            }
            i += 1;
        }
        // Buckets: every token key first, then the n-gram keys.
        let mut slots: HashMap<u64, usize> = HashMap::new();
        let mut buckets: Vec<Vec<u32>> = Vec::new();
        let mut placed: Vec<bool> = Vec::new();
        while placed.len() < n
            invariant
                placed.len() <= n,
                forall|j: int| 0 <= j < placed.len() ==> !#[trigger] placed@[j],
            decreases n - placed.len(),
        {
            placed.push(false);
        }
        let mut by_window: Vec<Option<u32>> = Vec::new();
        while by_window.len() < n
            invariant
                by_window.len() <= n,
                forall|j: int| 0 <= j < by_window.len() ==> #[trigger] by_window@[j] is None,
            decreases n - by_window.len(),
        {
            by_window.push(None);
        }
        let ghost mut under: Seq<u64> = Seq::new(n as nat, |j: int| 0u64);
        let mut sweep = false;
        i = 0;
        while i < n
            invariant
                n == self.records@.len(),
                n < MAX_URL_RULES,
                recs == self.records(),
                token_key.len() == n,
                forall|j: int|
                    0 <= j < n ==> (#[trigger] token_key@[j] matches Some(h) ==> token_key_of(recs[j], h)),
                i <= n,
                placed.len() == n,
                under.len() == n,
                !sweep,
                by_window.len() == n,
                forall|j: int| 0 <= j < n ==> #[trigger] by_window@[j] is None,
                forall|j: int| i <= j < n ==> !#[trigger] placed@[j],
                forall|j: int| 0 <= j < i ==> (#[trigger] placed@[j] == (token_key@[j] is Some)),
                slots@.dom() == keys_upto(token_key@, i as int),
                forall|j: int| 0 <= j < n ==> ((#[trigger] token_key@[j] is Some) == offers_token_key(recs[j])),
                buckets_wf(slots@, buckets@, n as int),
                forall|b: int, k: int|
                    0 <= b < buckets@.len() && 0 <= k < buckets@[b]@.len() ==> placed@[(#[trigger] buckets@[b]@[k]) as int],
                forall|j: int|
                    0 <= j < n && #[trigger] placed@[j] ==> filed_at(slots@, buckets@, under[j], j)
                        && placed_ok(recs[j], under[j], by_window@[j]),
            decreases n - i,
        {
            proof {
                lemma_keys_upto_step(token_key@, i as int);
            }
            if let Some(h) = token_key[i] {
                let ghost old_slots = slots@;
                let ghost old_buckets = buckets@;
                let ghost old_placed = placed@;
                proof {
                    lemma_unplaced_absent(buckets@, placed@, i as int);
                }
                place(&mut slots, &mut buckets, h, i as u32, n);
                placed.set(i, true);
                proof {
                    lemma_placed_after(old_buckets, buckets@, old_placed, placed@, i as int);
                }
                proof {
                    under = under.update(i as int, h);
                }
            }
            i += 1;
        }
        let ngram_start = buckets.len();
        let ghost tokset = keys_upto(token_key@, n as int);
        i = 0;
        while i < n
            invariant
                n == self.records@.len(),
                n < MAX_URL_RULES,
                recs == self.records(),
                window_key.len() == n,
                forall|j: int|
                    0 <= j < n ==> (#[trigger] window_key@[j] matches Some(w) ==> windowed(recs[j].pattern, w)),
                i <= n,
                placed.len() == n,
                token_key.len() == n,
                forall|j: int| 0 <= j < n ==> ((#[trigger] token_key@[j] is Some) == offers_token_key(recs[j])),
                forall|j: int|
                    0 <= j < n && token_key@[j] is None ==> ((#[trigger] window_key@[j] is Some) == offers_window(
                        recs[j],
                    )),
                forall|j: int| 0 <= j < n && (#[trigger] token_key@[j]) is Some ==> placed@[j],
                forall|j: int|
                    0 <= j < n && token_key@[j] is None && (#[trigger] window_key@[j]) is None ==> !placed@[j],
                forall|j: int|
                    0 <= j < i && !(#[trigger] placed@[j]) && token_key@[j] is None && window_key@[j] is Some
                        ==> buckets.len() - ngram_start >= NGRAM_BUCKET_CAP,
                forall|j: int| 0 <= j < n && (#[trigger] token_key@[j]) is Some ==> window_key@[j] is None,
                forall|j: int| i <= j < n ==> (#[trigger] placed@[j] == (token_key@[j] is Some)),
                tokset == keys_upto(token_key@, n as int),
                slots@.dom() == tokset.union(ngram_opened(tokset, window_key@, i as int)),
                buckets@.len() - ngram_start == ngram_opened(tokset, window_key@, i as int).len(),
                forall|j: int|
                    0 <= j < i && token_key@[j] is None && (#[trigger] window_key@[j]) is Some ==> placed@[j]
                        == !ngram_overflow(tokset, window_key@, j),
                under.len() == n,
                ngram_start <= buckets.len() <= ngram_start + NGRAM_BUCKET_CAP,
                buckets_wf(slots@, buckets@, n as int),
                forall|b: int, k: int|
                    0 <= b < buckets@.len() && 0 <= k < buckets@[b]@.len() ==> placed@[(#[trigger] buckets@[b]@[k]) as int],
                by_window.len() == n,
                forall|j: int| 0 <= j < n && (#[trigger] by_window@[j]) is Some ==> sweep,
                forall|j: int|
                    0 <= j < n && #[trigger] placed@[j] ==> filed_at(slots@, buckets@, under[j], j)
                        && placed_ok(recs[j], under[j], by_window@[j]),
            decreases n - i,
        {
            let ghost o = ngram_opened(tokset, window_key@, i as int);
            proof {
                lemma_ngram_opened_finite(tokset, window_key@, i as int);
            }
            if !placed[i] {
                if let Some(w) = window_key[i] {
                    let h = ngram_hash(w);
                    let known = slots.contains_key(&h);
                    proof {
                        assert(known == (tokset.contains(h) || o.contains(h)));
                        if !known {
                            assert(o.insert(h).len() == o.len() + 1);
                        }
                    }
                    if known || buckets.len() - ngram_start < NGRAM_BUCKET_CAP {
                        let ghost old_slots = slots@;
                        let ghost old_buckets = buckets@;
                        let ghost old_placed = placed@;
                        proof {
                            lemma_unplaced_absent(buckets@, placed@, i as int);
                        }
                        place(&mut slots, &mut buckets, h, i as u32, n);
                        placed.set(i, true);
                        proof {
                            lemma_placed_after(old_buckets, buckets@, old_placed, placed@, i as int);
                        }
                        by_window.set(i, Some(w));
                        sweep = true;
                        proof {
                            assert(windowed(recs[i as int].pattern, w));
                            under = under.update(i as int, h);
                        }
                    }
                }
            }
            proof {
                assert(slots@.dom() =~= tokset.union(ngram_opened(tokset, window_key@, i + 1)));
            }
            i += 1;
        }
        // The prefilter: one bit per window an n-gram key was taken from.
        let mut bits: Vec<u64> = Vec::new();
        if sweep {
            let keys = buckets.len() - ngram_start;
            let mut words: usize = 8;
            while words < keys
                invariant
                    8 <= words <= 2 * NGRAM_BUCKET_CAP,
                    keys <= NGRAM_BUCKET_CAP,
                decreases 2 * NGRAM_BUCKET_CAP - words,
            {
                words = words * 2;
            }
            while bits.len() < words
                invariant
                    bits.len() <= words,
                decreases words - bits.len(),
            {
                bits.push(0u64);
            }
            i = 0;
            while i < n
                invariant
                    by_window.len() == n,
                    i <= n,
                    0 < bits.len() <= 2 * NGRAM_BUCKET_CAP,
                    forall|j: int|
                        0 <= j < i ==> (#[trigger] by_window@[j] matches Some(w) ==> bloom_has(bits@, w)),
                decreases n - i,
            {
                if let Some(w) = by_window[i] {
                    let (word, shift) = bloom_slot(w, bits.len());
                    let ghost before = bits@;
                    let updated = bits[word] | (1u64 << shift);
                    bits.set(word, updated);
                    proof {
                        let mask = (bits@.len() * 64 - 1) as usize;
                        lemma_set_bit(before[word as int], shift, 0);
                        assert(bits@.len() == before.len());
                        assert(bloom_has(bits@, w));
                        assert forall|j: int|
                            0 <= j < i + 1 implies (#[trigger] by_window@[j] matches Some(v) ==> bloom_has(bits@, v)) by {
                            if let Some(v) = by_window@[j] {
                                if j < i {
                                    let b = crate::url_keys::spec_bloom_bit(v, mask);
                                    crate::url_keys::lemma_bloom_bit_bound(v, mask);
                                    let m = 1u64 << ((b % 64) as u64);
                                    assert(bloom_has(before, v));
                                    assert(before[(b / 64) as int] & m != 0);
                                    if (b / 64) as int == word as int {
                                        lemma_set_bit(before[word as int], shift, m);
                                    } else {
                                        assert(bits@[(b / 64) as int] == before[(b / 64) as int]);
                                    }
                                }
                            }
                        }
                    }
                }
                i += 1;
            }
        }
        // Whatever no key reaches, in record order.
        let mut unindexed: Vec<u32> = Vec::new();
        i = 0;
        while i < n
            invariant
                n < MAX_URL_RULES,
                placed.len() == n,
                i <= n,
                forall|k: int| 0 <= k < unindexed.len() ==> #[trigger] unindexed@[k] < n,
                forall|j: int| 0 <= j < i && !#[trigger] placed@[j] ==> unindexed@.contains(j as u32),
                unindexed.len() <= i,
                forall|k: int| 0 <= k < unindexed.len() ==> !placed@[(#[trigger] unindexed@[k]) as int],
                unindexed.len() == count_where(|j: int| !placed@[j], i as int),
            decreases n - i,
        {
            let ghost before = unindexed@;
            if !placed[i] {
                unindexed.push(i as u32);
            }
            proof {
                assert forall|j: int| 0 <= j < i + 1 && !#[trigger] placed@[j] implies unindexed@.contains(
                    j as u32,
                ) by {
                    if j < i {
                        let x = choose|x: int| 0 <= x < before.len() && before[x] == j as u32;
                        assert(unindexed@[x] == j as u32);
                    } else {
                        assert(unindexed@[unindexed@.len() - 1] == j as u32);
                    }
                }
            }
            i += 1;
        }
        let index = UrlIndex {
            records: self.records,
            list_ids: self.list_ids,
            duplicates_removed: self.duplicates_removed,
            slots,
            buckets,
            ngram_bucket_start: ngram_start,
            sweep,
            ngram_bits: bits,
            unindexed,
            budget_exhausted: AtomicU64::new(0),
            filed_under: Ghost(under),
            filed_window: Ghost(Seq::new(n as nat, |j: int| match by_window@[j] {
                Some(w) => w,
                None => 0u32,
            })),
            token_choice: Ghost(token_key@),
            window_choice: Ghost(window_key@),
        };
        proof {
            assert forall|j: int| 0 <= j < index.records@.len() implies #[trigger] index.reached(j) by {
                if placed@[j] {
                    assert(filed_at(index.slots@, index.buckets@, under[j], j));
                    if let Some(w) = by_window@[j] {
                        assert(index.filed_window@[j] == w);
                    }
                } else {
                    assert(index.unindexed@.contains(j as u32));
                }
            }
            assert forall|j: int| 0 <= j < n implies (!placed@[j]) == index.is_unindexed(j) by {
                if index.is_unindexed(j) {
                    let x = choose|x: int| 0 <= x < index.unindexed@.len() && index.unindexed@[x] == j as u32;
                    assert(!placed@[index.unindexed@[x] as int]);
                }
            }
            lemma_count_same(|j: int| !placed@[j], |i: int| index.is_unindexed(i), n as int);
            if index.ngram_key_count() < NGRAM_BUCKET_CAP {
                assert forall|j: int| 0 <= j < n implies index.is_unindexed(j) == (!offers_token_key(
                    index.records()[j],
                ) && !offers_window(index.records()[j])) by {
                    assert(index.records()[j] == recs[j]);
                    if index.is_unindexed(j) {
                        assert(!placed@[j]);
                    } else {
                        assert(placed@[j]);
                    }
                }
                lemma_count_same(
                    |i: int| index.is_unindexed(i),
                    |i: int| !offers_token_key(index.records()[i]) && !offers_window(index.records()[i]),
                    n as int,
                );
                assert forall|j: int| 0 <= j < n implies (!offers_token_key(index.records()[j]) && !offers_window(
                    index.records()[j],
                )) == !offers_window(index.records()[j]) by {
                    lemma_token_key_gives_window(index.records()[j]);
                }
                lemma_count_same(
                    |i: int| !offers_token_key(index.records()[i]) && !offers_window(index.records()[i]),
                    |i: int| !offers_window(index.records()[i]),
                    n as int,
                );
            }
            assert forall|j: int|
                0 <= j < index.records().len() && !offers_token_key(#[trigger] index.records()[j])
                    && !offers_window(index.records()[j]) implies index.is_unindexed(j) by {
                assert(token_key@[j] is None);
                assert(window_key@[j] is None);
                assert(!placed@[j]);
            }
        }
        index
    }
}

/// Ceiling on how many buckets the n-gram tier may open; the overflow is
/// checked on every lookup instead. It keeps a lookup's visited set small.
pub const NGRAM_BUCKET_CAP: usize = 1024;

/// Every slot names a bucket, and every bucket holds record indices below
/// `n`.
pub open spec fn buckets_wf(slots: Map<u64, usize>, buckets: Seq<Vec<u32>>, n: int) -> bool {
    &&& forall|h: u64| #[trigger] slots.contains_key(h) ==> slots[h] < buckets.len()
    &&& forall|b: int, k: int|
        0 <= b < buckets.len() && 0 <= k < buckets[b]@.len() ==> (#[trigger] buckets[b]@[k]) < n
    &&& forall|b: int| 0 <= b < buckets.len() ==> (#[trigger] buckets[b])@.no_duplicates()
}

/// Record `i` sits in the bucket of key `h`.
pub open spec fn filed_at(slots: Map<u64, usize>, buckets: Seq<Vec<u32>>, h: u64, i: int) -> bool {
    &&& slots.contains_key(h)
    &&& buckets[slots[h] as int]@.contains(i as u32)
}

/// How record `r` came to be filed under `h`: by a token key it offers, or
/// by the window `w` of one of its literal runs.
pub open spec fn placed_ok(r: RecordV, h: u64, w: Option<u32>) -> bool {
    token_key_of(r, h) || (w matches Some(v) && windowed(r.pattern, v) && spec_ngram_hash(v) == h)
}

/// The token keys among the first `i` choices.
pub open spec fn keys_upto(tc: Seq<Option<u64>>, i: int) -> Set<u64> {
    Set::new(|h: u64| exists|j: int| 0 <= j < i && tc[j] == Some(h))
}

/// The n-gram keys opened by the first `i` window choices, in order: a
/// window's key opens a bucket unless a token key or an earlier window
/// already has it, or [`NGRAM_BUCKET_CAP`] buckets are open.
pub open spec fn ngram_opened(tokens: Set<u64>, wc: Seq<Option<u32>>, i: int) -> Set<u64>
    decreases i,
{
    if i <= 0 {
        Set::empty()
    } else {
        let o = ngram_opened(tokens, wc, i - 1);
        match wc[i - 1] {
            Some(w) => {
                let h = spec_ngram_hash(w);
                if tokens.contains(h) || o.contains(h) || o.len() >= NGRAM_BUCKET_CAP {
                    o
                } else {
                    o.insert(h)
                }
            },
            None => o,
        }
    }
}

/// Window choice `i` finds its key neither taken nor room to open it, so
/// its rule falls back to being checked on every lookup.
pub open spec fn ngram_overflow(tokens: Set<u64>, wc: Seq<Option<u32>>, i: int) -> bool {
    match wc[i] {
        Some(w) => {
            let h = spec_ngram_hash(w);
            let o = ngram_opened(tokens, wc, i);
            !tokens.contains(h) && !o.contains(h) && o.len() >= NGRAM_BUCKET_CAP
        },
        None => false,
    }
}

/// One more choice adds its key, if it has one.
pub proof fn lemma_keys_upto_step(tc: Seq<Option<u64>>, i: int)
    requires
        0 <= i < tc.len(),
    ensures
        keys_upto(tc, i + 1) == match tc[i] {
            Some(h) => keys_upto(tc, i).insert(h),
            None => keys_upto(tc, i),
        },
{
    let next = match tc[i] {
        Some(h) => keys_upto(tc, i).insert(h),
        None => keys_upto(tc, i),
    };
    assert forall|g: u64| keys_upto(tc, i + 1).contains(g) == next.contains(g) by {
        if keys_upto(tc, i + 1).contains(g) {
            let j = choose|j: int| 0 <= j < i + 1 && tc[j] == Some(g);
            if j < i {
                assert(keys_upto(tc, i).contains(g));
            }
        }
        if keys_upto(tc, i).contains(g) {
            let j = choose|j: int| 0 <= j < i && tc[j] == Some(g);
            assert(0 <= j < i + 1 && tc[j] == Some(g));
        }
        if tc[i] == Some(g) {
            assert(0 <= i < i + 1 && tc[i] == Some(g));
        }
    }
    assert(keys_upto(tc, i + 1) =~= next);
}

/// The opened keys are finitely many.
pub proof fn lemma_ngram_opened_finite(tokens: Set<u64>, wc: Seq<Option<u32>>, i: int)
    ensures
        ngram_opened(tokens, wc, i).finite(),
    decreases i,
{
    if i > 0 {
        lemma_ngram_opened_finite(tokens, wc, i - 1);
    }
}

/// How many of `0..n` satisfy `p`.
pub open spec fn count_where(p: spec_fn(int) -> bool, n: int) -> nat
    decreases n,
{
    if n <= 0 {
        0
    } else {
        count_where(p, n - 1) + if p(n - 1) {
            1nat
        } else {
            0nat
        }
    }
}

proof fn lemma_count_same(p: spec_fn(int) -> bool, q: spec_fn(int) -> bool, n: int)
    requires
        forall|j: int| 0 <= j < n ==> #[trigger] p(j) == q(j),
    ensures
        count_where(p, n) == count_where(q, n),
    decreases n,
{
    if n > 0 {
        lemma_count_same(p, q, n - 1);
    }
}

/// A record not yet placed sits in no bucket.
proof fn lemma_unplaced_absent(buckets: Seq<Vec<u32>>, placed: Seq<bool>, i: int)
    requires
        0 <= i < placed.len(),
        i < 0x1_0000_0000,
        !placed[i],
        forall|b: int, k: int|
            0 <= b < buckets.len() && 0 <= k < buckets[b]@.len() ==> placed[(#[trigger] buckets[b]@[k]) as int],
    ensures
        forall|b: int| 0 <= b < buckets.len() ==> !(#[trigger] buckets[b])@.contains(i as u32),
{
    assert forall|b: int| 0 <= b < buckets.len() implies !(#[trigger] buckets[b])@.contains(i as u32) by {
        if buckets[b]@.contains(i as u32) {
            let k = choose|k: int| 0 <= k < buckets[b]@.len() && buckets[b]@[k] == i as u32;
            assert(placed[buckets[b]@[k] as int]);
        }
    }
}

/// Once record `i` is filed and marked, every bucket entry is still a
/// placed record.
proof fn lemma_placed_after(
    before: Seq<Vec<u32>>,
    after: Seq<Vec<u32>>,
    placed_before: Seq<bool>,
    placed_after: Seq<bool>,
    i: int,
)
    requires
        0 <= i < placed_before.len(),
        i < 0x1_0000_0000,
        placed_after == placed_before.update(i, true),
        forall|b: int, k: int|
            0 <= b < after.len() && 0 <= k < after[b]@.len() ==> ((#[trigger] after[b]@[k]) as int)
                < placed_before.len(),
        forall|b: int, k: int|
            0 <= b < before.len() && 0 <= k < before[b]@.len() ==> placed_before[(#[trigger] before[b]@[k]) as int],
        forall|b: int, k: int|
            0 <= b < after.len() && 0 <= k < after[b]@.len() ==> #[trigger] after[b]@[k] == i as u32 || (b
                < before.len() && k < before[b]@.len() && after[b]@[k] == before[b]@[k]),
    ensures
        forall|b: int, k: int|
            0 <= b < after.len() && 0 <= k < after[b]@.len() ==> placed_after[(#[trigger] after[b]@[k]) as int],
{
    assert forall|b: int, k: int| 0 <= b < after.len() && 0 <= k < after[b]@.len() implies placed_after[(
    #[trigger] after[b]@[k]) as int] by {
        if after[b]@[k] != i as u32 {
            assert(placed_before[before[b]@[k] as int]);
            assert(after[b]@[k] as int != i);
        }
    }
}

/// Files record `i` under key `h`, opening the key's bucket if it has none.
fn place(slots: &mut HashMap<u64, usize>, buckets: &mut Vec<Vec<u32>>, h: u64, i: u32, n: usize)
    requires
        buckets_wf(old(slots)@, old(buckets)@, n as int),
        i < n,
        forall|b: int| 0 <= b < old(buckets)@.len() ==> !(#[trigger] old(buckets)@[b])@.contains(i),
    ensures
        buckets_wf(final(slots)@, final(buckets)@, n as int),
        forall|b: int, k: int|
            0 <= b < final(buckets)@.len() && 0 <= k < final(buckets)@[b]@.len()
                ==> #[trigger] final(buckets)@[b]@[k] == i || (b < old(buckets)@.len() && k < old(buckets)@[b]@.len()
                && final(buckets)@[b]@[k] == old(buckets)@[b]@[k]),
        filed_at(final(slots)@, final(buckets)@, h, i as int),
        final(slots)@.dom() == old(slots)@.dom().insert(h),
        final(buckets)@.len() == old(buckets)@.len() + if old(slots)@.contains_key(h) {
            0int
        } else {
            1int
        },
        forall|g: u64, j: int|
            filed_at(old(slots)@, old(buckets)@, g, j) ==> #[trigger] filed_at(
                final(slots)@,
                final(buckets)@,
                g,
                j,
            ),
{
    broadcast use vstd::std_specs::hash::group_hash_axioms;

    let ghost old_slots = slots@;
    let ghost old_buckets = buckets@;
    let b = match slots.get(&h) {
        Some(b) => *b,
        None => {
            let b = buckets.len();
            slots.insert(h, b);
            buckets.push(Vec::new());
            b
        },
    };
    let ghost mid = buckets@;
    buckets[b].push(i);
    proof {
        assert(buckets@[b as int]@ == mid[b as int]@.push(i));
        assert(buckets@[b as int]@[buckets@[b as int]@.len() - 1] == i);
        assert forall|x: int| 0 <= x < buckets@.len() && x != b implies buckets@[x] == mid[x] by {}
        assert forall|g: u64, j: int| filed_at(old_slots, old_buckets, g, j) implies #[trigger] filed_at(
            slots@,
            buckets@,
            g,
            j,
        ) by {
            let x = old_slots[g] as int;
            assert(slots@[g] == old_slots[g]);
            assert(mid[x] == old_buckets[x]);
            let k = choose|k: int| 0 <= k < old_buckets[x]@.len() && old_buckets[x]@[k] == j as u32;
            assert(buckets@[x]@[k] == j as u32);
        }
        assert forall|b2: int, k: int|
            0 <= b2 < buckets@.len() && 0 <= k < buckets@[b2]@.len() implies (#[trigger] buckets@[b2]@[k])
            < n by {
            if b2 != b {
                assert(buckets@[b2] == mid[b2]);
            } else if k < mid[b2]@.len() {
                assert(buckets@[b2]@[k] == mid[b2]@[k]);
            }
        }
        assert forall|b2: int| 0 <= b2 < buckets@.len() implies (#[trigger] buckets@[b2])@.no_duplicates() by {
            if b2 != b {
                assert(buckets@[b2] == mid[b2]);
                if b2 < old_buckets.len() {
                    assert(mid[b2] == old_buckets[b2]);
                }
            } else {
                if b2 < old_buckets.len() {
                    assert(mid[b2] == old_buckets[b2]);
                    assert(!old_buckets[b2]@.contains(i));
                } else {
                    assert(mid[b2]@.len() == 0);
                }
                assert forall|x: int, y: int|
                    0 <= x < buckets@[b2]@.len() && 0 <= y < buckets@[b2]@.len() && x != y implies buckets@[b2]@[x]
                    != buckets@[b2]@[y] by {
                    if x < mid[b2]@.len() && y < mid[b2]@.len() {
                        assert(buckets@[b2]@[x] == mid[b2]@[x]);
                        assert(buckets@[b2]@[y] == mid[b2]@[y]);
                    } else if x < mid[b2]@.len() {
                        assert(buckets@[b2]@[x] == mid[b2]@[x]);
                    } else if y < mid[b2]@.len() {
                        assert(buckets@[b2]@[y] == mid[b2]@[y]);
                    }
                }
            }
        }
        assert forall|b2: int, k: int|
            0 <= b2 < buckets@.len() && 0 <= k < buckets@[b2]@.len() implies #[trigger] buckets@[b2]@[k] == i || (
            b2 < old_buckets.len() && k < old_buckets[b2]@.len() && buckets@[b2]@[k] == old_buckets[b2]@[k]) by {
            if b2 != b {
                assert(buckets@[b2] == mid[b2]);
            } else if k < mid[b2]@.len() {
                assert(buckets@[b2]@[k] == mid[b2]@[k]);
            }
            if b2 < old_buckets.len() {
                assert(mid[b2] == old_buckets[b2]);
            } else {
                assert(mid[b2]@.len() == 0);
            }
        }
        assert(slots@.dom() =~= old_slots.dom().insert(h));
    }
}

/// The key of `keys` least common in `frequency`, the longer token breaking
/// ties; `None` for no keys.
fn rarest_key(keys: &Vec<(u64, usize)>, frequency: &HashMap<u64, u32>) -> (best: Option<u64>)
    ensures
        best is None <==> keys.len() == 0,
        best matches Some(h) ==> exists|k: int| 0 <= k < keys.len() && keys@[k].0 == h,
{
    let mut best: Option<(u32, usize, u64)> = None;
    let mut k: usize = 0;
    while k < keys.len()
        invariant
            k <= keys.len(),
            best is None <==> k == 0,
            best matches Some(b) ==> exists|x: int| 0 <= x < k && keys@[x].0 == b.2,
        decreases keys.len() - k,
    {
        let (h, len) = keys[k];
        let count: u32 = match frequency.get(&h) {
            Some(c) => *c,
            None => u32::MAX,
        };
        let better = match best {
            None => true,
            Some((best_count, best_len, _)) => count < best_count || (count == best_count && len
                > best_len),
        };
        if better {
            best = Some((count, len, h));
            assert(keys@[k as int].0 == h);
        }
        k += 1;
    }
    match best {
        Some((_, _, h)) => Some(h),
        None => None,
    }
}

/// The window of `words` least common in `frequency`, the longer run
/// breaking ties; `None` for no windows.
fn rarest_word(words: &Vec<(u32, usize)>, frequency: &HashMap<u32, u32>) -> (best: Option<u32>)
    ensures
        best is None <==> words.len() == 0,
        best matches Some(w) ==> exists|k: int| 0 <= k < words.len() && words@[k].0 == w,
{
    let mut best: Option<(u32, usize, u32)> = None;
    let mut k: usize = 0;
    while k < words.len()
        invariant
            k <= words.len(),
            best is None <==> k == 0,
            best matches Some(b) ==> exists|x: int| 0 <= x < k && words@[x].0 == b.2,
        decreases words.len() - k,
    {
        let (w, run) = words[k];
        let count: u32 = match frequency.get(&w) {
            Some(c) => *c,
            None => u32::MAX,
        };
        let better = match best {
            None => true,
            Some((best_count, best_run, _)) => count < best_count || (count == best_count && run
                > best_run),
        };
        if better {
            best = Some((count, run, w));
            assert(words@[k as int].0 == w);
        }
        k += 1;
    }
    match best {
        Some((_, _, w)) => Some(w),
        None => None,
    }
}

impl Default for UrlIndexBuilder {
    fn default() -> (b: UrlIndexBuilder)
        ensures
            b.wf(),
            b.has_room(),
            b.records().len() == 0,
            b.duplicates() == 0,
    {
        UrlIndexBuilder::new()
    }
}

/// Whether two records are the same rule.
fn same_record(a: &Record, b: &Record) -> (r: bool)
    ensures
        r == (a@ == b@),
{
    if a.types != b.types || a.allow != b.allow || a.end_anchored != b.end_anchored || a.match_case
        != b.match_case {
        return false;
    }
    let same_anchor = match (a.anchor, b.anchor) {
        (UrlAnchor::Domain, UrlAnchor::Domain) => true,
        (UrlAnchor::Start, UrlAnchor::Start) => true,
        (UrlAnchor::Anywhere, UrlAnchor::Anywhere) => true,
        _ => false,
    };
    let same_party = match (a.party, b.party) {
        (Party::Any, Party::Any) => true,
        (Party::Third, Party::Third) => true,
        (Party::First, Party::First) => true,
        _ => false,
    };
    if !same_anchor || !same_party {
        return false;
    }
    if !eq_bytes(a.pattern.as_slice(), b.pattern.as_slice()) {
        return false;
    }
    if !crate::text::eq_chars(a.text.as_slice(), b.text.as_slice()) {
        return false;
    }
    if !crate::text::eq_chars(a.domains.as_slice(), b.domains.as_slice()) {
        return false;
    }
    match (&a.methods, &b.methods) {
        (Some(x), Some(y)) => crate::text::eq_chars(x.as_slice(), y.as_slice()),
        (None, None) => true,
        _ => false,
    }
}

fn eq_bytes(a: &[u8], b: &[u8]) -> (r: bool)
    ensures
        r == (a@ == b@),
{
    if a.len() != b.len() {
        return false;
    }
    let mut k: usize = 0;
    while k < a.len()
        invariant
            a.len() == b.len(),
            k <= a.len(),
            forall|j: int| 0 <= j < k ==> a@[j] == b@[j],
        decreases a.len() - k,
    {
        if a[k] != b[k] {
            return false;
        }
        k += 1;
    }
    assert(a@ =~= b@);
    true
}

// ─── The compiled tier ────────────────────────────────────────────────────

/// What a URL-tier lookup found: the deciding record, or nothing.
#[derive(Debug, Clone, Copy, PartialEq, Eq)]
pub enum UrlDecision {
    Allow(u32),
    Block(u32),
    Pass,
}

/// The first `n` records scanned: the first that allows, and the first that
/// blocks before it.
pub open spec fn scan(recs: Seq<RecordV>, q: RequestV, n: int) -> (Option<int>, Option<int>)
    decreases n,
{
    if n <= 0 || n > recs.len() {
        (None, None)
    } else {
        let (a, b) = scan(recs, q, n - 1);
        if a is Some {
            (a, b)
        } else if applies(recs[n - 1], q) {
            if recs[n - 1].allow {
                (Some(n - 1), b)
            } else {
                (
                    None,
                    if b is Some {
                        b
                    } else {
                        Some(n - 1)
                    },
                )
            }
        } else {
            (a, b)
        }
    }
}

/// The decision over all records: an allow anywhere wins, else the first
/// block, else nothing.
pub open spec fn decide(recs: Seq<RecordV>, q: RequestV) -> UrlDecision {
    match scan(recs, q, recs.len() as int) {
        (Some(i), _) => UrlDecision::Allow(i as u32),
        (None, Some(i)) => UrlDecision::Block(i as u32),
        (None, None) => UrlDecision::Pass,
    }
}

/// The compiled, immutable URL tier.
pub struct UrlIndex {
    records: Vec<Record>,
    list_ids: Vec<u16>,
    duplicates_removed: usize,
    /// Key hash to bucket.
    slots: HashMap<u64, usize>,
    /// The records filed under each key, in record order.
    buckets: Vec<Vec<u32>>,
    /// The n-gram tier's buckets come from here on.
    ngram_bucket_start: usize,
    /// Some rule is filed under an n-gram key, so a lookup sweeps.
    sweep: bool,
    /// Prefilter over the windows the n-gram keys were taken from.
    ngram_bits: Vec<u64>,
    /// The records no key reaches, checked on every lookup, in record order.
    unindexed: Vec<u32>,
    /// Lookups the work allowance cut short.
    budget_exhausted: AtomicU64,
    /// The key each indexed record is filed under.
    filed_under: Ghost<Seq<u64>>,
    /// The window an n-gram key was taken from.
    filed_window: Ghost<Seq<u32>>,
    /// The token key each record was offered to be filed under.
    token_choice: Ghost<Seq<Option<u64>>>,
    /// The window each record without a token key was offered instead.
    window_choice: Ghost<Seq<Option<u32>>>,
}

impl UrlIndex {
    pub closed spec fn records(&self) -> Seq<RecordV> {
        record_views(self.records@)
    }

    pub closed spec fn list_ids(&self) -> Seq<u16> {
        self.list_ids@
    }

    pub closed spec fn duplicates(&self) -> nat {
        self.duplicates_removed as nat
    }

    /// Record `i` is reached by a lookup: checked every time, or filed under
    /// a key its pattern offers.
    closed spec fn reached(&self, i: int) -> bool {
        ||| self.unindexed@.contains(i as u32)
        ||| {
            let h = self.filed_under@[i];
            &&& filed_at(self.slots@, self.buckets@, h, i)
            &&& (token_key_of(self.records()[i], h) || {
                let w = self.filed_window@[i];
                &&& self.sweep
                &&& windowed(self.records()[i].pattern, w)
                &&& spec_ngram_hash(w) == h
                &&& bloom_has(self.ngram_bits@, w)
            })
        }
    }

    pub closed spec fn wf(&self) -> bool {
        &&& self.records@.len() == self.list_ids@.len()
        &&& self.records().no_duplicates()
        &&& self.records@.len() < MAX_URL_RULES
        &&& buckets_wf(self.slots@, self.buckets@, self.records@.len() as int)
        &&& forall|k: int| 0 <= k < self.unindexed@.len() ==> #[trigger] self.unindexed@[k] < self.records@.len()
        &&& self.unindexed@.len() <= self.records@.len()
        &&& self.ngram_bucket_start <= self.buckets@.len() <= self.ngram_bucket_start + NGRAM_BUCKET_CAP
        &&& self.filed_under@.len() == self.records@.len()
        &&& self.filed_window@.len() == self.records@.len()
        &&& (self.sweep ==> 0 < self.ngram_bits@.len() <= 2 * NGRAM_BUCKET_CAP)
        &&& forall|i: int| 0 <= i < self.records@.len() ==> #[trigger] self.reached(i)
    }

    /// For each record, the token key it was offered to be filed under: its
    /// least common across the compile.
    pub closed spec fn token_choice(&self) -> Seq<Option<u64>> {
        self.token_choice@
    }

    /// For each record without a token key, the window it was offered
    /// instead: the least common among such records.
    pub closed spec fn window_choice(&self) -> Seq<Option<u32>> {
        self.window_choice@
    }

    /// Record `i` is among those checked on every lookup.
    pub closed spec fn is_unindexed(&self, i: int) -> bool {
        self.unindexed@.contains(i as u32)
    }

    /// The records checked on every lookup.
    pub closed spec fn unindexed_count(&self) -> nat {
        self.unindexed@.len()
    }

    /// Keys the n-gram tier opened.
    pub closed spec fn ngram_key_count(&self) -> nat {
        (self.buckets@.len() - self.ngram_bucket_start) as nat
    }

    /// How many distinct rules are compiled.
    pub fn len(&self) -> (n: usize)
        ensures
            n == self.records().len(),
    {
        self.records.len()
    }

    pub fn duplicates_removed(&self) -> (n: usize)
        ensures
            n == self.duplicates(),
    {
        self.duplicates_removed
    }

    /// How many rules no key reaches, and which every lookup therefore
    /// checks.
    pub fn unindexed_len(&self) -> (n: usize)
        ensures
            n == self.unindexed_count(),
    {
        self.unindexed.len()
    }

    /// How many keys the n-gram tier holds; none means a lookup skips the
    /// sweep.
    pub fn ngram_keys(&self) -> (n: usize)
        requires
            self.wf(),
        ensures
            n == self.ngram_key_count(),
            n <= NGRAM_BUCKET_CAP,
    {
        self.buckets.len() - self.ngram_bucket_start
    }

    /// Every record has a list, and record indices stay below
    /// `MAX_URL_RULES`.
    pub proof fn lemma_bounds(&self)
        requires
            self.wf(),
        ensures
            self.list_ids().len() == self.records().len(),
            self.records().len() < MAX_URL_RULES,
    {
    }

    /// The list a record came from.
    pub fn list_id(&self, index: u32) -> (id: u16)
        requires
            self.wf(),
            index < self.records().len(),
        ensures
            index < self.list_ids().len(),
            id == self.list_ids()[index as int],
    {
        self.list_ids[index as usize]
    }

    /// Decides one request by checking every rule in order, index
    /// bypassed, and says whether the work allowance ran out on the way —
    /// exactly when [`walk_cut`] says the walk over every rule does. When it
    /// did not, this is exactly [`decide`]'s decision.
    pub fn lookup_scanning(&self, request: &HttpRequest) -> (r: (UrlDecision, bool))
        requires
            self.wf(),
        ensures
            match r.0 {
                UrlDecision::Allow(i) => i < self.records().len() && self.records()[i as int].allow
                    && applies(self.records()[i as int], request_view(request)),
                UrlDecision::Block(i) => i < self.records().len() && !self.records()[i as int].allow
                    && applies(self.records()[i as int], request_view(request)),
                UrlDecision::Pass => true,
            },
            !r.1 ==> r.0 == decide(self.records(), request_view(request)),
            r.1 == walk_cut(
                self.records(),
                request_view(request),
                all_indices(self.records().len()),
                LOOKUP_STEP_CAP as int,
            ),
    {
        let mut probe = Probe::new(request);
        let ghost q = request_view(request);
        let ghost recs = self.records();
        let ghost all = all_indices(recs.len());
        assert(all.skip(0) =~= all);
        let mut blocked: Option<usize> = None;
        let mut found: Option<usize> = None;
        let mut i: usize = 0;
        while i < self.records.len() && found.is_none()
            invariant
                self.wf(),
                recs == self.records(),
                probe.wf(),
                probe.request@ == q,
                q == request_view(request),
                i <= self.records.len(),
                found is None ==> (!probe.budget.exhausted ==> scan(recs, q, i as int) == (
                    None::<int>,
                    match blocked {
                        Some(b) => Some(b as int),
                        None => None::<int>,
                    },
                )),
                found matches Some(j) ==> j < i && recs[j as int].allow && applies(recs[j as int], q)
                    && (!probe.budget.exhausted ==> scan(recs, q, i as int).0 == Some(j as int)),
                blocked matches Some(b) ==> b < i && !recs[b as int].allow && applies(recs[b as int], q),
                probe.url@ == q.url,
                all == all_indices(recs.len()),
                recs.len() == self.records@.len(),
                probe.budget.exhausted ==> walk_cut(recs, q, all, LOOKUP_STEP_CAP as int),
                !probe.budget.exhausted && found is None ==> walk_cut(recs, q, all, LOOKUP_STEP_CAP as int)
                    == walk_cut(recs, q, all.skip(i as int), probe.budget.remaining as int),
                !probe.budget.exhausted && found is Some ==> !walk_cut(
                    recs,
                    q,
                    all,
                    LOOKUP_STEP_CAP as int,
                ),
            decreases self.records.len() - i,
        {
            proof {
                assert(recs[i as int] == self.records@[i as int]@);
                assert(all.skip(i as int)[0] == i as u32);
                assert(all.skip(i as int).drop_first() =~= all.skip(i + 1));
            }
            match check(&self.records[i], &mut probe) {
                Some(true) => {
                    found = Some(i);
                },
                Some(false) => {
                    if blocked.is_none() {
                        blocked = Some(i);
                    }
                },
                None => {},
            }
            i += 1;
        }
        proof {
            if found.is_some() && !probe.budget.exhausted {
                lemma_scan_allow_stays(recs, q, i as int, recs.len() as int);
            }
            if found.is_none() && !probe.budget.exhausted {
                assert(all.skip(i as int).len() == 0);
            }
        }
        let exhausted = probe.budget.exhausted;
        match found {
            Some(index) => (UrlDecision::Allow(index as u32), exhausted),
            None => match blocked {
                Some(index) => (UrlDecision::Block(index as u32), exhausted),
                None => (UrlDecision::Pass, exhausted),
            },
        }
    }

    /// Finding a block only makes the lookup's obligations easier to meet.
    proof fn lemma_ok_grows(&self, q: RequestV)
        ensures
            forall|i: int| #[trigger] self.rule_ok(q, i, false) ==> self.rule_ok(q, i, true),
            forall|b: int| #[trigger] self.bucket_ok(q, b, false) ==> self.bucket_ok(q, b, true),
            forall|h: u64| #[trigger] self.key_ok(q, h, false) ==> self.key_ok(q, h, true),
    {
    }

    /// With the rules no key reaches, every URL token's three keys and —
    /// when the n-gram tier is in use — every URL window's key checked, every
    /// rule has been: a rule that applies is reached through its own key.
    proof fn lemma_covered(&self, q: RequestV, has_block: bool)
        requires
            self.wf(),
            forall|x: int|
                0 <= x < self.unindexed@.len() ==> self.rule_ok(q, #[trigger] self.unindexed@[x] as int, has_block),
            forall|kind: KeyKind, s: int, e: int|
                #[trigger] probe_at(q.url, kind, s, e) ==> self.key_ok(q, range_hash(kind, q.url, s, e), has_block),
            self.sweep && q.url.len() >= MIN_TOKEN_LEN ==> forall|y: int|
                0 <= y && y + 3 <= q.url.len() && bloom_has(self.ngram_bits@, word_at(q.url, y))
                    ==> self.key_ok(q, #[trigger] spec_ngram_hash(word_at(q.url, y)), has_block),
        ensures
            forall|i: int| 0 <= i < self.records().len() ==> #[trigger] self.rule_ok(q, i, has_block),
    {
        assert forall|i: int| 0 <= i < self.records().len() implies #[trigger] self.rule_ok(q, i, has_block) by {
            let r = self.records()[i];
            if applies(r, q) {
                assert(self.reached(i));
                if self.unindexed@.contains(i as u32) {
                    let x = choose|x: int| 0 <= x < self.unindexed@.len() && self.unindexed@[x] == i as u32;
                    assert(self.rule_ok(q, self.unindexed@[x] as int, has_block));
                } else {
                    let h = self.filed_under@[i];
                    let b = self.slots@[h] as int;
                    let k = choose|k: int| 0 <= k < self.buckets@[b]@.len() && self.buckets@[b]@[k] == i as u32;
                    if token_key_of(r, h) {
                        lemma_token_key_probed(r, q.url, h);
                        let (kind, s, e) = choose|kind: KeyKind, s: int, e: int|
                            #[trigger] probe_at(q.url, kind, s, e) && range_hash(kind, q.url, s, e) == h;
                        assert(self.key_ok(q, h, has_block));
                    } else {
                        let w = self.filed_window@[i];
                        let y = lemma_window_found(r, q.url, w);
                        assert(self.key_ok(q, spec_ngram_hash(word_at(q.url, y)), has_block));
                    }
                    assert(self.rule_ok(q, self.buckets@[b]@[k] as int, has_block));
                }
            }
        }
    }

    /// A rule that applies to `q` is a block, and some block was found.
    closed spec fn rule_ok(&self, q: RequestV, i: int, has_block: bool) -> bool {
        applies(self.records()[i], q) ==> !self.records()[i].allow && has_block
    }

    /// [`Self::rule_ok`] for every rule of bucket `b`.
    closed spec fn bucket_ok(&self, q: RequestV, b: int, has_block: bool) -> bool {
        forall|k: int|
            0 <= k < self.buckets@[b]@.len() ==> self.rule_ok(q, #[trigger] self.buckets@[b]@[k] as int, has_block)
    }

    /// [`Self::bucket_ok`] for the bucket of key `h`, if it has one.
    closed spec fn key_ok(&self, q: RequestV, h: u64, has_block: bool) -> bool {
        self.slots@.contains_key(h) ==> self.bucket_ok(q, self.slots@[h] as int, has_block)
    }

    /// A found allow, or a remembered block, is a rule that really applies.
    closed spec fn found_ok(&self, q: RequestV, found: Option<usize>, allow: bool) -> bool {
        found matches Some(j) ==> j < self.records().len() && self.records()[j as int].allow == allow
            && applies(self.records()[j as int], q)
    }

    /// Checks the rules of bucket `b` in order, stopping at an allow.
    /// Returns the allow found, and the first block so far.
    fn check_bucket(&self, b: usize, probe: &mut Probe, blocked_in: Option<usize>) -> (r: (
        Option<usize>,
        Option<usize>,
    ))
        requires
            self.wf(),
            b < self.buckets@.len(),
            old(probe).wf(),
            self.found_ok(old(probe).request@, blocked_in, false),
        ensures
            final(probe).wf(),
            final(probe).request == old(probe).request,
            old(probe).budget.exhausted ==> final(probe).budget.exhausted,
            self.found_ok(old(probe).request@, r.0, true),
            self.found_ok(old(probe).request@, r.1, false),
            blocked_in is Some ==> r.1 is Some,
            r.0 is None && !final(probe).budget.exhausted ==> self.bucket_ok(
                old(probe).request@,
                b as int,
                r.1 is Some,
            ),
            final(probe).budget.remaining <= old(probe).budget.remaining,
            !old(probe).budget.exhausted ==> forall|tail: Seq<u32>|
                #[trigger] walk_through(
                    self.records(),
                    old(probe).request@,
                    self.buckets@[b as int]@,
                    tail,
                    old(probe).budget.remaining as int,
                    final(probe).budget.remaining as int,
                    final(probe).budget.exhausted,
                    r.0 is Some,
                ),
    {
        let ghost q = probe.request@;
        let bucket = &self.buckets[b];
        let mut blocked = blocked_in;
        let mut k: usize = 0;
        let ghost recs = self.records();
        let ghost rem0: int = old(probe).budget.remaining as int;
        let ghost fresh: bool = !old(probe).budget.exhausted;
        proof {
            assert forall|tail: Seq<u32>| fresh implies walk_cut(recs, q, bucket@ + tail, rem0)
                == walk_cut(recs, q, bucket@.skip(0) + tail, rem0) by {
                assert(bucket@.skip(0) =~= bucket@);
            }
        }
        while k < bucket.len()
            invariant
                self.wf(),
                b < self.buckets@.len(),
                bucket@ == self.buckets@[b as int]@,
                k <= bucket.len(),
                probe.wf(),
                probe.request@ == q,
                probe.request == old(probe).request,
                old(probe).budget.exhausted ==> probe.budget.exhausted,
                self.found_ok(q, blocked, false),
                blocked_in is Some ==> blocked is Some,
                !probe.budget.exhausted ==> forall|x: int|
                    0 <= x < k ==> self.rule_ok(q, #[trigger] bucket@[x] as int, blocked is Some),
                recs == self.records(),
                probe.url@ == old(probe).url@,
                rem0 == old(probe).budget.remaining,
                probe.budget.remaining <= rem0,
                fresh == !old(probe).budget.exhausted,
                fresh ==> forall|tail: Seq<u32>|
                    (probe.budget.exhausted ==> walk_cut(recs, q, #[trigger] (bucket@ + tail), rem0)) && (
                    !probe.budget.exhausted ==> walk_cut(recs, q, bucket@ + tail, rem0) == walk_cut(
                        recs,
                        q,
                        bucket@.skip(k as int) + tail,
                        probe.budget.remaining as int,
                    )),
            decreases bucket.len() - k,
        {
            let index = bucket[k] as usize;
            assert(bucket@[k as int] < self.records@.len());
            proof {
                assert(self.records()[index as int] == self.records@[index as int]@);
            }
            let ghost rb: int = probe.budget.remaining as int;
            let ghost eb: bool = probe.budget.exhausted;
            let res = check(&self.records[index], probe);
            proof {
                if fresh {
                    assert forall|tail: Seq<u32>|
                        (probe.budget.exhausted ==> walk_cut(recs, q, #[trigger] (bucket@ + tail), rem0)) && (
                        !probe.budget.exhausted && res != Some(true) ==> walk_cut(recs, q, bucket@ + tail, rem0)
                            == walk_cut(recs, q, bucket@.skip(k + 1) + tail, probe.budget.remaining as int)) && (
                        !probe.budget.exhausted && res == Some(true) ==> !walk_cut(
                            recs,
                            q,
                            bucket@ + tail,
                            rem0,
                        )) by {
                        let w = bucket@.skip(k as int) + tail;
                        assert(w[0] == bucket@[k as int]);
                        assert(w.drop_first() =~= bucket@.skip(k + 1) + tail);
                    }
                }
            }
            match res {
                Some(true) => {
                    proof {
                        assert forall|tail: Seq<u32>| fresh implies #[trigger] walk_through(
                            recs,
                            q,
                            bucket@,
                            tail,
                            rem0,
                            probe.budget.remaining as int,
                            probe.budget.exhausted,
                            true,
                        ) by {
                            assert(walk_cut(recs, q, bucket@ + tail, rem0) == walk_cut(recs, q, bucket@ + tail, rem0));
                        }
                    }
                    return (Some(index), blocked);
                },
                Some(false) => {
                    if blocked.is_none() {
                        blocked = Some(index);
                    }
                },
                None => {},
            }
            k += 1;
        }
        proof {
            assert forall|tail: Seq<u32>| fresh implies #[trigger] walk_through(
                recs,
                q,
                bucket@,
                tail,
                rem0,
                probe.budget.remaining as int,
                probe.budget.exhausted,
                false,
            ) by {
                assert(bucket@.skip(k as int) + tail =~= tail);
                assert(walk_cut(recs, q, bucket@ + tail, rem0) == walk_cut(recs, q, bucket@ + tail, rem0));
            }
        }
        (None, blocked)
    }

    /// Checks the rules under the three keys of URL token `[start, end)`:
    /// the token itself, its first three bytes, its last three; an allow
    /// ends it.
    fn check_token(&self, start: usize, end: usize, probe: &mut Probe, blocked: Option<usize>) -> (r: (
        Option<usize>,
        Option<usize>,
    ))
        requires
            self.wf(),
            old(probe).wf(),
            start + MIN_TOKEN_LEN <= end <= old(probe).url@.len(),
            self.found_ok(old(probe).request@, blocked, false),
        ensures
            final(probe).wf(),
            final(probe).request == old(probe).request,
            old(probe).budget.exhausted ==> final(probe).budget.exhausted,
            self.found_ok(old(probe).request@, r.0, true),
            self.found_ok(old(probe).request@, r.1, false),
            blocked is Some ==> r.1 is Some,
            r.0 is None && !final(probe).budget.exhausted ==> forall|kind: KeyKind|
                kind != KeyKind::Ngram ==> self.key_ok(
                    old(probe).request@,
                    #[trigger] range_hash(kind, old(probe).url@, start as int, end as int),
                    r.1 is Some,
                ),
            final(probe).budget.remaining <= old(probe).budget.remaining,
            !old(probe).budget.exhausted ==> forall|tail: Seq<u32>|
                #[trigger] walk_through(
                    self.records(),
                    old(probe).request@,
                    self.token_walk_at(old(probe).url@, start as int, end as int),
                    tail,
                    old(probe).budget.remaining as int,
                    final(probe).budget.remaining as int,
                    final(probe).budget.exhausted,
                    r.0 is Some,
                ),
    {
        let ghost q = probe.request@;
        let ghost url = probe.url@;
        let ghost recs = self.records();
        let ghost rem0 = probe.budget.remaining as int;
        let ghost fresh = !probe.budget.exhausted;
        let h1 = hash_range(KeyKind::Exact, probe.url.as_slice(), start, end);
        let h2 = hash_range(KeyKind::Prefix, probe.url.as_slice(), start, start + 3);
        let h3 = hash_range(KeyKind::Suffix, probe.url.as_slice(), end - 3, end);
        let ghost k1 = self.key_seq(h1);
        let ghost k2 = self.key_seq(h2);
        let ghost k3 = self.key_seq(h3);
        proof {
            assert(h1 == range_hash(KeyKind::Exact, url, start as int, end as int));
            assert(url.subrange(start as int, start + 3) =~= url.subrange(
                key_range(KeyKind::Prefix, start as int, end as int).0,
                key_range(KeyKind::Prefix, start as int, end as int).1,
            ));
            assert(h2 == range_hash(KeyKind::Prefix, url, start as int, end as int));
            assert(h3 == range_hash(KeyKind::Suffix, url, start as int, end as int));
            assert(self.token_walk_at(url, start as int, end as int) == k1 + (k2 + k3));
        }
        let r1 = self.check_key(h1, probe, blocked);
        let ghost rem1 = probe.budget.remaining as int;
        let ghost x1 = probe.budget.exhausted;
        if r1.0.is_some() {
            proof {
                assert forall|tail: Seq<u32>| fresh implies #[trigger] walk_through(
                    recs,
                    q,
                    k1 + (k2 + k3),
                    tail,
                    rem0,
                    rem1,
                    x1,
                    true,
                ) by {
                    assert((k1 + (k2 + k3)) + tail =~= k1 + ((k2 + k3) + tail));
                    assert(walk_through(recs, q, k1, (k2 + k3) + tail, rem0, rem1, x1, true));
                }
            }
            return r1;
        }
        let r2 = self.check_key(h2, probe, r1.1);
        let ghost rem2 = probe.budget.remaining as int;
        let ghost x2 = probe.budget.exhausted;
        if r2.0.is_some() {
            proof {
                assert forall|tail: Seq<u32>| fresh implies #[trigger] walk_through(
                    recs,
                    q,
                    k1 + (k2 + k3),
                    tail,
                    rem0,
                    rem2,
                    x2,
                    true,
                ) by {
                    assert((k1 + (k2 + k3)) + tail =~= k1 + ((k2 + k3) + tail));
                    assert((k2 + k3) + tail =~= k2 + (k3 + tail));
                    assert(walk_through(recs, q, k1, (k2 + k3) + tail, rem0, rem1, x1, false));
                    if !x1 {
                        assert(walk_through(recs, q, k2, k3 + tail, rem1, rem2, x2, true));
                    }
                }
                self.lemma_ok_grows(q);
            }
            return r2;
        }
        let r3 = self.check_key(h3, probe, r2.1);
        proof {
            let rem3 = probe.budget.remaining as int;
            let x3 = probe.budget.exhausted;
            assert forall|tail: Seq<u32>| fresh implies #[trigger] walk_through(
                recs,
                q,
                k1 + (k2 + k3),
                tail,
                rem0,
                rem3,
                x3,
                r3.0 is Some,
            ) by {
                assert((k1 + (k2 + k3)) + tail =~= k1 + ((k2 + k3) + tail));
                assert((k2 + k3) + tail =~= k2 + (k3 + tail));
                assert(walk_through(recs, q, k1, (k2 + k3) + tail, rem0, rem1, x1, false));
                if !x1 {
                    assert(walk_through(recs, q, k2, k3 + tail, rem1, rem2, x2, false));
                    if !x2 {
                        assert(walk_through(recs, q, k3, tail, rem2, rem3, x3, r3.0 is Some));
                    }
                }
            }
            self.lemma_ok_grows(q);
            if r3.0 is None && !x3 {
                assert forall|kind: KeyKind| kind != KeyKind::Ngram implies self.key_ok(
                    q,
                    #[trigger] range_hash(kind, url, start as int, end as int),
                    r3.1 is Some,
                ) by {
                    if kind == KeyKind::Exact {
                        assert(self.key_ok(q, h1, r1.1 is Some));
                    } else if kind == KeyKind::Prefix {
                        assert(self.key_ok(q, h2, r2.1 is Some));
                    }
                }
            }
        }
        r3
    }

    /// Checks the bucket of key `h`, if it has one.
    fn check_key(&self, h: u64, probe: &mut Probe, blocked: Option<usize>) -> (r: (
        Option<usize>,
        Option<usize>,
    ))
        requires
            self.wf(),
            old(probe).wf(),
            self.found_ok(old(probe).request@, blocked, false),
        ensures
            final(probe).wf(),
            final(probe).request == old(probe).request,
            old(probe).budget.exhausted ==> final(probe).budget.exhausted,
            self.found_ok(old(probe).request@, r.0, true),
            self.found_ok(old(probe).request@, r.1, false),
            blocked is Some ==> r.1 is Some,
            r.0 is None && !final(probe).budget.exhausted ==> self.key_ok(
                old(probe).request@,
                h,
                r.1 is Some,
            ),
            final(probe).budget.remaining <= old(probe).budget.remaining,
            !old(probe).budget.exhausted ==> forall|tail: Seq<u32>|
                #[trigger] walk_through(
                    self.records(),
                    old(probe).request@,
                    self.key_seq(h),
                    tail,
                    old(probe).budget.remaining as int,
                    final(probe).budget.remaining as int,
                    final(probe).budget.exhausted,
                    r.0 is Some,
                ),
    {
        broadcast use vstd::std_specs::hash::group_hash_axioms;

        match self.slots.get(&h) {
            Some(b) => self.check_bucket(*b, probe, blocked),
            None => {
                proof {
                    assert forall|tail: Seq<u32>| !old(probe).budget.exhausted implies #[trigger] walk_through(
                        self.records(),
                        old(probe).request@,
                        self.key_seq(h),
                        tail,
                        old(probe).budget.remaining as int,
                        probe.budget.remaining as int,
                        probe.budget.exhausted,
                        false,
                    ) by {
                        assert(self.key_seq(h) + tail =~= tail);
                    }
                }
                (None, blocked)
            },
        }
    }

    /// The rules checked for the URL token `[s, e)`: those under its own key,
    /// its first three bytes' and its last three's, when it is long enough.
    pub closed spec fn token_walk_at(&self, url: Seq<u8>, s: int, e: int) -> Seq<u32> {
        if e - s >= MIN_TOKEN_LEN {
            self.key_seq(range_hash(KeyKind::Exact, url, s, e)) + (self.key_seq(
                range_hash(KeyKind::Prefix, url, s, e),
            ) + self.key_seq(range_hash(KeyKind::Suffix, url, s, e)))
        } else {
            Seq::empty()
        }
    }

    /// The rules checked for the URL's tokens from `at` on, in order.
    pub closed spec fn token_walk(&self, url: Seq<u8>, at: int) -> Seq<u32>
        decreases url.len() - at,
    {
        if at < 0 || at >= url.len() {
            Seq::empty()
        } else if !spec_is_token_byte(url[at]) {
            self.token_walk(url, at + 1)
        } else {
            proof {
                lemma_run_end_past(url, at);
            }
            self.token_walk_at(url, at, run_end(url, at)) + self.token_walk(url, run_end(url, at))
        }
    }

    /// The rules the n-gram sweep checks from window `j` on, `seen` holding
    /// the n-gram buckets already checked.
    pub closed spec fn sweep_walk(&self, url: Seq<u8>, j: int, seen: Set<int>) -> Seq<u32>
        decreases url.len() - j,
    {
        if j < 0 || j + 3 > url.len() {
            Seq::empty()
        } else {
            let w = word_at(url, j);
            let h = spec_ngram_hash(w);
            if bloom_has(self.ngram_bits@, w) && self.slots@.contains_key(h) {
                let b = self.slots@[h] as int;
                if b < self.ngram_bucket_start {
                    self.buckets@[b]@ + self.sweep_walk(url, j + 1, seen)
                } else if !seen.contains(b) {
                    self.buckets@[b]@ + self.sweep_walk(url, j + 1, seen.insert(b))
                } else {
                    self.sweep_walk(url, j + 1, seen)
                }
            } else {
                self.sweep_walk(url, j + 1, seen)
            }
        }
    }

    /// The sweep's rules, when the n-gram tier is in use.
    pub closed spec fn sweep_part(&self, url: Seq<u8>) -> Seq<u32> {
        if self.sweep && url.len() >= MIN_TOKEN_LEN {
            self.sweep_walk(url, 0, Set::empty())
        } else {
            Seq::empty()
        }
    }

    /// The rules a lookup of `url` checks, in the order it checks them, were
    /// no allowance to run out and no allow to end it: the unindexed ones,
    /// those under each URL token's three keys, then those the n-gram sweep
    /// reaches.
    pub closed spec fn walk(&self, url: Seq<u8>) -> Seq<u32> {
        self.unindexed@ + (self.token_walk(url, 0) + self.sweep_part(url))
    }

    /// The rules filed under key `h`, in the order they are checked.
    pub closed spec fn key_seq(&self, h: u64) -> Seq<u32> {
        if self.slots@.contains_key(h) {
            self.buckets@[self.slots@[h] as int]@
        } else {
            Seq::empty()
        }
    }

    /// Decides one request through the index, and says whether the work
    /// allowance ran out on the way — exactly when [`walk_cut`] says the
    /// walk over [`Self::walk`] does. A decision is always one a rule really
    /// makes; when the allowance did not run out it is of the kind a full
    /// scan's is — an allow where any rule allows, else a block where any
    /// blocks, else a pass.
    ///
    /// The rules checked are the unindexed ones, those filed under a key
    /// some URL token carries — as itself, by its first bytes and by its
    /// last — and, when the n-gram tier is in use, those filed under a
    /// window of the URL. An allow ends the lookup at once.
    #[verifier::rlimit(100)]
    pub fn lookup_metered(&self, request: &HttpRequest) -> (r: (UrlDecision, bool))
        requires
            self.wf(),
        ensures
            match r.0 {
                UrlDecision::Allow(i) => i < self.records().len() && self.records()[i as int].allow
                    && applies(self.records()[i as int], request_view(request)),
                UrlDecision::Block(i) => i < self.records().len() && !self.records()[i as int].allow
                    && applies(self.records()[i as int], request_view(request)),
                UrlDecision::Pass => true,
            },
            !r.1 ==> same_outcome(r.0, decide(self.records(), request_view(request))),
            r.1 == walk_cut(
                self.records(),
                request_view(request),
                self.walk(request_view(request).url),
                LOOKUP_STEP_CAP as int,
            ),
    {
        broadcast use vstd::std_specs::hash::group_hash_axioms;

        let mut probe = Probe::new(request);
        let ghost q = request_view(request);
        let ghost url = probe.url@;
        let mut blocked: Option<usize> = None;
        let mut found: Option<usize> = None;
        let ghost recs = self.records();
        let ghost cap = LOOKUP_STEP_CAP as int;
        let ghost ww = self.walk(url);
        let ghost sw = self.sweep_part(url);
        let ghost uw = self.unindexed@;
        proof {
            assert(uw.skip(0) =~= uw);
        }

        // The rules no key reaches.
        let mut k: usize = 0;
        while k < self.unindexed.len() && found.is_none()
            invariant
                self.wf(),
                probe.wf(),
                probe.request@ == q,
                k <= self.unindexed@.len(),
                self.found_ok(q, found, true),
                self.found_ok(q, blocked, false),
                found is None && !probe.budget.exhausted ==> forall|x: int|
                    0 <= x < k ==> self.rule_ok(q, #[trigger] self.unindexed@[x] as int, blocked is Some),
                probe.url@ == url,
                url == q.url,
                recs == self.records(),
                uw == self.unindexed@,
                ww == self.walk(url),
                sw == self.sweep_part(url),
                ww == uw + (self.token_walk(url, 0) + sw),
                probe.budget.exhausted ==> walk_cut(recs, q, ww, cap),
                !probe.budget.exhausted && found is None ==> walk_cut(recs, q, ww, cap) == walk_cut(
                    recs,
                    q,
                    uw.skip(k as int) + (self.token_walk(url, 0) + sw),
                    probe.budget.remaining as int,
                ),
                !probe.budget.exhausted && found is Some ==> !walk_cut(recs, q, ww, cap),
            decreases self.unindexed@.len() - k,
        {
            let index = self.unindexed[k] as usize;
            assert(self.unindexed@[k as int] < self.records@.len());
            proof {
                assert(self.records()[index as int] == self.records@[index as int]@);
                let rest = uw.skip(k as int) + (self.token_walk(url, 0) + sw);
                assert(rest[0] == uw[k as int]);
                assert(rest.drop_first() =~= uw.skip(k + 1) + (self.token_walk(url, 0) + sw));
            }
            match check(&self.records[index], &mut probe) {
                Some(true) => {
                    found = Some(index);
                },
                Some(false) => {
                    if blocked.is_none() {
                        blocked = Some(index);
                    }
                },
                None => {},
            }
            k += 1;
        }

        proof {
            if found is None {
                assert(uw.skip(k as int) + (self.token_walk(url, 0) + sw) =~= self.token_walk(url, 0) + sw);
            }
        }
        // Every URL token, probed three ways.
        let n = probe.url.len();
        let mut at: usize = 0;
        while at < n && found.is_none()
            invariant
                self.wf(),
                probe.wf(),
                probe.request@ == q,
                probe.url@ == url,
                n == url.len(),
                at <= n,
                at == 0 || at == n || !spec_is_token_byte(url[at - 1]) || !spec_is_token_byte(url[at as int]),
                self.found_ok(q, found, true),
                self.found_ok(q, blocked, false),
                found is None && !probe.budget.exhausted ==> (forall|x: int|
                    0 <= x < self.unindexed@.len() ==> self.rule_ok(
                        q,
                        #[trigger] self.unindexed@[x] as int,
                        blocked is Some,
                    )),
                found is None && !probe.budget.exhausted ==> (forall|kind: KeyKind, s: int, e: int|
                    #[trigger] probe_at(url, kind, s, e) && s < at ==> self.key_ok(
                        q,
                        range_hash(kind, url, s, e),
                        blocked is Some,
                    )),
                url == q.url,
                recs == self.records(),
                ww == self.walk(url),
                sw == self.sweep_part(url),
                probe.budget.exhausted ==> walk_cut(recs, q, ww, cap),
                !probe.budget.exhausted && found is None ==> walk_cut(recs, q, ww, cap) == walk_cut(
                    recs,
                    q,
                    self.token_walk(url, at as int) + sw,
                    probe.budget.remaining as int,
                ),
                !probe.budget.exhausted && found is Some ==> !walk_cut(recs, q, ww, cap),
            decreases n - at,
        {
            if !is_token_byte(probe.url[at]) {
                at += 1;
            } else {
                let start = at;
                while at < n && is_token_byte(probe.url[at])
                    invariant
                        run_end(url, start as int) == run_end(url, at as int),
                        probe.url@ == url,
                        n == url.len(),
                        start < n,
                        start <= at <= n,
                        forall|x: int| start <= x < at ==> spec_is_token_byte(#[trigger] url[x]),
                        spec_is_token_byte(url[start as int]),
                    decreases n - at,
                {
                    at += 1;
                }
                assert(token_run(url, start as int, at as int));
                let ghost hb0 = blocked is Some;
                let ghost tw = self.token_walk(url, at as int);
                proof {
                    assert(run_end(url, at as int) == at);
                    assert(self.token_walk(url, start as int) == self.token_walk_at(url, start as int, at as int) + tw);
                }
                if at - start >= MIN_TOKEN_LEN {
                    let ghost rb = probe.budget.remaining as int;
                    let ghost eb = probe.budget.exhausted;
                    let r = self.check_token(start, at, &mut probe, blocked);
                    proof {
                        if !eb {
                            assert(walk_through(recs, q, self.token_walk_at(url, start as int, at as int), tw + sw, rb,
                                probe.budget.remaining as int, probe.budget.exhausted, r.0 is Some));
                            assert((self.token_walk_at(url, start as int, at as int) + tw) + sw =~= self.token_walk_at(
                                url,
                                start as int,
                                at as int,
                            ) + (tw + sw));
                        }
                    }
                    found = r.0;
                    blocked = r.1;
                } else {
                    proof {
                        assert(self.token_walk_at(url, start as int, at as int) + tw =~= tw);
                    }
                }
                proof {
                    if found is None && !probe.budget.exhausted {
                        self.lemma_ok_grows(q);
                        assert forall|kind: KeyKind, s: int, e: int|
                            #[trigger] probe_at(url, kind, s, e) && s < at implies self.key_ok(
                            q,
                            range_hash(kind, url, s, e),
                            blocked is Some,
                        ) by {
                            if s >= start {
                                lemma_one_run(url, start as int, at as int, s, e);
                            }
                        }
                    }
                }
            }
        }

        proof {
            if !probe.budget.exhausted && found is None {
                assert(self.token_walk(url, n as int) + sw =~= sw);
            }
            if !(self.sweep && n >= MIN_TOKEN_LEN) {
                assert(sw =~= Seq::<u32>::empty());
            }
        }
        // The n-gram sweep: every window of the whole URL.
        if found.is_none() && self.sweep && n >= MIN_TOKEN_LEN {
            let ns = self.ngram_bucket_start;
            let width = self.buckets.len() - ns;
            let mut seen: Vec<bool> = Vec::new();
            while seen.len() < width
                invariant
                    seen.len() <= width,
                    forall|x: int| 0 <= x < seen.len() ==> !#[trigger] seen@[x],
                decreases width - seen.len(),
            {
                seen.push(false);
            }
            let mut j: usize = 0;
            proof {
                assert(seen_set(seen@, ns as int) =~= Set::<int>::empty());
            }
            while j <= n - MIN_TOKEN_LEN && found.is_none()
                invariant
                    self.wf(),
                    probe.wf(),
                    probe.request@ == q,
                    probe.url@ == url,
                    n == url.len(),
                    n >= MIN_TOKEN_LEN,
                    self.sweep,
                    j <= n - MIN_TOKEN_LEN + 1,
                    ns == self.ngram_bucket_start,
                    seen.len() == self.buckets@.len() - ns,
                    self.found_ok(q, found, true),
                    self.found_ok(q, blocked, false),
                    found is None && !probe.budget.exhausted ==> (forall|x: int|
                        0 <= x < self.unindexed@.len() ==> self.rule_ok(
                            q,
                            #[trigger] self.unindexed@[x] as int,
                            blocked is Some,
                        )),
                    found is None && !probe.budget.exhausted ==> (forall|kind: KeyKind, s: int, e: int|
                        #[trigger] probe_at(url, kind, s, e) ==> self.key_ok(
                            q,
                            range_hash(kind, url, s, e),
                            blocked is Some,
                        )),
                    found is None && !probe.budget.exhausted ==> (forall|x: int|
                        0 <= x < seen.len() && #[trigger] seen@[x] ==> self.bucket_ok(
                            q,
                            ns + x,
                            blocked is Some,
                        )),
                    found is None && !probe.budget.exhausted ==> (forall|y: int|
                        0 <= y < j && bloom_has(self.ngram_bits@, word_at(url, y)) ==> self.key_ok(
                            q,
                            #[trigger] spec_ngram_hash(word_at(url, y)),
                            blocked is Some,
                        )),
                    url == q.url,
                    recs == self.records(),
                    ww == self.walk(url),
                    probe.budget.exhausted ==> walk_cut(recs, q, ww, cap),
                    !probe.budget.exhausted && found is None ==> walk_cut(recs, q, ww, cap) == walk_cut(
                        recs,
                        q,
                        self.sweep_walk(url, j as int, seen_set(seen@, ns as int)),
                        probe.budget.remaining as int,
                    ),
                    !probe.budget.exhausted && found is Some ==> !walk_cut(recs, q, ww, cap),
                decreases n - j,
            {
                let ghost seen0 = seen_set(seen@, ns as int);
                let ghost rest = self.sweep_walk(url, j as int, seen0);
                let ghost hb0 = blocked is Some;
                let ghost rb = probe.budget.remaining as int;
                let ghost eb = probe.budget.exhausted;
                let w = window_word(probe.url.as_slice(), j);
                let (word, shift) = bloom_slot(w, self.ngram_bits.len());
                // The prefilter's "no" is final; its "maybe" asks the table.
                if self.ngram_bits[word] & (1u64 << shift) != 0 {
                    let h = ngram_hash(w);
                    match self.slots.get(&h) {
                        Some(b) => {
                            let b = *b;
                            if b < ns {
                                proof {
                                    assert(rest == self.buckets@[b as int]@ + self.sweep_walk(url, j + 1, seen0));
                                }
                                let r = self.check_bucket(b, &mut probe, blocked);
                                proof {
                                    if !eb {
                                        assert(walk_through(recs, q, self.buckets@[b as int]@, self.sweep_walk(url, j + 1, seen0),
                                        rb, probe.budget.remaining as int, probe.budget.exhausted, r.0 is Some));
                                    }
                                }
                                found = r.0;
                                blocked = r.1;
                            } else if !seen[b - ns] {
                                // A window can land on the same key many
                                // times in one URL; its rules are checked once.
                                seen.set(b - ns, true);
                                proof {
                                    assert(!seen0.contains(b as int));
                                    assert(seen_set(seen@, ns as int) =~= seen0.insert(b as int));
                                    assert(rest == self.buckets@[b as int]@ + self.sweep_walk(url, j + 1, seen0.insert(b as int)));
                                }
                                let r = self.check_bucket(b, &mut probe, blocked);
                                proof {
                                    if !eb {
                                        assert(walk_through(recs, q, self.buckets@[b as int]@, self.sweep_walk(url, j + 1, seen0.insert(b as int)),
                                        rb, probe.budget.remaining as int, probe.budget.exhausted, r.0 is Some));
                                    }
                                }
                                found = r.0;
                                blocked = r.1;
                            } else {
                                proof {
                                    assert(seen0.contains(b as int));
                                    assert(rest == self.sweep_walk(url, j + 1, seen0));
                                }
                            }
                        },
                        None => {
                            proof {
                                assert(rest == self.sweep_walk(url, j + 1, seen0));
                            }
                        },
                    }
                } else {
                    proof {
                        assert(!bloom_has(self.ngram_bits@, word_at(url, j as int)));
                        assert(rest == self.sweep_walk(url, j + 1, seen0));
                    }
                }
                proof {
                    if found is None && !probe.budget.exhausted {
                        self.lemma_ok_grows(q);
                    }
                }
                j += 1;
            }
        }

        proof {
            lemma_decide_outcome(self.records(), q);
            match found {
                Some(j) => {
                    assert(applies(self.records()[j as int], q));
                },
                None => {
                    if !probe.budget.exhausted {
                        assert(url == q.url);
                        self.lemma_covered(q, blocked is Some);
                        assert(!some_applies(self.records(), q, true)) by {
                            if some_applies(self.records(), q, true) {
                                let i = choose|i: int|
                                    0 <= i < self.records().len() && self.records()[i].allow == true
                                        && #[trigger] applies(self.records()[i], q);
                                assert(self.rule_ok(q, i, blocked is Some));
                            }
                        }
                        match blocked {
                            Some(b) => {
                                assert(applies(self.records()[b as int], q));
                            },
                            None => {
                                assert(!some_applies(self.records(), q, false)) by {
                                    if some_applies(self.records(), q, false) {
                                        let i = choose|i: int|
                                            0 <= i < self.records().len() && self.records()[i].allow
                                                == false && #[trigger] applies(self.records()[i], q);
                                        assert(self.rule_ok(q, i, false));
                                    }
                                }
                            },
                        }
                    }
                },
            }
        }
        let exhausted = probe.budget.exhausted;
        match found {
            Some(index) => (UrlDecision::Allow(index as u32), exhausted),
            None => match blocked {
                Some(index) => (UrlDecision::Block(index as u32), exhausted),
                None => (UrlDecision::Pass, exhausted),
            },
        }
    }

    /// [`Self::lookup_metered`]'s decision; a lookup the allowance cut short
    /// is counted. Unless the allowance runs out it is of the kind a full
    /// scan's is.
    pub fn lookup(&self, request: &HttpRequest) -> (d: UrlDecision)
        requires
            self.wf(),
        ensures
            match d {
                UrlDecision::Allow(i) => i < self.records().len() && self.records()[i as int].allow
                    && applies(self.records()[i as int], request_view(request)),
                UrlDecision::Block(i) => i < self.records().len() && !self.records()[i as int].allow
                    && applies(self.records()[i as int], request_view(request)),
                UrlDecision::Pass => true,
            },
            !walk_cut(
                self.records(),
                request_view(request),
                self.walk(request_view(request).url),
                LOOKUP_STEP_CAP as int,
            ) ==> same_outcome(d, decide(self.records(), request_view(request))),
    {
        let (decision, cut_short) = self.lookup_metered(request);
        if cut_short {
            self.count_cut_short();
        }
        decision
    }

    /// Records one lookup the work allowance cut short.
    pub fn count_cut_short(&self) {
        self.budget_exhausted.fetch_add(1, Ordering::Relaxed);
    }

    /// How many lookups the work allowance has cut short: each of them may
    /// have left some rule unenforced.
    pub fn budget_exhausted(&self) -> u64 {
        self.budget_exhausted.load(Ordering::Relaxed)
    }
}

/// Two decisions of the same kind.
pub open spec fn same_outcome(a: UrlDecision, b: UrlDecision) -> bool {
    &&& (a is Allow) == (b is Allow)
    &&& (a is Block) == (b is Block)
}

/// Some record whose action is `allow` applies to the request.
pub open spec fn some_applies(recs: Seq<RecordV>, q: RequestV, allow: bool) -> bool {
    exists|i: int| 0 <= i < recs.len() && recs[i].allow == allow && #[trigger] applies(recs[i], q)
}

proof fn lemma_scan_outcome(recs: Seq<RecordV>, q: RequestV, n: int)
    requires
        0 <= n <= recs.len(),
    ensures
        (scan(recs, q, n).0 is Some) == (exists|i: int|
            0 <= i < n && recs[i].allow && #[trigger] applies(recs[i], q)),
        scan(recs, q, n).0 is None ==> ((scan(recs, q, n).1 is Some) == (exists|i: int|
            0 <= i < n && !recs[i].allow && #[trigger] applies(recs[i], q))),
    decreases n,
{
    if n > 0 {
        lemma_scan_outcome(recs, q, n - 1);
        if applies(recs[n - 1], q) {
            assert(recs[n - 1].allow ==> exists|i: int|
                0 <= i < n && recs[i].allow && #[trigger] applies(recs[i], q));
            assert(!recs[n - 1].allow ==> exists|i: int|
                0 <= i < n && !recs[i].allow && #[trigger] applies(recs[i], q));
        }
        assert forall|i: int| 0 <= i < n - 1 && #[trigger] applies(recs[i], q) implies 0 <= i < n
            && applies(recs[i], q) by {}
    }
}

/// What kind of decision [`decide`] makes: an allow exactly when some rule
/// allows, a block exactly when none allows and some blocks.
pub proof fn lemma_decide_outcome(recs: Seq<RecordV>, q: RequestV)
    ensures
        decide(recs, q) is Allow <==> some_applies(recs, q, true),
        decide(recs, q) is Block <==> !some_applies(recs, q, true) && some_applies(recs, q, false),
{
    lemma_scan_outcome(recs, q, recs.len() as int);
}

/// Two whole tokens that overlap at a start are one token.
proof fn lemma_one_run(url: Seq<u8>, start: int, end: int, s: int, e: int)
    requires
        token_run(url, start, end),
        token_run(url, s, e),
        start <= s < end,
    ensures
        s == start,
        e == end,
{
    if s > start {
        assert(spec_is_token_byte(url[s - 1]));
    }
    if e < end {
        assert(spec_is_token_byte(url[e]));
    }
    if e > end {
        assert(spec_is_token_byte(url[end]));
    }
}

/// Once an allow is found, later records change nothing.
proof fn lemma_scan_allow_stays(recs: Seq<RecordV>, q: RequestV, n: int, m: int)
    requires
        1 <= n <= m <= recs.len(),
        scan(recs, q, n).0 is Some,
    ensures
        scan(recs, q, m) == scan(recs, q, n),
    decreases m - n,
{
    if m > n {
        lemma_scan_allow_stays(recs, q, n, m - 1);
    }
}

// ─── Rule text ────────────────────────────────────────────────────────────

/// The option name of resource-type bit `i`.
pub open spec fn type_option_name(i: int) -> Seq<char> {
    if i == 0 {
        "document"@
    } else if i == 1 {
        "subdocument"@
    } else if i == 2 {
        "script"@
    } else if i == 3 {
        "stylesheet"@
    } else if i == 4 {
        "image"@
    } else if i == 5 {
        "font"@
    } else if i == 6 {
        "media"@
    } else if i == 7 {
        "xmlhttprequest"@
    } else if i == 8 {
        "websocket"@
    } else if i == 9 {
        "ping"@
    } else if i == 10 {
        "object"@
    } else {
        "other"@
    }
}

fn type_option_name_of(i: usize) -> (n: &'static str)
    requires
        i < 12,
    ensures
        n@ == type_option_name(i as int),
{
    if i == 0 {
        "document"
    } else if i == 1 {
        "subdocument"
    } else if i == 2 {
        "script"
    } else if i == 3 {
        "stylesheet"
    } else if i == 4 {
        "image"
    } else if i == 5 {
        "font"
    } else if i == 6 {
        "media"
    } else if i == 7 {
        "xmlhttprequest"
    } else if i == 8 {
        "websocket"
    } else if i == 9 {
        "ping"
    } else if i == 10 {
        "object"
    } else {
        "other"
    }
}

/// Bit `i` of `types`.
pub open spec fn has_bit(types: u16, i: int) -> bool {
    (types >> (i as u16)) & 1 == 1
}

fn bit_of(types: u16, i: usize) -> (b: bool)
    requires
        i < 16,
    ensures
        b == has_bit(types, i as int),
{
    let k: u16 = i as u16;
    (types >> k) & 1 == 1
}

/// How many of the low `n` bits of `types` are set.
pub open spec fn ones(types: u16, n: int) -> int
    decreases n,
{
    if n <= 0 {
        0
    } else {
        ones(types, n - 1) + if has_bit(types, n - 1) {
            1int
        } else {
            0int
        }
    }
}

/// The type options for the low `n` bits: each type the mask names, or, when
/// more than half of the twelve are set, each it leaves out as `~type`.
pub open spec fn type_options(types: u16, negate: bool, n: int) -> Seq<Seq<char>>
    decreases n,
{
    if n <= 0 {
        Seq::empty()
    } else {
        let before = type_options(types, negate, n - 1);
        if has_bit(types, n - 1) == negate {
            before
        } else if negate {
            before.push("~"@ + type_option_name(n - 1))
        } else {
            before.push(type_option_name(n - 1))
        }
    }
}

/// A record's options in their canonical order.
pub open spec fn record_options(r: RecordV) -> Seq<Seq<char>> {
    let types = if r.types != 0 {
        type_options(r.types, ones(r.types, 16) > 6, 12)
    } else {
        Seq::empty()
    };
    let party = match r.party {
        Party::Third => types.push("third-party"@),
        Party::First => types.push("first-party"@),
        Party::Any => types,
    };
    let case = if r.match_case {
        party.push("match-case"@)
    } else {
        party
    };
    let domains = if r.domains.len() != 0 {
        case.push("domain="@ + r.domains)
    } else {
        case
    };
    match r.methods {
        Some(m) => domains.push("method="@ + m),
        None => domains,
    }
}

/// A record's canonical rule text.
pub open spec fn record_text(r: RecordV) -> Seq<char> {
    (if r.allow {
        "@@"@
    } else {
        Seq::empty()
    }) + (match r.anchor {
        UrlAnchor::Domain => "||"@,
        UrlAnchor::Start => "|"@,
        UrlAnchor::Anywhere => Seq::empty(),
    }) + r.text + (if r.end_anchored {
        "|"@
    } else {
        Seq::empty()
    }) + join_options(record_options(r))
}

/// Appends one option to a text whose options so far are `opts`.
fn push_option_body(
    out: &mut Vec<char>,
    head: Ghost<Seq<char>>,
    opts: Ghost<Seq<Seq<char>>>,
    first: bool,
    body: &[char],
)
    requires
        old(out)@ == head@ + join_options(opts@),
        first == (opts@.len() == 0),
    ensures
        final(out)@ == head@ + join_options(opts@.push(body@)),
{
    let sep = if first {
        '$'
    } else {
        ','
    };
    out.push(sep);
    push_chars(out, body);
    proof {
        let next = opts@.push(body@);
        assert(next.drop_last() =~= opts@);
        assert(final(out)@ =~= head@ + join_options(next));
    }
}

impl UrlIndex {
    /// Reconstructs a compiled rule's canonical text.
    pub fn rule_text(&self, index: u32) -> (t: String)
        requires
            self.wf(),
            index < self.records().len(),
        ensures
            t@ == record_text(self.records()[index as int]),
    {
        let r = &self.records[index as usize];
        let ghost rv = r@;
        let mut out: Vec<char> = Vec::new();
        if r.allow {
            push_str(&mut out, "@@");
        }
        match r.anchor {
            UrlAnchor::Domain => push_str(&mut out, "||"),
            UrlAnchor::Start => push_str(&mut out, "|"),
            UrlAnchor::Anywhere => {},
        }
        push_chars(&mut out, r.text.as_slice());
        if r.end_anchored {
            push_str(&mut out, "|");
        }
        let ghost head = out@;
        let ghost mut opts: Seq<Seq<char>> = Seq::empty();
        let mut first = true;
        proof {
            assert(head == (if rv.allow {
                "@@"@
            } else {
                Seq::empty()
            }) + (match rv.anchor {
                UrlAnchor::Domain => "||"@,
                UrlAnchor::Start => "|"@,
                UrlAnchor::Anywhere => Seq::empty(),
            }) + rv.text + (if rv.end_anchored {
                "|"@
            } else {
                Seq::empty()
            }));
            assert(out@ =~= head + join_options(opts));
        }
        if r.types != 0 {
            let mut count: usize = 0;
            let mut k: usize = 0;
            while k < 16
                invariant
                    k <= 16,
                    count == ones(r.types, k as int),
                    count <= k,
                decreases 16 - k,
            {
                if bit_of(r.types, k) {
                    count += 1;
                }
                k += 1;
            }
            let negate = count > 6;
            let mut i: usize = 0;
            while i < 12
                invariant
                    i <= 12,
                    rv == r@,
                    out@ == head + join_options(opts),
                    opts == type_options(r.types, negate, i as int),
                    first == (opts.len() == 0),
                decreases 12 - i,
            {
                let present = bit_of(r.types, i);
                if present != negate {
                    let name = type_option_name_of(i);
                    let mut body: Vec<char> = Vec::new();
                    if negate {
                        push_str(&mut body, "~");
                    }
                    push_str(&mut body, name);
                    push_option_body(&mut out, Ghost(head), Ghost(opts), first, body.as_slice());
                    first = false;
                    proof {
                        opts = opts.push(body@);
                    }
                }
                i += 1;
            }
        }
        match r.party {
            Party::Third => {
                let mut body: Vec<char> = Vec::new();
                push_str(&mut body, "third-party");
                push_option_body(&mut out, Ghost(head), Ghost(opts), first, body.as_slice());
                first = false;
                proof {
                    opts = opts.push(body@);
                }
            },
            Party::First => {
                let mut body: Vec<char> = Vec::new();
                push_str(&mut body, "first-party");
                push_option_body(&mut out, Ghost(head), Ghost(opts), first, body.as_slice());
                first = false;
                proof {
                    opts = opts.push(body@);
                }
            },
            Party::Any => {},
        }
        if r.match_case {
            let mut body: Vec<char> = Vec::new();
            push_str(&mut body, "match-case");
            push_option_body(&mut out, Ghost(head), Ghost(opts), first, body.as_slice());
            first = false;
            proof {
                opts = opts.push(body@);
            }
        }
        if r.domains.len() != 0 {
            let mut body: Vec<char> = Vec::new();
            push_str(&mut body, "domain=");
            push_chars(&mut body, r.domains.as_slice());
            push_option_body(&mut out, Ghost(head), Ghost(opts), first, body.as_slice());
            first = false;
            proof {
                opts = opts.push(body@);
            }
        }
        match &r.methods {
            Some(m) => {
                let mut body: Vec<char> = Vec::new();
                push_str(&mut body, "method=");
                push_chars(&mut body, m.as_slice());
                push_option_body(&mut out, Ghost(head), Ghost(opts), first, body.as_slice());
                first = false;
                proof {
                    opts = opts.push(body@);
                }
            },
            None => {},
        }
        proof {
            assert(opts =~= record_options(rv));
        }
        string_of(out.as_slice())
    }
}

// ─── Laws ─────────────────────────────────────────────────────────────────

proof fn lemma_scan_explains(recs: Seq<RecordV>, q: RequestV, n: int)
    requires
        0 <= n <= recs.len(),
    ensures
        match scan(recs, q, n) {
            (Some(i), _) => 0 <= i < n && recs[i].allow && applies(recs[i], q) && forall|j: int|
                0 <= j < i ==> !(recs[j].allow && applies(recs[j], q)),
            (None, Some(i)) => 0 <= i < n && !recs[i].allow && applies(recs[i], q) && forall|j: int|
                0 <= j < n ==> !(recs[j].allow && applies(recs[j], q)),
            (None, None) => forall|j: int| 0 <= j < n ==> !applies(recs[j], q),
        },
    decreases n,
{
    if n > 0 {
        lemma_scan_explains(recs, q, n - 1);
    }
}

/// An exception beats a block however the rules are ordered: when any
/// compiled exception applies to a request, the decision is an allow, and
/// it names the first such exception; a block means no exception applies;
/// a pass means no rule applies at all.
pub proof fn lemma_exception_beats_block(recs: Seq<RecordV>, q: RequestV)
    requires
        recs.len() < MAX_URL_RULES,
    ensures
        (exists|i: int| 0 <= i < recs.len() && recs[i].allow && #[trigger] applies(recs[i], q))
            ==> decide(recs, q) is Allow,
        decide(recs, q) matches UrlDecision::Allow(i) ==> i < recs.len() && recs[i as int].allow
            && applies(recs[i as int], q) && forall|j: int|
            0 <= j < i ==> !(recs[j].allow && applies(recs[j], q)),
        decide(recs, q) matches UrlDecision::Block(i) ==> i < recs.len() && applies(recs[i as int], q)
            && forall|j: int| 0 <= j < recs.len() ==> !(recs[j].allow && #[trigger] applies(recs[j], q)),
        decide(recs, q) is Pass ==> forall|j: int| 0 <= j < recs.len() ==> !#[trigger] applies(recs[j], q),
{
    lemma_scan_explains(recs, q, recs.len() as int);
    match scan(recs, q, recs.len() as int) {
        (Some(i), _) => {
            assert((i as u32) as int == i);
        },
        (None, Some(i)) => {
            assert((i as u32) as int == i);
        },
        (None, None) => {},
    }
}

/// The order URL rules were compiled in, and how often each was, do not
/// matter to the kind of decision: two compilations holding the same rules
/// allow, block and pass the same requests.
pub proof fn lemma_url_order_free(r1: Seq<RecordV>, r2: Seq<RecordV>, q: RequestV)
    requires
        forall|x: RecordV| r1.contains(x) <==> r2.contains(x),
    ensures
        same_outcome(decide(r1, q), decide(r2, q)),
{
    lemma_decide_outcome(r1, q);
    lemma_decide_outcome(r2, q);
    assert forall|a: bool| some_applies(r1, q, a) <==> some_applies(r2, q, a) by {
        if some_applies(r1, q, a) {
            let i = choose|i: int| 0 <= i < r1.len() && r1[i].allow == a && #[trigger] applies(r1[i], q);
            assert(r1.contains(r1[i]));
            let j = choose|j: int| 0 <= j < r2.len() && r2[j] == r1[i];
            assert(applies(r2[j], q));
        }
        if some_applies(r2, q, a) {
            let i = choose|i: int| 0 <= i < r2.len() && r2[i].allow == a && #[trigger] applies(r2[i], q);
            assert(r2.contains(r2[i]));
            let j = choose|j: int| 0 <= j < r1.len() && r1[j] == r2[i];
            assert(applies(r1[j], q));
        }
    }
}

/// The same rule added twice, from the same list or another, is compiled
/// once: the second add leaves the records as they are and counts a
/// duplicate.
pub proof fn lemma_same_rule_compiled_once(recs: Seq<RecordV>, rule: UrlRuleV)
    ensures
        url_add_view(url_add_view(recs, rule).0, rule).0 == url_add_view(recs, rule).0,
        url_add_view(url_add_view(recs, rule).0, rule).1 == url_rule_fits(rule),
{
    if url_rule_fits(rule) {
        let r = record_of(rule, encode_utf8_of(rule.pattern));
        if !recs.contains(r) {
            assert(recs.push(r)[recs.len() as int] == r);
        }
    }
}

} // verus!
