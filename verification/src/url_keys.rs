//! Index keys for the URL tier: which keys a pattern offers, which keys a
//! URL is probed with, and why a pattern that matches a URL is always
//! reached through the key it was filed under.
//!
//! A **token** is a maximal run of `[A-Za-z0-9_%]`. A pattern token of at
//! least [`MIN_TOKEN_LEN`] bytes is a key when something pins at least one of
//! its ends to a URL token boundary: a separator, a literal non-token byte,
//! or an anchor at the pattern's edge — never a `*`. Bounded on both sides it
//! *is* a URL token ([`KeyKind::Exact`]); on the left only it starts one
//! ([`KeyKind::Prefix`], keyed by its first bytes); on the right only it ends
//! one ([`KeyKind::Suffix`], keyed by its last bytes).
//!
//! A pattern with no such token falls back to its **literal runs**, the
//! stretches holding neither `*` nor `^`: every window of
//! [`MIN_TOKEN_LEN`] bytes of one must appear in any URL the pattern
//! matches, so a lookup that slides a window along the whole URL finds it.

use vstd::prelude::*;

use crate::matcher::{fnv_step, FNV_PRIME};
use crate::rule::UrlAnchor;
use crate::url_matcher::{
    byte_ok, domain_start, fold_byte, lemma_star_witness, matches_at, pattern_applies, scheme_sep_at,
    scheme_sep_from, spec_is_token_byte, step, is_token_byte,
    RecordV, CARET, STAR,
};

verus! {

/// Shortest token worth filing a rule under, and the n-gram window width.
pub const MIN_TOKEN_LEN: usize = 3;

/// How a key relates to the URL token that must carry it.
#[derive(Clone, Copy, PartialEq, Eq)]
pub enum KeyKind {
    Exact,
    Prefix,
    Suffix,
    Ngram,
}

/// Distinct FNV seeds, so the same bytes under two kinds are two keys.
pub open spec fn spec_seed(kind: KeyKind) -> u64 {
    match kind {
        KeyKind::Exact => 0xcbf2_9ce4_8422_2325u64,
        KeyKind::Prefix => 0x9e37_79b9_7f4a_7c15u64,
        KeyKind::Suffix => 0x517c_c1b7_2722_0a95u64,
        KeyKind::Ngram => 0xff51_afd7_ed55_8ccdu64,
    }
}

fn seed(kind: KeyKind) -> (s: u64)
    ensures
        s == spec_seed(kind),
{
    match kind {
        KeyKind::Exact => 0xcbf2_9ce4_8422_2325u64,
        KeyKind::Prefix => 0x9e37_79b9_7f4a_7c15u64,
        KeyKind::Suffix => 0x517c_c1b7_2722_0a95u64,
        KeyKind::Ngram => 0xff51_afd7_ed55_8ccdu64,
    }
}

/// ASCII lower-casing of every byte.
pub open spec fn fold_bytes(s: Seq<u8>) -> Seq<u8> {
    s.map_values(|b: u8| fold_byte(b))
}

/// FNV-1a over `s`, continuing from `h`.
pub open spec fn fnv_bytes(h: u64, s: Seq<u8>) -> u64
    decreases s.len(),
{
    if s.len() == 0 {
        h
    } else {
        fnv_step(fnv_bytes(h, s.drop_last()), s.last() as u64)
    }
}

/// A key's hash: FNV-1a over the lower-cased bytes, seeded by the kind.
/// Case is folded on both sides, so a `$match-case` rule is still found; its
/// case is enforced by the full match afterwards.
pub open spec fn key_hash(kind: KeyKind, bytes: Seq<u8>) -> u64 {
    fnv_bytes(spec_seed(kind), fold_bytes(bytes))
}

fn lower_byte(b: u8) -> (r: u8)
    ensures
        r == fold_byte(b),
{
    if 65 <= b && b <= 90 {
        b + 32
    } else {
        b
    }
}

/// A key's hash, as [`key_hash`] defines it.
pub fn hash_key(kind: KeyKind, bytes: &[u8]) -> (h: u64)
    ensures
        h == key_hash(kind, bytes@),
{
    proof {
        assert(bytes@.subrange(0, bytes@.len() as int) =~= bytes@);
    }
    hash_range(kind, bytes, 0, bytes.len())
}

/// [`key_hash`] of `bytes[from..to]`.
pub(crate) fn hash_range(kind: KeyKind, bytes: &[u8], from: usize, to: usize) -> (h: u64)
    requires
        from <= to <= bytes@.len(),
    ensures
        h == key_hash(kind, bytes@.subrange(from as int, to as int)),
{
    let mut h = seed(kind);
    let mut k = from;
    proof {
        assert(fold_bytes(bytes@.subrange(from as int, from as int)) =~= Seq::<u8>::empty());
    }
    while k < to
        invariant
            from <= k <= to <= bytes@.len(),
            h == fnv_bytes(spec_seed(kind), fold_bytes(bytes@.subrange(from as int, k as int))),
        decreases to - k,
    {
        let lower = lower_byte(bytes[k]);
        proof {
            let s1 = fold_bytes(bytes@.subrange(from as int, k + 1));
            assert(s1.drop_last() =~= fold_bytes(bytes@.subrange(from as int, k as int)));
            assert(s1.last() == lower);
        }
        h = (h ^ (lower as u64)).wrapping_mul(FNV_PRIME);
        k += 1;
    }
    h
}

/// Three lower-cased bytes packed into a word: an n-gram window's content.
pub open spec fn spec_ngram_word(x: u8, y: u8, z: u8) -> u32 {
    ((x as u32) << 16u32) | ((y as u32) << 8u32) | (z as u32)
}

/// The window of `s` at `a`.
pub open spec fn word_at(s: Seq<u8>, a: int) -> u32 {
    spec_ngram_word(fold_byte(s[a]), fold_byte(s[a + 1]), fold_byte(s[a + 2]))
}

/// A window's packed content.
pub fn ngram_word(window: &[u8]) -> (w: u32)
    requires
        window@.len() == MIN_TOKEN_LEN,
    ensures
        w == word_at(window@, 0),
{
    window_word(window, 0)
}

/// The window of `s` at `a`, packed.
pub(crate) fn window_word(s: &[u8], a: usize) -> (w: u32)
    requires
        a + 3 <= s@.len(),
    ensures
        w == word_at(s@, a as int),
{
    let x = lower_byte(s[a]);
    let y = lower_byte(s[a + 1]);
    let z = lower_byte(s[a + 2]);
    ((x as u32) << 16u32) | ((y as u32) << 8u32) | (z as u32)
}

/// Spreads a window over the 64-bit key space.
pub open spec fn spec_ngram_hash(w: u32) -> u64 {
    let h = ((w as u64) ^ 0xff51_afd7_ed55_8ccdu64).wrapping_mul(0xff51_afd7_ed55_8ccdu64);
    (h ^ (h >> 33u64)).wrapping_mul(0xc4ce_b9fe_1a85_ec53u64)
}

/// Where a window's key lands in the 64-bit key space.
pub fn ngram_hash(w: u32) -> (h: u64)
    ensures
        h == spec_ngram_hash(w),
{
    let mut hash = ((w as u64) ^ seed(KeyKind::Ngram)).wrapping_mul(0xff51_afd7_ed55_8ccdu64);
    hash = hash ^ (hash >> 33u64);
    hash.wrapping_mul(0xc4ce_b9fe_1a85_ec53u64)
}

// ─── Tokens ───────────────────────────────────────────────────────────────

/// `s[a..b]` is a whole token: token bytes only, with no token byte on
/// either side.
pub open spec fn token_run(s: Seq<u8>, a: int, b: int) -> bool {
    &&& 0 <= a < b <= s.len()
    &&& forall|k: int| a <= k < b ==> spec_is_token_byte(#[trigger] s[k])
    &&& (a == 0 || !spec_is_token_byte(s[a - 1]))
    &&& (b == s.len() || !spec_is_token_byte(s[b]))
}

/// What pins a pattern token's start to a URL token start: the byte before
/// it, unless that is `*`; at the pattern's start, an anchor.
pub open spec fn left_bounded(p: Seq<u8>, anchor: UrlAnchor, a: int) -> bool {
    if a == 0 {
        anchor != UrlAnchor::Anywhere
    } else {
        p[a - 1] != STAR
    }
}

/// What pins a pattern token's end: the byte after it, unless that is `*`;
/// at the pattern's end, the end anchor.
pub open spec fn right_bounded(p: Seq<u8>, end_anchored: bool, b: int) -> bool {
    if b == p.len() {
        end_anchored
    } else {
        p[b] != STAR
    }
}

/// The key kind a token bounded so takes, if any.
pub open spec fn kind_for(lb: bool, rb: bool) -> Option<KeyKind> {
    if lb && rb {
        Some(KeyKind::Exact)
    } else if lb {
        Some(KeyKind::Prefix)
    } else if rb {
        Some(KeyKind::Suffix)
    } else {
        None
    }
}

/// The bytes a key of `kind` takes from the token `[a, b)`.
pub open spec fn key_range(kind: KeyKind, a: int, b: int) -> (int, int) {
    match kind {
        KeyKind::Exact => (a, b),
        KeyKind::Suffix => (b - 3, b),
        _ => (a, a + 3),
    }
}

/// The hash of that key in `s`.
pub open spec fn range_hash(kind: KeyKind, s: Seq<u8>, a: int, b: int) -> u64 {
    key_hash(kind, s.subrange(key_range(kind, a, b).0, key_range(kind, a, b).1))
}

/// The pattern token `[a, b)` offers a key of `kind`.
pub open spec fn offers(p: Seq<u8>, anchor: UrlAnchor, end_anchored: bool, kind: KeyKind, a: int, b: int) -> bool {
    &&& token_run(p, a, b)
    &&& b - a >= 3
    &&& kind_for(left_bounded(p, anchor, a), right_bounded(p, end_anchored, b)) == Some(kind)
}

/// `h` is the hash of a key the pattern offers.
pub open spec fn offered_hash(p: Seq<u8>, anchor: UrlAnchor, end_anchored: bool, h: u64) -> bool {
    exists|kind: KeyKind, a: int, b: int|
        #[trigger] offers(p, anchor, end_anchored, kind, a, b) && range_hash(kind, p, a, b) == h
}

/// A rule may be filed under token key `h`.
pub open spec fn token_key_of(r: RecordV, h: u64) -> bool {
    offered_hash(r.pattern, r.anchor, r.end_anchored, h)
}

/// A URL token probed as a key of `kind`.
pub open spec fn probe_at(url: Seq<u8>, kind: KeyKind, s: int, e: int) -> bool {
    token_run(url, s, e) && e - s >= 3 && kind != KeyKind::Ngram
}

/// A lookup of `url` probes token key `h`.
pub open spec fn probes(url: Seq<u8>, h: u64) -> bool {
    exists|kind: KeyKind, s: int, e: int| #[trigger] probe_at(url, kind, s, e) && range_hash(kind, url, s, e) == h
}

/// A window of `p` at `a` holds neither metacharacter.
pub open spec fn window_ok(p: Seq<u8>, a: int) -> bool {
    &&& 0 <= a
    &&& a + 3 <= p.len()
    &&& forall|k: int| a <= k < a + 3 ==> #[trigger] p[k] != STAR && p[k] != CARET
}

/// `w` is a window of one of the pattern's literal runs.
pub open spec fn windowed(p: Seq<u8>, w: u32) -> bool {
    exists|a: int| #[trigger] window_ok(p, a) && word_at(p, a) == w
}

/// The first position at or after `k` that ends a token.
pub open spec fn run_end(s: Seq<u8>, k: int) -> int
    decreases s.len() - k,
{
    if k < 0 || k >= s.len() || !spec_is_token_byte(s[k]) {
        k
    } else {
        run_end(s, k + 1)
    }
}

/// The first position at or before `k` that starts a token.
pub open spec fn run_start(s: Seq<u8>, k: int) -> int
    decreases k,
{
    if k <= 0 || k > s.len() || !spec_is_token_byte(s[k - 1]) {
        k
    } else {
        run_start(s, k - 1)
    }
}

proof fn lemma_run_end(s: Seq<u8>, k: int)
    requires
        0 <= k <= s.len(),
    ensures
        k <= run_end(s, k) <= s.len(),
        forall|x: int| k <= x < run_end(s, k) ==> spec_is_token_byte(#[trigger] s[x]),
        run_end(s, k) == s.len() || !spec_is_token_byte(s[run_end(s, k)]),
    decreases s.len() - k,
{
    if k < s.len() && spec_is_token_byte(s[k]) {
        lemma_run_end(s, k + 1);
    }
}

proof fn lemma_run_start(s: Seq<u8>, k: int)
    requires
        0 <= k <= s.len(),
    ensures
        0 <= run_start(s, k) <= k,
        forall|x: int| run_start(s, k) <= x < k ==> spec_is_token_byte(#[trigger] s[x]),
        run_start(s, k) == 0 || !spec_is_token_byte(s[run_start(s, k) - 1]),
    decreases k,
{
    if k > 0 && spec_is_token_byte(s[k - 1]) {
        lemma_run_start(s, k - 1);
    }
}

// ─── Why a matching rule is always reached ────────────────────────────────

/// A byte that matches folds like the pattern byte, and is a token byte
/// exactly when the pattern byte is.
proof fn lemma_byte_ok(pb: u8, tb: u8, mc: bool)
    requires
        byte_ok(pb, tb, mc),
    ensures
        fold_byte(pb) == fold_byte(tb),
        spec_is_token_byte(pb) == spec_is_token_byte(tb),
{
}

/// Matching from `x`, the pattern reaches every later position `a`.
proof fn lemma_reach(p: Seq<u8>, x: int, url: Seq<u8>, t: int, a: int, ea: bool, mc: bool) -> (j: int)
    requires
        0 <= x <= a <= p.len(),
        matches_at(p, x, url, t, ea, mc),
    ensures
        t <= j <= url.len(),
        matches_at(p, a, url, j, ea, mc),
    decreases a - x,
{
    if x == a {
        t
    } else if p[x] == STAR {
        let j1 = lemma_star_witness(p, x + 1, url, t, ea, mc);
        lemma_reach(p, x + 1, url, j1, a, ea, mc)
    } else {
        let q = step(p, x, url, t, mc).unwrap();
        lemma_reach(p, x + 1, url, q, a, ea, mc)
    }
}

/// A metacharacter-free stretch matches byte for byte.
proof fn lemma_literal(p: Seq<u8>, a: int, b: int, url: Seq<u8>, j: int, ea: bool, mc: bool)
    requires
        0 <= a <= b <= p.len(),
        matches_at(p, a, url, j, ea, mc),
        forall|k: int| a <= k < b ==> #[trigger] p[k] != STAR && p[k] != CARET,
    ensures
        0 <= j,
        j + (b - a) <= url.len(),
        forall|k: int| 0 <= k < b - a ==> byte_ok(p[a + k], #[trigger] url[j + k], mc),
        matches_at(p, b, url, j + (b - a), ea, mc),
    decreases b - a,
{
    if a < b {
        assert(p[a] != STAR && p[a] != CARET);
        lemma_literal(p, a + 1, b, url, j + 1, ea, mc);
        assert forall|k: int| 0 <= k < b - a implies byte_ok(p[a + k], #[trigger] url[j + k], mc) by {
            if k > 0 {
                assert(byte_ok(p[a + 1 + (k - 1)], url[j + 1 + (k - 1)], mc));
            }
        }
    }
}

/// Matching stretches fold alike.
proof fn lemma_fold_eq(p: Seq<u8>, a: int, url: Seq<u8>, j: int, m: int, mc: bool)
    requires
        0 <= a,
        a + m <= p.len(),
        0 <= j,
        j + m <= url.len(),
        0 <= m,
        forall|k: int| 0 <= k < m ==> byte_ok(p[a + k], #[trigger] url[j + k], mc),
    ensures
        fold_bytes(p.subrange(a, a + m)) == fold_bytes(url.subrange(j, j + m)),
{
    assert forall|k: int| 0 <= k < m implies #[trigger] fold_bytes(p.subrange(a, a + m))[k]
        == fold_bytes(url.subrange(j, j + m))[k] by {
        assert(byte_ok(p[a + k], url[j + k], mc));
        lemma_byte_ok(p[a + k], url[j + k], mc);
    }
    assert(fold_bytes(p.subrange(a, a + m)) =~= fold_bytes(url.subrange(j, j + m)));
}

proof fn lemma_scheme_found(u: Seq<u8>, i: int)
    requires
        0 <= i,
    ensures
        scheme_sep_from(u, i) matches Some(k) ==> scheme_sep_at(u, k),
    decreases u.len() - i,
{
    if i + 3 <= u.len() && !scheme_sep_at(u, i) {
        lemma_scheme_found(u, i + 1);
    }
}

/// Where a match starts: at 0 for a start anchor, at a host label for a
/// domain anchor — a token boundary either way.
proof fn lemma_start(r: RecordV, url: Seq<u8>) -> (u0: int)
    requires
        pattern_applies(r, url),
    ensures
        0 <= u0 <= url.len(),
        matches_at(r.pattern, 0, url, u0, r.end_anchored, r.match_case),
        r.anchor != UrlAnchor::Anywhere ==> (u0 == 0 || !spec_is_token_byte(url[u0 - 1])),
{
    match r.anchor {
        UrlAnchor::Start => 0,
        UrlAnchor::Domain => {
            let at = choose|at: int|
                #[trigger] domain_start(url, at) && matches_at(
                    r.pattern,
                    0,
                    url,
                    at,
                    r.end_anchored,
                    r.match_case,
                );
            lemma_scheme_found(url, 0);
            at
        },
        UrlAnchor::Anywhere => {
            choose|at: int|
                0 <= at <= url.len() && #[trigger] matches_at(
                    r.pattern,
                    0,
                    url,
                    at,
                    r.end_anchored,
                    r.match_case,
                )
        },
    }
}

/// A rule that matches a URL is reached through any token key it offers: the
/// URL has a token that the lookup probes with the same key.
pub proof fn lemma_token_key_probed(r: RecordV, url: Seq<u8>, h: u64)
    requires
        pattern_applies(r, url),
        token_key_of(r, h),
    ensures
        probes(url, h),
{
    let p = r.pattern;
    let ea = r.end_anchored;
    let mc = r.match_case;
    let (kind, a, b) = choose|kind: KeyKind, a: int, b: int|
        #[trigger] offers(p, r.anchor, ea, kind, a, b) && range_hash(kind, p, a, b) == h;
    let len = b - a;
    let lb = left_bounded(p, r.anchor, a);
    let rb = right_bounded(p, ea, b);
    let u0 = lemma_start(r, url);
    assert forall|k: int| a <= k < b implies #[trigger] p[k] != STAR && p[k] != CARET by {
        assert(spec_is_token_byte(p[k]));
    }
    // Where the token starts in the URL, and what stands before it.
    let j = if a == 0 {
        u0
    } else {
        let j1 = lemma_reach(p, 0, url, u0, a - 1, ea, mc);
        if p[a - 1] == STAR {
            lemma_star_witness(p, a, url, j1, ea, mc)
        } else {
            let q = step(p, a - 1, url, j1, mc).unwrap();
            lemma_literal(p, a, b, url, q, ea, mc);
            if p[a - 1] != CARET {
                lemma_byte_ok(p[a - 1], url[j1], mc);
            }
            q
        }
    };
    lemma_literal(p, a, b, url, j, ea, mc);
    assert(lb ==> (j == 0 || !spec_is_token_byte(url[j - 1])));
    // The token's bytes in the URL are token bytes.
    assert forall|k: int| j <= k < j + len implies spec_is_token_byte(#[trigger] url[k]) by {
        assert(byte_ok(p[a + (k - j)], url[j + (k - j)], mc));
        lemma_byte_ok(p[a + (k - j)], url[k], mc);
        assert(spec_is_token_byte(p[a + (k - j)]));
    }
    // What stands after it.
    if b < p.len() && p[b] != STAR {
        if p[b] != CARET && j + len < url.len() {
            lemma_byte_ok(p[b], url[j + len], mc);
        }
    }
    assert(rb ==> (j + len == url.len() || !spec_is_token_byte(url[j + len])));
    match kind {
        KeyKind::Exact => {
            lemma_fold_eq(p, a, url, j, len, mc);
            assert(probe_at(url, KeyKind::Exact, j, j + len));
            assert(range_hash(KeyKind::Exact, url, j, j + len) == h);
        },
        KeyKind::Prefix => {
            lemma_run_end(url, j + len);
            let e = run_end(url, j + len);
            assert forall|k: int| 0 <= k < 3 implies byte_ok(p[a + k], #[trigger] url[j + k], mc) by {
                assert(byte_ok(p[a + k], url[j + k], mc));
            }
            lemma_fold_eq(p, a, url, j, 3, mc);
            assert(probe_at(url, KeyKind::Prefix, j, e));
            assert(range_hash(KeyKind::Prefix, url, j, e) == h);
        },
        KeyKind::Suffix => {
            lemma_run_start(url, j);
            let s = run_start(url, j);
            assert forall|k: int| 0 <= k < 3 implies byte_ok(
                p[b - 3 + k],
                #[trigger] url[j + len - 3 + k],
                mc,
            ) by {
                assert(byte_ok(p[a + (len - 3 + k)], url[j + (len - 3 + k)], mc));
            }
            lemma_fold_eq(p, b - 3, url, j + len - 3, 3, mc);
            assert(probe_at(url, KeyKind::Suffix, s, j + len));
            assert(range_hash(KeyKind::Suffix, url, s, j + len) == h);
        },
        KeyKind::Ngram => {},
    }
}

/// A rule that matches a URL is reached through any window of its literal
/// runs: the URL holds a window with the same content.
pub proof fn lemma_window_found(r: RecordV, url: Seq<u8>, w: u32) -> (y: int)
    requires
        pattern_applies(r, url),
        windowed(r.pattern, w),
    ensures
        0 <= y,
        y + 3 <= url.len(),
        word_at(url, y) == w,
{
    let p = r.pattern;
    let ea = r.end_anchored;
    let mc = r.match_case;
    let a = choose|a: int| #[trigger] window_ok(p, a) && word_at(p, a) == w;
    let u0 = lemma_start(r, url);
    let j = lemma_reach(p, 0, url, u0, a, ea, mc);
    lemma_literal(p, a, a + 3, url, j, ea, mc);
    assert(byte_ok(p[a + 0], url[j + 0], mc));
    assert(byte_ok(p[a + 1], url[j + 1], mc));
    assert(byte_ok(p[a + 2], url[j + 2], mc));
    lemma_byte_ok(p[a], url[j], mc);
    lemma_byte_ok(p[a + 1], url[j + 1], mc);
    lemma_byte_ok(p[a + 2], url[j + 2], mc);
    j
}

// ─── The n-gram prefilter ─────────────────────────────────────────────────

/// A window folded to a prefilter bit, `mask` bounding it.
pub open spec fn spec_bloom_bit(w: u32, mask: usize) -> usize {
    ((w ^ (w >> 13u32)) as usize) & mask
}

/// The prefilter has the bit of window `w` set.
pub open spec fn bloom_has(bits: Seq<u64>, w: u32) -> bool {
    let b = spec_bloom_bit(w, (bits.len() * 64 - 1) as usize);
    bits[(b / 64) as int] & (1u64 << ((b % 64) as u64)) != 0
}

/// The prefilter bit of `w`, with its word and position.
pub(crate) fn bloom_slot(w: u32, words: usize) -> (r: (usize, u64))
    requires
        0 < words,
        words * 64 <= usize::MAX,
    ensures
        r.0 < words,
        r.1 < 64,
        r.0 == spec_bloom_bit(w, (words * 64 - 1) as usize) / 64,
        r.1 == spec_bloom_bit(w, (words * 64 - 1) as usize) % 64,
{
    let mask: usize = words * 64 - 1;
    let folded: usize = (w ^ (w >> 13u32)) as usize;
    let bit: usize = folded & mask;
    proof {
        assert(folded & mask <= mask) by (bit_vector);
        assert(bit >> 6usize == bit / 64) by (bit_vector);
        assert(bit & 63usize == bit % 64) by (bit_vector);
    }
    let word = bit >> 6usize;
    let shift = (bit & 63usize) as u64;
    (word, shift)
}

/// A prefilter bit stays within its mask.
pub proof fn lemma_bloom_bit_bound(w: u32, mask: usize)
    ensures
        spec_bloom_bit(w, mask) <= mask,
{
    let folded = (w ^ (w >> 13u32)) as usize;
    assert(folded & mask <= mask) by (bit_vector);
}

/// Setting a bit sets it, and keeps every bit already set.
pub proof fn lemma_set_bit(x: u64, k: u64, m: u64)
    requires
        k < 64,
    ensures
        (x | (1u64 << k)) & (1u64 << k) != 0,
        x & m != 0 ==> (x | (1u64 << k)) & m != 0,
{
    assert((x | (1u64 << k)) & (1u64 << k) != 0) by (bit_vector)
        requires
            k < 64,
    ;
    assert(x & m != 0 ==> (x | (1u64 << k)) & m != 0) by (bit_vector);
}

// ─── What a pattern offers ────────────────────────────────────────────────

/// The key, with its token's length, that the token starting at `a` offers;
/// nothing where no token of at least [`MIN_TOKEN_LEN`] bytes starts there,
/// or where neither end of it is bounded.
pub open spec fn key_at(p: Seq<u8>, anchor: UrlAnchor, end_anchored: bool, a: int) -> Seq<(u64, usize)> {
    let e = run_end(p, a);
    if 0 <= a < p.len() && spec_is_token_byte(p[a]) && (a == 0 || !spec_is_token_byte(p[a - 1]))
        && e - a >= 3 {
        match kind_for(left_bounded(p, anchor, a), right_bounded(p, end_anchored, e)) {
            Some(kind) => seq![(range_hash(kind, p, a, e), (e - a) as usize)],
            None => Seq::empty(),
        }
    } else {
        Seq::empty()
    }
}

/// Every token key `p` offers from position `a` on, in pattern order.
pub open spec fn keys_from(p: Seq<u8>, anchor: UrlAnchor, end_anchored: bool, a: int) -> Seq<(u64, usize)>
    decreases p.len() - a,
{
    if a < 0 || a >= p.len() {
        Seq::empty()
    } else {
        key_at(p, anchor, end_anchored, a) + keys_from(p, anchor, end_anchored, a + 1)
    }
}

/// Inside a token no other token starts.
proof fn lemma_keys_skip_run(p: Seq<u8>, anchor: UrlAnchor, end_anchored: bool, x: int, e: int)
    requires
        1 <= x <= e <= p.len(),
        forall|k: int| x - 1 <= k < e ==> spec_is_token_byte(#[trigger] p[k]),
    ensures
        keys_from(p, anchor, end_anchored, x) == keys_from(p, anchor, end_anchored, e),
    decreases e - x,
{
    if x < e {
        lemma_keys_skip_run(p, anchor, end_anchored, x + 1, e);
        assert(spec_is_token_byte(p[x - 1]));
        assert(key_at(p, anchor, end_anchored, x) =~= Seq::<(u64, usize)>::empty());
        assert(keys_from(p, anchor, end_anchored, x) =~= keys_from(p, anchor, end_anchored, x + 1));
    }
}

/// The first `*` or `^` at or after `k`, or the end.
pub open spec fn lit_end(p: Seq<u8>, k: int) -> int
    decreases p.len() - k,
{
    if k < 0 || k >= p.len() || p[k] == STAR || p[k] == CARET {
        k
    } else {
        lit_end(p, k + 1)
    }
}

/// Where the literal run holding position `k` starts.
pub open spec fn lit_start(p: Seq<u8>, k: int) -> int
    decreases k,
{
    if k <= 0 || k > p.len() || p[k - 1] == STAR || p[k - 1] == CARET {
        k
    } else {
        lit_start(p, k - 1)
    }
}

/// The window at `a`, with the length of its literal run; nothing where no
/// window of [`MIN_TOKEN_LEN`] metacharacter-free bytes starts at `a`.
pub open spec fn word_key_at(p: Seq<u8>, a: int) -> Seq<(u32, usize)> {
    if window_ok(p, a) {
        seq![(word_at(p, a), (lit_end(p, a) - lit_start(p, a)) as usize)]
    } else {
        Seq::empty()
    }
}

/// Every window of `p`'s literal runs from position `a` on, in pattern order.
pub open spec fn words_from(p: Seq<u8>, a: int) -> Seq<(u32, usize)>
    decreases p.len() - a,
{
    if a < 0 || a >= p.len() {
        Seq::empty()
    } else {
        word_key_at(p, a) + words_from(p, a + 1)
    }
}

proof fn lemma_lit_end(p: Seq<u8>, x: int, e: int)
    requires
        0 <= x <= e <= p.len(),
        forall|k: int| x <= k < e ==> #[trigger] p[k] != STAR && p[k] != CARET,
        e == p.len() || p[e] == STAR || p[e] == CARET,
    ensures
        lit_end(p, x) == e,
    decreases e - x,
{
    if x < e {
        assert(p[x] != STAR && p[x] != CARET);
        lemma_lit_end(p, x + 1, e);
    }
}

proof fn lemma_lit_start(p: Seq<u8>, s: int, x: int)
    requires
        0 <= s <= x <= p.len(),
        forall|k: int| s <= k < x ==> #[trigger] p[k] != STAR && p[k] != CARET,
        s == 0 || p[s - 1] == STAR || p[s - 1] == CARET,
    ensures
        lit_start(p, x) == s,
    decreases x - s,
{
    if s < x {
        assert(p[x - 1] != STAR && p[x - 1] != CARET);
        lemma_lit_start(p, s, x - 1);
    }
}

/// No window starts within the last bytes of a literal run.
proof fn lemma_no_windows(p: Seq<u8>, x: int, e: int)
    requires
        0 <= x <= e <= p.len(),
        x + 3 > e,
        e == p.len() || p[e] == STAR || p[e] == CARET,
    ensures
        words_from(p, x) == words_from(p, e),
    decreases e - x,
{
    if x < e {
        lemma_no_windows(p, x + 1, e);
        if window_ok(p, x) {
            if e < p.len() {
                assert(p[e] != STAR && p[e] != CARET);
            }
        }
        assert(word_key_at(p, x) =~= Seq::<(u32, usize)>::empty());
        assert(words_from(p, x) =~= words_from(p, x + 1));
    }
}

/// The key the whole token `p[start..end]` offers, with its length.
fn run_key(p: &[u8], anchor: UrlAnchor, end_anchored: bool, start: usize, end: usize) -> (r: Option<(u64, usize)>)
    requires
        token_run(p@, start as int, end as int),
        run_end(p@, start as int) == end,
    ensures
        match r {
            Some(x) => seq![x],
            None => Seq::empty(),
        } == key_at(p@, anchor, end_anchored, start as int),
        r matches Some(x) ==> offered_hash(p@, anchor, end_anchored, x.0),
{
    if end - start < MIN_TOKEN_LEN {
        return None;
    }
    let lb = if start == 0 {
        match anchor {
            UrlAnchor::Anywhere => false,
            _ => true,
        }
    } else {
        p[start - 1] != STAR
    };
    let rb = if end == p.len() {
        end_anchored
    } else {
        p[end] != STAR
    };
    assert(lb == left_bounded(p@, anchor, start as int));
    assert(rb == right_bounded(p@, end_anchored, end as int));
    if lb && rb {
        let h = hash_range(KeyKind::Exact, p, start, end);
        assert(offers(p@, anchor, end_anchored, KeyKind::Exact, start as int, end as int));
        Some((h, end - start))
    } else if lb {
        let h = hash_range(KeyKind::Prefix, p, start, start + 3);
        assert(offers(p@, anchor, end_anchored, KeyKind::Prefix, start as int, end as int));
        Some((h, end - start))
    } else if rb {
        let h = hash_range(KeyKind::Suffix, p, end - 3, end);
        assert(offers(p@, anchor, end_anchored, KeyKind::Suffix, start as int, end as int));
        Some((h, end - start))
    } else {
        None
    }
}

/// Every token key `p` offers, in pattern order, each with its token's
/// length.
pub(crate) fn index_keys(p: &[u8], anchor: UrlAnchor, end_anchored: bool) -> (keys: Vec<(u64, usize)>)
    ensures
        keys@ == keys_from(p@, anchor, end_anchored, 0),
        forall|k: int| 0 <= k < keys.len() ==> offered_hash(p@, anchor, end_anchored, #[trigger] keys[k].0),
{
    let n = p.len();
    let mut keys: Vec<(u64, usize)> = Vec::new();
    let mut at: usize = 0;
    proof {
        assert(keys@ + keys_from(p@, anchor, end_anchored, 0) =~= keys_from(p@, anchor, end_anchored, 0));
    }
    while at < n
        invariant
            n == p@.len(),
            at <= n,
            at == 0 || at == n || !spec_is_token_byte(p@[at - 1]) || !spec_is_token_byte(p@[at as int]),
            forall|k: int| 0 <= k < keys.len() ==> offered_hash(p@, anchor, end_anchored, #[trigger] keys[k].0),
            keys_from(p@, anchor, end_anchored, 0) == keys@ + keys_from(p@, anchor, end_anchored, at as int),
        decreases n - at,
    {
        let ghost before = keys@;
        if !is_token_byte(p[at]) {
            proof {
                assert(key_at(p@, anchor, end_anchored, at as int) =~= Seq::<(u64, usize)>::empty());
                assert(keys_from(p@, anchor, end_anchored, at as int) =~= keys_from(
                    p@,
                    anchor,
                    end_anchored,
                    at + 1,
                ));
            }
            at += 1;
        } else {
            let start = at;
            while at < n && is_token_byte(p[at])
                invariant
                    n == p@.len(),
                    start < n,
                    start <= at <= n,
                    forall|k: int| start <= k < at ==> spec_is_token_byte(#[trigger] p@[k]),
                    spec_is_token_byte(p@[start as int]),
                    run_end(p@, at as int) == run_end(p@, start as int),
                decreases n - at,
            {
                at += 1;
            }
            assert(token_run(p@, start as int, at as int));
            let key = run_key(p, anchor, end_anchored, start, at);
            if let Some(x) = key {
                keys.push(x);
            }
            proof {
                lemma_keys_skip_run(p@, anchor, end_anchored, start + 1, at as int);
                assert(keys@ =~= before + key_at(p@, anchor, end_anchored, start as int));
                assert(keys_from(p@, anchor, end_anchored, start as int) =~= key_at(
                    p@,
                    anchor,
                    end_anchored,
                    start as int,
                ) + keys_from(p@, anchor, end_anchored, start + 1));
                assert(keys_from(p@, anchor, end_anchored, 0) =~= keys@ + keys_from(
                    p@,
                    anchor,
                    end_anchored,
                    at as int,
                ));
            }
        }
    }
    proof {
        assert(keys_from(p@, anchor, end_anchored, n as int) =~= Seq::<(u64, usize)>::empty());
        assert(keys@ =~= keys@ + Seq::<(u64, usize)>::empty());
    }
    keys
}

/// Every window of `p`'s literal runs, in pattern order, each with its run's
/// length.
pub(crate) fn ngram_keys(p: &[u8]) -> (words: Vec<(u32, usize)>)
    ensures
        words@ == words_from(p@, 0),
        forall|k: int| 0 <= k < words.len() ==> windowed(p@, #[trigger] words[k].0),
{
    let n = p.len();
    let mut words: Vec<(u32, usize)> = Vec::new();
    let mut at: usize = 0;
    proof {
        assert(words@ + words_from(p@, 0) =~= words_from(p@, 0));
    }
    while at < n
        invariant
            n == p@.len(),
            at <= n,
            at == 0 || at == n || p@[at - 1] == STAR || p@[at - 1] == CARET || p@[at as int] == STAR
                || p@[at as int] == CARET,
            forall|k: int| 0 <= k < words.len() ==> windowed(p@, #[trigger] words[k].0),
            words_from(p@, 0) == words@ + words_from(p@, at as int),
        decreases n - at,
    {
        if p[at] == STAR || p[at] == CARET {
            proof {
                assert(!window_ok(p@, at as int));
                assert(word_key_at(p@, at as int) =~= Seq::<(u32, usize)>::empty());
                assert(words_from(p@, at as int) =~= words_from(p@, at + 1));
            }
            at += 1;
        } else {
            let start = at;
            while at < n && p[at] != STAR && p[at] != CARET
                invariant
                    n == p@.len(),
                    start <= at <= n,
                    forall|k: int| start <= k < at ==> #[trigger] p@[k] != STAR && p@[k] != CARET,
                decreases n - at,
            {
                at += 1;
            }
            let run = at - start;
            let mut a = start;
            while at - a >= MIN_TOKEN_LEN
                invariant
                    n == p@.len(),
                    start <= a <= at,
                    at <= n,
                    run == at - start,
                    start == 0 || p@[start - 1] == STAR || p@[start - 1] == CARET,
                    at == n || p@[at as int] == STAR || p@[at as int] == CARET,
                    forall|k: int| start <= k < at ==> #[trigger] p@[k] != STAR && p@[k] != CARET,
                    forall|k: int| 0 <= k < words.len() ==> windowed(p@, #[trigger] words[k].0),
                    words_from(p@, 0) == words@ + words_from(p@, a as int),
                decreases at - a,
            {
                let w = window_word(p, a);
                assert(window_ok(p@, a as int));
                let ghost before = words@;
                words.push((w, run));
                proof {
                    lemma_lit_end(p@, a as int, at as int);
                    lemma_lit_start(p@, start as int, a as int);
                    assert(word_key_at(p@, a as int) =~= seq![(w, run)]);
                    assert(words_from(p@, a as int) =~= word_key_at(p@, a as int) + words_from(
                        p@,
                        a + 1,
                    ));
                    assert(words_from(p@, 0) =~= words@ + words_from(p@, a + 1));
                }
                a += 1;
            }
            proof {
                lemma_no_windows(p@, a as int, at as int);
            }
        }
    }
    proof {
        assert(words_from(p@, n as int) =~= Seq::<(u32, usize)>::empty());
        assert(words@ =~= words@ + Seq::<(u32, usize)>::empty());
    }
    words
}

} // verus!
