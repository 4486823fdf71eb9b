//! Compiled matcher for the domain tier: DNS-applicable rules compiled into a
//! compact structure that answers a verdict for a name without allocating.
//!
//! Domains are not stored one allocation each. Instead:
//!
//! - `arena` — every rule domain, concatenated into one contiguous buffer.
//! - `records` — a fixed-size [`Record`] per rule (offset and length into the
//!   arena, flags, list id).
//! - `slots` — a flat open-addressing hash table of record indices
//!   ([`EMPTY`] sentinel), keyed by the case-folded domain; several rules for
//!   the same domain occupy several slots.
//!
//! `$dnstype` masks, `$dnsrewrite` payloads and `$client` scopes are rare, so
//! they live in side maps keyed by record index rather than in every record.
//!
//! # Deduplication
//!
//! Lists overlap heavily, so [`MatcherBuilder::add_rule`] drops a rule whose
//! full identity (domain ignoring ASCII case, action, subdomain flag, and the
//! three option payloads; the owning list is attribution, not identity)
//! already exists. The index doing that is a transient open-addressing table
//! of record indices keyed by the identity hash; the hash only picks where a
//! probe starts, and every accept or reject is a real comparison, so a
//! collision can never drop a distinct rule. Output is decided by insertion
//! order, never by probe order, so the table's capacity cannot change it.
//!
//! # Lookup
//!
//! [`Matcher::lookup`] answers allow > block > pass: any applicable allow at
//! any label level wins, the most specific level first and, within a level,
//! the earliest-compiled rule; otherwise the most specific block decides.

use vstd::prelude::*;

use std::collections::HashMap;

use crate::client::{opt_str_view, spec_admits, spec_parse_scope, ClientScope};
use crate::ip::IpAddr;
use crate::policy::{PolicyId, ALL_POLICIES};
use crate::resource::eq_ci;
use crate::rule::{DomainRule, DomainRuleV, RuleAction, RuleKind, RuleKindV, UrlRule};
use crate::rule_list::ParsedRuleList;
use crate::url_matcher::{
    applies, decide, record_text, request_view, same_outcome, url_add_view, walk_cut, RequestV, LOOKUP_STEP_CAP, HttpRequest, RecordV, UrlDecision,
    UrlIndex, UrlIndexBuilder, MAX_URL_RULES, NGRAM_BUCKET_CAP, count_where, offers_token_key, offers_window,
};
use crate::table::{
    dist, lemma_empty_table, lemma_insert, lemma_probe_continues, lemma_step_dist,
    lemma_walk_covers, step, table_wf, EMPTY,
};
use crate::text::{
    chars_of, eq_chars, eq_ignore_case, into_boxed, lemma_len_le_utf8_len,
    lemma_sep_end_bounds, lemma_trim_shift, lower_seq, piece_end, sep_end, string_of,
    to_lower_char, trim_bounds, trim_range, utf8_len, utf8_len_exceeds,
};

verus! {

broadcast use vstd::std_specs::hash::group_hash_axioms;

// ─── Queries and record types ─────────────────────────────────────────────

/// The type of a DNS question.
#[derive(Debug, Clone, PartialEq, Eq)]
pub enum QueryType {
    A,
    Aaaa,
    /// Any other type, by its mnemonic (`"HTTPS"`, `"MX"`, …).
    Other(String),
}

/// The bit of a DNS record type the matcher understands for `$dnstype`
/// filtering, by mnemonic ignoring ASCII case; `0` for any other type, so a
/// `$dnstype`-restricted rule never matches a type it cannot reason about.
pub open spec fn spec_rrtype_bit(name: Seq<char>) -> u32 {
    if eq_ci(name, seq!['A']) {
        1
    } else if eq_ci(name, seq!['A', 'A', 'A', 'A']) {
        2
    } else if eq_ci(name, seq!['H', 'T', 'T', 'P', 'S']) {
        4
    } else if eq_ci(name, seq!['S', 'V', 'C', 'B']) {
        8
    } else if eq_ci(name, seq!['C', 'N', 'A', 'M', 'E']) {
        16
    } else if eq_ci(name, seq!['M', 'X']) {
        32
    } else if eq_ci(name, seq!['T', 'X', 'T']) {
        64
    } else if eq_ci(name, seq!['N', 'S']) {
        128
    } else if eq_ci(name, seq!['P', 'T', 'R']) {
        256
    } else if eq_ci(name, seq!['S', 'R', 'V']) {
        512
    } else if eq_ci(name, seq!['S', 'O', 'A']) {
        1024
    } else if eq_ci(name, seq!['C', 'A', 'A']) {
        2048
    } else if eq_ci(name, seq!['D', 'S']) {
        4096
    } else if eq_ci(name, seq!['D', 'N', 'S', 'K', 'E', 'Y']) {
        8192
    } else if eq_ci(name, seq!['N', 'A', 'P', 'T', 'R']) {
        16384
    } else {
        0
    }
}

/// Every bit [`spec_rrtype_bit`] can produce — what negated `$dnstype`
/// values subtract from.
pub const KNOWN_TYPES_MASK: u32 = 0x7FFF;

/// The bit of record type `name` — see [`spec_rrtype_bit`].
pub fn rrtype_bit(name: &[char]) -> (b: u32)
    ensures
        b == spec_rrtype_bit(name@),
{
    let t0 = ['A'];
    proof {
        assert(t0@ == seq!['A']);
    }
    if eq_ignore_case(name, t0.as_slice()) {
        return 1;
    }
    let t1 = ['A', 'A', 'A', 'A'];
    proof {
        assert(t1@ == seq!['A', 'A', 'A', 'A']);
    }
    if eq_ignore_case(name, t1.as_slice()) {
        return 2;
    }
    let t2 = ['H', 'T', 'T', 'P', 'S'];
    proof {
        assert(t2@ == seq!['H', 'T', 'T', 'P', 'S']);
    }
    if eq_ignore_case(name, t2.as_slice()) {
        return 4;
    }
    let t3 = ['S', 'V', 'C', 'B'];
    proof {
        assert(t3@ == seq!['S', 'V', 'C', 'B']);
    }
    if eq_ignore_case(name, t3.as_slice()) {
        return 8;
    }
    let t4 = ['C', 'N', 'A', 'M', 'E'];
    proof {
        assert(t4@ == seq!['C', 'N', 'A', 'M', 'E']);
    }
    if eq_ignore_case(name, t4.as_slice()) {
        return 16;
    }
    let t5 = ['M', 'X'];
    proof {
        assert(t5@ == seq!['M', 'X']);
    }
    if eq_ignore_case(name, t5.as_slice()) {
        return 32;
    }
    let t6 = ['T', 'X', 'T'];
    proof {
        assert(t6@ == seq!['T', 'X', 'T']);
    }
    if eq_ignore_case(name, t6.as_slice()) {
        return 64;
    }
    let t7 = ['N', 'S'];
    proof {
        assert(t7@ == seq!['N', 'S']);
    }
    if eq_ignore_case(name, t7.as_slice()) {
        return 128;
    }
    let t8 = ['P', 'T', 'R'];
    proof {
        assert(t8@ == seq!['P', 'T', 'R']);
    }
    if eq_ignore_case(name, t8.as_slice()) {
        return 256;
    }
    let t9 = ['S', 'R', 'V'];
    proof {
        assert(t9@ == seq!['S', 'R', 'V']);
    }
    if eq_ignore_case(name, t9.as_slice()) {
        return 512;
    }
    let t10 = ['S', 'O', 'A'];
    proof {
        assert(t10@ == seq!['S', 'O', 'A']);
    }
    if eq_ignore_case(name, t10.as_slice()) {
        return 1024;
    }
    let t11 = ['C', 'A', 'A'];
    proof {
        assert(t11@ == seq!['C', 'A', 'A']);
    }
    if eq_ignore_case(name, t11.as_slice()) {
        return 2048;
    }
    let t12 = ['D', 'S'];
    proof {
        assert(t12@ == seq!['D', 'S']);
    }
    if eq_ignore_case(name, t12.as_slice()) {
        return 4096;
    }
    let t13 = ['D', 'N', 'S', 'K', 'E', 'Y'];
    proof {
        assert(t13@ == seq!['D', 'N', 'S', 'K', 'E', 'Y']);
    }
    if eq_ignore_case(name, t13.as_slice()) {
        return 8192;
    }
    let t14 = ['N', 'A', 'P', 'T', 'R'];
    proof {
        assert(t14@ == seq!['N', 'A', 'P', 'T', 'R']);
    }
    if eq_ignore_case(name, t14.as_slice()) {
        return 16384;
    }
    0
}

pub open spec fn spec_qtype_bit(q: QueryType) -> u32 {
    match q {
        QueryType::A => 1,
        QueryType::Aaaa => 2,
        QueryType::Other(name) => spec_rrtype_bit(name@),
    }
}

/// The bit of a question's type.
pub fn qtype_bit(qtype: &QueryType) -> (b: u32)
    ensures
        b == spec_qtype_bit(*qtype),
{
    match qtype {
        QueryType::A => 1,
        QueryType::Aaaa => 2,
        QueryType::Other(name) => {
            let v = chars_of(name.as_str());
            rrtype_bit(v.as_slice())
        },
    }
}

/// The first `|` or `,` at or after `from`, or the end of `s`.
pub open spec fn type_sep_end(s: Seq<char>, from: int) -> int
    decreases s.len() - from,
{
    if from >= s.len() || s[from] == '|' || s[from] == ',' {
        from
    } else {
        type_sep_end(s, from + 1)
    }
}

pub proof fn lemma_type_sep_end_bounds(s: Seq<char>, from: int)
    requires
        0 <= from <= s.len(),
    ensures
        from <= type_sep_end(s, from) <= s.len(),
    decreases s.len() - from,
{
    if from < s.len() && s[from] != '|' && s[from] != ',' {
        lemma_type_sep_end_bounds(s, from + 1);
    }
}

/// `s[from..]` split at every `|` and `,`, as piece bounds.
pub open spec fn type_pieces(s: Seq<char>, from: int) -> Seq<(int, int)>
    decreases s.len() - from,
{
    if from < 0 || from > s.len() {
        Seq::empty()
    } else {
        let e = type_sep_end(s, from);
        if e >= s.len() {
            seq![(from, s.len() as int)]
        } else {
            proof {
                lemma_type_sep_end_bounds(s, from);
            }
            seq![(from, e)] + type_pieces(s, e + 1)
        }
    }
}

/// One `$dnstype` value applied to the (positive, negated) masks: trimmed, a
/// leading `~` negating the (again trimmed) type, an empty value ignored.
pub open spec fn dnstype_value(masks: (u32, u32), tok: Seq<char>) -> (u32, u32) {
    let (a, b) = trim_bounds(tok, 0, tok.len() as int);
    let t = tok.subrange(a, b);
    if t.len() > 0 && t[0] == '~' {
        let n = t.skip(1);
        let (c, d) = trim_bounds(n, 0, n.len() as int);
        (masks.0, masks.1 | spec_rrtype_bit(n.subrange(c, d)))
    } else if t.len() > 0 {
        (masks.0 | spec_rrtype_bit(t), masks.1)
    } else {
        masks
    }
}

pub open spec fn fold_dnstype(raw: Seq<char>, pieces: Seq<(int, int)>) -> (u32, u32)
    decreases pieces.len(),
{
    if pieces.len() == 0 {
        (0, 0)
    } else {
        dnstype_value(
            fold_dnstype(raw, pieces.drop_last()),
            raw.subrange(pieces.last().0, pieces.last().1),
        )
    }
}

/// What `$dnstype=A|AAAA` (or comma-separated) means as a mask: purely
/// negated values subtract from [`KNOWN_TYPES_MASK`], mixed ones resolve as
/// `positive & !negated`.
pub open spec fn spec_dnstype_mask(raw: Seq<char>) -> u32 {
    let (positive, negated) = fold_dnstype(raw, type_pieces(raw, 0));
    if positive == 0 && negated != 0 {
        KNOWN_TYPES_MASK & !negated
    } else {
        positive & !negated
    }
}

/// The end of the `$dnstype` value starting at `from` in `v`.
fn type_piece_end(v: &[char], from: usize) -> (e: usize)
    requires
        from <= v.len(),
    ensures
        e as int == type_sep_end(v@, from as int),
        from <= e <= v.len(),
        type_pieces(v@, from as int) == if e >= v.len() {
            seq![(from as int, v.len() as int)]
        } else {
            seq![(from as int, e as int)] + type_pieces(v@, e + 1)
        },
{
    let mut e: usize = from;
    while e < v.len() && v[e] != '|' && v[e] != ','
        invariant
            from <= e <= v.len(),
            type_sep_end(v@, from as int) == type_sep_end(v@, e as int),
        decreases v.len() - e,
    {
        e += 1;
    }
    proof {
        lemma_type_sep_end_bounds(v@, from as int);
    }
    e
}

/// One value `v[from..to]` applied to the masks — see [`dnstype_value`].
fn dnstype_value_exec(masks: (u32, u32), v: &[char], from: usize, to: usize) -> (r: (u32, u32))
    requires
        from <= to <= v.len(),
    ensures
        r == dnstype_value(masks, v@.subrange(from as int, to as int)),
{
    let ghost tok = v@.subrange(from as int, to as int);
    let (a, b) = trim_range(v, from, to);
    proof {
        lemma_trim_shift(v@, from as int, to as int);
        assert(tok.subrange((a - from) as int, (b - from) as int) =~= v@.subrange(a as int, b as int));
    }
    if a < b && v[a] == '~' {
        let (c, d) = trim_range(v, a + 1, b);
        let ghost t = v@.subrange(a as int, b as int);
        proof {
            lemma_trim_shift(v@, a + 1, b as int);
            assert(t.skip(1) =~= v@.subrange(a + 1, b as int));
            assert(t.skip(1).subrange((c - a - 1) as int, (d - a - 1) as int) =~= v@.subrange(
                c as int,
                d as int,
            ));
        }
        (masks.0, masks.1 | rrtype_bit(&v[c..d]))
    } else if a < b {
        (masks.0 | rrtype_bit(&v[a..b]), masks.1)
    } else {
        masks
    }
}

/// The mask of a `$dnstype` value — see [`spec_dnstype_mask`].
pub fn parse_dnstype_mask(raw: &[char]) -> (m: u32)
    ensures
        m == spec_dnstype_mask(raw@),
{
    let mut masks: (u32, u32) = (0, 0);
    let ghost mut done: Seq<(int, int)> = Seq::empty();
    let mut at: usize = 0;
    loop
        invariant
            at <= raw.len(),
            type_pieces(raw@, 0) == done + type_pieces(raw@, at as int),
            fold_dnstype(raw@, done) == masks,
        decreases raw.len() - at,
    {
        let e = type_piece_end(raw, at);
        masks = dnstype_value_exec(masks, raw, at, e);
        let ghost prev = done;
        proof {
            done = done.push((at as int, e as int));
            assert(done.drop_last() =~= prev);
        }
        if e >= raw.len() {
            proof {
                assert(type_pieces(raw@, 0) =~= done);
            }
            return if masks.0 == 0 && masks.1 != 0 {
                KNOWN_TYPES_MASK & !masks.1
            } else {
                masks.0 & !masks.1
            };
        }
        proof {
            assert(type_pieces(raw@, 0) =~= done + type_pieces(raw@, e + 1));
        }
        at = e + 1;
    }
}

// ─── Hashing and table sizing ─────────────────────────────────────────────

pub const FNV_OFFSET: u64 = 0xcbf2_9ce4_8422_2325;

pub const FNV_PRIME: u64 = 0x0000_0100_0000_01b3;

/// One FNV-1a step.
pub open spec fn fnv_step(h: u64, x: u64) -> u64 {
    (h ^ x).wrapping_mul(FNV_PRIME)
}

/// FNV-1a of the characters of `s`, continuing from `h`.
pub open spec fn fnv(h: u64, s: Seq<char>) -> u64
    decreases s.len(),
{
    if s.len() == 0 {
        h
    } else {
        fnv_step(fnv(h, s.drop_last()), (s.last() as u32) as u64)
    }
}

/// FNV-1a over the ASCII-lowercased domain, so a query's case never
/// matters.
pub open spec fn spec_hash_domain(s: Seq<char>) -> u64 {
    fnv(FNV_OFFSET, lower_seq(s))
}

/// [`spec_hash_domain`] of `v[from..to]`.
pub fn hash_domain(v: &[char], from: usize, to: usize) -> (h: u64)
    requires
        from <= to <= v.len(),
    ensures
        h == spec_hash_domain(v@.subrange(from as int, to as int)),
{
    let ghost t = lower_seq(v@.subrange(from as int, to as int));
    let mut h: u64 = FNV_OFFSET;
    let mut k: usize = from;
    while k < to
        invariant
            from <= k <= to <= v.len(),
            t == lower_seq(v@.subrange(from as int, to as int)),
            h == fnv(FNV_OFFSET, t.take(k - from)),
        decreases to - k,
    {
        let c = to_lower_char(v[k]);
        proof {
            assert(t.take(k - from + 1).drop_last() =~= t.take(k - from));
            assert(t[k - from] == c);
        }
        h = (h ^ ((c as u32) as u64)).wrapping_mul(FNV_PRIME);
        k += 1;
    }
    proof {
        assert(t.take(t.len() as int) =~= t);
    }
    h
}

/// Continues an FNV-1a chain over `v[from..to]` verbatim — no case folding:
/// option payloads are compared exactly, so they hash exactly too.
pub fn hash_extend(h0: u64, v: &[char], from: usize, to: usize) -> (h: u64)
    requires
        from <= to <= v.len(),
    ensures
        h == fnv(h0, v@.subrange(from as int, to as int)),
{
    let ghost t = v@.subrange(from as int, to as int);
    let mut h: u64 = h0;
    let mut k: usize = from;
    while k < to
        invariant
            from <= k <= to <= v.len(),
            t == v@.subrange(from as int, to as int),
            h == fnv(h0, t.take(k - from)),
        decreases to - k,
    {
        let c = v[k];
        proof {
            assert(t.take(k - from + 1).drop_last() =~= t.take(k - from));
            assert(t[k - from] == c);
        }
        h = (h ^ ((c as u32) as u64)).wrapping_mul(FNV_PRIME);
        k += 1;
    }
    proof {
        assert(t.take(t.len() as int) =~= t);
    }
    h
}

/// Lemire's fastrange: maps a 64-bit hash into `[0, cap)` with one 128-bit
/// multiply and shift — no modulo, and no power-of-two requirement.
pub open spec fn spec_fastrange(hash: u64, cap: int) -> int {
    (hash as int * cap) / 0x1_0000_0000_0000_0000
}

pub fn fastrange(hash: u64, cap: usize) -> (r: usize)
    requires
        cap > 0,
    ensures
        r == spec_fastrange(hash, cap as int),
        r < cap,
{
    proof {
        assert((hash as int) * (cap as int) <= 0xFFFF_FFFF_FFFF_FFFF * 0xFFFF_FFFF_FFFF_FFFF) by (nonlinear_arith)
            requires
                hash <= 0xFFFF_FFFF_FFFF_FFFFu64,
                cap <= 0xFFFF_FFFF_FFFF_FFFFu64,
        ;
    }
    let x: u128 = (hash as u128) * (cap as u128);
    let y: u128 = x >> 64u128;
    proof {
        vstd::bits::lemma_u128_shr_is_div(x, 64);
        vstd::arithmetic::power2::lemma2_to64();
        assert(y == (x as int) / 0x1_0000_0000_0000_0000);
        assert((hash as int) * (cap as int) / 0x1_0000_0000_0000_0000 < cap) by (nonlinear_arith)
            requires
                0 <= hash < 0x1_0000_0000_0000_0000,
                cap > 0,
        ;
    }
    y as usize
}

/// Slot count for the compiled table: a ~0.7 load factor, never fewer than
/// eight slots.
pub open spec fn spec_table_slots(entries: int) -> int {
    let scaled = if entries * 10 > usize::MAX {
        usize::MAX as int
    } else {
        entries * 10
    };
    if scaled / 7 < 8 {
        8
    } else {
        scaled / 7
    }
}

pub fn table_slots(entries: usize) -> (n: usize)
    ensures
        n == spec_table_slots(entries as int),
        entries * 10 <= usize::MAX ==> n > entries,
{
    let scaled: usize = match entries.checked_mul(10) {
        Some(x) => x,
        None => usize::MAX,
    };
    let n = scaled / 7;
    if n < 8 {
        8
    } else {
        n
    }
}

/// Slot count for the transient dedup index — a 0.5 load factor, never fewer
/// than eight slots.
pub open spec fn spec_dedup_slots(entries: int) -> int {
    let scaled = if entries * 2 > usize::MAX {
        usize::MAX as int
    } else {
        entries * 2
    };
    if scaled < 8 {
        8
    } else {
        scaled
    }
}

pub fn dedup_slots(entries: usize) -> (n: usize)
    ensures
        n == spec_dedup_slots(entries as int),
{
    let scaled: usize = match entries.checked_mul(2) {
        Some(x) => x,
        None => usize::MAX,
    };
    if scaled < 8 {
        8
    } else {
        scaled
    }
}

// ─── Records ──────────────────────────────────────────────────────────────

pub const FLAG_ALLOW: u8 = 1;

pub const FLAG_SUBDOMAINS: u8 = 2;

pub const FLAG_DNSTYPE: u8 = 4;

pub const FLAG_REWRITE: u8 = 8;

pub const FLAG_CLIENT: u8 = 16;

/// The flags byte of a rule.
pub open spec fn spec_flags(allow: bool, subdomains: bool, dnstype: bool, rewrite: bool, client: bool) -> u8 {
    (if allow { 1u8 } else { 0u8 }) | (if subdomains { 2u8 } else { 0u8 }) | (if dnstype { 4u8 } else { 0u8 })
        | (if rewrite { 8u8 } else { 0u8 }) | (if client { 16u8 } else { 0u8 })
}

pub proof fn lemma_flags(allow: bool, subdomains: bool, dnstype: bool, rewrite: bool, client: bool)
    by (bit_vector)
    ensures
        (spec_flags(allow, subdomains, dnstype, rewrite, client) & 1u8 != 0u8) == allow,
        (spec_flags(allow, subdomains, dnstype, rewrite, client) & 2u8 != 0u8) == subdomains,
        (spec_flags(allow, subdomains, dnstype, rewrite, client) & 4u8 != 0u8) == dnstype,
        (spec_flags(allow, subdomains, dnstype, rewrite, client) & 8u8 != 0u8) == rewrite,
        (spec_flags(allow, subdomains, dnstype, rewrite, client) & 16u8 != 0u8) == client,
{
}

/// Rules a fresh builder has room for: every index, offset and count the
/// builder keeps still fits its width.
pub const FRESH_BUILDER_ROOM: usize = 0x00FF_FFFF;

/// One compiled rule: where its domain lives in the arena, plus flags and the
/// owning list. Exactly 8 bytes.
#[derive(Clone, Copy)]
pub struct Record {
    pub dom_off: u32,
    pub dom_len: u8,
    pub flags: u8,
    pub list_id: u16,
}

impl Record {
    pub fn is_allow(&self) -> (b: bool)
        ensures
            b == (self.flags & FLAG_ALLOW != 0),
    {
        self.flags & FLAG_ALLOW != 0
    }

    pub fn include_subdomains(&self) -> (b: bool)
        ensures
            b == (self.flags & FLAG_SUBDOMAINS != 0),
    {
        self.flags & FLAG_SUBDOMAINS != 0
    }

    pub fn has_dnstype(&self) -> (b: bool)
        ensures
            b == (self.flags & FLAG_DNSTYPE != 0),
    {
        self.flags & FLAG_DNSTYPE != 0
    }

    pub fn has_rewrite(&self) -> (b: bool)
        ensures
            b == (self.flags & FLAG_REWRITE != 0),
    {
        self.flags & FLAG_REWRITE != 0
    }

    pub fn has_client(&self) -> (b: bool)
        ensures
            b == (self.flags & FLAG_CLIENT != 0),
    {
        self.flags & FLAG_CLIENT != 0
    }
}

/// A compiled domain rule, as characters.
pub struct RuleV {
    pub domain: Seq<char>,
    pub flags: u8,
    /// The `$dnstype` payload, when the flags carry one.
    pub dns_types: Option<Seq<char>>,
    pub rewrite: Option<Seq<char>>,
    /// The `$client` payload, when the flags carry one.
    pub client: Option<Seq<char>>,
    pub list_id: u16,
}

/// What identifies a rule for deduplication: everything but the list.
pub struct IdentityV {
    pub domain: Seq<char>,
    pub flags: u8,
    pub dns_types: Option<Seq<char>>,
    pub rewrite: Option<Seq<char>>,
    pub client: Option<Seq<char>>,
}

/// `r` is the rule `k` identifies — the domain compared ignoring ASCII case,
/// the payloads exactly.
pub open spec fn same_identity(r: RuleV, k: IdentityV) -> bool {
    &&& lower_seq(r.domain) == lower_seq(k.domain)
    &&& r.flags == k.flags
    &&& r.dns_types == k.dns_types
    &&& r.rewrite == k.rewrite
    &&& r.client == k.client
}

pub open spec fn identity_of(r: RuleV) -> IdentityV {
    IdentityV {
        domain: r.domain,
        flags: r.flags,
        dns_types: r.dns_types,
        rewrite: r.rewrite,
        client: r.client,
    }
}

/// Hash of a rule's full identity — domain (case-folded), flags, and any
/// option payloads. Only ever a probe accelerator.
pub open spec fn spec_identity_hash(k: IdentityV) -> u64 {
    let h0 = fnv_step(spec_hash_domain(k.domain), k.flags as u64);
    let h1 = match k.dns_types {
        Some(s) => fnv(h0, s),
        None => h0,
    };
    let h2 = match k.rewrite {
        Some(s) => fnv(h1, s),
        None => h1,
    };
    match k.client {
        Some(s) => fnv(h2, s),
        None => h2,
    }
}

proof fn lemma_same_identity_hash(r: RuleV, k: IdentityV)
    requires
        same_identity(r, k),
    ensures
        spec_identity_hash(identity_of(r)) == spec_identity_hash(k),
{
}

/// What compiling `rule` adds, if it is compilable at all: a domain of one
/// to 255 bytes, and a `$client` payload (if any) that compiles to a scope.
pub open spec fn candidate(rule: DomainRuleV) -> Option<IdentityV> {
    if rule.domain.len() == 0 || utf8_len(rule.domain) > 255 {
        None
    } else if rule.client.is_some() && spec_parse_scope(rule.client.unwrap()).is_none() {
        None
    } else {
        Some(
            IdentityV {
                domain: rule.domain,
                flags: spec_flags(
                    rule.action == RuleAction::Allow,
                    rule.include_subdomains,
                    rule.dns_types.is_some(),
                    rule.dns_rewrite.is_some(),
                    rule.client.is_some(),
                ),
                dns_types: rule.dns_types,
                rewrite: rule.dns_rewrite,
                client: rule.client,
            },
        )
    }
}

/// Hash of an identity: `domain` is `v[from..to]`.
fn identity_hash(
    v: &[char],
    from: usize,
    to: usize,
    flags: u8,
    dns_types: Option<&str>,
    rewrite: Option<&str>,
    client: Option<&str>,
) -> (h: u64)
    requires
        from <= to <= v.len(),
    ensures
        h == spec_identity_hash(
            IdentityV {
                domain: v@.subrange(from as int, to as int),
                flags,
                dns_types: opt_str_view(dns_types),
                rewrite: opt_str_view(rewrite),
                client: opt_str_view(client),
            },
        ),
{
    let mut h = hash_domain(v, from, to);
    h = (h ^ (flags as u64)).wrapping_mul(FNV_PRIME);
    if let Some(raw) = dns_types {
        let c = chars_of(raw);
        proof {
            assert(c@.subrange(0, c@.len() as int) =~= c@);
        }
        h = hash_extend(h, c.as_slice(), 0, c.len());
    }
    if let Some(raw) = rewrite {
        let c = chars_of(raw);
        proof {
            assert(c@.subrange(0, c@.len() as int) =~= c@);
        }
        h = hash_extend(h, c.as_slice(), 0, c.len());
    }
    if let Some(raw) = client {
        let c = chars_of(raw);
        proof {
            assert(c@.subrange(0, c@.len() as int) =~= c@);
        }
        h = hash_extend(h, c.as_slice(), 0, c.len());
    }
    h
}

/// Whether two strings hold the same characters.
fn str_eq(a: &str, b: &str) -> (r: bool)
    ensures
        r == (a@ == b@),
{
    let x = chars_of(a);
    let y = chars_of(b);
    eq_chars(x.as_slice(), y.as_slice())
}

/// A `Box<str>` copy of `s`.
fn boxed_str(s: &str) -> (b: Box<str>)
    ensures
        b@ == s@,
{
    let v = chars_of(s);
    into_boxed(string_of(v.as_slice()))
}

/// Where an incoming rule lands in the transient dedup index.
enum DedupSlot {
    /// Free slot for a rule not yet compiled.
    Vacant(usize),
    /// The record index already carrying this exact rule.
    Duplicate(u32),
}

// ─── Builder ──────────────────────────────────────────────────────────────

/// What a builder holds, as values.
pub struct BuilderV {
    pub rules: Seq<RuleV>,
    pub rule_masks: Seq<u16>,
    pub list_names: Seq<Seq<char>>,
    pub list_masks: Seq<u16>,
    pub duplicates: nat,
}

/// The builder after adding `rule` to list `list_id` — see
/// [`MatcherBuilder::add_rule`].
pub open spec fn add_rule_view(b: BuilderV, rule: DomainRuleV, list_id: u16) -> BuilderV {
    match candidate(rule) {
        None => b,
        Some(k) => match find_rule(b.rules, k) {
            Some(i) => BuilderV {
                rule_masks: b.rule_masks.update(i, b.rule_masks[i] | b.list_masks[list_id as int]),
                duplicates: b.duplicates + 1,
                ..b
            },
            None => BuilderV {
                rules: b.rules.push(rule_of(k, list_id)),
                rule_masks: b.rule_masks.push(b.list_masks[list_id as int]),
                ..b
            },
        },
    }
}

/// The builder after adding, in order, the domain rules among `kinds` to
/// list `list_id`.
pub open spec fn add_kinds_view(b: BuilderV, kinds: Seq<RuleKindV>, list_id: u16) -> BuilderV
    decreases kinds.len(),
{
    if kinds.len() == 0 {
        b
    } else {
        let prev = add_kinds_view(b, kinds.drop_last(), list_id);
        match kinds.last() {
            RuleKindV::Active(r) => add_rule_view(prev, r, list_id),
            _ => prev,
        }
    }
}

/// Moving only the URL tier leaves a well-formed builder well-formed, as
/// long as the tier itself is and its list ids name registered lists.
proof fn lemma_url_frame(a: &MatcherBuilder, b: &MatcherBuilder)
    requires
        a.wf(),
        b.arena == a.arena,
        b.records == a.records,
        b.lists == a.lists,
        b.dnstype == a.dnstype,
        b.rewrite == a.rewrite,
        b.clients == a.clients,
        b.list_policy == a.list_policy,
        b.record_policy == a.record_policy,
        b.dedup == a.dedup,
        b.duplicates_removed == a.duplicates_removed,
        b.dedup_pos == a.dedup_pos,
        b.url.wf(),
        forall|j: int| 0 <= j < b.url.list_ids().len() ==> #[trigger] b.url.list_ids()[j] < b.lists@.len(),
    ensures
        b.wf(),
{
    assert forall|i: int| 0 <= i < b.records@.len() implies #[trigger] b.rule_at(i) == a.rule_at(i) by {}
    assert(b.dedup_homes() =~= a.dedup_homes());
}

/// What adding a list's URL rules does to the compiled URL tier.
pub open spec fn url_fold(recs: Seq<RecordV>, kinds: Seq<RuleKindV>) -> Seq<RecordV>
    decreases kinds.len(),
{
    if kinds.len() == 0 {
        recs
    } else {
        let prev = url_fold(recs, kinds.drop_last());
        match kinds.last() {
            RuleKindV::Url(u) => url_add_view(prev, u).0,
            _ => prev,
        }
    }
}

/// Ceiling on the up-front dedup index [`MatcherBuilder::with_capacity`]
/// pre-allocates, whatever ceiling it is handed: a hostile list of tokens
/// that parse to nothing cannot force a huge allocation before parsing runs.
pub const MAX_PREALLOC_RULES: usize = 4_000_000;

/// Builds a [`Matcher`] from DNS-applicable rules. Rules are added per list;
/// the open-addressing table is sized and filled once at
/// [`MatcherBuilder::build`].
pub struct MatcherBuilder {
    arena: Vec<char>,
    records: Vec<Record>,
    lists: Vec<Box<str>>,
    dnstype: HashMap<u32, (u32, Box<str>)>,
    rewrite: HashMap<u32, Box<str>>,
    /// Compiled `$client=` scopes, keyed by record index.
    clients: HashMap<u32, ClientScope>,
    /// Which policies can see each list's rules, parallel to `lists`.
    list_policy: Vec<u16>,
    /// Which policies can see each record: the union of every contributing
    /// list's mask, since a duplicate collapses into the first record.
    record_policy: Vec<u16>,
    /// Transient dedup index of record indices keyed by identity hash.
    dedup: Vec<u32>,
    duplicates_removed: usize,
    /// Where each record sits in `dedup`.
    dedup_pos: Ghost<Seq<int>>,
    /// The URL tier being compiled alongside.
    url: UrlIndexBuilder,
}

impl MatcherBuilder {
    /// The URL tier being compiled.
    pub closed spec fn url_part(&self) -> UrlIndexBuilder {
        self.url
    }

    /// The compiled URL-tier rules.
    pub closed spec fn url_rules(&self) -> Seq<RecordV> {
        self.url.records()
    }

    /// The list each URL-tier rule came from.
    pub closed spec fn url_lists(&self) -> Seq<u16> {
        self.url.list_ids()
    }

    /// Record `i`, as characters.
    pub closed spec fn rule_at(&self, i: int) -> RuleV {
        let r = self.records@[i];
        RuleV {
            domain: self.arena@.subrange(r.dom_off as int, r.dom_off + r.dom_len),
            flags: r.flags,
            dns_types: if self.dnstype@.contains_key(i as u32) {
                Some(self.dnstype@[i as u32].1@)
            } else {
                None
            },
            rewrite: if self.rewrite@.contains_key(i as u32) {
                Some(self.rewrite@[i as u32]@)
            } else {
                None
            },
            client: if self.clients@.contains_key(i as u32) {
                Some(self.clients@[i as u32].raw@)
            } else {
                None
            },
            list_id: r.list_id,
        }
    }

    /// The compiled rules, in insertion order.
    pub closed spec fn rules(&self) -> Seq<RuleV> {
        Seq::new(self.records@.len(), |i: int| self.rule_at(i))
    }

    /// The builder's contents, as values.
    pub open spec fn view(&self) -> BuilderV {
        BuilderV {
            rules: self.rules(),
            rule_masks: self.rule_masks(),
            list_names: self.list_names(),
            list_masks: self.list_masks(),
            duplicates: self.duplicates(),
        }
    }

    /// The registered lists' names.
    pub closed spec fn list_names(&self) -> Seq<Seq<char>> {
        self.lists@.map_values(|n: Box<str>| n@)
    }

    /// Which policies can see each list.
    pub closed spec fn list_masks(&self) -> Seq<u16> {
        self.list_policy@
    }

    /// Which policies can see each compiled rule.
    pub closed spec fn rule_masks(&self) -> Seq<u16> {
        self.record_policy@
    }

    pub closed spec fn duplicates(&self) -> nat {
        self.duplicates_removed as nat
    }

    /// Room for `n` more rules: record indices and arena offsets fit their
    /// fields, and the tables can be sized.
    pub closed spec fn room_for(&self, n: nat) -> bool {
        &&& (self.records@.len() + n) * 10 + 20 <= usize::MAX
        &&& self.records@.len() + n + 1 < 0x8000_0000
        &&& self.arena@.len() + 256 * n <= u32::MAX
        &&& self.duplicates_removed + n <= usize::MAX
        &&& self.url.room_for(n)
    }

    /// Room for one more rule.
    pub open spec fn has_room(&self) -> bool {
        self.room_for(1)
    }

    /// Room for `n` rules leaves room for fewer.
    pub proof fn lemma_room_mono(&self, m: nat, n: nat)
        requires
            m <= n,
            self.room_for(n),
        ensures
            self.room_for(m),
    {
    }

    spec fn dedup_homes(&self) -> Seq<int> {
        Seq::new(
            self.records@.len(),
            |i: int| spec_fastrange(spec_identity_hash(identity_of(self.rule_at(i))), self.dedup@.len() as int),
        )
    }

    pub closed spec fn wf(&self) -> bool {
        let n = self.records@.len();
        &&& self.records@.len() == self.record_policy@.len()
        &&& self.lists@.len() == self.list_policy@.len()
        &&& self.lists@.len() <= 0x1_0000
        &&& n < 0x8000_0000
        &&& n * 10 + 20 <= usize::MAX
        &&& self.arena@.len() <= u32::MAX
        &&& forall|i: int|
            0 <= i < n ==> {
                let r = #[trigger] self.records@[i];
                &&& r.dom_off + r.dom_len <= self.arena@.len()
                &&& r.dom_len > 0
                &&& r.flags < 32
                &&& (r.flags & FLAG_DNSTYPE != 0) == self.dnstype@.contains_key(i as u32)
                &&& (r.flags & FLAG_REWRITE != 0) == self.rewrite@.contains_key(i as u32)
                &&& (r.flags & FLAG_CLIENT != 0) == self.clients@.contains_key(i as u32)
                &&& r.list_id < self.lists@.len()
            }
        &&& forall|k: u32| #[trigger] self.dnstype@.contains_key(k) ==> k < n
        &&& forall|k: u32| #[trigger] self.rewrite@.contains_key(k) ==> k < n
        &&& forall|k: u32| #[trigger] self.clients@.contains_key(k) ==> k < n
        &&& forall|k: u32|
            #[trigger] self.dnstype@.contains_key(k) ==> self.dnstype@[k].0 == spec_dnstype_mask(
                self.dnstype@[k].1@,
            )
        &&& forall|k: u32| #[trigger] self.clients@.contains_key(k) ==> self.clients@[k].wf()
        &&& forall|i: int, j: int|
            0 <= i < j < n ==> !same_identity(
                #[trigger] self.rule_at(i),
                identity_of(#[trigger] self.rule_at(j)),
            )
        &&& if self.dedup@.len() == 0 {
            n == 0
        } else {
            table_wf(self.dedup@, self.dedup_homes(), self.dedup_pos@)
        }
        &&& self.url.wf()
        &&& forall|i: int| 0 <= i < self.url.list_ids().len() ==> #[trigger] self.url.list_ids()[i] < self.lists@.len()
    }

    /// A builder whose dedup index grows on demand.
    pub fn new() -> (b: Self)
        ensures
            b.wf(),
            b.has_room(),
            b.rules() == Seq::<RuleV>::empty(),
            b.list_names() == Seq::<Seq<char>>::empty(),
            b.list_masks() == Seq::<u16>::empty(),
            b.rule_masks() == Seq::<u16>::empty(),
            b.duplicates() == 0,
    {
        let b = MatcherBuilder {
            arena: Vec::new(),
            records: Vec::new(),
            lists: Vec::new(),
            dnstype: HashMap::new(),
            rewrite: HashMap::new(),
            clients: HashMap::new(),
            list_policy: Vec::new(),
            record_policy: Vec::new(),
            dedup: Vec::new(),
            duplicates_removed: 0,
            dedup_pos: Ghost(Seq::empty()),
            url: UrlIndexBuilder::new(),
        };
        proof {
            assert(b.rules() =~= Seq::<RuleV>::empty());
            assert(b.list_names() =~= Seq::<Seq<char>>::empty());
        }
        b
    }
}


/// The rules a fresh compile of `k` from list `list_id` adds.
pub open spec fn rule_of(k: IdentityV, list_id: u16) -> RuleV {
    RuleV {
        domain: k.domain,
        flags: k.flags,
        dns_types: k.dns_types,
        rewrite: k.rewrite,
        client: k.client,
        list_id,
    }
}

/// The compiled rule carrying identity `k`, if any.
pub open spec fn find_rule(rules: Seq<RuleV>, k: IdentityV) -> Option<int> {
    if exists|i: int| 0 <= i < rules.len() && same_identity(rules[i], k) {
        Some(choose|i: int| 0 <= i < rules.len() && same_identity(rules[i], k))
    } else {
        None
    }
}

/// The flags byte — see [`spec_flags`].
fn make_flags(allow: bool, subdomains: bool, dnstype: bool, rewrite: bool, client: bool) -> (f: u8)
    ensures
        f == spec_flags(allow, subdomains, dnstype, rewrite, client),
        f < 32,
{
    proof {
        lemma_flags_small(allow, subdomains, dnstype, rewrite, client);
    }
    (if allow { 1u8 } else { 0u8 }) | (if subdomains { 2u8 } else { 0u8 }) | (if dnstype { 4u8 } else { 0u8 })
        | (if rewrite { 8u8 } else { 0u8 }) | (if client { 16u8 } else { 0u8 })
}

proof fn lemma_flags_small(allow: bool, subdomains: bool, dnstype: bool, rewrite: bool, client: bool)
    by (bit_vector)
    ensures
        spec_flags(allow, subdomains, dnstype, rewrite, client) < 32u8,
{
}

/// Whether two optional strings are both absent or hold the same characters.
fn opt_str_eq(a: Option<&str>, b: Option<&str>) -> (r: bool)
    ensures
        r == (opt_str_view(a) == opt_str_view(b)),
{
    match (a, b) {
        (None, None) => true,
        (Some(x), Some(y)) => str_eq(x, y),
        _ => false,
    }
}

/// A table of `cap` free slots.
fn empty_table(cap: usize) -> (t: Vec<u32>)
    ensures
        t@ == Seq::new(cap as nat, |i: int| EMPTY),
{
    let mut t: Vec<u32> = Vec::new();
    let mut k: usize = 0;
    while k < cap
        invariant
            k <= cap,
            t@ == Seq::new(k as nat, |i: int| EMPTY),
        decreases cap - k,
    {
        t.push(EMPTY);
        proof {
            assert(t@ =~= Seq::new((k + 1) as nat, |i: int| EMPTY));
        }
        k += 1;
    }
    t
}

/// The first free slot of the walk from `h`, and how many steps it took.
fn probe_free(t: &Vec<u32>, h: usize, Ghost(homes): Ghost<Seq<int>>, Ghost(pos): Ghost<Seq<int>>) -> (r: (
    usize,
    Ghost<int>,
))
    requires
        table_wf(t@, homes, pos),
        h < t.len(),
    ensures
        r.0 < t.len(),
        0 <= r.1@ < t.len(),
        r.0 == step(h as int, r.1@, t.len() as int),
        t@[r.0 as int] == EMPTY,
        forall|e: int| 0 <= e < r.1@ ==> t@[step(h as int, e, t.len() as int)] != EMPTY,
{
    let cap = t.len();
    let mut slot = h;
    let ghost mut d: int = 0;
    while t[slot] != EMPTY
        invariant
            cap == t.len(),
            table_wf(t@, homes, pos),
            h < cap,
            0 <= d < cap,
            slot == step(h as int, d, cap as int),
            forall|e: int| 0 <= e < d ==> t@[step(h as int, e, cap as int)] != EMPTY,
        decreases cap - d,
    {
        proof {
            lemma_probe_continues(t@, homes, pos, h as int, d);
        }
        slot += 1;
        if slot == cap {
            slot = 0;
        }
        proof {
            d = d + 1;
        }
    }
    (slot, Ghost(d))
}

/// Appends `d` to `arena`.
fn extend_chars(arena: &mut Vec<char>, d: &[char])
    ensures
        final(arena)@ == old(arena)@ + d@,
{
    let mut k: usize = 0;
    while k < d.len()
        invariant
            0 <= k <= d.len(),
            arena@ == old(arena)@ + d@.take(k as int),
        decreases d.len() - k,
    {
        arena.push(d[k]);
        proof {
            assert(old(arena)@ + d@.take(k + 1) =~= (old(arena)@ + d@.take(k as int)).push(d@[k as int]));
        }
        k += 1;
    }
    proof {
        assert(d@.take(d.len() as int) =~= d@);
    }
}

impl MatcherBuilder {
    /// Pre-sizes the transient dedup index for `expected_rules`, clamped at
    /// [`MAX_PREALLOC_RULES`] — one allocation up front. Capacity is a
    /// performance knob and nothing else: the compiled output is the same
    /// whatever it is set to.
    pub fn with_capacity(expected_rules: usize) -> (b: Self)
        ensures
            b.wf(),
            b.has_room(),
            b.room_for(FRESH_BUILDER_ROOM as nat),
            b.rules() == Seq::<RuleV>::empty(),
            b.list_names() == Seq::<Seq<char>>::empty(),
            b.list_masks() == Seq::<u16>::empty(),
            b.rule_masks() == Seq::<u16>::empty(),
            b.duplicates() == 0,
            b.url_rules() == Seq::<RecordV>::empty(),
            b.dedup_capacity() == spec_dedup_slots(
                if expected_rules < MAX_PREALLOC_RULES {
                    expected_rules as int
                } else {
                    MAX_PREALLOC_RULES as int
                },
            ),
    {
        let clamped = if expected_rules < MAX_PREALLOC_RULES {
            expected_rules
        } else {
            MAX_PREALLOC_RULES
        };
        let cap = dedup_slots(clamped);
        let dedup = empty_table(cap);
        proof {
            lemma_empty_table(cap as nat);
        }
        let b = MatcherBuilder {
            arena: Vec::new(),
            records: Vec::new(),
            lists: Vec::new(),
            dnstype: HashMap::new(),
            rewrite: HashMap::new(),
            clients: HashMap::new(),
            list_policy: Vec::new(),
            record_policy: Vec::new(),
            dedup,
            duplicates_removed: 0,
            dedup_pos: Ghost(Seq::empty()),
            url: UrlIndexBuilder::new(),
        };
        proof {
            assert(b.rules() =~= Seq::<RuleV>::empty());
            assert(b.list_names() =~= Seq::<Seq<char>>::empty());
            assert(b.dedup_homes() =~= Seq::<int>::empty());
            assert(b.url_rules() =~= Seq::<RecordV>::empty());
        }
        b
    }

    /// Whether `n` more rules fit: every index and offset stays within its
    /// integer type.
    pub fn has_room_for(&self, n: usize) -> (r: bool)
        ensures
            r == self.room_for(n as nat),
    {
        let records = self.records.len() as u128;
        let wide = n as u128;
        let fits_slots = (records + wide) * 10 + 20 <= usize::MAX as u128;
        let fits_index = records + wide + 1 < 0x8000_0000u128;
        let fits_arena = self.arena.len() as u128 + 256 * wide <= u32::MAX as u128;
        let fits_count = self.duplicates_removed as u128 + wide <= usize::MAX as u128;
        let url_records = self.url.len() as u128;
        let url_duplicates = self.url.duplicates_removed() as u128;
        let fits_url = url_records + wide < MAX_URL_RULES as u128 && url_duplicates + wide
            <= usize::MAX as u128;
        fits_slots && fits_index && fits_arena && fits_count && fits_url
    }

    /// How many slots the transient dedup index has.
    pub closed spec fn dedup_capacity(&self) -> int {
        self.dedup@.len() as int
    }

    /// The transient dedup index's slot count.
    pub fn dedup_len(&self) -> (n: usize)
        ensures
            n == self.dedup_capacity(),
    {
        self.dedup.len()
    }

    /// Registers a rule list visible to every policy, returning its id.
    pub fn add_list(&mut self, name: &str) -> (id: u16)
        requires
            old(self).wf(),
            old(self).list_names().len() < 0x1_0000,
        ensures
            final(self).url_part() == old(self).url_part(),
            final(self).wf(),
            id == old(self).list_names().len(),
            final(self).list_names() == old(self).list_names().push(name@),
            final(self).list_masks() == old(self).list_masks().push(ALL_POLICIES),
            final(self).rules() == old(self).rules(),
            final(self).rule_masks() == old(self).rule_masks(),
            final(self).duplicates() == old(self).duplicates(),
            forall|n: nat| old(self).room_for(n) ==> final(self).room_for(n),
    {
        self.add_list_masked(name, ALL_POLICIES)
    }

    /// Registers a rule list visible only to the policies in `policy_mask`.
    pub fn add_list_masked(&mut self, name: &str, policy_mask: u16) -> (id: u16)
        requires
            old(self).wf(),
            old(self).list_names().len() < 0x1_0000,
        ensures
            final(self).url_part() == old(self).url_part(),
            final(self).wf(),
            id == old(self).list_names().len(),
            final(self).list_names() == old(self).list_names().push(name@),
            final(self).list_masks() == old(self).list_masks().push(policy_mask),
            final(self).rules() == old(self).rules(),
            final(self).rule_masks() == old(self).rule_masks(),
            final(self).duplicates() == old(self).duplicates(),
            forall|n: nat| old(self).room_for(n) ==> final(self).room_for(n),
    {
        let id = self.lists.len() as u16;
        let b = boxed_str(name);
        self.lists.push(b);
        self.list_policy.push(policy_mask);
        proof {
            assert(self.list_names() =~= old(self).list_names().push(name@));
            assert(self.rules() =~= old(self).rules());
            assert forall|i: int| 0 <= i < self.records@.len() implies #[trigger] self.rule_at(i) == old(self).rule_at(i) by {}
            assert(self.dedup_homes() =~= old(self).dedup_homes());
        }
        id
    }

    /// How many rules were dropped as exact duplicates of one already added.
    pub fn duplicates_removed(&self) -> (n: usize)
        ensures
            n == self.duplicates(),
    {
        self.duplicates_removed
    }
}

impl MatcherBuilder {
    /// The `$dnstype`, `$dnsrewrite` and `$client` payloads of record `idx`.
    fn payloads(&self, idx: u32) -> (r: (Option<&str>, Option<&str>, Option<&str>))
        requires
            self.wf(),
            idx < self.records@.len(),
        ensures
            opt_str_view(r.0) == self.rule_at(idx as int).dns_types,
            opt_str_view(r.1) == self.rule_at(idx as int).rewrite,
            opt_str_view(r.2) == self.rule_at(idx as int).client,
    {
        let dt: Option<&str> = match self.dnstype.get(&idx) {
            Some(e) => Some(&*e.1),
            None => None,
        };
        let rw: Option<&str> = match self.rewrite.get(&idx) {
            Some(e) => Some(&**e),
            None => None,
        };
        let cl: Option<&str> = match self.clients.get(&idx) {
            Some(scope) => Some(&*scope.raw),
            None => None,
        };
        (dt, rw, cl)
    }

    /// The identity hash of record `idx`.
    fn record_hash(&self, idx: u32) -> (h: u64)
        requires
            self.wf(),
            idx < self.records@.len(),
        ensures
            h == spec_identity_hash(identity_of(self.rule_at(idx as int))),
    {
        let rec = self.records[idx as usize];
        proof {
            assert(rec == self.records@[idx as int]);
        }
        let (dt, rw, cl) = self.payloads(idx);
        let off = rec.dom_off as usize;
        let end = off + rec.dom_len as usize;
        identity_hash(self.arena.as_slice(), off, end, rec.flags, dt, rw, cl)
    }

    /// Keeps the dedup index under its load factor, rebuilding it at twice
    /// the needed size when the next rule would pass it. Rehashing changes
    /// where indices sit, never which rules survive.
    fn reserve_dedup(&mut self)
        requires
            old(self).wf(),
            old(self).has_room(),
        ensures
            final(self).url_part() == old(self).url_part(),
            final(self).wf(),
            final(self).has_room(),
            (final(self).records@.len() + 1) * 2 <= final(self).dedup@.len(),
            final(self).rules() == old(self).rules(),
            final(self).list_names() == old(self).list_names(),
            final(self).list_masks() == old(self).list_masks(),
            final(self).rule_masks() == old(self).rule_masks(),
            final(self).duplicates() == old(self).duplicates(),
            final(self).arena == old(self).arena,
            final(self).records == old(self).records,
            final(self).dnstype == old(self).dnstype,
            final(self).rewrite == old(self).rewrite,
            final(self).clients == old(self).clients,
            final(self).record_policy == old(self).record_policy,
            final(self).lists == old(self).lists,
            final(self).list_policy == old(self).list_policy,
            final(self).duplicates_removed == old(self).duplicates_removed,
    {
        let needed = self.records.len() + 1;
        if needed * 2 <= self.dedup.len() {
            return;
        }
        let cap = dedup_slots(needed * 2);
        let mut grown = empty_table(cap);
        let ghost homes = Seq::new(
            self.records@.len(),
            |i: int| spec_fastrange(spec_identity_hash(identity_of(self.rule_at(i))), cap as int),
        );
        let ghost mut pos: Seq<int> = Seq::empty();
        proof {
            lemma_empty_table(cap as nat);
            assert(homes.take(0) =~= Seq::<int>::empty());
        }
        let mut idx: usize = 0;
        while idx < self.records.len()
            invariant
                self.wf(),
                self.has_room(),
                0 <= idx <= self.records@.len(),
                needed == self.records@.len() + 1,
                cap >= needed * 2,
                grown@.len() == cap,
                homes.len() == self.records@.len(),
                forall|i: int|
                    0 <= i < homes.len() ==> #[trigger] homes[i] == spec_fastrange(
                        spec_identity_hash(identity_of(self.rule_at(i))),
                        cap as int,
                    ),
                table_wf(grown@, homes.take(idx as int), pos),
            decreases self.records.len() - idx,
        {
            let hash = self.record_hash(idx as u32);
            let h = fastrange(hash, cap);
            let (slot, Ghost(d)) = probe_free(&grown, h, Ghost(homes.take(idx as int)), Ghost(pos));
            proof {
                lemma_insert(grown@, homes.take(idx as int), pos, h as int, d);
                assert(homes.take(idx as int).push(h as int) =~= homes.take(idx + 1));
            }
            grown.set(slot, idx as u32);
            proof {
                pos = pos.push(slot as int);
            }
            idx += 1;
        }
        proof {
            assert(homes.take(self.records@.len() as int) =~= homes);
        }
        self.dedup = grown;
        self.dedup_pos = Ghost(pos);
        proof {
            assert forall|i: int| 0 <= i < self.records@.len() implies #[trigger] self.rule_at(i)
                == old(self).rule_at(i) by {}
            assert(self.dedup_homes() =~= homes);
            assert(self.rules() =~= old(self).rules());
        }
    }

    /// Full-identity comparison of record `idx` against an incoming rule.
    fn identity_matches(
        &self,
        idx: u32,
        d: &[char],
        flags: u8,
        dt: Option<&str>,
        rw: Option<&str>,
        cl: Option<&str>,
    ) -> (b: bool)
        requires
            self.wf(),
            idx < self.records@.len(),
        ensures
            b == same_identity(
                self.rule_at(idx as int),
                IdentityV {
                    domain: d@,
                    flags,
                    dns_types: opt_str_view(dt),
                    rewrite: opt_str_view(rw),
                    client: opt_str_view(cl),
                },
            ),
    {
        let rec = self.records[idx as usize];
        proof {
            assert(rec == self.records@[idx as int]);
        }
        if rec.flags != flags {
            return false;
        }
        let off = rec.dom_off as usize;
        let end = off + rec.dom_len as usize;
        let stored = &self.arena[off..end];
        proof {
            assert(stored@ == self.arena@.subrange(off as int, end as int));
        }
        if !eq_ignore_case(stored, d) {
            return false;
        }
        let (sdt, srw, scl) = self.payloads(idx);
        opt_str_eq(sdt, dt) && opt_str_eq(srw, rw) && opt_str_eq(scl, cl)
    }

    /// Probes the dedup index for an identity: where the new record index
    /// goes, or which record already carries this rule.
    fn dedup_slot_for(
        &self,
        d: &[char],
        flags: u8,
        dt: Option<&str>,
        rw: Option<&str>,
        cl: Option<&str>,
    ) -> (r: (DedupSlot, Ghost<int>))
        requires
            self.wf(),
            (self.records@.len() + 1) * 2 <= self.dedup@.len(),
        ensures
            ({
                let k = IdentityV {
                    domain: d@,
                    flags,
                    dns_types: opt_str_view(dt),
                    rewrite: opt_str_view(rw),
                    client: opt_str_view(cl),
                };
                let cap = self.dedup@.len() as int;
                let h = spec_fastrange(spec_identity_hash(k), cap);
                match r.0 {
                    DedupSlot::Duplicate(i) => i < self.records@.len() && same_identity(
                        self.rule_at(i as int),
                        k,
                    ),
                    DedupSlot::Vacant(slot) => {
                        &&& forall|i: int|
                            0 <= i < self.records@.len() ==> !same_identity(
                                #[trigger] self.rule_at(i),
                                k,
                            )
                        &&& 0 <= h < cap
                        &&& 0 <= r.1@ < cap
                        &&& slot == step(h, r.1@, cap)
                        &&& self.dedup@[slot as int] == EMPTY
                        &&& forall|e: int| 0 <= e < r.1@ ==> self.dedup@[step(h, e, cap)] != EMPTY
                    },
                }
            }),
    {
        let ghost k = IdentityV {
            domain: d@,
            flags,
            dns_types: opt_str_view(dt),
            rewrite: opt_str_view(rw),
            client: opt_str_view(cl),
        };
        let cap = self.dedup.len();
        proof {
            assert(d@.subrange(0, d@.len() as int) =~= d@);
        }
        let hash = identity_hash(d, 0, d.len(), flags, dt, rw, cl);
        let h = fastrange(hash, cap);
        let ghost homes = self.dedup_homes();
        let ghost pos = self.dedup_pos@;
        let mut slot = h;
        let ghost mut steps: int = 0;
        while self.dedup[slot] != EMPTY
            invariant
                self.wf(),
                cap == self.dedup@.len(),
                (self.records@.len() + 1) * 2 <= cap,
                homes == self.dedup_homes(),
                pos == self.dedup_pos@,
                h < cap,
                h == spec_fastrange(spec_identity_hash(k), cap as int),
                k == (IdentityV {
                    domain: d@,
                    flags,
                    dns_types: opt_str_view(dt),
                    rewrite: opt_str_view(rw),
                    client: opt_str_view(cl),
                }),
                0 <= steps < cap,
                slot == step(h as int, steps, cap as int),
                forall|e: int| 0 <= e < steps ==> self.dedup@[step(h as int, e, cap as int)] != EMPTY,
                forall|i: int|
                    0 <= i < self.records@.len() && dist(h as int, pos[i], cap as int) < steps
                        ==> !same_identity(#[trigger] self.rule_at(i), k),
            decreases cap - steps,
        {
            let idx = self.dedup[slot];
            proof {
                assert(table_wf(self.dedup@, homes, pos));
                assert(self.dedup@[slot as int] != EMPTY);
                assert(idx < self.records@.len());
            }
            if self.identity_matches(idx, d, flags, dt, rw, cl) {
                return (DedupSlot::Duplicate(idx), Ghost(0));
            }
            proof {
                assert(!same_identity(self.rule_at(idx as int), k));
                lemma_probe_continues(self.dedup@, homes, pos, h as int, steps);
                lemma_step_dist(h as int, slot as int, steps, cap as int);
                assert forall|i: int|
                    0 <= i < self.records@.len() && dist(h as int, pos[i], cap as int) < steps + 1
                        implies !same_identity(#[trigger] self.rule_at(i), k) by {
                    if dist(h as int, pos[i], cap as int) == steps {
                        assert(0 <= pos[i] < cap);
                        lemma_step_dist(h as int, pos[i], steps, cap as int);
                        assert(pos[i] == slot);
                        assert(self.dedup@[pos[i]] == i);
                        assert(i == idx as int);
                    }
                }
            }
            slot += 1;
            if slot == cap {
                slot = 0;
            }
            proof {
                steps = steps + 1;
            }
        }
        proof {
            assert forall|i: int| 0 <= i < self.records@.len() implies !same_identity(
                #[trigger] self.rule_at(i),
                k,
            ) by {
                if same_identity(self.rule_at(i), k) {
                    lemma_same_identity_hash(self.rule_at(i), k);
                    assert(homes[i] == h);
                    lemma_walk_covers(self.dedup@, homes, pos, h as int, steps, i);
                }
            }
        }
        (DedupSlot::Vacant(slot), Ghost(steps))
    }
}

impl MatcherBuilder {
    /// Adds one DNS-applicable rule to list `list_id`. A domain that is
    /// empty or longer than 255 bytes is skipped, and so is a rule whose
    /// `$client` payload compiles to no scope (applying it to everyone would
    /// drop its restriction). A rule whose full identity was already added
    /// is not compiled again: attribution stays with the first list to supply
    /// it, and this list's policies join its visibility.
    #[verifier::rlimit(40)]
    pub fn add_rule(&mut self, list_id: u16, rule: &DomainRule)
        requires
            old(self).wf(),
            old(self).has_room(),
            list_id < old(self).list_names().len(),
        ensures
            final(self).url_part() == old(self).url_part(),
            final(self).wf(),
            final(self).list_names() == old(self).list_names(),
            final(self).list_masks() == old(self).list_masks(),
            match candidate(rule@) {
                None => {
                    &&& final(self).rules() == old(self).rules()
                    &&& final(self).rule_masks() == old(self).rule_masks()
                    &&& final(self).duplicates() == old(self).duplicates()
                },
                Some(k) => match find_rule(old(self).rules(), k) {
                    Some(i) => {
                        &&& final(self).rules() == old(self).rules()
                        &&& final(self).rule_masks() == old(self).rule_masks().update(
                            i,
                            old(self).rule_masks()[i] | old(self).list_masks()[list_id as int],
                        )
                        &&& final(self).duplicates() == old(self).duplicates() + 1
                    },
                    None => {
                        &&& final(self).rules() == old(self).rules().push(rule_of(k, list_id))
                        &&& final(self).rule_masks() == old(self).rule_masks().push(
                            old(self).list_masks()[list_id as int],
                        )
                        &&& final(self).duplicates() == old(self).duplicates()
                    },
                },
            },
            forall|n: nat| old(self).room_for(n + 1) ==> final(self).room_for(n),
            final(self).view() == add_rule_view(old(self).view(), rule@, list_id),
    {
        let d = chars_of(&*rule.domain);
        if d.len() == 0 {
            return;
        }
        proof {
            assert(d@.subrange(0, d@.len() as int) =~= d@);
        }
        if utf8_len_exceeds(d.as_slice(), 0, d.len(), 255) {
            return;
        }
        proof {
            lemma_len_le_utf8_len(d@);
        }
        let dt = rule.dns_types();
        let rw = rule.dns_rewrite();
        let cl = rule.client();
        let scope: Option<ClientScope> = match cl {
            None => None,
            Some(raw) => match ClientScope::parse(raw) {
                Some(sc) => Some(sc),
                None => {
                    return;
                },
            },
        };
        let flags = make_flags(
            rule.action == RuleAction::Allow,
            rule.include_subdomains,
            dt.is_some(),
            rw.is_some(),
            cl.is_some(),
        );
        let ghost k = IdentityV {
            domain: d@,
            flags,
            dns_types: opt_str_view(dt),
            rewrite: opt_str_view(rw),
            client: opt_str_view(cl),
        };
        proof {
            assert(candidate(rule@) == Some(k));
            lemma_flags(
                rule.action == RuleAction::Allow,
                rule.include_subdomains,
                dt.is_some(),
                rw.is_some(),
                cl.is_some(),
            );
        }
        self.reserve_dedup();
        let ghost mid = *self;
        let policy_mask = self.list_policy[list_id as usize];
        let (found, Ghost(steps)) = self.dedup_slot_for(d.as_slice(), flags, dt, rw, cl);
        match found {
            DedupSlot::Duplicate(existing) => {
                let mask = self.record_policy[existing as usize] | policy_mask;
                self.record_policy.set(existing as usize, mask);
                self.duplicates_removed = self.duplicates_removed + 1;
                proof {
                    let rules = old(self).rules();
                    assert(rules[existing as int] == old(self).rule_at(existing as int));
                    let j = choose|j: int| 0 <= j < rules.len() && same_identity(rules[j], k);
                    if j != existing as int {
                        let (a, b) = if j < existing as int {
                            (j, existing as int)
                        } else {
                            (existing as int, j)
                        };
                        assert(same_identity(old(self).rule_at(a), identity_of(old(self).rule_at(b))));
                    }
                    assert(find_rule(rules, k) == Some(existing as int));
                    assert forall|i: int| 0 <= i < self.records@.len() implies #[trigger] self.rule_at(i)
                        == old(self).rule_at(i) by {}
                    assert(self.rules() =~= old(self).rules());
                    assert forall|i: int| 0 <= i < self.records@.len() implies #[trigger] self.rule_at(i)
                        == mid.rule_at(i) by {}
                    assert(self.dedup_homes() =~= mid.dedup_homes());
                }
            },
            DedupSlot::Vacant(slot) => {
                self.insert_new(list_id, d.as_slice(), flags, dt, rw, scope, policy_mask, slot, Ghost(steps), Ghost(k));
                proof {
                    assert(find_rule(old(self).rules(), k).is_none());
                }
            },
        }
    }

    /// Appends a rule known to be new, filing it at the free dedup slot
    /// `slot` of its walk.
    fn insert_new(
        &mut self,
        list_id: u16,
        d: &[char],
        flags: u8,
        dt: Option<&str>,
        rw: Option<&str>,
        scope: Option<ClientScope>,
        policy_mask: u16,
        slot: usize,
        Ghost(steps): Ghost<int>,
        Ghost(k): Ghost<IdentityV>,
    )
        requires
            old(self).wf(),
            old(self).has_room(),
            (old(self).records@.len() + 1) * 2 <= old(self).dedup@.len(),
            list_id < old(self).lists@.len(),
            policy_mask == old(self).list_policy@[list_id as int],
            0 < d.len() <= 255,
            flags < 32,
            (flags & FLAG_DNSTYPE != 0) == dt.is_some(),
            (flags & FLAG_REWRITE != 0) == rw.is_some(),
            (flags & FLAG_CLIENT != 0) == scope.is_some(),
            scope matches Some(sc) ==> sc.wf(),
            k == (IdentityV {
                domain: d@,
                flags,
                dns_types: opt_str_view(dt),
                rewrite: opt_str_view(rw),
                client: match scope {
                    Some(sc) => Some(sc.raw@),
                    None => None,
                },
            }),
            forall|i: int|
                0 <= i < old(self).records@.len() ==> !same_identity(#[trigger] old(self).rule_at(i), k),
            ({
                let cap = old(self).dedup@.len() as int;
                let h = spec_fastrange(spec_identity_hash(k), cap);
                &&& 0 <= h < cap
                &&& 0 <= steps < cap
                &&& slot == step(h, steps, cap)
                &&& old(self).dedup@[slot as int] == EMPTY
                &&& forall|e: int| 0 <= e < steps ==> old(self).dedup@[step(h, e, cap)] != EMPTY
            }),
        ensures
            final(self).url_part() == old(self).url_part(),
            final(self).wf(),
            final(self).list_names() == old(self).list_names(),
            final(self).list_masks() == old(self).list_masks(),
            final(self).rules() == old(self).rules().push(rule_of(k, list_id)),
            final(self).rule_masks() == old(self).rule_masks().push(policy_mask),
            final(self).duplicates() == old(self).duplicates(),
            final(self).records@.len() == old(self).records@.len() + 1,
            final(self).arena@.len() == old(self).arena@.len() + d.len(),
            final(self).duplicates_removed == old(self).duplicates_removed,
    {
        let ghost n = self.records@.len() as int;
        let ghost homes = self.dedup_homes();
        let ghost pos = self.dedup_pos@;
        let ghost cap = self.dedup@.len() as int;
        let dom_off = self.arena.len() as u32;
        let rec_idx = self.records.len() as u32;
        if let Some(raw) = dt {
            let c = chars_of(raw);
            let mask = parse_dnstype_mask(c.as_slice());
            self.dnstype.insert(rec_idx, (mask, boxed_str(raw)));
        }
        if let Some(raw) = rw {
            self.rewrite.insert(rec_idx, boxed_str(raw));
        }
        if let Some(sc) = scope {
            self.clients.insert(rec_idx, sc);
        }
        extend_chars(&mut self.arena, d);
        self.records.push(Record { dom_off, dom_len: d.len() as u8, flags, list_id });
        self.record_policy.push(policy_mask);
        self.dedup.set(slot, rec_idx);
        proof {
            let h = spec_fastrange(spec_identity_hash(k), cap);
            lemma_insert(old(self).dedup@, homes, pos, h, steps);
            self.dedup_pos = Ghost(pos.push(slot as int));
            assert forall|i: int| 0 <= i < n implies #[trigger] self.rule_at(i) == old(self).rule_at(i) by {
                let r = self.records@[i];
                assert(r == old(self).records@[i]);
                assert(self.arena@.subrange(r.dom_off as int, r.dom_off + r.dom_len) =~= old(self).arena@.subrange(
                    r.dom_off as int,
                    r.dom_off + r.dom_len,
                ));
                assert(i as u32 != rec_idx);
            }
            assert(self.arena@.subrange(dom_off as int, dom_off + d.len()) =~= d@);
            assert(self.rule_at(n) == rule_of(k, list_id));
            assert(identity_of(self.rule_at(n)) == k);
            assert(self.rules() =~= old(self).rules().push(rule_of(k, list_id)));
            assert(self.dedup_homes() =~= homes.push(h));
            assert forall|i: int, j: int|
                0 <= i < j < n + 1 implies !same_identity(
                #[trigger] self.rule_at(i),
                identity_of(#[trigger] self.rule_at(j)),
            ) by {
                if j == n {
                    assert(!same_identity(old(self).rule_at(i), k));
                } else {
                    assert(!same_identity(old(self).rule_at(i), identity_of(old(self).rule_at(j))));
                }
            }
        }
    }
}

// ─── Lookup ───────────────────────────────────────────────────────────────

/// Who is asking, and under which policy — everything a rule may be scoped
/// to beyond the question itself.
#[derive(Debug, Clone, Copy)]
pub struct ClientContext<'a> {
    pub policy: PolicyId,
    /// The client's source address, when there is a request behind the
    /// lookup.
    pub ip: Option<IpAddr>,
    /// The client's user-assigned name, if it has one.
    pub name: Option<&'a str>,
}

impl<'a> ClientContext<'a> {
    /// The default policy, and a client the caller cannot name.
    pub fn anonymous() -> (c: ClientContext<'static>)
        ensures
            c.policy.0 == 0,
            c.ip.is_none(),
            c.name.is_none(),
    {
        ClientContext { policy: PolicyId(0), ip: None, name: None }
    }
}

/// Marks a [`RuleRef`] as pointing into the URL tier rather than the domain
/// one.
pub const URL_TIER: u32 = 0x8000_0000;

/// A compact, `Copy` handle to the rule that decided a [`MatchDecision`].
#[derive(Debug, Clone, Copy, PartialEq, Eq, Structural)]
pub struct RuleRef(pub u32);

impl RuleRef {
    /// True when the deciding rule is a URL-tier rule, false when it is a
    /// domain rule.
    pub fn is_url_rule(&self) -> (b: bool)
        ensures
            b == (self.0 & URL_TIER != 0),
    {
        self.0 & URL_TIER != 0
    }

    pub open spec fn spec_index(self) -> u32 {
        self.0 & !URL_TIER
    }

    /// The record index, tag bit cleared.
    pub fn index(&self) -> (i: u32)
        ensures
            i == self.spec_index(),
    {
        self.0 & !URL_TIER
    }
}

/// The allocation-free result of [`Matcher::lookup`].
#[derive(Debug, Clone, Copy, PartialEq, Eq, Structural)]
pub enum MatchDecision {
    Allow(RuleRef),
    Block(RuleRef),
    Pass,
}

/// What a lookup at one label level asks of a rule.
pub struct LevelQ {
    /// The query's suffix at this level.
    pub suffix: Seq<char>,
    /// Whether this is a proper parent of the queried name.
    pub subdomain_level: bool,
    /// The question's type bit, or `None` for an HTTP request.
    pub qbit: Option<u32>,
    pub policy_bit: u16,
    pub ip: Option<IpAddr>,
    pub name: Option<Seq<char>>,
}

/// Whether rule `i` (visible to the policies in `masks`, an empty sequence
/// meaning every policy) takes part in a decision at level `q`: its domain
/// is the level's suffix ignoring ASCII case; it covers subdomains if this is
/// a parent level; its `$dnstype` (if any) names the question's type, which
/// an HTTP request does not have; it is no `$dnsrewrite` rule answering an
/// HTTP request; the policy can see it; and its `$client` scope (if any)
/// admits the client.
pub open spec fn takes_part(rules: Seq<RuleV>, masks: Seq<u16>, q: LevelQ, i: int) -> bool {
    let r = rules[i];
    &&& 0 <= i < rules.len()
    &&& lower_seq(r.domain) == lower_seq(q.suffix)
    &&& (!q.subdomain_level || r.flags & FLAG_SUBDOMAINS != 0)
    &&& (r.flags & FLAG_DNSTYPE != 0 ==> match q.qbit {
        Some(b) => spec_dnstype_mask(r.dns_types.unwrap()) & b != 0,
        None => false,
    })
    &&& !(r.flags & FLAG_REWRITE != 0 && q.qbit.is_none())
    &&& (masks.len() == 0 || masks[i] & q.policy_bit != 0)
    &&& (r.flags & FLAG_CLIENT != 0 ==> spec_admits(
        spec_parse_scope(r.client.unwrap()).unwrap(),
        q.ip,
        q.name,
    ))
}

/// A rule of the given action taking part at level `q`.
pub open spec fn decides(rules: Seq<RuleV>, masks: Seq<u16>, q: LevelQ, allow: bool, i: int) -> bool {
    takes_part(rules, masks, q, i) && (rules[i].flags & FLAG_ALLOW != 0) == allow
}

/// The earliest rule at or after `k` that [`decides`].
pub open spec fn first_from(rules: Seq<RuleV>, masks: Seq<u16>, q: LevelQ, allow: bool, k: int) -> Option<int>
    decreases rules.len() - k,
{
    if k < 0 || k >= rules.len() {
        None
    } else if decides(rules, masks, q, allow, k) {
        Some(k)
    } else {
        first_from(rules, masks, q, allow, k + 1)
    }
}

pub proof fn lemma_first_from_some(rules: Seq<RuleV>, masks: Seq<u16>, q: LevelQ, allow: bool, k: int, i: int)
    requires
        0 <= k <= i < rules.len(),
        decides(rules, masks, q, allow, i),
        forall|j: int| k <= j < i ==> !decides(rules, masks, q, allow, j),
    ensures
        first_from(rules, masks, q, allow, k) == Some(i),
    decreases i - k,
{
    if k < i {
        lemma_first_from_some(rules, masks, q, allow, k + 1, i);
    }
}

pub proof fn lemma_first_from_none(rules: Seq<RuleV>, masks: Seq<u16>, q: LevelQ, allow: bool, k: int)
    requires
        0 <= k,
        forall|j: int| k <= j < rules.len() ==> !decides(rules, masks, q, allow, j),
    ensures
        first_from(rules, masks, q, allow, k).is_none(),
    decreases rules.len() - k,
{
    if k < rules.len() {
        lemma_first_from_none(rules, masks, q, allow, k + 1);
    }
}

pub open spec fn level(q: Seq<char>, start: int, qbit: Option<u32>, policy_bit: u16, ip: Option<IpAddr>, name: Option<Seq<char>>) -> LevelQ {
    LevelQ { suffix: q.subrange(start, q.len() as int), subdomain_level: start > 0, qbit, policy_bit, ip, name }
}

/// The decision for query `q` from the level starting at `start` on, a
/// block `blocked` having been remembered from more specific levels: the
/// first level with a taking-part allow rule decides with its earliest such
/// rule; otherwise the block remembered, or the earliest block of the most
/// specific level that has one.
pub open spec fn decide_from(
    rules: Seq<RuleV>,
    masks: Seq<u16>,
    q: Seq<char>,
    start: int,
    qbit: Option<u32>,
    policy_bit: u16,
    ip: Option<IpAddr>,
    name: Option<Seq<char>>,
    blocked: Option<int>,
) -> MatchDecision
    decreases q.len() - start,
{
    let lq = level(q, start, qbit, policy_bit, ip, name);
    if start < 0 || start > q.len() {
        MatchDecision::Pass
    } else {
        match first_from(rules, masks, lq, true, 0) {
            Some(a) => MatchDecision::Allow(RuleRef(a as u32)),
            None => {
                let b = if blocked.is_some() {
                    blocked
                } else {
                    first_from(rules, masks, lq, false, 0)
                };
                let dot = sep_end(q, start, '.');
                if dot < q.len() {
                    proof {
                        lemma_sep_end_bounds(q, start, '.');
                    }
                    decide_from(rules, masks, q, dot + 1, qbit, policy_bit, ip, name, b)
                } else {
                    match b {
                        Some(i) => MatchDecision::Block(RuleRef(i as u32)),
                        None => MatchDecision::Pass,
                    }
                }
            },
        }
    }
}

/// The name looked up for `domain`: one trailing `.` dropped.
pub open spec fn query_of(domain: Seq<char>) -> Seq<char> {
    if domain.len() > 0 && domain.last() == '.' {
        domain.drop_last()
    } else {
        domain
    }
}

/// The decision over `rules` for `domain` — see [`decide_from`].
pub open spec fn spec_lookup(
    rules: Seq<RuleV>,
    masks: Seq<u16>,
    domain: Seq<char>,
    qbit: Option<u32>,
    policy_bit: u16,
    ip: Option<IpAddr>,
    name: Option<Seq<char>>,
) -> MatchDecision {
    decide_from(rules, masks, query_of(domain), 0, qbit, policy_bit, ip, name, None)
}

/// The compiled, immutable domain-tier ruleset.
pub struct Matcher {
    arena: Vec<char>,
    records: Vec<Record>,
    slots: Vec<u32>,
    slot_cap: usize,
    lists: Vec<Box<str>>,
    dnstype: HashMap<u32, (u32, Box<str>)>,
    rewrite: HashMap<u32, Box<str>>,
    clients: HashMap<u32, ClientScope>,
    /// Per-record policy masks; empty when every record is visible to
    /// exactly the union of the lists' masks.
    policy_mask: Vec<u16>,
    duplicates_removed: usize,
    /// Where each record sits in `slots`.
    slot_pos: Ghost<Seq<int>>,
    /// The compiled URL tier.
    url: UrlIndex,
}

impl Matcher {
    /// The compiled URL-tier rules.
    pub closed spec fn url_rules(&self) -> Seq<RecordV> {
        self.url.records()
    }

    /// The list each URL-tier rule came from.
    pub closed spec fn url_lists(&self) -> Seq<u16> {
        self.url.list_ids()
    }

    pub closed spec fn url_duplicates(&self) -> nat {
        self.url.duplicates()
    }

    /// Whether the URL tier's lookup of `q` runs out of its work allowance:
    /// [`walk_cut`] over the rules its index checks, in order.
    pub closed spec fn url_walk_cut(&self, q: RequestV) -> bool {
        walk_cut(self.url.records(), q, self.url.walk(q.url), LOOKUP_STEP_CAP as int)
    }

    /// URL-tier rules no key reaches.
    pub closed spec fn url_unindexed_count(&self) -> nat {
        self.url.unindexed_count()
    }

    /// Keys the URL tier's n-gram index holds.
    pub closed spec fn url_ngram_key_count(&self) -> nat {
        self.url.ngram_key_count()
    }

    pub closed spec fn rule_at(&self, i: int) -> RuleV {
        let r = self.records@[i];
        RuleV {
            domain: self.arena@.subrange(r.dom_off as int, r.dom_off + r.dom_len),
            flags: r.flags,
            dns_types: if self.dnstype@.contains_key(i as u32) {
                Some(self.dnstype@[i as u32].1@)
            } else {
                None
            },
            rewrite: if self.rewrite@.contains_key(i as u32) {
                Some(self.rewrite@[i as u32]@)
            } else {
                None
            },
            client: if self.clients@.contains_key(i as u32) {
                Some(self.clients@[i as u32].raw@)
            } else {
                None
            },
            list_id: r.list_id,
        }
    }

    /// The compiled rules, in compile order.
    pub closed spec fn rules(&self) -> Seq<RuleV> {
        Seq::new(self.records@.len(), |i: int| self.rule_at(i))
    }

    pub closed spec fn list_names(&self) -> Seq<Seq<char>> {
        self.lists@.map_values(|n: Box<str>| n@)
    }

    /// Per-rule policy masks; empty when no rule is hidden from any policy
    /// that can see any list.
    pub closed spec fn masks(&self) -> Seq<u16> {
        self.policy_mask@
    }

    pub closed spec fn duplicates(&self) -> nat {
        self.duplicates_removed as nat
    }

    spec fn slot_homes(&self) -> Seq<int> {
        Seq::new(
            self.records@.len(),
            |i: int| spec_fastrange(spec_hash_domain(self.rule_at(i).domain), self.slots@.len() as int),
        )
    }

    pub closed spec fn wf(&self) -> bool {
        let n = self.records@.len();
        &&& n < 0x8000_0000
        &&& self.arena@.len() <= u32::MAX
        &&& self.slot_cap == self.slots@.len()
        &&& self.policy_mask@.len() == 0 || self.policy_mask@.len() == n
        &&& forall|i: int|
            0 <= i < n ==> {
                let r = #[trigger] self.records@[i];
                &&& r.dom_off + r.dom_len <= self.arena@.len()
                &&& r.dom_len > 0
                &&& r.flags < 32
                &&& (r.flags & FLAG_DNSTYPE != 0) == self.dnstype@.contains_key(i as u32)
                &&& (r.flags & FLAG_REWRITE != 0) == self.rewrite@.contains_key(i as u32)
                &&& (r.flags & FLAG_CLIENT != 0) == self.clients@.contains_key(i as u32)
                &&& r.list_id < self.lists@.len()
            }
        &&& forall|k: u32|
            #[trigger] self.dnstype@.contains_key(k) ==> self.dnstype@[k].0 == spec_dnstype_mask(
                self.dnstype@[k].1@,
            )
        &&& forall|k: u32| #[trigger] self.clients@.contains_key(k) ==> self.clients@[k].wf()
        &&& table_wf(self.slots@, self.slot_homes(), self.slot_pos@)
        &&& self.url.wf()
        &&& forall|j: int| 0 <= j < self.url.list_ids().len() ==> #[trigger] self.url.list_ids()[j] < self.lists@.len()
    }
}

/// The bitwise union of `masks`.
pub open spec fn union_of(masks: Seq<u16>) -> u16
    decreases masks.len(),
{
    if masks.len() == 0 {
        0
    } else {
        union_of(masks.drop_last()) | masks.last()
    }
}

/// The per-rule masks a compiled matcher keeps: none when every rule is
/// visible to exactly the union of the lists' masks (which filters nothing
/// a mask test could), the rule masks otherwise.
pub open spec fn kept_masks(rule_masks: Seq<u16>, list_masks: Seq<u16>) -> Seq<u16> {
    if forall|i: int| 0 <= i < rule_masks.len() ==> rule_masks[i] == union_of(list_masks) {
        Seq::empty()
    } else {
        rule_masks
    }
}

impl MatcherBuilder {
    /// Compiles the rules added so far; the dedup index is dropped here.
    pub fn build(self) -> (m: Matcher)
        requires
            self.wf(),
        ensures
            m.wf(),
            m.rules() == self.rules(),
            m.list_names() == self.list_names(),
            m.masks() == kept_masks(self.rule_masks(), self.list_masks()),
            m.duplicates() == self.duplicates(),
            m.slot_count() == spec_table_slots(self.rules().len() as int),
            m.url_rules() == self.url_rules(),
            m.url_lists() == self.url_lists(),
            m.url_duplicates() == self.url_part().duplicates(),
            m.url_unindexed_count() <= m.url_rules().len(),
            m.url_ngram_key_count() < NGRAM_BUCKET_CAP ==> m.url_unindexed_count() == count_where(
                |i: int| !offers_token_key(m.url_rules()[i]) && !offers_window(m.url_rules()[i]),
                m.url_rules().len() as int,
            ),
    {
        let count = self.records.len();
        let cap = table_slots(count);
        let mut slots = empty_table(cap);
        let ghost homes = Seq::new(
            self.records@.len(),
            |i: int| spec_fastrange(spec_hash_domain(self.rule_at(i).domain), cap as int),
        );
        let ghost mut pos: Seq<int> = Seq::empty();
        proof {
            lemma_empty_table(cap as nat);
            assert(homes.take(0) =~= Seq::<int>::empty());
        }
        let mut idx: usize = 0;
        while idx < count
            invariant
                self.wf(),
                count == self.records@.len(),
                count < cap,
                0 <= idx <= count,
                slots@.len() == cap,
                homes.len() == count,
                forall|i: int|
                    0 <= i < count ==> #[trigger] homes[i] == spec_fastrange(
                        spec_hash_domain(self.rule_at(i).domain),
                        cap as int,
                    ),
                table_wf(slots@, homes.take(idx as int), pos),
            decreases count - idx,
        {
            let rec = self.records[idx];
            proof {
                assert(rec == self.records@[idx as int]);
            }
            let off = rec.dom_off as usize;
            let end = off + rec.dom_len as usize;
            let hash = hash_domain(self.arena.as_slice(), off, end);
            let h = fastrange(hash, cap);
            let (slot, Ghost(d)) = probe_free(&slots, h, Ghost(homes.take(idx as int)), Ghost(pos));
            proof {
                lemma_insert(slots@, homes.take(idx as int), pos, h as int, d);
                assert(homes.take(idx as int).push(h as int) =~= homes.take(idx + 1));
            }
            slots.set(slot, idx as u32);
            proof {
                pos = pos.push(slot as int);
            }
            idx += 1;
        }
        proof {
            assert(homes.take(count as int) =~= homes);
        }
        let full = union_exec(&self.list_policy);
        let mut all_full = true;
        let mut i: usize = 0;
        while i < self.record_policy.len()
            invariant
                0 <= i <= self.record_policy@.len(),
                full == union_of(self.list_policy@),
                all_full == forall|j: int| 0 <= j < i ==> self.record_policy@[j] == full,
            decreases self.record_policy.len() - i,
        {
            if self.record_policy[i] != full {
                all_full = false;
            }
            i += 1;
        }
        let policy_mask = if all_full {
            Vec::new()
        } else {
            self.record_policy
        };
        let m = Matcher {
            arena: self.arena,
            records: self.records,
            slots,
            slot_cap: cap,
            lists: self.lists,
            dnstype: self.dnstype,
            rewrite: self.rewrite,
            clients: self.clients,
            policy_mask,
            duplicates_removed: self.duplicates_removed,
            slot_pos: Ghost(pos),
            url: self.url.build(),
        };
        proof {
            assert forall|i: int| 0 <= i < count implies #[trigger] m.rule_at(i) == self.rule_at(i) by {}
            assert(m.slot_homes() =~= homes);
            assert(m.rules() =~= self.rules());
            if all_full {
                assert(m.masks() =~= Seq::<u16>::empty());
            }
        }
        m
    }
}

/// The union of `masks` — see [`union_of`].
fn union_exec(masks: &Vec<u16>) -> (u: u16)
    ensures
        u == union_of(masks@),
{
    let mut u: u16 = 0;
    let mut i: usize = 0;
    while i < masks.len()
        invariant
            0 <= i <= masks@.len(),
            u == union_of(masks@.take(i as int)),
        decreases masks.len() - i,
    {
        proof {
            assert(masks@.take(i + 1).drop_last() =~= masks@.take(i as int));
        }
        u = u | masks[i];
        i += 1;
    }
    proof {
        assert(masks@.take(masks@.len() as int) =~= masks@);
    }
    u
}

impl Matcher {
    pub closed spec fn slot_count(&self) -> int {
        self.slots@.len() as int
    }

    /// Number of compiled rules — distinct rules: a rule several lists carry
    /// is one record.
    pub fn len(&self) -> (n: usize)
        ensures
            n == self.rules().len(),
    {
        self.records.len()
    }

    pub fn is_empty(&self) -> (b: bool)
        ensures
            b == (self.rules().len() == 0),
    {
        self.records.len() == 0
    }

    /// How many rules the compile dropped as exact duplicates.
    pub fn duplicates_removed(&self) -> (n: usize)
        ensures
            n == self.duplicates(),
    {
        self.duplicates_removed
    }

    /// Slots in the compiled hash table.
    pub fn slot_len(&self) -> (n: usize)
        ensures
            n == self.slot_count(),
    {
        self.slots.len()
    }
}

impl Matcher {
    /// Whether record `idx` takes part at the level of `v[..qlen]` starting
    /// at `start` — see [`takes_part`].
    fn takes_part_exec(
        &self,
        idx: u32,
        v: &[char],
        start: usize,
        qlen: usize,
        qbit: Option<u32>,
        ctx: &ClientContext,
    ) -> (b: bool)
        requires
            self.wf(),
            idx < self.records@.len(),
            start <= qlen <= v.len(),
        ensures
            b == takes_part(
                self.rules(),
                self.masks(),
                level(v@.subrange(0, qlen as int), start as int, qbit, ctx.policy.spec_bit(), ctx.ip, opt_str_view(ctx.name)),
                idx as int,
            ),
    {
        let ghost q = v@.subrange(0, qlen as int);
        proof {
            assert(q.subrange(start as int, q.len() as int) =~= v@.subrange(start as int, qlen as int));
            assert(self.rules()[idx as int] == self.rule_at(idx as int));
        }
        let rec = self.records[idx as usize];
        proof {
            assert(rec == self.records@[idx as int]);
        }
        let off = rec.dom_off as usize;
        let end = off + rec.dom_len as usize;
        let dom = &self.arena[off..end];
        let suffix = &v[start..qlen];
        proof {
            assert(dom@ == self.arena@.subrange(off as int, end as int));
            assert(suffix@ == v@.subrange(start as int, qlen as int));
        }
        if !eq_ignore_case(dom, suffix) {
            return false;
        }
        if start > 0 && !rec.include_subdomains() {
            return false;
        }
        if rec.has_dnstype() {
            match qbit {
                None => {
                    return false;
                },
                Some(bit) => match self.dnstype.get(&idx) {
                    Some(e) => {
                        if e.0 & bit == 0 {
                            return false;
                        }
                    },
                    None => {
                        return false;
                    },
                },
            }
        }
        if rec.has_rewrite() && qbit.is_none() {
            return false;
        }
        if self.policy_mask.len() != 0 && self.policy_mask[idx as usize] & ctx.policy.bit() == 0 {
            return false;
        }
        if rec.has_client() {
            match self.clients.get(&idx) {
                Some(scope) => {
                    return scope.admits(ctx.ip, ctx.name);
                },
                None => {
                    return false;
                },
            }
        }
        true
    }

    /// Probes one label level: the earliest rule there that allows, if any,
    /// and otherwise the earliest that blocks.
    fn scan_level(&self, v: &[char], start: usize, qlen: usize, qbit: Option<u32>, ctx: &ClientContext) -> (r: (
        Option<u32>,
        Option<u32>,
    ))
        requires
            self.wf(),
            start <= qlen <= v.len(),
        ensures
            ({
                let lq = level(
                    v@.subrange(0, qlen as int),
                    start as int,
                    qbit,
                    ctx.policy.spec_bit(),
                    ctx.ip,
                    opt_str_view(ctx.name),
                );
                &&& match r.0 {
                    Some(a) => first_from(self.rules(), self.masks(), lq, true, 0) == Some(a as int),
                    None => first_from(self.rules(), self.masks(), lq, true, 0).is_none(),
                }
                &&& r.0.is_none() ==> match r.1 {
                    Some(b) => first_from(self.rules(), self.masks(), lq, false, 0) == Some(b as int),
                    None => first_from(self.rules(), self.masks(), lq, false, 0).is_none(),
                }
            }),
    {
        let ghost lq = level(
            v@.subrange(0, qlen as int),
            start as int,
            qbit,
            ctx.policy.spec_bit(),
            ctx.ip,
            opt_str_view(ctx.name),
        );
        let ghost rules = self.rules();
        let ghost masks = self.masks();
        let ghost homes = self.slot_homes();
        let ghost pos = self.slot_pos@;
        let cap = self.slot_cap;
        let hash = hash_domain(v, start, qlen);
        let h = fastrange(hash, cap);
        proof {
            assert(lq.suffix =~= v@.subrange(start as int, qlen as int));
            assert forall|j: int|
                0 <= j < rules.len() && lower_seq(#[trigger] rules[j].domain) == lower_seq(lq.suffix)
                    implies homes[j] == h by {
                assert(rules[j] == self.rule_at(j));
            }
        }
        let mut slot = h;
        let ghost mut steps: int = 0;
        let mut lb: Option<u32> = None;
        while self.slots[slot] != EMPTY
            invariant
                self.wf(),
                start <= qlen <= v.len(),
                cap == self.slots@.len(),
                rules == self.rules(),
                masks == self.masks(),
                homes == self.slot_homes(),
                pos == self.slot_pos@,
                lq == level(
                    v@.subrange(0, qlen as int),
                    start as int,
                    qbit,
                    ctx.policy.spec_bit(),
                    ctx.ip,
                    opt_str_view(ctx.name),
                ),
                h < cap,
                forall|j: int|
                    0 <= j < rules.len() && lower_seq(#[trigger] rules[j].domain) == lower_seq(lq.suffix)
                        ==> homes[j] == h,
                0 <= steps < cap,
                slot == step(h as int, steps, cap as int),
                forall|e: int| 0 <= e < steps ==> self.slots@[step(h as int, e, cap as int)] != EMPTY,
                forall|j: int| #[trigger] decides(rules, masks, lq, true, j) ==> dist(h as int, pos[j], cap as int) >= steps,
                match lb {
                    Some(b) => {
                        &&& decides(rules, masks, lq, false, b as int)
                        &&& forall|j: int| 0 <= j < b ==> !#[trigger] decides(rules, masks, lq, false, j)
                    },
                    None => forall|j: int| #[trigger] decides(rules, masks, lq, false, j) ==> dist(h as int, pos[j], cap as int) >= steps,
                },
            decreases cap - steps,
        {
            let idx = self.slots[slot];
            proof {
                assert(self.slots@[slot as int] != EMPTY);
                assert(idx < self.records@.len());
                assert(pos[idx as int] == slot);
                lemma_step_dist(h as int, slot as int, steps, cap as int);
            }
            let part = self.takes_part_exec(idx, v, start, qlen, qbit, ctx);
            if part {
                let rec = self.records[idx as usize];
                proof {
                    assert(rec == self.records@[idx as int]);
                    assert(rules[idx as int] == self.rule_at(idx as int));
                }
                if rec.is_allow() {
                    proof {
                        assert forall|j: int| 0 <= j < idx implies !decides(rules, masks, lq, true, j) by {
                            if decides(rules, masks, lq, true, j) {
                                assert(homes[j] == homes[idx as int]);
                            }
                        }
                        lemma_first_from_some(rules, masks, lq, true, 0, idx as int);
                    }
                    return (Some(idx), None);
                } else if lb.is_none() {
                    proof {
                        assert forall|j: int| 0 <= j < idx implies !decides(rules, masks, lq, false, j) by {
                            if decides(rules, masks, lq, false, j) {
                                assert(homes[j] == homes[idx as int]);
                            }
                        }
                    }
                    lb = Some(idx);
                }
            }
            proof {
                lemma_probe_continues(self.slots@, homes, pos, h as int, steps);
                assert forall|j: int| #[trigger] decides(rules, masks, lq, true, j) implies dist(
                    h as int,
                    pos[j],
                    cap as int,
                ) >= steps + 1 by {
                    if dist(h as int, pos[j], cap as int) == steps {
                        lemma_step_dist(h as int, pos[j], steps, cap as int);
                        assert(self.slots@[pos[j]] == j);
                    }
                }
                if lb.is_none() {
                    assert forall|j: int| #[trigger] decides(rules, masks, lq, false, j) implies dist(
                        h as int,
                        pos[j],
                        cap as int,
                    ) >= steps + 1 by {
                        if dist(h as int, pos[j], cap as int) == steps {
                            lemma_step_dist(h as int, pos[j], steps, cap as int);
                            assert(self.slots@[pos[j]] == j);
                        }
                    }
                }
            }
            slot += 1;
            if slot == cap {
                slot = 0;
            }
            proof {
                steps = steps + 1;
            }
        }
        proof {
            assert forall|j: int| 0 <= j < rules.len() implies !decides(rules, masks, lq, true, j) by {
                if decides(rules, masks, lq, true, j) {
                    lemma_walk_covers(self.slots@, homes, pos, h as int, steps, j);
                }
            }
            lemma_first_from_none(rules, masks, lq, true, 0);
            match lb {
                Some(b) => {
                    lemma_first_from_some(rules, masks, lq, false, 0, b as int);
                },
                None => {
                    assert forall|j: int| 0 <= j < rules.len() implies !decides(rules, masks, lq, false, j) by {
                        if decides(rules, masks, lq, false, j) {
                            lemma_walk_covers(self.slots@, homes, pos, h as int, steps, j);
                        }
                    }
                    lemma_first_from_none(rules, masks, lq, false, 0);
                },
            }
        }
        (None, lb)
    }
}

/// The rule that decided a verdict, in reconstructed text, and the list it
/// came from.
#[derive(Debug, Clone, PartialEq, Eq)]
pub struct DecisiveRule {
    pub list: Box<str>,
    pub rule: String,
}

/// A verdict with its deciding rule materialized.
#[derive(Debug, Clone, PartialEq, Eq)]
pub enum Verdict {
    Allow(DecisiveRule),
    Block(DecisiveRule),
    Pass,
}

/// `@@` for an exception, then `||domain^`, then the options in AdGuard
/// syntax: one `$`, further options comma-separated.
pub open spec fn rule_text_of(r: RuleV) -> Seq<char> {
    (if r.flags & FLAG_ALLOW != 0 {
        seq!['@', '@']
    } else {
        Seq::empty()
    }) + seq!['|', '|'] + r.domain + seq!['^'] + join_options(option_texts(r))
}

/// The rule's options as `name=value` texts, in `$dnstype`, `$dnsrewrite`,
/// `$client` order.
pub open spec fn option_texts(r: RuleV) -> Seq<Seq<char>> {
    option_texts_of(r.dns_types, r.rewrite, r.client)
}

pub open spec fn option_texts_of(dt: Option<Seq<char>>, rw: Option<Seq<char>>, cl: Option<Seq<char>>) -> Seq<Seq<char>> {
    let a = match dt {
        Some(raw) => seq![seq!['d', 'n', 's', 't', 'y', 'p', 'e', '='] + raw],
        None => Seq::empty(),
    };
    let b = match rw {
        Some(raw) => a.push(seq!['d', 'n', 's', 'r', 'e', 'w', 'r', 'i', 't', 'e', '='] + raw),
        None => a,
    };
    match cl {
        Some(raw) => b.push(seq!['c', 'l', 'i', 'e', 'n', 't', '='] + raw),
        None => b,
    }
}

/// `$` before the first option, `,` before each later one.
pub open spec fn join_options(opts: Seq<Seq<char>>) -> Seq<char>
    decreases opts.len(),
{
    if opts.len() == 0 {
        Seq::empty()
    } else {
        join_options(opts.drop_last()) + (if opts.len() == 1 {
            seq!['$']
        } else {
            seq![',']
        }) + opts.last()
    }
}

/// Appends `s` to `out`.
fn push_chars(out: &mut Vec<char>, s: &[char])
    ensures
        final(out)@ == old(out)@ + s@,
{
    let mut k: usize = 0;
    while k < s.len()
        invariant
            0 <= k <= s.len(),
            out@ == old(out)@ + s@.take(k as int),
        decreases s.len() - k,
    {
        out.push(s[k]);
        proof {
            assert(old(out)@ + s@.take(k + 1) =~= (old(out)@ + s@.take(k as int)).push(s@[k as int]));
        }
        k += 1;
    }
    proof {
        assert(s@.take(s.len() as int) =~= s@);
    }
}

/// Appends the option `name=raw` after `sep`.
fn push_option(out: &mut Vec<char>, sep: char, name: &[char], raw: &str)
    ensures
        final(out)@ == old(out)@ + seq![sep] + name@ + raw@,
{
    out.push(sep);
    push_chars(out, name);
    let r = chars_of(raw);
    push_chars(out, r.as_slice());
    proof {
        assert(old(out)@.push(sep) + name@ + raw@ =~= old(out)@ + seq![sep] + name@ + raw@);
    }
}

/// The options part of a reconstructed rule — see [`join_options`].
fn options_text(dt: Option<&str>, rw: Option<&str>, cl: Option<&str>) -> (t: Vec<char>)
    ensures
        t@ == join_options(option_texts_of(opt_str_view(dt), opt_str_view(rw), opt_str_view(cl))),
{
    let mut text: Vec<char> = Vec::new();
    let mut sep = '$';
    let ghost mut opts: Seq<Seq<char>> = Seq::empty();
    proof {
        assert(text@ =~= join_options(opts));
    }
    if let Some(raw) = dt {
        let n = ['d', 'n', 's', 't', 'y', 'p', 'e', '='];
        push_option(&mut text, sep, n.as_slice(), raw);
        proof {
            assert(n@ == seq!['d', 'n', 's', 't', 'y', 'p', 'e', '=']);
            let prev = opts;
            opts = opts.push(n@ + raw@);
            assert(opts.drop_last() =~= prev);
            assert(text@ =~= join_options(opts));
        }
        sep = ',';
    }
    proof {
        assert(sep == (if opts.len() == 0 { '$' } else { ',' }));
    }
    if let Some(raw) = rw {
        let n = ['d', 'n', 's', 'r', 'e', 'w', 'r', 'i', 't', 'e', '='];
        push_option(&mut text, sep, n.as_slice(), raw);
        proof {
            assert(n@ == seq!['d', 'n', 's', 'r', 'e', 'w', 'r', 'i', 't', 'e', '=']);
            let prev = opts;
            opts = opts.push(n@ + raw@);
            assert(opts.drop_last() =~= prev);
            assert(text@ =~= join_options(opts));
        }
        sep = ',';
    }
    proof {
        assert(sep == (if opts.len() == 0 { '$' } else { ',' }));
    }
    if let Some(raw) = cl {
        let n = ['c', 'l', 'i', 'e', 'n', 't', '='];
        push_option(&mut text, sep, n.as_slice(), raw);
        proof {
            assert(n@ == seq!['c', 'l', 'i', 'e', 'n', 't', '=']);
            let prev = opts;
            opts = opts.push(n@ + raw@);
            assert(opts.drop_last() =~= prev);
            assert(text@ =~= join_options(opts));
        }
    }
    proof {
        assert(opts =~= option_texts_of(opt_str_view(dt), opt_str_view(rw), opt_str_view(cl)));
    }
    text
}

impl Matcher {
    /// Answers a verdict for `domain` as a DNS question of type `qtype`,
    /// under the default policy for an unnamed client. Allocation-free in
    /// spirit: the decision carries a [`RuleRef`], not text. Precedence:
    /// allow > block > pass — see [`spec_lookup`].
    pub fn lookup(&self, domain: &str, qtype: &QueryType) -> (d: MatchDecision)
        requires
            self.wf(),
        ensures
            d == spec_lookup(self.rules(), self.masks(), domain@, Some(spec_qtype_bit(*qtype)), 1, None, None),
    {
        let ctx = ClientContext::anonymous();
        proof {
            assert(1u16 << 0u8 == 1u16) by (bit_vector);
        }
        self.lookup_in(domain, qtype, &ctx)
    }

    /// [`Self::lookup`] under a policy, for a client: rules from a list the
    /// policy does not enable, and `$client` rules scoped to somebody else,
    /// do not take part in the decision at all.
    pub fn lookup_in(&self, domain: &str, qtype: &QueryType, ctx: &ClientContext) -> (d: MatchDecision)
        requires
            self.wf(),
        ensures
            d == spec_lookup(
                self.rules(),
                self.masks(),
                domain@,
                Some(spec_qtype_bit(*qtype)),
                ctx.policy.spec_bit(),
                ctx.ip,
                opt_str_view(ctx.name),
            ),
    {
        let bit = qtype_bit(qtype);
        self.lookup_domain(domain, Some(bit), ctx)
    }

    /// The domain walk shared by the DNS and HTTP entry points. `qbit` is the
    /// question's type bit, or `None` for an HTTP request — which has no
    /// record type, so a `$dnstype`-restricted rule does not apply to it,
    /// and a `$dnsrewrite` rule (an answer, not a denial) does not decide it.
    pub fn lookup_domain(&self, domain: &str, qbit: Option<u32>, ctx: &ClientContext) -> (d: MatchDecision)
        requires
            self.wf(),
        ensures
            d == spec_lookup(
                self.rules(),
                self.masks(),
                domain@,
                qbit,
                ctx.policy.spec_bit(),
                ctx.ip,
                opt_str_view(ctx.name),
            ),
    {
        let v = chars_of(domain);
        let qlen: usize = if v.len() > 0 && v[v.len() - 1] == '.' {
            v.len() - 1
        } else {
            v.len()
        };
        let ghost q = v@.subrange(0, qlen as int);
        let ghost rules = self.rules();
        let ghost masks = self.masks();
        let ghost pb = ctx.policy.spec_bit();
        let ghost name = opt_str_view(ctx.name);
        proof {
            if v.len() > 0 && v@[v.len() - 1] == '.' {
                assert(q =~= domain@.drop_last());
            } else {
                assert(q =~= domain@);
            }
        }
        let mut blocked: Option<u32> = None;
        let mut start: usize = 0;
        loop
            invariant
                self.wf(),
                start <= qlen <= v.len(),
                q == v@.subrange(0, qlen as int),
                rules == self.rules(),
                masks == self.masks(),
                pb == ctx.policy.spec_bit(),
                name == opt_str_view(ctx.name),
                spec_lookup(rules, masks, domain@, qbit, pb, ctx.ip, name) == decide_from(
                    rules,
                    masks,
                    q,
                    start as int,
                    qbit,
                    pb,
                    ctx.ip,
                    name,
                    match blocked {
                        Some(b) => Some(b as int),
                        None => None,
                    },
                ),
            decreases qlen - start,
        {
            let (allow, lb) = self.scan_level(v.as_slice(), start, qlen, qbit, ctx);
            if let Some(a) = allow {
                return MatchDecision::Allow(RuleRef(a));
            }
            if blocked.is_none() {
                blocked = lb;
            }
            let dot = piece_end(v.as_slice(), start, qlen, '.');
            if dot >= qlen {
                return match blocked {
                    Some(b) => MatchDecision::Block(RuleRef(b)),
                    None => MatchDecision::Pass,
                };
            }
            start = dot + 1;
        }
    }

    /// The `$dnsrewrite` payload of a decided domain rule, if any.
    pub fn rewrite(&self, r: RuleRef) -> (p: Option<&str>)
        requires
            self.wf(),
            !(r.0 & URL_TIER != 0) ==> r.spec_index() < self.rules().len(),
        ensures
            r.0 & URL_TIER != 0 ==> p.is_none(),
            !(r.0 & URL_TIER != 0) ==> opt_str_view(p) == self.rules()[r.spec_index() as int].rewrite,
    {
        if r.is_url_rule() {
            return None;
        }
        let index = r.index();
        proof {
            assert(self.rules()[index as int] == self.rule_at(index as int));
        }
        match self.rewrite.get(&index) {
            Some(raw) => Some(&**raw),
            None => None,
        }
    }

    /// A decision's rule reference names a compiled rule of its tier.
    pub open spec fn valid_ref(&self, r: RuleRef) -> bool {
        if r.0 & URL_TIER != 0 {
            r.spec_index() < self.url_rules().len()
        } else {
            r.spec_index() < self.rules().len()
        }
    }

    /// The canonical text of the rule a reference names.
    pub open spec fn ref_text(&self, r: RuleRef) -> Seq<char> {
        if r.0 & URL_TIER != 0 {
            record_text(self.url_rules()[r.spec_index() as int])
        } else {
            rule_text_of(self.rules()[r.spec_index() as int])
        }
    }

    /// The list the rule a reference names came from.
    pub open spec fn ref_list(&self, r: RuleRef) -> Seq<char> {
        if r.0 & URL_TIER != 0 {
            self.list_names()[self.url_lists()[r.spec_index() as int] as int]
        } else {
            self.list_names()[self.rules()[r.spec_index() as int].list_id as int]
        }
    }

    /// The human-readable decisive rule and the list it came from.
    pub fn decisive_rule(&self, r: RuleRef) -> (d: DecisiveRule)
        requires
            self.wf(),
            self.valid_ref(r),
        ensures
            d.rule@ == self.ref_text(r),
            d.list@ == self.ref_list(r),
    {
        if r.is_url_rule() {
            let index = r.index();
            let list_id = self.url.list_id(index);
            proof {
                assert(self.url.list_ids()[index as int] < self.lists@.len());
                assert(self.list_names()[list_id as int] == self.lists@[list_id as int]@);
            }
            let list = boxed_str(&*self.lists[list_id as usize]);
            return DecisiveRule { list, rule: self.url.rule_text(index) };
        }
        self.domain_decisive_rule(r)
    }

    /// [`Self::decisive_rule`] for a domain-tier rule.
    fn domain_decisive_rule(&self, r: RuleRef) -> (d: DecisiveRule)
        requires
            self.wf(),
            !(r.0 & URL_TIER != 0),
            r.spec_index() < self.rules().len(),
        ensures
            d.rule@ == rule_text_of(self.rules()[r.spec_index() as int]),
            d.list@ == self.list_names()[self.rules()[r.spec_index() as int].list_id as int],
    {
        let index = r.index();
        let ghost rv = self.rule_at(index as int);
        proof {
            assert(self.rules()[index as int] == rv);
        }
        let rec = self.records[index as usize];
        proof {
            assert(rec == self.records@[index as int]);
        }
        let mut text: Vec<char> = Vec::new();
        if rec.is_allow() {
            text.push('@');
            text.push('@');
        }
        text.push('|');
        text.push('|');
        let off = rec.dom_off as usize;
        let end = off + rec.dom_len as usize;
        push_chars(&mut text, &self.arena[off..end]);
        text.push('^');
        let (dt, rw, cl) = self.payloads_of(index);
        let opts = options_text(dt, rw, cl);
        push_chars(&mut text, opts.as_slice());
        proof {
            assert(text@ =~= rule_text_of(rv));
        }
        let list = boxed_str(&*self.lists[rec.list_id as usize]);
        proof {
            assert(self.list_names()[rec.list_id as int] == self.lists@[rec.list_id as int]@);
        }
        DecisiveRule { list, rule: string_of(text.as_slice()) }
    }

    /// The payloads of record `idx`.
    fn payloads_of(&self, idx: u32) -> (r: (Option<&str>, Option<&str>, Option<&str>))
        requires
            self.wf(),
            idx < self.records@.len(),
        ensures
            opt_str_view(r.0) == self.rule_at(idx as int).dns_types,
            opt_str_view(r.1) == self.rule_at(idx as int).rewrite,
            opt_str_view(r.2) == self.rule_at(idx as int).client,
    {
        let dt: Option<&str> = match self.dnstype.get(&idx) {
            Some(e) => Some(&*e.1),
            None => None,
        };
        let rw: Option<&str> = match self.rewrite.get(&idx) {
            Some(e) => Some(&**e),
            None => None,
        };
        let cl: Option<&str> = match self.clients.get(&idx) {
            Some(scope) => Some(&*scope.raw),
            None => None,
        };
        (dt, rw, cl)
    }

    /// A verdict with the decisive rule materialized.
    pub fn verdict(&self, domain: &str, qtype: &QueryType) -> (v: Verdict)
        requires
            self.wf(),
        ensures
            match (v, spec_lookup(self.rules(), self.masks(), domain@, Some(spec_qtype_bit(*qtype)), 1, None, None)) {
                (Verdict::Allow(d), MatchDecision::Allow(r)) => d.rule@ == rule_text_of(self.rules()[r.0 as int]),
                (Verdict::Block(d), MatchDecision::Block(r)) => d.rule@ == rule_text_of(self.rules()[r.0 as int]),
                (Verdict::Pass, MatchDecision::Pass) => true,
                _ => false,
            },
    {
        match self.lookup(domain, qtype) {
            MatchDecision::Allow(r) => {
                proof {
                    lemma_decided_index(self.rules(), self.masks(), domain@, Some(spec_qtype_bit(*qtype)), 1, None, None);
                }
                Verdict::Allow(self.decisive_rule(r))
            },
            MatchDecision::Block(r) => {
                proof {
                    lemma_decided_index(self.rules(), self.masks(), domain@, Some(spec_qtype_bit(*qtype)), 1, None, None);
                }
                Verdict::Block(self.decisive_rule(r))
            },
            MatchDecision::Pass => Verdict::Pass,
        }
    }
}

proof fn lemma_first_from_range(rules: Seq<RuleV>, masks: Seq<u16>, q: LevelQ, allow: bool, k: int)
    requires
        0 <= k,
    ensures
        first_from(rules, masks, q, allow, k) matches Some(i) ==> k <= i < rules.len(),
    decreases rules.len() - k,
{
    if k < rules.len() && !decides(rules, masks, q, allow, k) {
        lemma_first_from_range(rules, masks, q, allow, k + 1);
    }
}

proof fn lemma_decide_from_index(
    rules: Seq<RuleV>,
    masks: Seq<u16>,
    q: Seq<char>,
    start: int,
    qbit: Option<u32>,
    pb: u16,
    ip: Option<IpAddr>,
    name: Option<Seq<char>>,
    blocked: Option<int>,
)
    requires
        rules.len() < 0x8000_0000,
        blocked matches Some(b) ==> 0 <= b < rules.len(),
    ensures
        match decide_from(rules, masks, q, start, qbit, pb, ip, name, blocked) {
            MatchDecision::Allow(r) => r.0 < rules.len(),
            MatchDecision::Block(r) => r.0 < rules.len(),
            MatchDecision::Pass => true,
        },
    decreases q.len() - start,
{
    if 0 <= start <= q.len() {
        let lq = level(q, start, qbit, pb, ip, name);
        lemma_first_from_range(rules, masks, lq, true, 0);
        lemma_first_from_range(rules, masks, lq, false, 0);
        if first_from(rules, masks, lq, true, 0).is_none() {
            let b = if blocked.is_some() {
                blocked
            } else {
                first_from(rules, masks, lq, false, 0)
            };
            let dot = sep_end(q, start, '.');
            lemma_sep_end_bounds(q, start, '.');
            if dot < q.len() {
                lemma_decide_from_index(rules, masks, q, dot + 1, qbit, pb, ip, name, b);
            }
        }
    }
}

/// A decision's rule is a compiled domain rule: in range, its tag bit clear.
proof fn lemma_decided_index(
    rules: Seq<RuleV>,
    masks: Seq<u16>,
    domain: Seq<char>,
    qbit: Option<u32>,
    pb: u16,
    ip: Option<IpAddr>,
    name: Option<Seq<char>>,
)
    requires
        rules.len() < 0x8000_0000,
    ensures
        match spec_lookup(rules, masks, domain, qbit, pb, ip, name) {
            MatchDecision::Allow(r) => r.0 < rules.len() && !(r.0 & URL_TIER != 0) && r.spec_index() == r.0,
            MatchDecision::Block(r) => r.0 < rules.len() && !(r.0 & URL_TIER != 0) && r.spec_index() == r.0,
            MatchDecision::Pass => true,
        },
{
    lemma_decide_from_index(rules, masks, query_of(domain), 0, qbit, pb, ip, name, None);
    match spec_lookup(rules, masks, domain, qbit, pb, ip, name) {
        MatchDecision::Allow(r) => lemma_untagged(r.0),
        MatchDecision::Block(r) => lemma_untagged(r.0),
        MatchDecision::Pass => {},
    }
}

proof fn lemma_untagged(x: u32)
    by (bit_vector)
    requires
        x < 0x8000_0000,
    ensures
        !(x & 0x8000_0000 != 0),
        x & !0x8000_0000u32 == x,
{
}

impl MatcherBuilder {
    /// Adds one request-applicable rule to list `list_id`. The domain tier
    /// and the lists are untouched; the URL tier compiles the rule unless it
    /// cannot hold it or already has it.
    pub fn add_url_rule(&mut self, list_id: u16, rule: &UrlRule)
        requires
            old(self).wf(),
            old(self).has_room(),
            list_id < old(self).list_names().len(),
        ensures
            final(self).wf(),
            final(self).view() == old(self).view(),
            final(self).url_rules() == url_add_view(old(self).url_rules(), rule@).0,
            final(self).url_part().duplicates() == old(self).url_part().duplicates() + if url_add_view(
                old(self).url_rules(),
                rule@,
            ).1 {
                1nat
            } else {
                0nat
            },
            final(self).url_lists() == if final(self).url_rules().len() > old(self).url_rules().len() {
                old(self).url_lists().push(list_id)
            } else {
                old(self).url_lists()
            },
            forall|n: nat| old(self).room_for(n + 1) ==> #[trigger] final(self).room_for(n),
    {
        let ghost v0 = self.view();
        let ghost r0 = self.rules();
        let ghost before: MatcherBuilder = *self;
        let ghost l0 = self.url_lists();
        self.url.add(list_id, rule);
        proof {
            assert(self.rules() =~= r0);
            assert(self.view() == v0);
            assert forall|j: int| 0 <= j < self.url.list_ids().len() implies #[trigger] self.url.list_ids()[j]
                < self.lists@.len() by {
                if j < l0.len() {
                    assert(self.url.list_ids()[j] == l0[j]);
                }
            }
            lemma_url_frame(&before, self);
        }
    }

    /// Registers a list by name and adds every domain rule of its parsed
    /// form. Inactive rules carry no verdict and are ignored.
    pub fn add_parsed_list(&mut self, name: &str, list: &ParsedRuleList)
        requires
            old(self).wf(),
            old(self).list_names().len() < 0x1_0000,
            old(self).room_for(list.rules@.len() as nat),
        ensures
            final(self).wf(),
            final(self).url_rules() == url_fold(old(self).url_rules(), list.kinds()),
            final(self).list_names() == old(self).list_names().push(name@),
            final(self).list_masks() == old(self).list_masks().push(ALL_POLICIES),
            final(self).view() == add_kinds_view(
                BuilderV {
                    list_names: old(self).list_names().push(name@),
                    list_masks: old(self).list_masks().push(ALL_POLICIES),
                    ..old(self).view()
                },
                list.kinds(),
                old(self).list_names().len() as u16,
            ),
    {
        self.add_parsed_list_masked(name, list, ALL_POLICIES);
    }

    /// [`Self::add_parsed_list`], with the list visible only to the policies
    /// in `policy_mask`.
    pub fn add_parsed_list_masked(&mut self, name: &str, list: &ParsedRuleList, policy_mask: u16)
        requires
            old(self).wf(),
            old(self).list_names().len() < 0x1_0000,
            old(self).room_for(list.rules@.len() as nat),
        ensures
            final(self).url_rules() == url_fold(old(self).url_rules(), list.kinds()),
            final(self).wf(),
            final(self).list_names() == old(self).list_names().push(name@),
            final(self).list_masks() == old(self).list_masks().push(policy_mask),
            final(self).view() == add_kinds_view(
                BuilderV {
                    list_names: old(self).list_names().push(name@),
                    list_masks: old(self).list_masks().push(policy_mask),
                    ..old(self).view()
                },
                list.kinds(),
                old(self).list_names().len() as u16,
            ),
            forall|m: nat| old(self).room_for(m + list.rules@.len() as nat) ==> #[trigger] final(self).room_for(m),
    {
        let list_id = self.add_list_masked(name, policy_mask);
        let ghost start = self.view();
        proof {
            assert(start == BuilderV {
                list_names: old(self).list_names().push(name@),
                list_masks: old(self).list_masks().push(policy_mask),
                ..old(self).view()
            });
            assert(list.kinds().take(0) =~= Seq::<RuleKindV>::empty());
        }
        let mut i: usize = 0;
        while i < list.rules.len()
            invariant
                self.wf(),
                0 <= i <= list.rules@.len(),
                self.room_for((list.rules@.len() - i) as nat),
                list_id < self.list_names().len(),
                list_id == old(self).list_names().len(),
                self.view() == add_kinds_view(start, list.kinds().take(i as int), list_id),
                self.list_names() == start.list_names,
                self.list_masks() == start.list_masks,
                self.url_rules() == url_fold(old(self).url_rules(), list.kinds().take(i as int)),
                forall|j: nat| old(self).room_for(j + i as nat) ==> #[trigger] self.room_for(j),
            decreases list.rules.len() - i,
        {
            let ghost prev: MatcherBuilder = *self;
            proof {
                assert(list.kinds().take(i + 1).drop_last() =~= list.kinds().take(i as int));
                assert(list.kinds()[i as int] == list.rules@[i as int]@);
            }
            match &list.rules[i].kind {
                RuleKind::Active(rule) => {
                    self.add_rule(list_id, rule);
                    proof {
                        assert(self.room_for((list.rules@.len() - i - 1) as nat));
                        assert forall|j: nat| old(self).room_for(j + (i + 1) as nat) implies #[trigger] self.room_for(j) by {
                            assert(prev.room_for(j + 1));
                        }
                    }
                },
                RuleKind::Url(rule) => {
                    let ghost v0 = self.view();
                    let ghost r0 = self.rules();
                    let ghost before: MatcherBuilder = *self;
                    let ghost l0 = self.url_lists();
                    self.url.add(list_id, &**rule);
                    proof {
                        assert(self.rules() =~= r0);
                        assert(self.view() == v0);
                        assert forall|j: int| 0 <= j < self.url.list_ids().len() implies #[trigger] self.url.list_ids()[j] < self.lists@.len() by {
                            if j < l0.len() {
                                assert(self.url.list_ids()[j] == l0[j]);
                            }
                        }
                        lemma_url_frame(&before, self);
                        assert(self.room_for((list.rules@.len() - i - 1) as nat));
                        assert forall|j: nat| old(self).room_for(j + (i + 1) as nat) implies #[trigger] self.room_for(j) by {
                            assert(prev.room_for(j + 1));
                        }
                    }
                },
                _ => {
                    proof {
                        assert(self.room_for((list.rules@.len() - i - 1) as nat));
                        assert forall|j: nat| old(self).room_for(j + (i + 1) as nat) implies #[trigger] self.room_for(j) by {
                            assert(prev.room_for(j + 1));
                        }
                    }
                },
            }
            i += 1;
        }
        proof {
            assert(list.kinds().take(list.rules@.len() as int) =~= list.kinds());
        }
    }
}

// ─── Laws of the lookup ───────────────────────────────────────────────────

/// `s` is where a label level of `q` starts: the whole name, or just after a
/// `.`.
pub open spec fn label_start(q: Seq<char>, s: int) -> bool {
    s == 0 || (1 <= s <= q.len() && q[s - 1] == '.')
}

/// What a decision for query `q` says about the rules: an allow names an
/// allow rule taking part at some level; a block names a block rule taking
/// part at some level, and no allow rule takes part at any; a pass means no
/// rule takes part at any level.
pub open spec fn explains(
    rules: Seq<RuleV>,
    masks: Seq<u16>,
    q: Seq<char>,
    qbit: Option<u32>,
    pb: u16,
    ip: Option<IpAddr>,
    name: Option<Seq<char>>,
    d: MatchDecision,
) -> bool {
    match d {
        MatchDecision::Allow(r) => exists|s: int|
            #[trigger] label_start(q, s) && decides(rules, masks, level(q, s, qbit, pb, ip, name), true, r.0 as int),
        MatchDecision::Block(r) => {
            &&& forall|s: int, i: int|
                label_start(q, s) ==> !#[trigger] decides(rules, masks, level(q, s, qbit, pb, ip, name), true, i)
            &&& exists|s: int|
                #[trigger] label_start(q, s) && decides(rules, masks, level(q, s, qbit, pb, ip, name), false, r.0 as int)
        },
        MatchDecision::Pass => forall|s: int, i: int|
            label_start(q, s) ==> !#[trigger] takes_part(rules, masks, level(q, s, qbit, pb, ip, name), i),
    }
}

proof fn lemma_first_from_none_all(rules: Seq<RuleV>, masks: Seq<u16>, q: LevelQ, allow: bool, k: int, i: int)
    requires
        0 <= k <= i,
        first_from(rules, masks, q, allow, k).is_none(),
    ensures
        !decides(rules, masks, q, allow, i),
    decreases i - k,
{
    if k < i && k < rules.len() {
        lemma_first_from_none_all(rules, masks, q, allow, k + 1, i);
    }
}

proof fn lemma_first_from_decides(rules: Seq<RuleV>, masks: Seq<u16>, q: LevelQ, allow: bool, k: int)
    requires
        0 <= k,
    ensures
        first_from(rules, masks, q, allow, k) matches Some(i) ==> decides(rules, masks, q, allow, i),
    decreases rules.len() - k,
{
    if k < rules.len() && !decides(rules, masks, q, allow, k) {
        lemma_first_from_decides(rules, masks, q, allow, k + 1);
    }
}

proof fn lemma_next_label(q: Seq<char>, start: int, s: int)
    requires
        0 <= start <= q.len(),
        label_start(q, s),
        s > start,
    ensures
        sep_end(q, start, '.') < q.len(),
        sep_end(q, start, '.') + 1 <= s,
        label_start(q, sep_end(q, start, '.') + 1),
{
    lemma_sep_end_bounds(q, start, '.');
    if sep_end(q, start, '.') > s - 1 {
        assert(q[s - 1] != '.');
    }
}

proof fn lemma_decide_from_char(
    rules: Seq<RuleV>,
    masks: Seq<u16>,
    q: Seq<char>,
    start: int,
    qbit: Option<u32>,
    pb: u16,
    ip: Option<IpAddr>,
    name: Option<Seq<char>>,
    blocked: Option<int>,
)
    requires
        rules.len() < 0x8000_0000,
        0 <= start <= q.len(),
        label_start(q, start),
        forall|s: int, i: int|
            label_start(q, s) && s < start ==> !#[trigger] decides(rules, masks, level(q, s, qbit, pb, ip, name), true, i),
        blocked matches Some(b) ==> 0 <= b < rules.len() && exists|s: int|
            label_start(q, s) && s < start && #[trigger] decides(rules, masks, level(q, s, qbit, pb, ip, name), false, b),
        blocked is None ==> forall|s: int, i: int|
            label_start(q, s) && s < start ==> !#[trigger] decides(rules, masks, level(q, s, qbit, pb, ip, name), false, i),
    ensures
        explains(rules, masks, q, qbit, pb, ip, name, decide_from(rules, masks, q, start, qbit, pb, ip, name, blocked)),
    decreases q.len() - start,
{
    let lq = level(q, start, qbit, pb, ip, name);
    lemma_first_from_decides(rules, masks, lq, true, 0);
    lemma_first_from_decides(rules, masks, lq, false, 0);
    lemma_first_from_range(rules, masks, lq, true, 0);
    lemma_first_from_range(rules, masks, lq, false, 0);
    match first_from(rules, masks, lq, true, 0) {
        Some(a) => {
            assert(decide_from(rules, masks, q, start, qbit, pb, ip, name, blocked) == MatchDecision::Allow(
                RuleRef(a as u32),
            ));
            assert(((a as u32) as int) == a);
            assert(label_start(q, start) && decides(rules, masks, level(q, start, qbit, pb, ip, name), true, a));
            let r = RuleRef(a as u32);
            assert(decides(rules, masks, level(q, start, qbit, pb, ip, name), true, r.0 as int));
            assert(explains(rules, masks, q, qbit, pb, ip, name, MatchDecision::Allow(RuleRef(a as u32))));
        },
        None => {
            let b = if blocked.is_some() {
                blocked
            } else {
                first_from(rules, masks, lq, false, 0)
            };
            let dot = sep_end(q, start, '.');
            lemma_sep_end_bounds(q, start, '.');
            assert forall|i: int| !#[trigger] decides(rules, masks, lq, true, i) by {
                if i >= 0 {
                    lemma_first_from_none_all(rules, masks, lq, true, 0, i);
                }
            }
            if dot < q.len() {
                assert forall|s: int, i: int|
                    label_start(q, s) && s < dot + 1 implies !#[trigger] decides(
                    rules,
                    masks,
                    level(q, s, qbit, pb, ip, name),
                    true,
                    i,
                ) by {
                    if s > start {
                        lemma_next_label(q, start, s);
                    }
                }
                if b.is_none() {
                    assert forall|s: int, i: int|
                        label_start(q, s) && s < dot + 1 implies !#[trigger] decides(
                        rules,
                        masks,
                        level(q, s, qbit, pb, ip, name),
                        false,
                        i,
                    ) by {
                        if s > start {
                            lemma_next_label(q, start, s);
                        } else if s == start && i >= 0 {
                            lemma_first_from_none_all(rules, masks, lq, false, 0, i);
                        }
                    }
                }
                if blocked.is_none() && b.is_some() {
                    assert(label_start(q, start) && start < dot + 1 && decides(rules, masks, level(q, start, qbit, pb, ip, name), false, b.unwrap()));
                }
                if blocked.is_some() {
                    let s0 = choose|s: int|
                        label_start(q, s) && s < start && #[trigger] decides(rules, masks, level(q, s, qbit, pb, ip, name), false, blocked.unwrap());
                    assert(label_start(q, s0) && s0 < dot + 1 && decides(rules, masks, level(q, s0, qbit, pb, ip, name), false, blocked.unwrap()));
                }
                assert(decide_from(rules, masks, q, start, qbit, pb, ip, name, blocked) == decide_from(rules, masks, q, dot + 1, qbit, pb, ip, name, b));
                lemma_decide_from_char(rules, masks, q, dot + 1, qbit, pb, ip, name, b);
            } else {
                assert forall|s: int| #[trigger] label_start(q, s) implies s <= start by {
                    if s > start {
                        lemma_next_label(q, start, s);
                    }
                }
                match b {
                    Some(bi) => {
                        assert(decide_from(rules, masks, q, start, qbit, pb, ip, name, blocked) == MatchDecision::Block(
                            RuleRef(bi as u32),
                        ));
                        assert(((bi as u32) as int) == bi);
                        let r = RuleRef(bi as u32);
                        if blocked.is_none() {
                            assert(label_start(q, start) && decides(rules, masks, level(q, start, qbit, pb, ip, name), false, bi));
                            assert(decides(rules, masks, level(q, start, qbit, pb, ip, name), false, r.0 as int));
                        } else {
                            let s0 = choose|s: int|
                                label_start(q, s) && s < start && #[trigger] decides(rules, masks, level(q, s, qbit, pb, ip, name), false, bi);
                            assert(label_start(q, s0) && decides(rules, masks, level(q, s0, qbit, pb, ip, name), false, bi));
                            assert(decides(rules, masks, level(q, s0, qbit, pb, ip, name), false, r.0 as int));
                        }
                        assert forall|s: int, i: int|
                            label_start(q, s) implies !#[trigger] decides(rules, masks, level(q, s, qbit, pb, ip, name), true, i) by {
                            if s == start {
                                assert(!decides(rules, masks, lq, true, i));
                            }
                        }
                        assert(explains(rules, masks, q, qbit, pb, ip, name, MatchDecision::Block(RuleRef(bi as u32))));
                    },
                    None => {
                        assert forall|s: int, i: int|
                            label_start(q, s) implies !#[trigger] takes_part(
                            rules,
                            masks,
                            level(q, s, qbit, pb, ip, name),
                            i,
                        ) by {
                            if s == start && i >= 0 {
                                lemma_first_from_none_all(rules, masks, lq, false, 0, i);
                                lemma_first_from_none_all(rules, masks, lq, true, 0, i);
                            } else if s < start {
                                assert(!decides(rules, masks, level(q, s, qbit, pb, ip, name), true, i));
                                assert(!decides(rules, masks, level(q, s, qbit, pb, ip, name), false, i));
                            }
                        }
                    },
                }
            }
        },
    }
}

/// Law: allow beats block. If at any label level of the queried name some
/// allow rule takes part, the lookup allows — whatever block rules match,
/// at that level or a more specific one. A block decides only when no allow
/// takes part at any level, and then a block rule does take part at some
/// level; a pass means no rule takes part at any level.
pub proof fn lemma_allow_beats_block(
    rules: Seq<RuleV>,
    masks: Seq<u16>,
    domain: Seq<char>,
    qbit: Option<u32>,
    policy_bit: u16,
    ip: Option<IpAddr>,
    name: Option<Seq<char>>,
)
    requires
        rules.len() < 0x8000_0000,
    ensures
        explains(
            rules,
            masks,
            query_of(domain),
            qbit,
            policy_bit,
            ip,
            name,
            spec_lookup(rules, masks, domain, qbit, policy_bit, ip, name),
        ),
{
    lemma_decide_from_char(rules, masks, query_of(domain), 0, qbit, policy_bit, ip, name, None);
}


/// Two decisions of the same kind: both allow, both block, or both pass.
pub open spec fn same_class(a: MatchDecision, b: MatchDecision) -> bool {
    &&& (a is Allow) == (b is Allow)
    &&& (a is Block) == (b is Block)
}

/// Every rule of `(r1, m1)` is in `(r2, m2)` too — the same rule, whichever
/// list it is attributed to — with the same policy mask when there are
/// masks.
pub open spec fn rules_within(r1: Seq<RuleV>, m1: Seq<u16>, r2: Seq<RuleV>, m2: Seq<u16>) -> bool {
    &&& (m1.len() == 0) == (m2.len() == 0)
    &&& forall|i: int|
        0 <= i < r1.len() ==> exists|j: int|
            0 <= j < r2.len() && same_identity(#[trigger] r2[j], identity_of(#[trigger] r1[i])) && (
            m1.len() == 0 || m2[j] == m1[i])
}

/// A rule taking part in one ruleset takes part in any that holds it.
proof fn lemma_part_moves(
    r1: Seq<RuleV>,
    m1: Seq<u16>,
    r2: Seq<RuleV>,
    m2: Seq<u16>,
    q: LevelQ,
    allow: bool,
    i: int,
)
    requires
        rules_within(r1, m1, r2, m2),
        decides(r1, m1, q, allow, i) || (takes_part(r1, m1, q, i) && allow == (r1[i].flags
            & FLAG_ALLOW != 0)),
    ensures
        exists|j: int| #[trigger] decides(r2, m2, q, allow, j),
{
    let j = choose|j: int|
        0 <= j < r2.len() && same_identity(#[trigger] r2[j], identity_of(#[trigger] r1[i])) && (m1.len()
            == 0 || m2[j] == m1[i]);
    assert(decides(r2, m2, q, allow, j));
}

/// Law: the order rules were compiled in, how often each was, and which
/// list each is attributed to do not matter to the kind of decision. Two
/// rulesets that hold the same rules with the same policy masks allow, block
/// and pass exactly the same queries.
pub proof fn lemma_order_free(
    r1: Seq<RuleV>,
    m1: Seq<u16>,
    r2: Seq<RuleV>,
    m2: Seq<u16>,
    domain: Seq<char>,
    qbit: Option<u32>,
    policy_bit: u16,
    ip: Option<IpAddr>,
    name: Option<Seq<char>>,
)
    requires
        r1.len() < 0x8000_0000,
        r2.len() < 0x8000_0000,
        rules_within(r1, m1, r2, m2),
        rules_within(r2, m2, r1, m1),
    ensures
        same_class(
            spec_lookup(r1, m1, domain, qbit, policy_bit, ip, name),
            spec_lookup(r2, m2, domain, qbit, policy_bit, ip, name),
        ),
{
    let q = query_of(domain);
    let d1 = spec_lookup(r1, m1, domain, qbit, policy_bit, ip, name);
    let d2 = spec_lookup(r2, m2, domain, qbit, policy_bit, ip, name);
    lemma_allow_beats_block(r1, m1, domain, qbit, policy_bit, ip, name);
    lemma_allow_beats_block(r2, m2, domain, qbit, policy_bit, ip, name);
    // An allow in one is an allow in the other.
    assert forall|s: int, i: int|
        label_start(q, s) && #[trigger] decides(r1, m1, level(q, s, qbit, policy_bit, ip, name), true, i)
        implies !(d2 is Block) && !(d2 is Pass) by {
        let lq = level(q, s, qbit, policy_bit, ip, name);
        lemma_part_moves(r1, m1, r2, m2, lq, true, i);
        let j = choose|j: int| #[trigger] decides(r2, m2, lq, true, j);
        assert(takes_part(r2, m2, lq, j));
    }
    assert forall|s: int, i: int|
        label_start(q, s) && #[trigger] decides(r2, m2, level(q, s, qbit, policy_bit, ip, name), true, i)
        implies !(d1 is Block) && !(d1 is Pass) by {
        let lq = level(q, s, qbit, policy_bit, ip, name);
        lemma_part_moves(r2, m2, r1, m1, lq, true, i);
        let j = choose|j: int| #[trigger] decides(r1, m1, lq, true, j);
        assert(takes_part(r1, m1, lq, j));
    }
    // A block in one is a rule taking part in the other.
    assert forall|s: int, i: int|
        label_start(q, s) && #[trigger] decides(r1, m1, level(q, s, qbit, policy_bit, ip, name), false, i)
        implies !(d2 is Pass) by {
        let lq = level(q, s, qbit, policy_bit, ip, name);
        lemma_part_moves(r1, m1, r2, m2, lq, false, i);
        let j = choose|j: int| #[trigger] decides(r2, m2, lq, false, j);
        assert(takes_part(r2, m2, lq, j));
    }
    assert forall|s: int, i: int|
        label_start(q, s) && #[trigger] decides(r2, m2, level(q, s, qbit, policy_bit, ip, name), false, i)
        implies !(d1 is Pass) by {
        let lq = level(q, s, qbit, policy_bit, ip, name);
        lemma_part_moves(r2, m2, r1, m1, lq, false, i);
        let j = choose|j: int| #[trigger] decides(r1, m1, lq, false, j);
        assert(takes_part(r1, m1, lq, j));
    }
}


/// Two rulesets in which a rule deciding at any level of a lookup under
/// policy bit `pb` has a counterpart deciding the same way decide every
/// query under `pb` alike.
proof fn lemma_same_parts_same_class(
    r1: Seq<RuleV>,
    m1: Seq<u16>,
    r2: Seq<RuleV>,
    m2: Seq<u16>,
    domain: Seq<char>,
    qbit: Option<u32>,
    policy_bit: u16,
    ip: Option<IpAddr>,
    name: Option<Seq<char>>,
)
    requires
        r1.len() < 0x8000_0000,
        r2.len() < 0x8000_0000,
        forall|lq: LevelQ, allow: bool, i: int|
            lq.policy_bit == policy_bit && #[trigger] decides(r1, m1, lq, allow, i) ==> exists|j: int|
                #[trigger] decides(r2, m2, lq, allow, j),
        forall|lq: LevelQ, allow: bool, i: int|
            lq.policy_bit == policy_bit && #[trigger] decides(r2, m2, lq, allow, i) ==> exists|j: int|
                #[trigger] decides(r1, m1, lq, allow, j),
    ensures
        same_class(
            spec_lookup(r1, m1, domain, qbit, policy_bit, ip, name),
            spec_lookup(r2, m2, domain, qbit, policy_bit, ip, name),
        ),
{
    let q = query_of(domain);
    let d1 = spec_lookup(r1, m1, domain, qbit, policy_bit, ip, name);
    let d2 = spec_lookup(r2, m2, domain, qbit, policy_bit, ip, name);
    lemma_allow_beats_block(r1, m1, domain, qbit, policy_bit, ip, name);
    lemma_allow_beats_block(r2, m2, domain, qbit, policy_bit, ip, name);
    assert forall|s: int, i: int|
        label_start(q, s) && #[trigger] decides(r1, m1, level(q, s, qbit, policy_bit, ip, name), true, i)
        implies !(d2 is Block) && !(d2 is Pass) by {
        let lq = level(q, s, qbit, policy_bit, ip, name);
        let j = choose|j: int| #[trigger] decides(r2, m2, lq, true, j);
        assert(takes_part(r2, m2, lq, j));
    }
    assert forall|s: int, i: int|
        label_start(q, s) && #[trigger] decides(r2, m2, level(q, s, qbit, policy_bit, ip, name), true, i)
        implies !(d1 is Block) && !(d1 is Pass) by {
        let lq = level(q, s, qbit, policy_bit, ip, name);
        let j = choose|j: int| #[trigger] decides(r1, m1, lq, true, j);
        assert(takes_part(r1, m1, lq, j));
    }
    assert forall|s: int, i: int|
        label_start(q, s) && #[trigger] decides(r1, m1, level(q, s, qbit, policy_bit, ip, name), false, i)
        implies !(d2 is Pass) by {
        let lq = level(q, s, qbit, policy_bit, ip, name);
        let j = choose|j: int| #[trigger] decides(r2, m2, lq, false, j);
        assert(takes_part(r2, m2, lq, j));
    }
    assert forall|s: int, i: int|
        label_start(q, s) && #[trigger] decides(r2, m2, level(q, s, qbit, policy_bit, ip, name), false, i)
        implies !(d1 is Pass) by {
        let lq = level(q, s, qbit, policy_bit, ip, name);
        let j = choose|j: int| #[trigger] decides(r1, m1, lq, false, j);
        assert(takes_part(r1, m1, lq, j));
    }
}

/// The rules visible to policy bit `pb`, in order: those whose mask has the
/// bit, or all of them when there are no masks.
pub open spec fn visible_rules(rules: Seq<RuleV>, masks: Seq<u16>, pb: u16) -> Seq<RuleV>
    decreases rules.len(),
{
    if rules.len() == 0 {
        Seq::empty()
    } else {
        let i = rules.len() - 1;
        let rest = visible_rules(rules.drop_last(), masks, pb);
        if masks.len() == 0 || masks[i] & pb != 0 {
            rest.push(rules[i])
        } else {
            rest
        }
    }
}

proof fn lemma_visible_len(rules: Seq<RuleV>, masks: Seq<u16>, pb: u16)
    ensures
        visible_rules(rules, masks, pb).len() <= rules.len(),
    decreases rules.len(),
{
    if rules.len() > 0 {
        lemma_visible_len(rules.drop_last(), masks, pb);
    }
}

proof fn lemma_visible_has(rules: Seq<RuleV>, masks: Seq<u16>, pb: u16, i: int)
    requires
        0 <= i < rules.len(),
        masks.len() == 0 || masks[i] & pb != 0,
    ensures
        exists|j: int|
            0 <= j < visible_rules(rules, masks, pb).len() && #[trigger] visible_rules(
                rules,
                masks,
                pb,
            )[j] == rules[i],
    decreases rules.len(),
{
    let n = rules.len() - 1;
    let front = rules.drop_last();
    let rest = visible_rules(front, masks, pb);
    let v = visible_rules(rules, masks, pb);
    if i == n {
        assert(v == rest.push(rules[n]));
        assert(v[rest.len() as int] == rules[i]);
    } else {
        lemma_visible_has(front, masks, pb, i);
        assert(front[i] == rules[i]);
        let j = choose|j: int| 0 <= j < rest.len() && #[trigger] rest[j] == front[i];
        if masks.len() == 0 || masks[n] & pb != 0 {
            assert(v == rest.push(rules[n]));
        } else {
            assert(v == rest);
        }
        assert(v[j] == rest[j]);
    }
}

proof fn lemma_visible_origin(rules: Seq<RuleV>, masks: Seq<u16>, pb: u16, j: int)
    requires
        0 <= j < visible_rules(rules, masks, pb).len(),
    ensures
        exists|i: int|
            0 <= i < rules.len() && (masks.len() == 0 || masks[i] & pb != 0) && #[trigger] rules[i]
                == visible_rules(rules, masks, pb)[j],
    decreases rules.len(),
{
    let n = rules.len() - 1;
    let front = rules.drop_last();
    let rest = visible_rules(front, masks, pb);
    let v = visible_rules(rules, masks, pb);
    if masks.len() == 0 || masks[n] & pb != 0 {
        assert(v == rest.push(rules[n]));
        if j == rest.len() {
            assert(rules[n] == v[j]);
        } else {
            lemma_visible_origin(front, masks, pb, j);
            assert(v[j] == rest[j]);
            let i = choose|i: int|
                0 <= i < front.len() && (masks.len() == 0 || masks[i] & pb != 0) && #[trigger] front[i]
                    == rest[j];
            assert(rules[i] == front[i]);
        }
    } else {
        assert(v == rest);
        lemma_visible_origin(front, masks, pb, j);
        let i = choose|i: int|
            0 <= i < front.len() && (masks.len() == 0 || masks[i] & pb != 0) && #[trigger] front[i]
                == rest[j];
        assert(rules[i] == front[i]);
    }
}

/// Law: a policy sees exactly the rules its lists supply. A lookup under
/// policy bit `pb` allows, blocks and passes as a lookup over only the rules
/// visible to `pb`, with no masks at all.
pub proof fn lemma_policy_sees_its_rules(
    rules: Seq<RuleV>,
    masks: Seq<u16>,
    domain: Seq<char>,
    qbit: Option<u32>,
    pb: u16,
    ip: Option<IpAddr>,
    name: Option<Seq<char>>,
)
    requires
        rules.len() < 0x8000_0000,
        masks.len() == 0 || masks.len() == rules.len(),
    ensures
        same_class(
            spec_lookup(rules, masks, domain, qbit, pb, ip, name),
            spec_lookup(visible_rules(rules, masks, pb), Seq::empty(), domain, qbit, pb, ip, name),
        ),
{
    let v = visible_rules(rules, masks, pb);
    let none = Seq::<u16>::empty();
    lemma_visible_len(rules, masks, pb);
    assert forall|lq: LevelQ, allow: bool, i: int|
        lq.policy_bit == pb && #[trigger] decides(rules, masks, lq, allow, i) implies exists|j: int|
            #[trigger] decides(v, none, lq, allow, j) by {
        lemma_visible_has(rules, masks, pb, i);
        let j = choose|j: int| 0 <= j < v.len() && #[trigger] v[j] == rules[i];
        assert(decides(v, none, lq, allow, j));
    }
    assert forall|lq: LevelQ, allow: bool, j: int|
        lq.policy_bit == pb && #[trigger] decides(v, none, lq, allow, j) implies exists|i: int|
            #[trigger] decides(rules, masks, lq, allow, i) by {
        lemma_visible_origin(rules, masks, pb, j);
        let i = choose|i: int|
            0 <= i < rules.len() && (masks.len() == 0 || masks[i] & pb != 0) && #[trigger] rules[i]
                == v[j];
        assert(decides(rules, masks, lq, allow, i));
    }
    lemma_same_parts_same_class(rules, masks, v, none, domain, qbit, pb, ip, name);
}

// ─── Record types ─────────────────────────────────────────────────────────

/// The mnemonic a question asks for.
pub open spec fn qtype_name(q: QueryType) -> Seq<char> {
    match q {
        QueryType::A => seq!['A'],
        QueryType::Aaaa => seq!['A', 'A', 'A', 'A'],
        QueryType::Other(name) => name@,
    }
}

/// The bits a known record type can have: one each.
pub open spec fn is_type_bit(x: u32) -> bool {
    ||| x == 1
    ||| x == 2
    ||| x == 4
    ||| x == 8
    ||| x == 16
    ||| x == 32
    ||| x == 64
    ||| x == 128
    ||| x == 256
    ||| x == 512
    ||| x == 1024
    ||| x == 2048
    ||| x == 4096
    ||| x == 8192
    ||| x == 16384
}

proof fn lemma_single_bits(x: u32, y: u32)
    requires
        is_type_bit(x),
        is_type_bit(y) || y == 0,
    ensures
        (x & y != 0) <==> x == y,
{
    assert((x == 1 || x == 2 || x == 4 || x == 8 || x == 16 || x == 32 || x == 64 || x == 128
        || x == 256 || x == 512 || x == 1024 || x == 2048 || x == 4096 || x == 8192 || x == 16384)
        && (y == 0 || y == 1 || y == 2 || y == 4 || y == 8 || y == 16 || y == 32 || y == 64 || y
        == 128 || y == 256 || y == 512 || y == 1024 || y == 2048 || y == 4096 || y == 8192 || y
        == 16384) ==> ((x & y != 0) <==> x == y)) by (bit_vector);
}

/// Two names with the same known bit are the same type, ignoring ASCII case;
/// names equal ignoring case have the same bit.
proof fn lemma_rrtype_bit_names(a: Seq<char>, b: Seq<char>)
    ensures
        spec_rrtype_bit(a) == 0 || is_type_bit(spec_rrtype_bit(a)),
        spec_rrtype_bit(a) != 0 && spec_rrtype_bit(a) == spec_rrtype_bit(b) ==> eq_ci(a, b),
        eq_ci(a, b) ==> spec_rrtype_bit(a) == spec_rrtype_bit(b),
{
}

/// Law: a record type's `$dnstype` bit is the bit of a question of that
/// type and of no other. For every known type name `t` and every question
/// `q`, the bit of `t` meets the bit `q` is decided by exactly when `q` asks
/// for `t` (ignoring ASCII case) — so a rule restricted to `$dnstype=AAAA`
/// takes part in `AAAA` questions and not in `A` ones.
pub proof fn lemma_type_bit_names_its_question(t: Seq<char>, q: QueryType)
    requires
        spec_rrtype_bit(t) != 0,
    ensures
        (spec_rrtype_bit(t) & spec_qtype_bit(q) != 0) <==> eq_ci(t, qtype_name(q)),
{
    let n = qtype_name(q);
    let a1 = seq!['A'];
    let a4 = seq!['A', 'A', 'A', 'A'];
    assert(lower_seq(a1).len() == 1);
    assert(lower_seq(a4).len() == 4);
    assert(eq_ci(a1, a1));
    assert(!eq_ci(a4, a1));
    assert(eq_ci(a4, a4));
    assert(spec_qtype_bit(q) == spec_rrtype_bit(n));
    lemma_rrtype_bit_names(t, n);
    lemma_rrtype_bit_names(n, t);
    lemma_single_bits(spec_rrtype_bit(t), spec_rrtype_bit(n));
}

// ─── HTTP requests ────────────────────────────────────────────────────────

/// An HTTP request's two lookups together: a URL-tier allow wins outright;
/// then a domain-tier allow; then the URL tier's block, then the domain
/// tier's. Any allow beats any block, across both tiers.
pub open spec fn combine_http(u: UrlDecision, d: MatchDecision) -> MatchDecision {
    match u {
        UrlDecision::Allow(i) => MatchDecision::Allow(RuleRef(i | URL_TIER)),
        UrlDecision::Block(i) => match d {
            MatchDecision::Allow(r) => MatchDecision::Allow(r),
            _ => MatchDecision::Block(RuleRef(i | URL_TIER)),
        },
        UrlDecision::Pass => d,
    }
}

/// A URL-tier decision names a rule that really makes it.
pub open spec fn url_sound(recs: Seq<RecordV>, q: crate::url_matcher::RequestV, u: UrlDecision) -> bool {
    match u {
        UrlDecision::Allow(i) => i < recs.len() && recs[i as int].allow && applies(recs[i as int], q),
        UrlDecision::Block(i) => i < recs.len() && !recs[i as int].allow && applies(recs[i as int], q),
        UrlDecision::Pass => true,
    }
}

proof fn lemma_url_tag(i: u32)
    requires
        i < 0x8000_0000,
    ensures
        (i | URL_TIER) & URL_TIER != 0,
        (i | URL_TIER) & !URL_TIER == i,
{
    assert((i | 0x8000_0000u32) & 0x8000_0000u32 != 0) by (bit_vector);
    assert(i < 0x8000_0000u32 ==> (i | 0x8000_0000u32) & !0x8000_0000u32 == i) by (bit_vector);
}

impl Matcher {
    /// Distinct URL-tier rules.
    pub fn url_len(&self) -> (n: usize)
        requires
            self.wf(),
        ensures
            n == self.url_rules().len(),
    {
        self.url.len()
    }

    /// URL-tier rules dropped as exact duplicates.
    pub fn url_duplicates_removed(&self) -> (n: usize)
        requires
            self.wf(),
        ensures
            n == self.url_duplicates(),
    {
        self.url.duplicates_removed()
    }

    /// URL-tier rules no key reaches, checked on every request.
    pub fn url_unindexed(&self) -> (n: usize)
        ensures
            n == self.url_unindexed_count(),
    {
        self.url.unindexed_len()
    }

    /// Keys in the URL tier's n-gram index.
    pub fn url_ngram_keys(&self) -> (n: usize)
        requires
            self.wf(),
        ensures
            n == self.url_ngram_key_count(),
    {
        self.url.ngram_keys()
    }

    /// URL-tier lookups the work allowance cut short.
    pub fn url_budget_exhausted(&self) -> u64 {
        self.url.budget_exhausted()
    }

    /// Every reference a decision carries names a compiled rule.
    pub open spec fn valid_decision(&self, d: MatchDecision) -> bool {
        match d {
            MatchDecision::Allow(r) => self.valid_ref(r),
            MatchDecision::Block(r) => self.valid_ref(r),
            MatchDecision::Pass => true,
        }
    }

    /// Decides an HTTP request under a policy, for a client, over both tiers,
    /// and says whether the URL tier's work allowance ran out (which is also
    /// counted). The URL tier's part is a decision some URL rule really makes;
    /// with the allowance intact it is of the kind that tier's full scan
    /// makes.
    pub fn lookup_http_metered(&self, request: &HttpRequest, ctx: &ClientContext) -> (r: (
        MatchDecision,
        bool,
    ))
        requires
            self.wf(),
        ensures
            self.valid_decision(r.0),
            exists|u: UrlDecision|
                #![trigger combine_http(u, spec_lookup(self.rules(), self.masks(), request.host@, None, ctx.policy.spec_bit(), ctx.ip, opt_str_view(ctx.name)))]
                url_sound(self.url_rules(), request_view(request), u) && (!self.url_walk_cut(request_view(request)) ==> same_outcome(u, decide(self.url_rules(), request_view(request)))) && r.1 == self.url_walk_cut(request_view(request)) && (!r.1 ==> same_outcome(
                    u,
                    decide(self.url_rules(), request_view(request)),
                )) && r.0 == combine_http(
                    u,
                    spec_lookup(
                        self.rules(),
                        self.masks(),
                        request.host@,
                        None,
                        ctx.policy.spec_bit(),
                        ctx.ip,
                        opt_str_view(ctx.name),
                    ),
                ),
    {
        let (u, cut_short) = self.url.lookup_metered(request);
        if cut_short {
            self.url.count_cut_short();
        }
        proof {
            self.url.lemma_bounds();
            match u {
                UrlDecision::Allow(i) => lemma_url_tag(i),
                UrlDecision::Block(i) => lemma_url_tag(i),
                UrlDecision::Pass => {},
            }
            lemma_decided_index(
                self.rules(),
                self.masks(),
                request.host@,
                None,
                ctx.policy.spec_bit(),
                ctx.ip,
                opt_str_view(ctx.name),
            );
        }
        let d = self.lookup_domain(request.host, None, ctx);
        let combined = match u {
            UrlDecision::Allow(i) => MatchDecision::Allow(RuleRef(i | URL_TIER)),
            UrlDecision::Block(i) => match d {
                MatchDecision::Allow(r) => MatchDecision::Allow(r),
                _ => MatchDecision::Block(RuleRef(i | URL_TIER)),
            },
            UrlDecision::Pass => d,
        };
        proof {
            assert(combined == combine_http(
                u,
                spec_lookup(
                    self.rules(),
                    self.masks(),
                    request.host@,
                    None,
                    ctx.policy.spec_bit(),
                    ctx.ip,
                    opt_str_view(ctx.name),
                ),
            ));
        }
        (combined, cut_short)
    }

    /// [`Self::lookup_http_metered`]'s decision.
    pub fn lookup_http_in(&self, request: &HttpRequest, ctx: &ClientContext) -> (d: MatchDecision)
        requires
            self.wf(),
        ensures
            self.valid_decision(d),
            exists|u: UrlDecision|
                #![trigger combine_http(u, spec_lookup(self.rules(), self.masks(), request.host@, None, ctx.policy.spec_bit(), ctx.ip, opt_str_view(ctx.name)))]
                url_sound(self.url_rules(), request_view(request), u) && (!self.url_walk_cut(request_view(request)) ==> same_outcome(u, decide(self.url_rules(), request_view(request)))) && d == combine_http(
                    u,
                    spec_lookup(
                        self.rules(),
                        self.masks(),
                        request.host@,
                        None,
                        ctx.policy.spec_bit(),
                        ctx.ip,
                        opt_str_view(ctx.name),
                    ),
                ),
    {
        self.lookup_http_metered(request, ctx).0
    }

    /// [`Self::lookup_http_in`] under the default policy, for a client it
    /// cannot name.
    pub fn lookup_http(&self, request: &HttpRequest) -> (d: MatchDecision)
        requires
            self.wf(),
        ensures
            self.valid_decision(d),
            exists|u: UrlDecision|
                #![trigger combine_http(u, spec_lookup(self.rules(), self.masks(), request.host@, None, 1, None, None))]
                url_sound(self.url_rules(), request_view(request), u) && (!self.url_walk_cut(request_view(request)) ==> same_outcome(u, decide(self.url_rules(), request_view(request)))) && d == combine_http(
                    u,
                    spec_lookup(self.rules(), self.masks(), request.host@, None, 1, None, None),
                ),
    {
        let ctx = ClientContext::anonymous();
        proof {
            assert(1u16 << 0u8 == 1u16) by (bit_vector);
        }
        self.lookup_http_in(request, &ctx)
    }

    /// A request's full verdict, its deciding rule materialized.
    pub fn verdict_http(&self, request: &HttpRequest) -> (v: Verdict)
        requires
            self.wf(),
        ensures
            exists|d: MatchDecision|
                #![trigger self.valid_decision(d)]
                self.valid_decision(d) && (exists|u: UrlDecision|
                    #![trigger combine_http(u, spec_lookup(self.rules(), self.masks(), request.host@, None, 1, None, None))]
                    url_sound(self.url_rules(), request_view(request), u) && (!self.url_walk_cut(request_view(request)) ==> same_outcome(u, decide(self.url_rules(), request_view(request)))) && d == combine_http(
                        u,
                        spec_lookup(self.rules(), self.masks(), request.host@, None, 1, None, None),
                    )) && match (v, d) {
                    (Verdict::Allow(dr), MatchDecision::Allow(r)) => dr.rule@ == self.ref_text(r)
                        && dr.list@ == self.ref_list(r),
                    (Verdict::Block(dr), MatchDecision::Block(r)) => dr.rule@ == self.ref_text(r)
                        && dr.list@ == self.ref_list(r),
                    (Verdict::Pass, MatchDecision::Pass) => true,
                    _ => false,
                },
    {
        let d = self.lookup_http(request);
        match d {
            MatchDecision::Allow(r) => Verdict::Allow(self.decisive_rule(r)),
            MatchDecision::Block(r) => Verdict::Block(self.decisive_rule(r)),
            MatchDecision::Pass => Verdict::Pass,
        }
    }
}

/// A domain-tier decision never carries the URL tier's tag: the rule it
/// names is a compiled domain rule, whatever the query, policy and client.
pub proof fn lemma_domain_decisions_untagged(
    m: &Matcher,
    domain: Seq<char>,
    qbit: Option<u32>,
    pb: u16,
    ip: Option<IpAddr>,
    name: Option<Seq<char>>,
)
    requires
        m.wf(),
    ensures
        match spec_lookup(m.rules(), m.masks(), domain, qbit, pb, ip, name) {
            MatchDecision::Allow(r) => !(r.0 & URL_TIER != 0) && r.0 < m.rules().len(),
            MatchDecision::Block(r) => !(r.0 & URL_TIER != 0) && r.0 < m.rules().len(),
            MatchDecision::Pass => true,
        },
{
    lemma_decided_index(m.rules(), m.masks(), domain, qbit, pb, ip, name);
}

/// Across the two tiers an allow beats a block: if either tier allows the
/// request, the request is allowed; a block means neither tier allows it;
/// a pass means neither tier decides it.
pub proof fn lemma_http_allow_beats_block(u: UrlDecision, d: MatchDecision)
    ensures
        (u is Allow || d is Allow) <==> combine_http(u, d) is Allow,
        combine_http(u, d) is Block <==> (!(u is Allow) && !(d is Allow) && (u is Block || d is Block)),
        combine_http(u, d) is Pass <==> (u is Pass && d is Pass),
{
}

} // verus!
