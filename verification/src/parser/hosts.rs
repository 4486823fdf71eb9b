//! hosts-file format parser: `<ip> <hostname> [hostname...] [# comment]`
//! per line, matching standard hosts-file syntax (multiple aliases per line
//! allowed).

use vstd::prelude::*;

use crate::domain::{back_dots, domain_core_bounds, lemma_back_dots_bounds, normalize_domain_range, normalized_domain};
use crate::format::{looks_like_ip, spec_looks_like_ip, RuleFormat};
use crate::parser::{lemma_trimmed_line, parse_chars, plain_block_rule, push_plain_block};
use crate::resource::eq_ci;
use crate::rule::{ParsedRule, RuleKindV};
use crate::rule_list::{kinds_of, ParsedRuleList};
use crate::text::{
    back_ws, is_ws, lemma_back_ws_bounds,
    chars_of, eq_ignore_case, lemma_skip_ws_bounds, lemma_token_end_bounds, next_token, skip_ws,
    token_end, tokens_from, trim_bounds, trim_range,
};

verus! {

/// Whether `t` is one of the standard loopback/broadcast aliases that head
/// almost every real hosts file (StevenBlack et al.), ignoring ASCII case.
/// These map a reserved address to the machine's own names — not a block
/// instruction — so they are skipped; a genuine `127.0.0.1 ads.example.com`
/// entry is untouched because the match is by host name.
pub open spec fn spec_is_loopback_alias(t: Seq<char>) -> bool {
    eq_ci(t, seq!['l', 'o', 'c', 'a', 'l', 'h', 'o', 's', 't'])
    || eq_ci(t, seq!['l', 'o', 'c', 'a', 'l', 'h', 'o', 's', 't', '.', 'l', 'o', 'c', 'a', 'l', 'd', 'o', 'm', 'a', 'i', 'n'])
    || eq_ci(t, seq!['l', 'o', 'c', 'a', 'l'])
    || eq_ci(t, seq!['b', 'r', 'o', 'a', 'd', 'c', 'a', 's', 't', 'h', 'o', 's', 't'])
    || eq_ci(t, seq!['i', 'p', '6', '-', 'l', 'o', 'c', 'a', 'l', 'h', 'o', 's', 't'])
    || eq_ci(t, seq!['i', 'p', '6', '-', 'l', 'o', 'o', 'p', 'b', 'a', 'c', 'k'])
    || eq_ci(t, seq!['i', 'p', '6', '-', 'l', 'o', 'c', 'a', 'l', 'n', 'e', 't'])
    || eq_ci(t, seq!['i', 'p', '6', '-', 'm', 'c', 'a', 's', 't', 'p', 'r', 'e', 'f', 'i', 'x'])
    || eq_ci(t, seq!['i', 'p', '6', '-', 'a', 'l', 'l', 'n', 'o', 'd', 'e', 's'])
    || eq_ci(t, seq!['i', 'p', '6', '-', 'a', 'l', 'l', 'r', 'o', 'u', 't', 'e', 'r', 's'])
    || eq_ci(t, seq!['i', 'p', '6', '-', 'a', 'l', 'l', 'h', 'o', 's', 't', 's'])
}

pub fn is_loopback_alias(t: &[char]) -> (b: bool)
    ensures
        b == spec_is_loopback_alias(t@),
{
    let a0 = ['l', 'o', 'c', 'a', 'l', 'h', 'o', 's', 't'];
    proof {
        assert(a0@ == seq!['l', 'o', 'c', 'a', 'l', 'h', 'o', 's', 't']);
    }
    if eq_ignore_case(t, a0.as_slice()) {
        return true;
    }
    let a1 = ['l', 'o', 'c', 'a', 'l', 'h', 'o', 's', 't', '.', 'l', 'o', 'c', 'a', 'l', 'd', 'o', 'm', 'a', 'i', 'n'];
    proof {
        assert(a1@ == seq!['l', 'o', 'c', 'a', 'l', 'h', 'o', 's', 't', '.', 'l', 'o', 'c', 'a', 'l', 'd', 'o', 'm', 'a', 'i', 'n']);
    }
    if eq_ignore_case(t, a1.as_slice()) {
        return true;
    }
    let a2 = ['l', 'o', 'c', 'a', 'l'];
    proof {
        assert(a2@ == seq!['l', 'o', 'c', 'a', 'l']);
    }
    if eq_ignore_case(t, a2.as_slice()) {
        return true;
    }
    let a3 = ['b', 'r', 'o', 'a', 'd', 'c', 'a', 's', 't', 'h', 'o', 's', 't'];
    proof {
        assert(a3@ == seq!['b', 'r', 'o', 'a', 'd', 'c', 'a', 's', 't', 'h', 'o', 's', 't']);
    }
    if eq_ignore_case(t, a3.as_slice()) {
        return true;
    }
    let a4 = ['i', 'p', '6', '-', 'l', 'o', 'c', 'a', 'l', 'h', 'o', 's', 't'];
    proof {
        assert(a4@ == seq!['i', 'p', '6', '-', 'l', 'o', 'c', 'a', 'l', 'h', 'o', 's', 't']);
    }
    if eq_ignore_case(t, a4.as_slice()) {
        return true;
    }
    let a5 = ['i', 'p', '6', '-', 'l', 'o', 'o', 'p', 'b', 'a', 'c', 'k'];
    proof {
        assert(a5@ == seq!['i', 'p', '6', '-', 'l', 'o', 'o', 'p', 'b', 'a', 'c', 'k']);
    }
    if eq_ignore_case(t, a5.as_slice()) {
        return true;
    }
    let a6 = ['i', 'p', '6', '-', 'l', 'o', 'c', 'a', 'l', 'n', 'e', 't'];
    proof {
        assert(a6@ == seq!['i', 'p', '6', '-', 'l', 'o', 'c', 'a', 'l', 'n', 'e', 't']);
    }
    if eq_ignore_case(t, a6.as_slice()) {
        return true;
    }
    let a7 = ['i', 'p', '6', '-', 'm', 'c', 'a', 's', 't', 'p', 'r', 'e', 'f', 'i', 'x'];
    proof {
        assert(a7@ == seq!['i', 'p', '6', '-', 'm', 'c', 'a', 's', 't', 'p', 'r', 'e', 'f', 'i', 'x']);
    }
    if eq_ignore_case(t, a7.as_slice()) {
        return true;
    }
    let a8 = ['i', 'p', '6', '-', 'a', 'l', 'l', 'n', 'o', 'd', 'e', 's'];
    proof {
        assert(a8@ == seq!['i', 'p', '6', '-', 'a', 'l', 'l', 'n', 'o', 'd', 'e', 's']);
    }
    if eq_ignore_case(t, a8.as_slice()) {
        return true;
    }
    let a9 = ['i', 'p', '6', '-', 'a', 'l', 'l', 'r', 'o', 'u', 't', 'e', 'r', 's'];
    proof {
        assert(a9@ == seq!['i', 'p', '6', '-', 'a', 'l', 'l', 'r', 'o', 'u', 't', 'e', 'r', 's']);
    }
    if eq_ignore_case(t, a9.as_slice()) {
        return true;
    }
    let a10 = ['i', 'p', '6', '-', 'a', 'l', 'l', 'h', 'o', 's', 't', 's'];
    proof {
        assert(a10@ == seq!['i', 'p', '6', '-', 'a', 'l', 'l', 'h', 'o', 's', 't', 's']);
    }
    if eq_ignore_case(t, a10.as_slice()) {
        return true;
    }
    false
}

/// The host tokens of `s[from..end]` up to the first one opening a `#`
/// comment: the rules they give, and whether any of them was understood (a
/// rule, or a deliberately skipped loopback alias).
pub open spec fn hosts_from(s: Seq<char>, end: int, from: int) -> (Seq<RuleKindV>, bool)
    decreases end - from,
{
    let w = s.subrange(0, end);
    let a = skip_ws(w, from);
    if from < 0 || end > s.len() || from > end || a >= end || w[a] == '#' {
        (Seq::empty(), false)
    } else {
        proof {
            lemma_skip_ws_bounds(w, from);
            lemma_token_end_bounds(w, a + 1);
        }
        let e = token_end(w, a);
        let rest = hosts_from(s, end, e);
        if spec_is_loopback_alias(s.subrange(a, e)) {
            (rest.0, true)
        } else {
            match normalized_domain(s, a, e) {
                Some(d) => (seq![plain_block_rule(d)] + rest.0, true),
                None => rest,
            }
        }
    }
}

/// What one hosts line gives: its rules, and whether it is an error. Blank
/// and `#` lines give nothing; a line whose first token is no address, or
/// whose host tokens are all unusable, is an error.
pub open spec fn hosts_line(s: Seq<char>, line: (int, int)) -> (Seq<RuleKindV>, bool) {
    let (a, b) = trim_bounds(s, line.0, line.1);
    if a >= b || s[a] == '#' {
        (Seq::empty(), false)
    } else {
        let e = token_end(s.subrange(0, b), a);
        if !spec_looks_like_ip(s.subrange(a, e)) {
            (Seq::empty(), true)
        } else {
            let (rules, handled) = hosts_from(s, b, e);
            (rules, !handled)
        }
    }
}

/// Parses one hosts line `v[start..end]`, appending its rules; `true` when
/// the line is an error.
pub fn hosts_line_exec(v: &[char], start: usize, end: usize, rules: &mut Vec<ParsedRule>) -> (error: bool)
    requires
        start <= end <= v.len(),
    ensures
        kinds_of(final(rules)@) == kinds_of(old(rules)@) + hosts_line(v@, (start as int, end as int)).0,
        error == hosts_line(v@, (start as int, end as int)).1,
{
    let (a, b) = trim_range(v, start, end);
    if a >= b || v[a] == '#' {
        proof {
            assert(kinds_of(old(rules)@) + Seq::<RuleKindV>::empty() =~= kinds_of(old(rules)@));
        }
        return false;
    }
    proof {
        lemma_trimmed_line(v@, start as int, end as int);
    }
    let e = match next_token(v, a, b) {
        Some((_, e)) => e,
        None => {
            proof {
                assert(tokens_from(v@.subrange(0, b as int), a as int).len() > 0);
            }
            return true;
        },
    };
    let ip = &v[a..e];
    proof {
        assert(ip@ == v@.subrange(a as int, e as int));
    }
    if !looks_like_ip(ip) {
        proof {
            assert(kinds_of(old(rules)@) + Seq::<RuleKindV>::empty() =~= kinds_of(old(rules)@));
        }
        return true;
    }
    let handled = hosts_tokens(v, b, e, rules);
    !handled
}

/// Appends the rules of the host tokens of `v[from..end]`; whether any token
/// was understood.
fn hosts_tokens(v: &[char], end: usize, from: usize, rules: &mut Vec<ParsedRule>) -> (handled: bool)
    requires
        from <= end <= v.len(),
    ensures
        kinds_of(final(rules)@) == kinds_of(old(rules)@) + hosts_from(v@, end as int, from as int).0,
        handled == hosts_from(v@, end as int, from as int).1,
{
    let ghost w = v@.subrange(0, end as int);
    let ghost base = kinds_of(rules@);
    let mut handled = false;
    let mut at: usize = from;
    let ghost mut added: Seq<RuleKindV> = Seq::empty();
    loop
        invariant
            from <= at <= end <= v.len(),
            w == v@.subrange(0, end as int),
            base == kinds_of(old(rules)@),
            kinds_of(rules@) == base + added,
            hosts_from(v@, end as int, from as int) == (added + hosts_from(v@, end as int, at as int).0,
                handled || hosts_from(v@, end as int, at as int).1),
        decreases end - at,
    {
        let (a, e) = match next_token(v, at, end) {
            None => {
                proof {
                    lemma_skip_ws_bounds(w, at as int);
                    assert(hosts_from(v@, end as int, at as int) == (Seq::<RuleKindV>::empty(), false));
                    assert(added + Seq::<RuleKindV>::empty() =~= added);
                }
                return handled;
            },
            Some(t) => t,
        };
        proof {
            lemma_skip_ws_bounds(w, at as int);
            lemma_token_end_bounds(w, skip_ws(w, at as int) + 1);
            assert(a == skip_ws(w, at as int));
            assert(e == token_end(w, a as int));
            assert(w[a as int] == v@[a as int]);
        }
        if v[a] == '#' {
            proof {
                assert(added + Seq::<RuleKindV>::empty() =~= added);
            }
            return handled;
        }
        let host = &v[a..e];
        proof {
            assert(host@ == v@.subrange(a as int, e as int));
        }
        if is_loopback_alias(host) {
            handled = true;
        } else {
            match normalize_domain_range(v, a, e) {
                Some(d) => {
                    let ghost prev = added;
                    push_plain_block(rules, d);
                    proof {
                        added = added.push(plain_block_rule(d@));
                        assert(base + added =~= (base + prev).push(plain_block_rule(d@)));
                        assert(prev + (seq![plain_block_rule(d@)] + hosts_from(v@, end as int, e as int).0)
                            =~= added + hosts_from(v@, end as int, e as int).0);
                    }
                    handled = true;
                },
                None => {},
            }
        }
        at = e;
    }
}

/// Parses a hosts file.
pub fn parse(text: &str) -> (list: ParsedRuleList)
    ensures
        crate::parser::parsed_as(list, text@, RuleFormat::Hosts),
{
    let v = chars_of(text);
    parse_chars(v.as_slice(), RuleFormat::Hosts)
}

// ─── Laws ─────────────────────────────────────────────────────────────────

/// Skipping whitespace reads only the characters it skips: where `w1` and
/// `w2` agree on `[from, p)`, both stop at the same place before `p`, or
/// both reach `p`.
proof fn lemma_skip_ws_agree(w1: Seq<char>, w2: Seq<char>, from: int, p: int)
    requires
        0 <= from <= p <= w1.len(),
        p <= w2.len(),
        forall|j: int| from <= j < p ==> w1[j] == w2[j],
    ensures
        skip_ws(w1, from) < p ==> skip_ws(w2, from) == skip_ws(w1, from),
        skip_ws(w1, from) >= p ==> skip_ws(w1, from) == skip_ws(w1, p) && skip_ws(w2, from)
            == skip_ws(w2, p),
    decreases p - from,
{
    lemma_skip_ws_bounds(w1, from);
    lemma_skip_ws_bounds(w2, from);
    if from < p {
        assert(w1[from] == w2[from]);
        if is_ws(w1[from]) {
            lemma_skip_ws_agree(w1, w2, from + 1, p);
        }
    }
}

/// Skipping whitespace over `[from, k)` stops at a non-whitespace `k`.
proof fn lemma_skip_ws_to(w: Seq<char>, from: int, k: int)
    requires
        0 <= from <= k < w.len(),
        forall|j: int| from <= j < k ==> is_ws(w[j]),
        !is_ws(w[k]),
    ensures
        skip_ws(w, from) == k,
    decreases k - from,
{
    if from < k {
        lemma_skip_ws_to(w, from + 1, k);
    }
}

/// A token read where `w1` and `w2` agree up to a boundary `p` (the end or
/// whitespace in both) ends at the same place.
proof fn lemma_token_end_agree(w1: Seq<char>, w2: Seq<char>, from: int, p: int)
    requires
        0 <= from <= p <= w1.len(),
        p <= w2.len(),
        forall|j: int| from <= j < p ==> w1[j] == w2[j],
        p == w1.len() || is_ws(w1[p]),
        p == w2.len() || is_ws(w2[p]),
    ensures
        token_end(w1, from) == token_end(w2, from),
        token_end(w1, from) <= p,
    decreases p - from,
{
    if from < p && !is_ws(w1[from]) {
        lemma_token_end_agree(w1, w2, from + 1, p);
    }
}

proof fn lemma_back_ws_agree(s1: Seq<char>, s2: Seq<char>, from: int, to: int)
    requires
        0 <= from <= to <= s1.len(),
        to <= s2.len(),
        forall|j: int| from <= j < to ==> s1[j] == s2[j],
    ensures
        back_ws(s1, from, to) == back_ws(s2, from, to),
    decreases to - from,
{
    if to > from && is_ws(s1[to - 1]) {
        lemma_back_ws_agree(s1, s2, from, to - 1);
    }
}

proof fn lemma_back_dots_agree(s1: Seq<char>, s2: Seq<char>, from: int, to: int)
    requires
        0 <= from <= to <= s1.len(),
        to <= s2.len(),
        forall|j: int| from <= j < to ==> s1[j] == s2[j],
    ensures
        back_dots(s1, from, to) == back_dots(s2, from, to),
    decreases to - from,
{
    if to > from && s1[to - 1] == '.' {
        lemma_back_dots_agree(s1, s2, from, to - 1);
    }
}

/// A domain read from `s[a..e]` depends on those characters alone.
proof fn lemma_normalized_local(s1: Seq<char>, s2: Seq<char>, a: int, e: int)
    requires
        0 <= a <= e <= s1.len(),
        e <= s2.len(),
        forall|j: int| 0 <= j < e ==> s1[j] == s2[j],
    ensures
        normalized_domain(s1, a, e) == normalized_domain(s2, a, e),
{
    assert(s1.subrange(0, e) =~= s2.subrange(0, e));
    let w = s1.subrange(0, e);
    lemma_skip_ws_bounds(w, a);
    let a2 = skip_ws(w, a);
    lemma_back_ws_agree(s1, s2, a2, e);
    lemma_back_ws_bounds(s1, a2, e);
    let b2 = back_ws(s1, a2, e);
    lemma_back_dots_agree(s1, s2, a2, b2);
    lemma_back_dots_bounds(s1, a2, b2);
    let c = back_dots(s1, a2, b2);
    assert(domain_core_bounds(s1, a, e) == (a2, c));
    assert(domain_core_bounds(s2, a, e) == (a2, c));
    assert(s1.subrange(a2, c) =~= s2.subrange(a2, c));
}

/// From `p` on, `s[..end]` holds only whitespace, or whitespace and then a
/// token opening a `#` comment.
pub open spec fn comment_tail(s: Seq<char>, p: int, end: int) -> bool {
    let k = skip_ws(s.subrange(0, end), p);
    k >= end || s[k] == '#'
}

/// Host tokens read from two texts that agree up to a token boundary `p`,
/// past which each holds nothing but whitespace or a comment, give the same
/// rules.
proof fn lemma_hosts_from_to_comment(
    s1: Seq<char>,
    end1: int,
    s2: Seq<char>,
    end2: int,
    p: int,
    from: int,
)
    requires
        0 <= from <= p,
        p <= end1 <= s1.len(),
        p <= end2 <= s2.len(),
        forall|j: int| 0 <= j < p ==> s1[j] == s2[j],
        p == end1 || is_ws(s1[p]),
        p == end2 || is_ws(s2[p]),
        comment_tail(s1, p, end1),
        comment_tail(s2, p, end2),
    ensures
        hosts_from(s1, end1, from) == hosts_from(s2, end2, from),
    decreases p - from,
{
    let w1 = s1.subrange(0, end1);
    let w2 = s2.subrange(0, end2);
    assert forall|j: int| from <= j < p implies w1[j] == w2[j] by {
        assert(w1[j] == s1[j]);
        assert(w2[j] == s2[j]);
    }
    lemma_skip_ws_agree(w1, w2, from, p);
    lemma_skip_ws_bounds(w1, from);
    lemma_skip_ws_bounds(w2, from);
    let a = skip_ws(w1, from);
    if a < p {
        assert(w1[a] == s1[a] && w2[a] == s2[a]);
        if s1[a] != '#' {
            assert(p == w1.len() || is_ws(w1[p]));
            assert(p == w2.len() || is_ws(w2[p]));
            lemma_token_end_agree(w1, w2, a, p);
            lemma_token_end_bounds(w1, a + 1);
            let e = token_end(w1, a);
            assert(e == token_end(w1, a + 1));
            lemma_hosts_from_to_comment(s1, end1, s2, end2, p, e);
            assert(s1.subrange(a, e) =~= s2.subrange(a, e));
            lemma_normalized_local(s1, s2, a, e);
        }
    }
}

/// Law: a hosts line's rules come only from its host tokens before a `#`
/// comment. Appending whitespace and a comment — whatever words it holds —
/// to a line changes neither the rules it gives nor whether it is an error.
pub proof fn lemma_hosts_comment_changes_nothing(x: Seq<char>, gap: char, words: Seq<char>)
    requires
        is_ws(gap),
    ensures
        ({
            let s = x + seq![gap, '#'] + words;
            hosts_line(s, (0, s.len() as int)) == hosts_line(x, (0, x.len() as int))
        }),
{
    let s = x + seq![gap, '#'] + words;
    let p = x.len() as int;
    let n = s.len() as int;
    assert(s[p] == gap && s[p + 1] == '#');
    assert(!is_ws('#'));
    assert forall|j: int| 0 <= j < p implies s[j] == x[j] by {}
    assert(s.subrange(0, n) =~= s);
    assert(x.subrange(0, p) =~= x);
    lemma_skip_ws_agree(x, s, 0, p);
    lemma_skip_ws_bounds(x, 0);
    lemma_skip_ws_bounds(s, 0);
    let a = skip_ws(x, 0);
    lemma_skip_ws_to(s, p, p + 1);
    lemma_back_ws_bounds(s, skip_ws(s, 0), n);
    let b2 = back_ws(s, skip_ws(s, 0), n);
    if a >= p {
        assert(skip_ws(x, p) == p);
        assert(skip_ws(s, 0) == p + 1);
        assert(trim_bounds(x, 0, p) == (p, p));
        assert(b2 > p + 1);
    } else {
        assert(skip_ws(s, 0) == a);
        lemma_back_ws_bounds(x, a, p);
        let b1 = back_ws(x, a, p);
        assert(b1 > a);
        assert(b2 > p + 1);
        assert(trim_bounds(x, 0, p) == (a, b1));
        assert(trim_bounds(s, 0, n) == (a, b2));
        assert(s[a] == x[a]);
        if x[a] != '#' {
            let w1 = x.subrange(0, b1);
            let w2 = s.subrange(0, b2);
            assert(is_ws(s[b1])) by {
                if b1 < p {
                    assert(is_ws(x[b1]));
                }
            }
            assert forall|j: int| a <= j < b1 implies w1[j] == w2[j] by {
                assert(w1[j] == x[j]);
                assert(w2[j] == s[j]);
            }
            lemma_token_end_agree(w1, w2, a, b1);
            lemma_token_end_bounds(w1, a);
            let e = token_end(w1, a);
            assert(x.subrange(a, e) =~= s.subrange(a, e));
            // past `b1`: the line's trailing whitespace and the gap, then `#`
            assert(x.subrange(0, b1).len() == b1);
            assert(skip_ws(x.subrange(0, b1), b1) == b1);
            let ws2 = s.subrange(0, b2);
            assert forall|j: int| b1 <= j < p + 1 implies is_ws(ws2[j]) by {
                assert(ws2[j] == s[j]);
                if j < p {
                    assert(is_ws(x[j]));
                }
            }
            lemma_skip_ws_to(ws2, b1, p + 1);
            assert(comment_tail(x, b1, b1));
            assert(comment_tail(s, b1, b2));
            lemma_hosts_from_to_comment(x, b1, s, b2, b1, e);
        }
    }
}

} // verus!
