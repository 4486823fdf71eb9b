//! Format dispatch: routes a rule list's raw text to its parser, and the
//! line-by-line reading the three parsers share.

pub mod adblock;
pub mod domain_list;
pub mod hosts;

use vstd::prelude::*;


use crate::format::{detect_format, spec_detect_format, RuleFormat};
use crate::rule::{DomainRule, DomainRuleV, ParsedRule, RuleAction, RuleKind, RuleKindV};
use crate::rule_list::{
    count_kind, error_count, kinds_of, lemma_kinds_push, reported_lines, ParseErrorLog,
    ParsedRuleList,
};
use crate::text::{
    back_ws, chars_of, count_tokens, is_digit, trim_range, into_boxed, is_ws, lemma_back_ws_bounds, lemma_skip_ws_bounds,
    lemma_token_end_bounds, line_bounds, line_bounds_from, next_line, skip_ws, token_end,
    tokens_from, trim_bounds,
};

verus! {

/// The plain block rule a hosts or domain-list entry gives for `d`.
pub open spec fn plain_block_rule(d: Seq<char>) -> RuleKindV {
    RuleKindV::Active(
        DomainRuleV {
            domain: d,
            action: RuleAction::Block,
            include_subdomains: true,
            has_opts: false,
            dns_types: None,
            dns_rewrite: None,
            client: None,
        },
    )
}

/// Appends [`plain_block_rule`] for `d`.
pub fn push_plain_block(rules: &mut Vec<ParsedRule>, d: String)
    ensures
        kinds_of(final(rules)@) == kinds_of(old(rules)@).push(plain_block_rule(d@)),
{
    let rule = ParsedRule {
        kind: RuleKind::Active(DomainRule::plain(into_boxed(d), RuleAction::Block, true)),
    };
    proof {
        lemma_kinds_push(rules@, rule);
    }
    rules.push(rule);
}

/// What a non-empty trimmed line looks like from its first character: not
/// whitespace, and the first token starts there.
pub proof fn lemma_trimmed_line(s: Seq<char>, from: int, to: int)
    requires
        0 <= from <= to <= s.len(),
    ensures
        ({
            let (a, b) = trim_bounds(s, from, to);
            let w = s.subrange(0, b);
            &&& from <= a <= b <= to
            &&& a < b ==> !is_ws(s[a])
            &&& a < b ==> skip_ws(w, a) == a
            &&& a < b ==> a < token_end(w, a) <= b
            &&& a < b ==> tokens_from(w, a) == seq![(a, token_end(w, a))] + tokens_from(
                w,
                token_end(w, a),
            )
        }),
{
    let w0 = s.subrange(0, to);
    lemma_skip_ws_bounds(w0, from);
    let a = skip_ws(w0, from);
    lemma_back_ws_bounds(s, a, to);
    let b = back_ws(s, a, to);
    if a < b {
        assert(w0[a] == s[a]);
        let w = s.subrange(0, b);
        assert(w[a] == s[a]);
        lemma_token_end_bounds(w, a + 1);
        lemma_skip_ws_bounds(w, a);
    }
}

/// What one line of a list in `format` gives: its rules, and whether it is a
/// parse error.
pub open spec fn line_outcome(format: RuleFormat, s: Seq<char>, line: (int, int)) -> (
    Seq<RuleKindV>,
    bool,
) {
    match format {
        RuleFormat::Hosts => hosts::hosts_line(s, line),
        RuleFormat::PlainDomainList => domain_list::domain_list_line(s, line),
        RuleFormat::Adblock => adblock::adblock_line(s, line),
    }
}

/// The rules of `lines`, in line order.
pub open spec fn line_rules(format: RuleFormat, s: Seq<char>, lines: Seq<(int, int)>) -> Seq<
    RuleKindV,
>
    decreases lines.len(),
{
    if lines.len() == 0 {
        Seq::empty()
    } else {
        line_rules(format, s, lines.drop_last()) + line_outcome(format, s, lines.last()).0
    }
}

/// The 0-based indices, within `lines`, of the lines that are errors.
pub open spec fn line_errors(format: RuleFormat, s: Seq<char>, lines: Seq<(int, int)>) -> Seq<int>
    decreases lines.len(),
{
    if lines.len() == 0 {
        Seq::empty()
    } else if line_outcome(format, s, lines.last()).1 {
        line_errors(format, s, lines.drop_last()).push(lines.len() - 1)
    } else {
        line_errors(format, s, lines.drop_last())
    }
}

/// `list` is what parsing `s` as `format` gives: the rules of every line in
/// order, and the errors counted and (the first of them) reported by line.
pub open spec fn parsed_as(list: ParsedRuleList, s: Seq<char>, format: RuleFormat) -> bool {
    let errors = line_errors(format, s, line_bounds(s));
    &&& list.format == format
    &&& list.kinds() == line_rules(format, s, line_bounds(s))
    &&& list.parse_errors == error_count(errors.len())
    &&& list.parse_error_lines@ == reported_lines(errors)
}

/// Parses one line of `format`, appending its rules; `true` when it is an
/// error.
fn line_exec(
    v: &[char],
    format: RuleFormat,
    start: usize,
    end: usize,
    rules: &mut Vec<ParsedRule>,
) -> (error: bool)
    requires
        start <= end <= v.len(),
    ensures
        kinds_of(final(rules)@) == kinds_of(old(rules)@) + line_outcome(
            format,
            v@,
            (start as int, end as int),
        ).0,
        error == line_outcome(format, v@, (start as int, end as int)).1,
{
    match format {
        RuleFormat::Hosts => hosts::hosts_line_exec(v, start, end, rules),
        RuleFormat::PlainDomainList => domain_list::domain_list_line_exec(v, start, end, rules),
        RuleFormat::Adblock => adblock::adblock_line_exec(v, start, end, rules),
    }
}

/// Parses the text `v` as a list in `format`, line by line.
pub fn parse_chars(v: &[char], format: RuleFormat) -> (list: ParsedRuleList)
    ensures
        parsed_as(list, v@, format),
{
    let mut rules: Vec<ParsedRule> = Vec::new();
    let mut errors = ParseErrorLog::new();
    let ghost mut done: Seq<(int, int)> = Seq::empty();
    let mut index: usize = 0;
    let mut at: usize = 0;
    proof {
        assert(kinds_of(rules@) =~= Seq::<RuleKindV>::empty());
    }
    while at < v.len()
        invariant
            at <= v.len(),
            index == done.len(),
            index <= at,
            line_bounds(v@) == done + line_bounds_from(v@, at as int),
            kinds_of(rules@) == line_rules(format, v@, done),
            errors.wf(),
            errors.seen@ == line_errors(format, v@, done),
        decreases v.len() - at,
    {
        let (s, e, nl) = next_line(v, at);
        let error = line_exec(v, format, s, e, &mut rules);
        if error {
            errors.record(index);
        }
        proof {
            let prev = done;
            done = done.push((s as int, e as int));
            assert(done.drop_last() == prev);
            assert((prev + seq![(s as int, e as int)]) =~= done);
            if nl >= v.len() {
                assert(line_bounds(v@) =~= done + line_bounds_from(v@, v.len() as int));
            } else {
                assert(line_bounds(v@) =~= done + line_bounds_from(v@, nl + 1));
            }
        }
        index += 1;
        if nl >= v.len() {
            at = v.len();
        } else {
            at = nl + 1;
        }
    }
    proof {
        assert(line_bounds_from(v@, at as int) =~= Seq::<(int, int)>::empty());
        assert(done + Seq::<(int, int)>::empty() =~= done);
    }
    let (parse_errors, parse_error_lines) = errors.into_parts();
    ParsedRuleList { format, rules, parse_errors, parse_error_lines }
}

/// Parses a rule list in the format [`detect_format`] finds for it.
pub fn parse(text: &str) -> (list: ParsedRuleList)
    ensures
        parsed_as(list, text@, spec_detect_format(text@)),
{
    let format = detect_format(text);
    let v = chars_of(text);
    parse_chars(v.as_slice(), format)
}

// ─── Capacity ─────────────────────────────────────────────────────────────

/// A `#` after the first byte of `s[a..b]`: what every cosmetic marker
/// (`##`, `#@#`, `#?#`, `#$#`) carries.
pub open spec fn later_hash(s: Seq<char>, a: int, b: int) -> bool {
    exists|j: int| a < j < b && s[j] == '#'
}

/// What one line may cost: nothing for a blank or `!` line; for a `#` line,
/// one slot when it could be a cosmetic rule and none for a comment; else one
/// slot per whitespace-separated token of the trimmed line.
pub open spec fn line_bound(s: Seq<char>, line: (int, int)) -> nat {
    let (a, b) = trim_bounds(s, line.0, line.1);
    if a >= b || s[a] == '!' {
        0
    } else if s[a] == '#' {
        if later_hash(s, a, b) {
            1
        } else {
            0
        }
    } else {
        tokens_from(s.subrange(0, b), a).len()
    }
}

/// Whether `v[a..b]` holds a `#` after its first byte.
fn has_later_hash(v: &[char], a: usize, b: usize) -> (r: bool)
    requires
        a < b <= v.len(),
    ensures
        r == later_hash(v@, a as int, b as int),
{
    let mut j = a + 1;
    while j < b
        invariant
            a < j <= b,
            b <= v.len(),
            forall|k: int| a < k < j ==> v@[k] != '#',
        decreases b - j,
    {
        if v[j] == '#' {
            return true;
        }
        j += 1;
    }
    false
}

pub open spec fn bound_of(s: Seq<char>, lines: Seq<(int, int)>) -> nat
    decreases lines.len(),
{
    if lines.len() == 0 {
        0
    } else {
        bound_of(s, lines.drop_last()) + line_bound(s, lines.last())
    }
}

/// The ceiling [`rule_upper_bound`] computes for `s`.
pub open spec fn spec_rule_upper_bound(s: Seq<char>) -> nat {
    bound_of(s, line_bounds(s))
}

/// A ceiling on how many rules [`parse`] can produce from `text`, computed
/// without parsing it — what a matcher builder sizes its transient dedup
/// index from before the first list is parsed.
///
/// Every parser emits at most one rule per whitespace-separated token on a
/// content line: adblock and plain-domain lists produce one rule per *line*,
/// and a hosts line produces one per host token after the address. Blank and
/// comment lines produce none; a `#` line that could be a cosmetic rule
/// counts one. This is deliberately a ceiling and not an estimate.
pub fn rule_upper_bound(text: &str) -> (n: usize)
    ensures
        n == spec_rule_upper_bound(text@),
{
    let v = chars_of(text);
    let mut total: usize = 0;
    let ghost mut done: Seq<(int, int)> = Seq::empty();
    let mut at: usize = 0;
    while at < v.len()
        invariant
            at <= v.len(),
            v@ == text@,
            total <= at,
            line_bounds(v@) == done + line_bounds_from(v@, at as int),
            total == bound_of(v@, done),
        decreases v.len() - at,
    {
        let (s, e, nl) = next_line(v.as_slice(), at);
        let (a, b) = trim_range(v.as_slice(), s, e);
        let n: usize = if a >= b || v[a] == '!' {
            0
        } else if v[a] == '#' {
            if has_later_hash(v.as_slice(), a, b) {
                1
            } else {
                0
            }
        } else {
            count_tokens(v.as_slice(), a, b)
        };
        proof {
            let prev = done;
            done = done.push((s as int, e as int));
            assert(done.drop_last() == prev);
            assert((prev + seq![(s as int, e as int)]) =~= done);
            if nl >= v.len() {
                assert(line_bounds(v@) =~= done + line_bounds_from(v@, v.len() as int));
            } else {
                assert(line_bounds(v@) =~= done + line_bounds_from(v@, nl + 1));
            }
        }
        total = total + n;
        if nl >= v.len() {
            at = v.len();
        } else {
            at = nl + 1;
        }
    }
    proof {
        assert(line_bounds_from(v@, at as int) =~= Seq::<(int, int)>::empty());
        assert(done + Seq::<(int, int)>::empty() =~= done);
    }
    total
}

proof fn lemma_count_kind_concat(a: Seq<RuleKindV>, b: Seq<RuleKindV>, kind: int)
    ensures
        count_kind(a + b, kind) == count_kind(a, kind) + count_kind(b, kind),
    decreases b.len(),
{
    if b.len() == 0 {
        assert(a + b =~= a);
    } else {
        lemma_count_kind_concat(a, b.drop_last(), kind);
        assert((a + b).drop_last() =~= a + b.drop_last());
    }
}

proof fn lemma_hosts_from_bound(s: Seq<char>, end: int, from: int)
    requires
        0 <= from <= end <= s.len(),
    ensures
        hosts::hosts_from(s, end, from).0.len() <= tokens_from(s.subrange(0, end), from).len(),
    decreases end - from,
{
    let w = s.subrange(0, end);
    let a = skip_ws(w, from);
    lemma_skip_ws_bounds(w, from);
    if a < end && w[a] != '#' {
        lemma_token_end_bounds(w, a + 1);
        let e = token_end(w, a);
        lemma_hosts_from_bound(s, end, e);
        assert(tokens_from(w, from) == seq![(a, e)] + tokens_from(w, e));
    }
}

proof fn lemma_line_bounds_in_range(s: Seq<char>, from: int)
    requires
        0 <= from,
    ensures
        forall|i: int|
            0 <= i < line_bounds_from(s, from).len() ==> 0 <= (#[trigger] line_bounds_from(s, from)[i]).0
                <= line_bounds_from(s, from)[i].1 <= s.len(),
    decreases s.len() - from,
{
    if from < s.len() {
        crate::text::lemma_line_end_bounds(s, from);
        let e = crate::text::line_end(s, from);
        let c = crate::text::content_end(s, from);
        assert(from <= c <= e);
        let lb = line_bounds_from(s, from);
        if e < s.len() {
            lemma_line_bounds_in_range(s, e + 1);
            let rest = line_bounds_from(s, e + 1);
            assert(lb == seq![(from, c)] + rest);
            assert forall|i: int| 0 <= i < lb.len() implies 0 <= (#[trigger] lb[i]).0 <= lb[i].1 <= s.len() by {
                if i > 0 {
                    assert(lb[i] == rest[i - 1]);
                }
            }
        } else {
            assert(lb == seq![(from, c)]);
        }
    }
}

proof fn lemma_line_bound(format: RuleFormat, s: Seq<char>, line: (int, int))
    requires
        0 <= line.0 <= line.1 <= s.len(),
    ensures
        line_outcome(format, s, line).0.len() <= line_bound(s, line),
{
    match format {
        RuleFormat::Hosts => lemma_hosts_line_bound(s, line),
        RuleFormat::PlainDomainList => lemma_trimmed_line(s, line.0, line.1),
        RuleFormat::Adblock => lemma_adblock_line_bound(s, line),
    }
}

proof fn lemma_hosts_line_bound(s: Seq<char>, line: (int, int))
    requires
        0 <= line.0 <= line.1 <= s.len(),
    ensures
        line_outcome(RuleFormat::Hosts, s, line).0.len() <= line_bound(s, line),
{
    lemma_trimmed_line(s, line.0, line.1);
    let (a, b) = trim_bounds(s, line.0, line.1);
    let format = RuleFormat::Hosts;

            if a < b && s[a] == '!' {
                let w = s.subrange(0, b);
                let e = token_end(w, a);
                let t = s.subrange(a, e);
                assert(t[0] == '!');
                assert(!(is_digit(t[0]) || t[0] == '.'));
                assert(!(crate::text::is_hex(t[0]) || t[0] == ':'));
                assert(!crate::format::spec_looks_like_ip(t));
                assert(line_outcome(format, s, line).0 == Seq::<RuleKindV>::empty());
            } else if a < b && s[a] != '#' {
                let w = s.subrange(0, b);
                let e = token_end(w, a);
                lemma_hosts_from_bound(s, b, e);
                assert(line_bound(s, line) == tokens_from(w, a).len());
                assert(tokens_from(w, a).len() == 1 + tokens_from(w, e).len());
                if crate::format::spec_looks_like_ip(s.subrange(a, e)) {
                    assert(line_outcome(format, s, line).0 == hosts::hosts_from(s, b, e).0);
                } else {
                    assert(line_outcome(format, s, line).0 == Seq::<RuleKindV>::empty());
                }
            } else {
                assert(line_outcome(format, s, line).0 == Seq::<RuleKindV>::empty());
            }
        
}

proof fn lemma_adblock_line_bound(s: Seq<char>, line: (int, int))
    requires
        0 <= line.0 <= line.1 <= s.len(),
    ensures
        line_outcome(RuleFormat::Adblock, s, line).0.len() <= line_bound(s, line),
{
    lemma_trimmed_line(s, line.0, line.1);
    let (a, b) = trim_bounds(s, line.0, line.1);
    let l = s.subrange(a, b);
    lemma_adblock_text_bound(l);
    if a < b {
        assert(l[0] == s[a]);
        if s[a] == '#' && adblock::adblock_text(l).0.len() > 0 {
            let j = choose|j: int| 0 < j < l.len() && l[j] == '#';
            assert(s[a + j] == '#');
            assert(later_hash(s, a, b));
        } else if s[a] != '#' && s[a] != '!' {
            assert(tokens_from(s.subrange(0, b), a).len() >= 1);
        }
    }
}

/// An adblock line gives at most one rule, and a `#` line gives one only
/// when it holds a cosmetic marker, so a second `#`.
proof fn lemma_adblock_text_bound(l: Seq<char>)
    ensures
        adblock::adblock_text(l).0.len() <= 1,
        l.len() > 0 && l[0] == '#' && adblock::adblock_text(l).0.len() > 0 ==> exists|j: int|
            0 < j < l.len() && l[j] == '#',
{
    lemma_adblock_at_most_one(l);
    if l.len() > 0 && l[0] == '#' {
        if let Some(at) = adblock::first_marker(l) {
            lemma_marker_has_hash(l);
        } else {
            assert(adblock::adblock_text(l).0 == Seq::<RuleKindV>::empty());
        }
    }
}

/// Every cosmetic marker holds a `#` after its first byte.
proof fn lemma_marker_has_hash(l: Seq<char>)
    requires
        adblock::first_marker(l) is Some,
    ensures
        exists|j: int| 0 < j < l.len() && l[j] == '#',
{
    assert(exists|k: int| adblock::marker_at(l, k)) by {
        reveal(adblock::first_marker);
    }
    let k = choose|k: int| adblock::marker_at(l, k);
    lemma_marker_at_hash(l, k);
}

proof fn lemma_marker_at_hash(l: Seq<char>, k: int)
    requires
        adblock::marker_at(l, k),
    ensures
        0 < k + 1 < l.len() && l[k + 1] == '#' || 0 < k + 2 < l.len() && l[k + 2] == '#',
{
    if crate::text::occurs_at(l, seq!['#', '#'], k) {
        assert(l.subrange(k, k + 2)[1] == l[k + 1]);
    } else if crate::text::occurs_at(l, seq!['#', '@', '#'], k) {
        assert(l.subrange(k, k + 3)[2] == l[k + 2]);
    } else if crate::text::occurs_at(l, seq!['#', '?', '#'], k) {
        assert(l.subrange(k, k + 3)[2] == l[k + 2]);
    } else {
        assert(l.subrange(k, k + 3)[2] == l[k + 2]);
    }
}

proof fn lemma_adblock_at_most_one(l: Seq<char>)
    ensures
        adblock::adblock_text(l).0.len() <= 1,
{
    reveal(adblock::rule_text);
    reveal(adblock::compiled);
}

/// Law: [`rule_upper_bound`] is a ceiling on the rules any parser produces
/// from the same text — whatever the format, a list parsed from `s` holds no
/// more rules, of any kind, than the bound.
pub proof fn lemma_upper_bound_is_a_ceiling(list: ParsedRuleList, s: Seq<char>, format: RuleFormat)
    requires
        parsed_as(list, s, format),
    ensures
        list.rules@.len() <= spec_rule_upper_bound(s),
        count_kind(list.kinds(), 0) <= spec_rule_upper_bound(s),
{
    lemma_line_bounds_in_range(s, 0);
    lemma_rules_within_bound(format, s, line_bounds(s));
    crate::rule_list::lemma_count_kind_bound(list.kinds(), 0);
}

proof fn lemma_rules_within_bound(format: RuleFormat, s: Seq<char>, lines: Seq<(int, int)>)
    requires
        forall|i: int| 0 <= i < lines.len() ==> 0 <= (#[trigger] lines[i]).0 <= lines[i].1 <= s.len(),
    ensures
        line_rules(format, s, lines).len() <= bound_of(s, lines),
    decreases lines.len(),
{
    if lines.len() > 0 {
        lemma_rules_within_bound(format, s, lines.drop_last());
        lemma_line_bound(format, s, lines.last());
    }
}

} // verus!
