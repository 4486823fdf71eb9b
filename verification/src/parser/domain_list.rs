//! Plain domain list format parser: one bare domain per line.

use vstd::prelude::*;

use crate::domain::{normalize_domain_range, normalized_domain};
use crate::format::RuleFormat;
use crate::parser::{parse_chars, plain_block_rule, push_plain_block};
use crate::rule::{ParsedRule, RuleKindV};
use crate::rule_list::{kinds_of, ParsedRuleList};
use crate::text::{chars_of, count_tokens, tokens_from, trim_bounds, trim_range};

verus! {

/// What one line of a domain list gives: blank, `#` and `!` lines nothing; a
/// line of one token its domain's block rule; anything else an error.
pub open spec fn domain_list_line(s: Seq<char>, line: (int, int)) -> (Seq<RuleKindV>, bool) {
    let (a, b) = trim_bounds(s, line.0, line.1);
    if a >= b || s[a] == '#' || s[a] == '!' {
        (Seq::empty(), false)
    } else if tokens_from(s.subrange(0, b), a).len() != 1 {
        (Seq::empty(), true)
    } else {
        match normalized_domain(s, a, b) {
            Some(d) => (seq![plain_block_rule(d)], false),
            None => (Seq::empty(), true),
        }
    }
}

/// Parses one domain-list line `v[start..end]`, appending its rule; `true`
/// when the line is an error.
pub fn domain_list_line_exec(
    v: &[char],
    start: usize,
    end: usize,
    rules: &mut Vec<ParsedRule>,
) -> (error: bool)
    requires
        start <= end <= v.len(),
    ensures
        kinds_of(final(rules)@) == kinds_of(old(rules)@) + domain_list_line(
            v@,
            (start as int, end as int),
        ).0,
        error == domain_list_line(v@, (start as int, end as int)).1,
{
    let (a, b) = trim_range(v, start, end);
    proof {
        assert(kinds_of(old(rules)@) + Seq::<RuleKindV>::empty() =~= kinds_of(old(rules)@));
    }
    if a >= b || v[a] == '#' || v[a] == '!' {
        return false;
    }
    if count_tokens(v, a, b) != 1 {
        return true;
    }
    match normalize_domain_range(v, a, b) {
        Some(d) => {
            push_plain_block(rules, d);
            proof {
                assert(kinds_of(old(rules)@).push(plain_block_rule(d@)) =~= kinds_of(old(rules)@)
                    + seq![plain_block_rule(d@)]);
            }
            false
        },
        None => true,
    }
}

/// Parses a plain domain list.
pub fn parse(text: &str) -> (list: ParsedRuleList)
    ensures
        crate::parser::parsed_as(list, text@, RuleFormat::PlainDomainList),
{
    let v = chars_of(text);
    parse_chars(v.as_slice(), RuleFormat::PlainDomainList)
}

} // verus!
