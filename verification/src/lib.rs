//! Rule Engine: rule-format parsers and compiled matchers.

pub mod client;
pub mod domain;
pub mod format;
pub mod interception;
pub mod ip;
pub mod lifecycle;
pub mod matcher;
pub mod parser;
pub mod policy;
pub mod resource;
pub mod rule;
pub mod rule_list;
pub mod table;
pub mod url_keys;
pub mod url_matcher;
pub mod text;

pub use format::{detect_format, RuleFormat};
pub use rule::{
    DomainOpts, DomainRule, InactiveReason, ParsedRule, Party, RuleAction, RuleKind, UrlAnchor,
    UrlRule,
};
pub use rule_list::{ParsedRuleList, RuleCounts};

use vstd::prelude::*;

verus! {

/// Parses one rule list's raw text, auto-detecting its format. Never fails —
/// unparseable lines are skipped and counted in
/// [`ParsedRuleList::parse_errors`].
pub fn parse_rule_list(text: &str) -> (list: ParsedRuleList)
    ensures
        parser::parsed_as(list, text@, format::spec_detect_format(text@)),
{
    parser::parse(text)
}

} // verus!
