//! The parsed result of one rule list.

use vstd::prelude::*;

use crate::format::RuleFormat;
use crate::rule::{ParsedRule, RuleKindV};

verus! {

/// Cap on how many error line numbers [`ParsedRuleList::parse_error_lines`]
/// retains, so a corrupt list cannot turn its own errors into a large
/// allocation.
pub const MAX_REPORTED_ERROR_LINES: usize = 100;

/// Every rule from one list's raw text, fully parsed and classified.
/// Unparseable lines are skipped and only counted in `parse_errors`.
#[derive(Debug, Clone, PartialEq, Eq)]
pub struct ParsedRuleList {
    pub format: RuleFormat,
    pub rules: Vec<ParsedRule>,
    pub parse_errors: u32,
    /// 1-based line numbers of the first [`MAX_REPORTED_ERROR_LINES`] parse
    /// errors — a bounded, truncated view of the same failures
    /// `parse_errors` totals.
    pub parse_error_lines: Vec<u32>,
}

/// How many of a list's rules land in each tier.
#[derive(Debug, Clone, Copy, Default, PartialEq, Eq)]
pub struct RuleCounts {
    pub active: usize,
    pub url: usize,
    pub inactive: usize,
}

/// The 1-based number of a 0-based line index, saturating at `u32::MAX`.
pub open spec fn line_number(index: int) -> u32 {
    if index + 1 > u32::MAX {
        u32::MAX
    } else {
        (index + 1) as u32
    }
}

/// The error count reported for `n` failures: saturates at `u32::MAX`.
pub open spec fn error_count(n: nat) -> u32 {
    if n > u32::MAX {
        u32::MAX
    } else {
        n as u32
    }
}

/// The reported line numbers for failures at 0-based `indices`: the first
/// [`MAX_REPORTED_ERROR_LINES`] of them, 1-based.
pub open spec fn reported_lines(indices: Seq<int>) -> Seq<u32> {
    let kept = if indices.len() > MAX_REPORTED_ERROR_LINES {
        indices.take(MAX_REPORTED_ERROR_LINES as int)
    } else {
        indices
    };
    kept.map_values(|i: int| line_number(i))
}

/// Running tally of a parse's failures.
pub struct ParseErrorLog {
    pub count: u32,
    pub lines: Vec<u32>,
    /// Every 0-based line index recorded so far.
    pub seen: Ghost<Seq<int>>,
}

impl ParseErrorLog {
    pub open spec fn wf(&self) -> bool {
        &&& self.count == error_count(self.seen@.len())
        &&& self.lines@ == reported_lines(self.seen@)
    }

    pub fn new() -> (log: Self)
        ensures
            log.wf(),
            log.seen@ == Seq::<int>::empty(),
    {
        let log = ParseErrorLog { count: 0, lines: Vec::new(), seen: Ghost(Seq::empty()) };
        proof {
            assert(reported_lines(Seq::<int>::empty()) =~= Seq::<u32>::empty());
        }
        log
    }

    /// Records one failure at a 0-based line index (stored 1-based).
    pub fn record(&mut self, line_index: usize)
        requires
            old(self).wf(),
        ensures
            final(self).wf(),
            final(self).seen@ == old(self).seen@.push(line_index as int),
    {
        self.count = self.count.saturating_add(1);
        let ghost prev = self.seen@;
        self.seen = Ghost(prev.push(line_index as int));
        if self.lines.len() < MAX_REPORTED_ERROR_LINES {
            let n: u32 = if line_index >= u32::MAX as usize {
                u32::MAX
            } else {
                line_index as u32 + 1
            };
            self.lines.push(n);
            proof {
                assert(prev.len() < MAX_REPORTED_ERROR_LINES);
                assert(reported_lines(self.seen@) =~= reported_lines(prev).push(n));
            }
        } else {
            proof {
                assert(prev.len() >= MAX_REPORTED_ERROR_LINES);
                assert(self.seen@.take(MAX_REPORTED_ERROR_LINES as int) =~= (if prev.len()
                    > MAX_REPORTED_ERROR_LINES {
                    prev.take(MAX_REPORTED_ERROR_LINES as int)
                } else {
                    prev
                }));
            }
        }
    }

    pub fn into_parts(self) -> (r: (u32, Vec<u32>))
        ensures
            r.0 == self.count,
            r.1@ == self.lines@,
    {
        (self.count, self.lines)
    }
}

/// How many rules of `rules` are of the kind `is_kind` picks.
pub open spec fn count_kind(rules: Seq<RuleKindV>, kind: int) -> nat
    decreases rules.len(),
{
    if rules.len() == 0 {
        0
    } else {
        count_kind(rules.drop_last(), kind) + if kind_index(rules.last()) == kind {
            1nat
        } else {
            0nat
        }
    }
}

/// `0` for a domain-tier rule, `1` for a URL-tier rule, `2` for an inactive
/// one.
pub open spec fn kind_index(k: RuleKindV) -> int {
    match k {
        RuleKindV::Active(_) => 0,
        RuleKindV::Url(_) => 1,
        RuleKindV::Inactive(_) => 2,
    }
}

pub proof fn lemma_count_kind_bound(rules: Seq<RuleKindV>, kind: int)
    ensures
        count_kind(rules, kind) <= rules.len(),
    decreases rules.len(),
{
    if rules.len() > 0 {
        lemma_count_kind_bound(rules.drop_last(), kind);
    }
}

/// The classifications of `rules`, in order.
pub open spec fn kinds_of(rules: Seq<ParsedRule>) -> Seq<RuleKindV> {
    rules.map_values(|r: ParsedRule| r@)
}

pub proof fn lemma_kinds_push(rules: Seq<ParsedRule>, r: ParsedRule)
    ensures
        kinds_of(rules.push(r)) == kinds_of(rules).push(r@),
{
    assert(kinds_of(rules.push(r)) =~= kinds_of(rules).push(r@));
}

impl ParsedRuleList {
    /// The rules' classifications.
    pub open spec fn kinds(&self) -> Seq<RuleKindV> {
        kinds_of(self.rules@)
    }

    fn count(&self, kind: usize) -> (n: usize)
        requires
            kind <= 2,
        ensures
            n == count_kind(self.kinds(), kind as int),
    {
        let mut n: usize = 0;
        let mut i: usize = 0;
        while i < self.rules.len()
            invariant
                kind <= 2,
                0 <= i <= self.rules.len(),
                n == count_kind(self.kinds().take(i as int), kind as int),
                n <= i,
            decreases self.rules.len() - i,
        {
            let k: usize = match self.rules[i].kind {
                crate::rule::RuleKind::Active(_) => 0,
                crate::rule::RuleKind::Url(_) => 1,
                crate::rule::RuleKind::Inactive(_) => 2,
            };
            proof {
                assert(self.kinds().take(i + 1).drop_last() =~= self.kinds().take(i as int));
                assert(self.kinds()[i as int] == self.rules@[i as int]@);
            }
            if k == kind {
                n += 1;
            }
            i += 1;
        }
        proof {
            assert(self.kinds().take(self.rules.len() as int) =~= self.kinds());
        }
        n
    }

    /// How many rules answer a domain question.
    pub fn active_count(&self) -> (n: usize)
        ensures
            n == count_kind(self.kinds(), 0),
    {
        self.count(0)
    }

    /// How many rules compile into the URL tier.
    pub fn url_count(&self) -> (n: usize)
        ensures
            n == count_kind(self.kinds(), 1),
    {
        self.count(1)
    }

    /// How many rules no tier answers.
    pub fn inactive_count(&self) -> (n: usize)
        ensures
            n == count_kind(self.kinds(), 2),
    {
        self.count(2)
    }

    pub fn counts(&self) -> (c: RuleCounts)
        ensures
            c.active == count_kind(self.kinds(), 0),
            c.url == count_kind(self.kinds(), 1),
            c.inactive == count_kind(self.kinds(), 2),
    {
        RuleCounts {
            active: self.active_count(),
            url: self.url_count(),
            inactive: self.inactive_count(),
        }
    }
}

} // verus!
