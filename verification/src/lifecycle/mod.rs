//! Rule list lifecycle decisions: what a refresh reports, when fetched text
//! is refused, how a list's refresh schedule and settings evolve. The
//! fetching, caching and swapping around them is I/O and lives with the
//! caller.

pub mod source;

use std::sync::Arc;
use std::time::SystemTime;
use vstd::prelude::*;

use crate::format::spec_detect_format;
use crate::matcher::{add_kinds_view, kept_masks, url_fold, BuilderV, Matcher, MatcherBuilder, FRESH_BUILDER_ROOM};
use crate::parser::{line_errors, line_rules, rule_upper_bound};
use crate::rule::RuleKindV;
use crate::rule_list::{count_kind, error_count, ParsedRuleList};
use crate::text::line_bounds;
use crate::url_matcher::RecordV;
use crate::text::{decimal_text, lower_char, push_decimal, push_str, skip_ws, string_of};

verus! {

#[verifier::external_type_specification]
#[verifier::external_body]
pub struct ExSystemTime(SystemTime);

/// The cap on one list's raw size.
pub const MAX_LIST_BYTES: usize = 64 * 1024 * 1024;

/// Below this many errors a parse is never called a misread.
pub const MISPARSE_ERROR_FLOOR: u32 = 100;

/// Below this many rules a baseline is too small for the collapse gate.
pub const COLLAPSE_MIN_BASELINE: usize = 1000;

/// A refresh collapses when it keeps less than a tenth of its baseline.
pub const COLLAPSE_FACTOR: usize = 10;

// ─── Refresh results ──────────────────────────────────────────────────────

/// Rule counts from one list's parse.
#[derive(Debug, Clone, PartialEq, Eq)]
pub struct RefreshStats {
    /// DNS-applicable rules.
    pub active: usize,
    /// Request-applicable rules.
    pub url: usize,
    /// Rules no tier answers.
    pub inactive: usize,
    pub parse_errors: u32,
}

impl Default for RefreshStats {
    fn default() -> (r: Self)
        ensures
            r == zero_stats(),
    {
        RefreshStats { active: 0, url: 0, inactive: 0, parse_errors: 0 }
    }
}

/// All-zero figures.
pub open spec fn zero_stats() -> RefreshStats {
    RefreshStats { active: 0, url: 0, inactive: 0, parse_errors: 0 }
}

/// The counts of a parsed list.
pub open spec fn stats_of(parsed: &ParsedRuleList) -> RefreshStats {
    RefreshStats {
        active: count_kind(parsed.kinds(), 0) as usize,
        url: count_kind(parsed.kinds(), 1) as usize,
        inactive: count_kind(parsed.kinds(), 2) as usize,
        parse_errors: parsed.parse_errors,
    }
}

impl<'a> From<&'a ParsedRuleList> for RefreshStats {
    fn from(parsed: &'a ParsedRuleList) -> (r: Self) {
        let counts = parsed.counts();
        RefreshStats {
            active: counts.active,
            url: counts.url,
            inactive: counts.inactive,
            parse_errors: parsed.parse_errors,
        }
    }
}

impl<'a> vstd::std_specs::convert::FromSpecImpl<&'a ParsedRuleList> for RefreshStats {
    open spec fn obeys_from_spec() -> bool {
        true
    }

    open spec fn from_spec(v: &'a ParsedRuleList) -> Self {
        stats_of(v)
    }
}

/// Every rule the parse produced.
pub open spec fn total_rules(s: RefreshStats) -> int {
    s.active + s.url + s.inactive
}

/// More failures than rules, past the floor: the list was read as the wrong
/// format rather than having a few malformed lines.
pub open spec fn spec_looks_misparsed(s: RefreshStats) -> bool {
    s.parse_errors >= MISPARSE_ERROR_FLOOR && s.parse_errors > total_rules(s)
}

impl RefreshStats {
    pub fn looks_misparsed(&self) -> (b: bool)
        requires
            total_rules(*self) <= usize::MAX,
        ensures
            b == spec_looks_misparsed(*self),
    {
        self.parse_errors >= MISPARSE_ERROR_FLOOR && (self.parse_errors as usize) > self.active
            + self.url + self.inactive
    }
}

/// The outcome of a list's most recent refresh attempt.
#[derive(Debug, Clone, PartialEq)]
pub enum RefreshResult {
    NeverAttempted,
    Refreshed(RefreshStats),
    Failed(String),
    Rejected(String),
}

impl RefreshResult {
    /// What went wrong, for a failed or refused refresh.
    pub fn failure_message(&self) -> (m: Option<String>)
        ensures
            match self {
                RefreshResult::Failed(error) => m matches Some(t) && t@ == error@,
                RefreshResult::Rejected(reason) => m matches Some(t) && t@ == "rejected: "@
                    + reason@,
                _ => m is None,
            },
    {
        match self {
            RefreshResult::Failed(error) => Some(error.clone()),
            RefreshResult::Rejected(reason) => {
                let mut out: Vec<char> = Vec::new();
                push_str(&mut out, "rejected: ");
                push_str(&mut out, reason.as_str());
                Some(string_of(out.as_slice()))
            },
            _ => None,
        }
    }
}

// ─── The refusal gate ─────────────────────────────────────────────────────

/// Where the text starts once leading byte-order marks are dropped.
pub open spec fn bom_end(s: Seq<char>, from: int) -> int
    decreases s.len() - from,
{
    if 0 <= from < s.len() && s[from] == '\u{feff}' {
        bom_end(s, from + 1)
    } else {
        from
    }
}

/// The first nine characters after any byte-order marks and leading
/// whitespace, ASCII lower-cased.
pub open spec fn document_head(s: Seq<char>) -> Seq<char> {
    let t = s.skip(skip_ws(s, bom_end(s, 0)));
    t.take(if t.len() < 9 {
        t.len() as int
    } else {
        9
    }).map_values(|c: char| lower_char(c))
}

/// Whether `p` begins `s`.
pub open spec fn begins(s: Seq<char>, p: Seq<char>) -> bool {
    p.len() <= s.len() && s.take(p.len() as int) == p
}

/// Whether fetched text is an HTML page rather than a rule list, judged by
/// its leading markup only.
pub open spec fn spec_looks_like_html(s: Seq<char>) -> bool {
    begins(document_head(s), "<!doctype"@) || begins(document_head(s), "<html"@)
}

/// Whether `v` begins with `p`.
fn begins_with(v: &[char], p: &[char]) -> (b: bool)
    ensures
        b == begins(v@, p@),
{
    if p.len() > v.len() {
        return false;
    }
    let mut k: usize = 0;
    while k < p.len()
        invariant
            p.len() <= v.len(),
            k <= p.len(),
            forall|j: int| 0 <= j < k ==> v@[j] == p@[j],
        decreases p.len() - k,
    {
        if v[k] != p[k] {
            assert(v@.take(p@.len() as int)[k as int] != p@[k as int]);
            return false;
        }
        k += 1;
    }
    assert(v@.take(p@.len() as int) =~= p@);
    true
}

/// Whether fetched text opens like an HTML document: `<!doctype` or `<html`,
/// in any case, after byte-order marks and whitespace.
pub fn looks_like_html_document(text: &str) -> (b: bool)
    ensures
        b == spec_looks_like_html(text@),
{
    let v = crate::text::chars_of(text);
    let ghost s = v@;
    let mut a: usize = 0;
    while a < v.len() && v[a] == '\u{feff}'
        invariant
            a <= v.len(),
            s == v@,
            bom_end(s, 0) == bom_end(s, a as int),
        decreases v.len() - a,
    {
        a += 1;
    }
    let mut b: usize = a;
    while b < v.len() && crate::text::is_whitespace(v[b])
        invariant
            a <= b <= v.len(),
            s == v@,
            skip_ws(s, a as int) == skip_ws(s, b as int),
        decreases v.len() - b,
    {
        b += 1;
    }
    let mut head: Vec<char> = Vec::new();
    let mut k: usize = b;
    while k < v.len() && k - b < 9
        invariant
            b <= k <= v.len(),
            k - b <= 9,
            s == v@,
            head@ == s.subrange(b as int, k as int).map_values(|c: char| lower_char(c)),
        decreases v.len() - k,
    {
        head.push(crate::text::to_lower_char(v[k]));
        k += 1;
        proof {
            assert(head@ =~= s.subrange(b as int, k as int).map_values(|c: char| lower_char(c)));
        }
    }
    proof {
        let t = s.skip(b as int);
        assert(t.take(if t.len() < 9 { t.len() as int } else { 9 }) =~= s.subrange(
            b as int,
            k as int,
        ));
        assert(head@ == document_head(s));
    }
    let mut doctype: Vec<char> = Vec::new();
    push_str(&mut doctype, "<!doctype");
    let mut html: Vec<char> = Vec::new();
    push_str(&mut html, "<html");
    begins_with(head.as_slice(), doctype.as_slice()) || begins_with(
        head.as_slice(),
        html.as_slice(),
    )
}

/// Why fetched text must not replace a list's last good copy, if it must
/// not: an HTML page; a misread parse; or, against a baseline that serves
/// DNS rules, no DNS rules at all, or under a tenth of a baseline of at least
/// `COLLAPSE_MIN_BASELINE` rules.
pub open spec fn rejection_text(
    text: Seq<char>,
    baseline: Option<RefreshStats>,
    stats: RefreshStats,
) -> Option<Seq<char>> {
    if spec_looks_like_html(text) {
        Some("html document"@)
    } else if spec_looks_misparsed(stats) {
        Some(
            "misparse: "@ + decimal_text(stats.parse_errors as nat) + " errors, "@ + decimal_text(
                total_rules(stats) as nat,
            ) + " rules"@,
        )
    } else {
        match baseline {
            None => None,
            Some(b) => if b.active == 0 {
                None
            } else if stats.active == 0 {
                Some("collapse: 0 dns rules vs baseline "@ + decimal_text(b.active as nat))
            } else if b.active + b.url < COLLAPSE_MIN_BASELINE {
                None
            } else if stats.active + stats.url < (b.active + b.url) / (COLLAPSE_FACTOR as int) {
                Some(
                    "collapse: "@ + decimal_text((stats.active + stats.url) as nat)
                        + " rules vs baseline "@ + decimal_text((b.active + b.url) as nat),
                )
            } else {
                None
            },
        }
    }
}

/// The refusal gate a fetched list passes before it is committed.
pub fn rejection_reason(text: &str, baseline: Option<&RefreshStats>, stats: &RefreshStats) -> (r:
    Option<String>)
    requires
        total_rules(*stats) <= usize::MAX,
        baseline matches Some(b) ==> b.active + b.url <= usize::MAX,
    ensures
        match r {
            Some(t) => rejection_text(
                text@,
                match baseline {
                    Some(b) => Some(*b),
                    None => None,
                },
                *stats,
            ) == Some(t@),
            None => rejection_text(
                text@,
                match baseline {
                    Some(b) => Some(*b),
                    None => None,
                },
                *stats,
            ) is None,
        },
{
    let mut out: Vec<char> = Vec::new();
    if looks_like_html_document(text) {
        push_str(&mut out, "html document");
        return Some(string_of(out.as_slice()));
    }
    if stats.looks_misparsed() {
        push_str(&mut out, "misparse: ");
        push_decimal(&mut out, stats.parse_errors as usize);
        push_str(&mut out, " errors, ");
        push_decimal(&mut out, stats.active + stats.url + stats.inactive);
        push_str(&mut out, " rules");
        return Some(string_of(out.as_slice()));
    }
    let b = match baseline {
        Some(b) => b,
        None => {
            return None;
        },
    };
    if b.active == 0 {
        return None;
    }
    if stats.active == 0 {
        push_str(&mut out, "collapse: 0 dns rules vs baseline ");
        push_decimal(&mut out, b.active);
        return Some(string_of(out.as_slice()));
    }
    let baseline_rules = b.active + b.url;
    if baseline_rules < COLLAPSE_MIN_BASELINE {
        return None;
    }
    let fetched = stats.active + stats.url;
    if fetched < baseline_rules / COLLAPSE_FACTOR {
        push_str(&mut out, "collapse: ");
        push_decimal(&mut out, fetched);
        push_str(&mut out, " rules vs baseline ");
        push_decimal(&mut out, baseline_rules);
        Some(string_of(out.as_slice()))
    } else {
        None
    }
}

// ─── Per-list records ─────────────────────────────────────────────────────

/// One list's refresh result in a batch.
#[derive(Debug, Clone)]
pub struct ListRefreshOutcome {
    pub id: Arc<str>,
    pub result: RefreshResult,
}

/// Per-list status.
#[derive(Debug, Clone, PartialEq)]
pub struct ListStatus {
    /// When this list last refreshed successfully.
    pub last_refreshed: Option<SystemTime>,
    pub last_result: RefreshResult,
    /// What this list contributes to the ruleset currently serving.
    pub compiled: Option<RefreshStats>,
}

impl Default for ListStatus {
    fn default() -> (r: Self)
        ensures
            r.last_refreshed is None,
            r.last_result is NeverAttempted,
            r.compiled is None,
    {
        ListStatus {
            last_refreshed: None,
            last_result: RefreshResult::NeverAttempted,
            compiled: None,
        }
    }
}

/// One configured list's identity and refresh policy.
#[derive(Debug, Clone, PartialEq, Eq)]
pub struct ListEntryView {
    pub id: String,
    pub url: String,
    pub enabled: bool,
    pub refresh_hours: Option<u32>,
}

/// The mutable settings of a list. `None` leaves a field untouched;
/// `Some(None)` for `refresh_hours` clears the override.
#[derive(Debug, Clone, Default, PartialEq, Eq)]
pub struct ListPatch {
    pub enabled: Option<bool>,
    pub refresh_hours: Option<Option<u32>>,
}

/// Download counters.
#[derive(Debug, Clone, Copy, Default, PartialEq, Eq)]
pub struct ListFetchStats {
    pub bodies: u64,
    pub not_modified: u64,
    pub bytes_fetched: u64,
}

// ─── Schedule and settings ────────────────────────────────────────────────

/// A stored override of `0` means "follow the default"; intervals are at
/// least one hour.
pub open spec fn spec_effective_hours(own: u32, default_hours: u32) -> u32 {
    let h = if own == 0 {
        default_hours
    } else {
        own
    };
    if h < 1 {
        1
    } else {
        h
    }
}

/// The hours between a list's refreshes.
pub fn effective_hours(own: u32, default_hours: u32) -> (h: u32)
    ensures
        h == spec_effective_hours(own, default_hours),
        h >= 1,
{
    let h = if own == 0 {
        default_hours
    } else {
        own
    };
    if h < 1 {
        1
    } else {
        h
    }
}

/// The interval between a list's refreshes, in seconds.
pub fn interval_secs(own: u32, default_hours: u32) -> (s: u64)
    ensures
        s == spec_effective_hours(own, default_hours) * 3600,
{
    (effective_hours(own, default_hours) as u64) * 3600
}

/// Whether a list is due: never attempted, or its interval has elapsed since
/// the last attempt (all in seconds on one monotonic clock).
pub fn is_due(last_attempted: Option<u64>, now: u64, interval: u64) -> (b: bool)
    ensures
        b == match last_attempted {
            None => true,
            Some(last) => now >= last + interval,
        },
{
    match last_attempted {
        None => true,
        Some(last) => match last.checked_add(interval) {
            Some(next) => now >= next,
            None => false,
        },
    }
}

/// The override as shown: `0` is no override.
pub fn shown_hours(stored: u32) -> (r: Option<u32>)
    ensures
        r == if stored == 0 {
            None::<u32>
        } else {
            Some(stored)
        },
{
    if stored == 0 {
        None
    } else {
        Some(stored)
    }
}

/// A list's record as shown.
pub fn entry_view(id: &str, url: &str, enabled: bool, stored_hours: u32) -> (v: ListEntryView)
    ensures
        v.id@ == id@,
        v.url@ == url@,
        v.enabled == enabled,
        v.refresh_hours == if stored_hours == 0 {
            None::<u32>
        } else {
            Some(stored_hours)
        },
{
    ListEntryView {
        id: string_of(crate::text::chars_of(id).as_slice()),
        url: string_of(crate::text::chars_of(url).as_slice()),
        enabled,
        refresh_hours: shown_hours(stored_hours),
    }
}

/// How fetching one list ended when it did not fail: new content committed
/// to the cache, or the same content as the cached copy.
#[derive(Debug, Clone, Copy, PartialEq, Eq)]
pub enum CommitOutcome {
    Committed,
    Unchanged,
}

/// A refresh pass recompiles exactly when some list committed new text.
pub fn needs_recompile(outcomes: &[Result<CommitOutcome, RefreshResult>]) -> (r: bool)
    ensures
        r == exists|i: int|
            0 <= i < outcomes@.len() && #[trigger] outcomes@[i] matches Ok(CommitOutcome::Committed),
{
    let mut k: usize = 0;
    while k < outcomes.len()
        invariant
            k <= outcomes@.len(),
            forall|i: int| 0 <= i < k ==> !(#[trigger] outcomes@[i] matches Ok(CommitOutcome::Committed)),
        decreases outcomes.len() - k,
    {
        match &outcomes[k] {
            Ok(CommitOutcome::Committed) => {
                return true;
            },
            _ => {},
        }
        k += 1;
    }
    false
}

/// The result a list's status records after a refresh pass. A committed list
/// reports the figures the pass's compile read off it; an unchanged one
/// keeps the figures of the compile that is serving it, else the pass's own;
/// a failure is its own result. Missing figures read as zero.
pub fn settled_result(
    outcome: Result<CommitOutcome, RefreshResult>,
    compiled: Option<RefreshStats>,
    serving: Option<RefreshStats>,
) -> (r: RefreshResult)
    ensures
        r == match outcome {
            Ok(CommitOutcome::Committed) => RefreshResult::Refreshed(
                match compiled {
                    Some(s) => s,
                    None => zero_stats(),
                },
            ),
            Ok(CommitOutcome::Unchanged) => RefreshResult::Refreshed(
                match serving {
                    Some(s) => s,
                    None => match compiled {
                        Some(s) => s,
                        None => zero_stats(),
                    },
                },
            ),
            Err(e) => e,
        },
{
    match outcome {
        Ok(CommitOutcome::Committed) => RefreshResult::Refreshed(
            match compiled {
                Some(s) => s,
                None => RefreshStats::default(),
            },
        ),
        Ok(CommitOutcome::Unchanged) => RefreshResult::Refreshed(
            match serving {
                Some(s) => s,
                None => match compiled {
                    Some(s) => s,
                    None => RefreshStats::default(),
                },
            },
        ),
        Err(e) => e,
    }
}

/// A list's settings after a patch, and whether its membership in the
/// ruleset changed (which needs a recompile).
pub fn apply_patch(enabled: bool, stored_hours: u32, patch: &ListPatch) -> (r: (bool, u32, bool))
    ensures
        r.0 == match patch.enabled {
            Some(e) => e,
            None => enabled,
        },
        r.1 == match patch.refresh_hours {
            Some(Some(h)) => h,
            Some(None) => 0,
            None => stored_hours,
        },
        r.2 == (r.0 != enabled),
{
    let now_enabled = match patch.enabled {
        Some(e) => e,
        None => enabled,
    };
    let hours = match patch.refresh_hours {
        Some(Some(h)) => h,
        Some(None) => 0,
        None => stored_hours,
    };
    (now_enabled, hours, now_enabled != enabled)
}

// ─── Compiling the enabled lists ─────────────────────────────────────────

/// The rules a list's text parses to, its format detected from the text.
pub open spec fn text_kinds(t: Seq<char>) -> Seq<RuleKindV> {
    line_rules(spec_detect_format(t), t, line_bounds(t))
}

/// A list's refresh figures, read off its text.
pub open spec fn text_stats(t: Seq<char>) -> RefreshStats {
    RefreshStats {
        active: count_kind(text_kinds(t), 0) as usize,
        url: count_kind(text_kinds(t), 1) as usize,
        inactive: count_kind(text_kinds(t), 2) as usize,
        parse_errors: error_count(line_errors(spec_detect_format(t), t, line_bounds(t)).len()),
    }
}

/// The builder after one more list, named `name`, visible to the policies
/// in `mask`.
pub open spec fn added_view(b: BuilderV, name: Seq<char>, mask: u16, kinds: Seq<RuleKindV>) -> BuilderV {
    add_kinds_view(
        BuilderV { list_names: b.list_names.push(name), list_masks: b.list_masks.push(mask), ..b },
        kinds,
        b.list_names.len() as u16,
    )
}

/// The domain tier compiled from `(name, text, policy mask)` lists, in order.
pub open spec fn compiled_view(lists: Seq<(Seq<char>, Seq<char>, u16)>) -> BuilderV
    decreases lists.len(),
{
    if lists.len() == 0 {
        BuilderV {
            rules: Seq::empty(),
            rule_masks: Seq::empty(),
            list_names: Seq::empty(),
            list_masks: Seq::empty(),
            duplicates: 0,
        }
    } else {
        added_view(
            compiled_view(lists.drop_last()),
            lists.last().0,
            lists.last().2,
            text_kinds(lists.last().1),
        )
    }
}

/// The URL tier compiled from the same lists.
pub open spec fn compiled_urls(lists: Seq<(Seq<char>, Seq<char>, u16)>) -> Seq<RecordV>
    decreases lists.len(),
{
    if lists.len() == 0 {
        Seq::empty()
    } else {
        url_fold(compiled_urls(lists.drop_last()), text_kinds(lists.last().1))
    }
}

/// How many rules the lists' texts parse to, all together.
pub open spec fn rules_in(lists: Seq<(Seq<char>, Seq<char>, u16)>) -> int
    decreases lists.len(),
{
    if lists.len() == 0 {
        0
    } else {
        rules_in(lists.drop_last()) + text_kinds(lists.last().1).len()
    }
}

proof fn lemma_rules_in_grows(lists: Seq<(Seq<char>, Seq<char>, u16)>, a: int, b: int)
    requires
        0 <= a <= b <= lists.len(),
    ensures
        rules_in(lists.take(a)) <= rules_in(lists.take(b)),
    decreases b - a,
{
    if a < b {
        lemma_rules_in_grows(lists, a, b - 1);
        assert(lists.take(b).drop_last() =~= lists.take(b - 1));
    }
}

/// `(name, text, policy mask)` triples as values.
pub open spec fn list_texts(lists: Seq<(String, String, u16)>) -> Seq<(Seq<char>, Seq<char>, u16)> {
    lists.map_values(|l: (String, String, u16)| (l.0@, l.1@, l.2))
}

/// `m` is the ruleset compiled from `lists`.
pub open spec fn compiled_from(m: Matcher, lists: Seq<(Seq<char>, Seq<char>, u16)>) -> bool {
    let b = compiled_view(lists);
    &&& m.rules() == b.rules
    &&& m.list_names() == b.list_names
    &&& m.masks() == kept_masks(b.rule_masks, b.list_masks)
    &&& m.duplicates() == b.duplicates
    &&& m.url_rules() == compiled_urls(lists)
}

/// Compiles `(name, text, policy mask)` lists into one ruleset, each list
/// visible to the policies its mask names, and reads each list's refresh
/// figures off the same parse.
///
/// The builder's duplicate index is sized once, from an upper bound on the
/// rules the texts can hold. The ruleset holds a prefix of the lists — all
/// of them unless one would take the builder past its integer limits (2^31
/// rules, 4 GiB of domain text), where compiling stops; every list's figures
/// are still returned. A list is left out only once the lists up to it
/// hold more than [`FRESH_BUILDER_ROOM`] rules.
pub fn compile_lists(lists: &Vec<(String, String, u16)>) -> (r: (Matcher, Vec<RefreshStats>))
    requires
        lists.len() < 0x1_0000,
    ensures
        r.0.wf(),
        r.1.len() == lists.len(),
        forall|i: int| 0 <= i < lists.len() ==> #[trigger] r.1[i] == text_stats(lists[i].1@),
        exists|k: int|
            0 <= k <= lists.len() && #[trigger] compiled_from(r.0, list_texts(lists@).take(k)) && (k
                < lists.len() ==> rules_in(list_texts(lists@).take(k + 1)) > FRESH_BUILDER_ROOM),
{
    let n = lists.len();
    let mut upper: usize = 0;
    let mut i: usize = 0;
    while i < n
        invariant
            n == lists.len(),
            i <= n,
        decreases n - i,
    {
        upper = upper.saturating_add(rule_upper_bound(lists[i].1.as_str()));
        i += 1;
    }
    let mut builder = MatcherBuilder::with_capacity(upper);
    let mut stats: Vec<RefreshStats> = Vec::new();
    let mut open = true;
    let ghost all = list_texts(lists@);
    let ghost mut k: int = 0;
    proof {
        assert(all.take(0) =~= Seq::<(Seq<char>, Seq<char>, u16)>::empty());
    }
    i = 0;
    while i < n
        invariant
            n == lists.len() < 0x1_0000,
            all == list_texts(lists@),
            i <= n,
            0 <= k <= i,
            open ==> k == i,
            !open ==> k < n && rules_in(all.take(k + 1)) > FRESH_BUILDER_ROOM,
            open && rules_in(all.take(i as int)) <= FRESH_BUILDER_ROOM ==> builder.room_for(
                (FRESH_BUILDER_ROOM - rules_in(all.take(i as int))) as nat,
            ),
            builder.wf(),
            builder.view() == compiled_view(all.take(k)),
            builder.url_rules() == compiled_urls(all.take(k)),
            builder.list_names().len() == k,
            stats.len() == i,
            forall|j: int| 0 <= j < i ==> #[trigger] stats@[j] == text_stats(lists@[j].1@),
        decreases n - i,
    {
        let parsed = crate::parse_rule_list(lists[i].1.as_str());
        let figures = RefreshStats::from(&parsed);
        stats.push(figures);
        let ghost t = all.take(i + 1);
        proof {
            assert(t.drop_last() =~= all.take(i as int));
            assert(t.last() == (lists@[i as int].0@, lists@[i as int].1@, lists@[i as int].2));
            assert(rules_in(t) == rules_in(all.take(i as int)) + parsed.rules@.len());
            if open && rules_in(t) <= FRESH_BUILDER_ROOM {
                builder.lemma_room_mono(
                    parsed.rules@.len() as nat,
                    (FRESH_BUILDER_ROOM - rules_in(all.take(i as int))) as nat,
                );
            }
        }
        if open && builder.has_room_for(parsed.rules.len()) {
            let ghost before = builder.view();
            let ghost before_urls = builder.url_rules();
            let ghost prev: MatcherBuilder = builder;
            builder.add_parsed_list_masked(lists[i].0.as_str(), &parsed, lists[i].2);
            proof {
                assert(before == compiled_view(all.take(k)));
                assert(builder.view() == compiled_view(t));
                if rules_in(t) <= FRESH_BUILDER_ROOM {
                    let m = (FRESH_BUILDER_ROOM - rules_in(t)) as nat;
                    assert(prev.room_for(m + parsed.rules@.len() as nat));
                    assert(builder.room_for(m));
                }
                k = k + 1;
            }
        } else {
            proof {
                if open {
                    lemma_rules_in_grows(all, i as int, i + 1);
                }
            }
            open = false;
        }
        i += 1;
    }
    let m = builder.build();
    proof {
        let b = compiled_view(all.take(k));
        assert(m.rules() == b.rules);
        assert(compiled_from(m, all.take(k)));
    }
    (m, stats)
}

// ─── Laws ─────────────────────────────────────────────────────────────────

/// Law: a parse is a misread only when its errors reach the floor of a
/// hundred and outnumber all its rules, URL rules included; and every such
/// parse is one.
pub proof fn lemma_misread_means_errors_outnumber_rules(s: RefreshStats)
    ensures
        spec_looks_misparsed(s) ==> s.parse_errors >= 100 && s.parse_errors > s.active + s.url
            + s.inactive,
        s.parse_errors >= 100 && s.parse_errors > s.active + s.url + s.inactive ==> spec_looks_misparsed(
            s,
        ),
        s.parse_errors <= s.url ==> !spec_looks_misparsed(s),
{
}

/// Law: fetched text that is no HTML page, parsed with no more errors than
/// rules (URL rules counted), is never refused when there is no baseline.
pub proof fn lemma_few_errors_are_line_noise(text: Seq<char>, s: RefreshStats)
    requires
        !spec_looks_like_html(text),
        s.parse_errors <= s.active + s.url + s.inactive,
    ensures
        rejection_text(text, None, s) is None,
{
}

/// Law: a list's own nonzero interval is its interval whatever the default
/// is; a zero override follows the default, and no interval is under an
/// hour.
pub proof fn lemma_override_sets_the_interval(own: u32, default_hours: u32)
    ensures
        own != 0 ==> spec_effective_hours(own, default_hours) == own,
        own == 0 && default_hours >= 1 ==> spec_effective_hours(own, default_hours) == default_hours,
        own == 0 && default_hours == 0 ==> spec_effective_hours(own, default_hours) == 1,
{
}

} // verus!
