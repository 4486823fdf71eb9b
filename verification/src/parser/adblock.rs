//! EasyList / uBlock Origin / AdGuard format parser — one syntax family, one
//! parser. AdGuard's DNS options (`$dnstype`, `$dnsrewrite`, `$client`) are
//! recognized here, not treated as a separate format.
//!
//! A line is classified into the tier that can actually answer it:
//!
//! - **domain tier** — `||domain^`, optionally with DNS-safe options. Answers
//!   a DNS question.
//! - **URL tier** — everything else that addresses a request: path
//!   qualifiers, wildcards, non-anchored substrings, and the HTTP `$options`.
//!   Its pattern text is retained, because unlike a domain rule there is
//!   nothing to reconstruct it from.
//! - **inactive** — cosmetic rules, and patterns or options no supported
//!   syntax can express.
//!
//! The domain tier is tried first and is deliberately narrow: only a rule that
//! is *purely* about a name stays there. `||paypal.com^*/pixel.gif` addresses a
//! URL, and treating it as a domain rule would block all of PayPal.

use vstd::prelude::*;

use crate::client::{spec_parse_scope, ClientScope};
use crate::domain::{normalize_domain_range, spec_normalize_domain};
use crate::format::RuleFormat;
use crate::parser::parse_chars;
use crate::resource::{option_bit, spec_option_bit, ALL_TYPES};
use crate::rule::{
    opt_view, DomainOpts, DomainRule, DomainRuleV, InactiveReason, ParsedRule, Party, RuleAction,
    RuleKind, RuleKindV, UrlAnchor, UrlRule, UrlRuleV,
};
use crate::rule_list::{kinds_of, lemma_kinds_push, ParsedRuleList};
use crate::text::{
    any_ascii_ws, boxed_of_range, chars_of, copy_of, eq_chars, has_ascii_ws, into_boxed,
    lemma_trim_shift, lower_seq, lowered_string_of_range, occurs_at, piece_end, sep_end, split_from,
    starts_with, trim_bounds, trim_range, upper_seq, uppered_string_of_range, utf8_len,
    utf8_len_exceeds,
};

verus! {

// ─── Option names ─────────────────────────────────────────────────────────

pub open spec fn opt_dnstype() -> Seq<char> {
    seq!['d', 'n', 's', 't', 'y', 'p', 'e']
}

pub open spec fn opt_dnsrewrite() -> Seq<char> {
    seq!['d', 'n', 's', 'r', 'e', 'w', 'r', 'i', 't', 'e']
}

pub open spec fn opt_client() -> Seq<char> {
    seq!['c', 'l', 'i', 'e', 'n', 't']
}

pub open spec fn opt_third_party() -> Seq<char> {
    seq!['t', 'h', 'i', 'r', 'd', '-', 'p', 'a', 'r', 't', 'y']
}

pub open spec fn opt_three_p() -> Seq<char> {
    seq!['3', 'p']
}

pub open spec fn opt_first_party() -> Seq<char> {
    seq!['f', 'i', 'r', 's', 't', '-', 'p', 'a', 'r', 't', 'y']
}

pub open spec fn opt_one_p() -> Seq<char> {
    seq!['1', 'p']
}

pub open spec fn opt_domain() -> Seq<char> {
    seq!['d', 'o', 'm', 'a', 'i', 'n']
}

pub open spec fn opt_from() -> Seq<char> {
    seq!['f', 'r', 'o', 'm']
}

pub open spec fn opt_method() -> Seq<char> {
    seq!['m', 'e', 't', 'h', 'o', 'd']
}

pub open spec fn opt_match_case() -> Seq<char> {
    seq!['m', 'a', 't', 'c', 'h', '-', 'c', 'a', 's', 'e']
}

// ─── What a line means ────────────────────────────────────────────────────

/// A cosmetic marker (`##`, `#@#`, `#?#`, `#$#`) starts at `k`.
pub open spec fn marker_at(l: Seq<char>, k: int) -> bool {
    ||| occurs_at(l, seq!['#', '#'], k)
    ||| occurs_at(l, seq!['#', '@', '#'], k)
    ||| occurs_at(l, seq!['#', '?', '#'], k)
    ||| occurs_at(l, seq!['#', '$', '#'], k)
}

/// Where the first cosmetic marker of `l` starts, if any.
#[verifier::opaque]
pub open spec fn first_marker(l: Seq<char>) -> Option<int> {
    if exists|k: int| marker_at(l, k) {
        Some(choose|k: int| marker_at(l, k) && forall|j: int| 0 <= j < k ==> !marker_at(l, j))
    } else {
        None
    }
}

/// A `$` at `k` that is not escaped by a `\` before it.
pub open spec fn option_dollar(b: Seq<char>, k: int) -> bool {
    0 <= k < b.len() && b[k] == '$' && (k == 0 || b[k - 1] != '\\')
}

/// The last unescaped `$` of `b`, if any.
#[verifier::opaque]
pub open spec fn last_option_dollar(b: Seq<char>) -> Option<int> {
    if exists|k: int| option_dollar(b, k) {
        Some(choose|k: int| option_dollar(b, k) && forall|j: int| k < j < b.len() ==> !option_dollar(b, j))
    } else {
        None
    }
}

/// `pattern$options` split at the last unescaped `$`; no options without one.
pub open spec fn spec_split_options(b: Seq<char>) -> (Seq<char>, Seq<char>) {
    match last_option_dollar(b) {
        Some(k) => (b.take(k), b.skip(k + 1)),
        None => (b, Seq::empty()),
    }
}

/// The options of a rule, as they accumulate over its `$` list.
pub struct OptsV {
    pub dns_types: Option<Seq<char>>,
    pub dns_rewrite: Option<Seq<char>>,
    pub client: Option<Seq<char>>,
    pub party: Party,
    pub resource_types: u16,
    pub domains: Option<Seq<char>>,
    pub methods: Option<Seq<char>>,
    pub match_case: bool,
    pub http_scoped: bool,
    pub unsupported: bool,
    pub positive: u16,
    pub negated: u16,
    pub saw_type: bool,
}

pub open spec fn opts_init() -> OptsV {
    OptsV {
        dns_types: None,
        dns_rewrite: None,
        client: None,
        party: Party::Any,
        resource_types: 0,
        domains: None,
        methods: None,
        match_case: false,
        http_scoped: false,
        unsupported: false,
        positive: 0,
        negated: 0,
        saw_type: false,
    }
}

/// The option `name` (with its value, and `~` stripped into `negated`)
/// applied to `o`. A resource type narrows to requests; `dnstype` and
/// `dnsrewrite` keep their value (the last one wins); `client` keeps a value
/// that compiles to a scope and is otherwise unsupported; the party, domain,
/// method and case options are HTTP-scoped; `domain` and `method` without a
/// value, and every other name, are unsupported.
pub open spec fn apply_named(o: OptsV, name: Seq<char>, value: Option<Seq<char>>, negated: bool) -> OptsV {
    match spec_option_bit(name) {
        Some(bit) => OptsV {
            saw_type: true,
            http_scoped: true,
            negated: if negated { o.negated | bit } else { o.negated },
            positive: if negated { o.positive } else { o.positive | bit },
            ..o
        },
        None => apply_dns_option(o, name, value, negated),
    }
}

/// The DNS-safe options, then [`apply_party_option`].
pub open spec fn apply_dns_option(o: OptsV, name: Seq<char>, value: Option<Seq<char>>, negated: bool) -> OptsV {
    if name == opt_dnstype() {
        OptsV { dns_types: value, ..o }
    } else if name == opt_dnsrewrite() {
        OptsV { dns_rewrite: value, ..o }
    } else if name == opt_client() {
        match value {
            Some(v) => if spec_parse_scope(v).is_some() {
                OptsV { client: Some(v), ..o }
            } else {
                OptsV { unsupported: true, ..o }
            },
            None => OptsV { unsupported: true, ..o },
        }
    } else {
        apply_party_option(o, name, value, negated)
    }
}

/// The party options, then [`apply_http_option`].
pub open spec fn apply_party_option(o: OptsV, name: Seq<char>, value: Option<Seq<char>>, negated: bool) -> OptsV {
    if name == opt_third_party() || name == opt_three_p() {
        OptsV { http_scoped: true, party: if negated { Party::First } else { Party::Third }, ..o }
    } else if name == opt_first_party() || name == opt_one_p() {
        OptsV { http_scoped: true, party: if negated { Party::Third } else { Party::First }, ..o }
    } else {
        apply_http_option(o, name, value, negated)
    }
}

/// The remaining HTTP options; any other name is unsupported.
pub open spec fn apply_http_option(o: OptsV, name: Seq<char>, value: Option<Seq<char>>, negated: bool) -> OptsV {
    if name == opt_domain() || name == opt_from() {
        match value {
            Some(v) => if v.len() > 0 {
                OptsV { http_scoped: true, domains: Some(lower_seq(v)), ..o }
            } else {
                OptsV { http_scoped: true, unsupported: true, ..o }
            },
            None => OptsV { http_scoped: true, unsupported: true, ..o },
        }
    } else if name == opt_method() {
        match value {
            Some(v) => if v.len() > 0 {
                OptsV { http_scoped: true, methods: Some(upper_seq(v)), ..o }
            } else {
                OptsV { http_scoped: true, unsupported: true, ..o }
            },
            None => OptsV { http_scoped: true, unsupported: true, ..o },
        }
    } else if name == opt_match_case() {
        OptsV { http_scoped: true, match_case: !negated, ..o }
    } else {
        OptsV { http_scoped: true, unsupported: true, ..o }
    }
}

/// One `,`-separated option token applied to `o`: trimmed, split at its
/// first `=` into name and value, a leading `~` negating the name. `None`
/// for an empty token.
pub open spec fn apply_option(o: OptsV, tok: Seq<char>) -> Option<OptsV> {
    let (a, b) = trim_bounds(tok, 0, tok.len() as int);
    let t = tok.subrange(a, b);
    if t.len() == 0 {
        None
    } else {
        let k = sep_end(t, 0, '=');
        let name = t.take(k);
        let value = if k < t.len() {
            Some(t.skip(k + 1))
        } else {
            None
        };
        if name.len() > 0 && name[0] == '~' {
            Some(apply_named(o, name.skip(1), value, true))
        } else {
            Some(apply_named(o, name, value, false))
        }
    }
}

/// The options of the first `pieces` of `raw`, in order.
pub open spec fn fold_options(raw: Seq<char>, pieces: Seq<(int, int)>) -> Option<OptsV>
    decreases pieces.len(),
{
    if pieces.len() == 0 {
        Some(opts_init())
    } else {
        match fold_options(raw, pieces.drop_last()) {
            None => None,
            Some(o) => apply_option(o, raw.subrange(pieces.last().0, pieces.last().1)),
        }
    }
}

/// Folds the resource types: a purely negated set subtracts from every type,
/// a mixed one intersects; a set that folds to nothing is unsupported.
pub open spec fn finish(o: OptsV) -> OptsV {
    if o.saw_type {
        let rt = if o.positive == 0 {
            ALL_TYPES & !o.negated
        } else {
            o.positive & !o.negated
        };
        OptsV { resource_types: rt, unsupported: o.unsupported || rt == 0, ..o }
    } else {
        o
    }
}

/// What a rule's option list compiles to; `None` when a token is empty.
pub open spec fn spec_parse_options(raw: Seq<char>) -> Option<OptsV> {
    if raw.len() == 0 {
        Some(opts_init())
    } else {
        match fold_options(raw, split_from(raw, 0, ',')) {
            Some(o) => Some(finish(o)),
            None => None,
        }
    }
}


/// The option-free text of a line split into pattern and options, both
/// before any tier is tried.
pub open spec fn stop_at(s: Seq<char>, from: int) -> int
    decreases s.len() - from,
{
    if from >= s.len() || s[from] == '^' || s[from] == '/' {
        from
    } else {
        stop_at(s, from + 1)
    }
}

/// How the domain tier reads a pattern.
pub enum DomainVerdictV {
    /// `||domain^` naming `domain`, with whether subdomains match too.
    Rule(Seq<char>, bool),
    /// `||^` and `||/path` name nothing.
    Malformed,
    NotADomainRule,
}

/// Whether `pattern` is *purely* about a name: `||domain`, then nothing,
/// `^`, or `^|` (which anchors the end, so subdomains do not match). An
/// HTTP-scoped option makes any pattern a request rule.
#[verifier::opaque]
pub open spec fn domain_verdict(pattern: Seq<char>, http_scoped: bool) -> DomainVerdictV {
    if !starts_with(pattern, seq!['|', '|']) {
        DomainVerdictV::NotADomainRule
    } else {
        let aa = pattern.skip(2);
        let end = stop_at(aa, 0);
        if end == 0 {
            DomainVerdictV::Malformed
        } else {
            match spec_normalize_domain(aa.take(end)) {
                None => DomainVerdictV::NotADomainRule,
                Some(d) => {
                    let rest = aa.skip(end);
                    if http_scoped {
                        DomainVerdictV::NotADomainRule
                    } else if rest.len() == 0 || rest == seq!['^'] {
                        DomainVerdictV::Rule(d, true)
                    } else if rest == seq!['^', '|'] {
                        DomainVerdictV::Rule(d, false)
                    } else {
                        DomainVerdictV::NotADomainRule
                    }
                },
            }
        }
    }
}

pub open spec fn action_of(exception: bool) -> RuleAction {
    if exception {
        RuleAction::Allow
    } else {
        RuleAction::Block
    }
}

/// The domain rule for `d` with the DNS-safe options of `o`.
pub open spec fn domain_rule_view(d: Seq<char>, exception: bool, subdomains: bool, o: OptsV) -> DomainRuleV {
    DomainRuleV {
        domain: d,
        action: action_of(exception),
        include_subdomains: subdomains,
        has_opts: o.dns_types.is_some() || o.dns_rewrite.is_some() || o.client.is_some(),
        dns_types: o.dns_types,
        dns_rewrite: o.dns_rewrite,
        client: o.client,
    }
}

/// The anchor of a URL pattern, its body, and whether a trailing `|` anchors
/// its end.
pub open spec fn url_parts(pattern: Seq<char>) -> (UrlAnchor, Seq<char>, bool) {
    let (anchor, b1) = if starts_with(pattern, seq!['|', '|']) {
        (UrlAnchor::Domain, pattern.skip(2))
    } else if starts_with(pattern, seq!['|']) {
        (UrlAnchor::Start, pattern.skip(1))
    } else {
        (UrlAnchor::Anywhere, pattern)
    };
    if b1.len() > 0 && b1.last() == '|' {
        (anchor, b1.drop_last(), true)
    } else {
        (anchor, b1, false)
    }
}

/// The longest payload the compiled record addresses, in bytes.
pub const MAX_PAYLOAD: usize = 65535;

/// What the domain tier rejected, compiled into a URL-tier rule — or
/// inactive when no supported syntax expresses it: a `/regex/` literal, an
/// empty pattern (which would match every URL), or a pattern or `$domain`
/// payload longer than [`MAX_PAYLOAD`] bytes. The pattern is lower-cased
/// unless `$match-case`.
#[verifier::opaque]
pub open spec fn url_kind(pattern: Seq<char>, exception: bool, o: OptsV) -> RuleKindV {
    if pattern.len() > 2 && pattern[0] == '/' && pattern.last() == '/' {
        RuleKindV::Inactive(InactiveReason::Unsupported)
    } else {
        let (anchor, body, end_anchored) = url_parts(pattern);
        if body.len() == 0 {
            RuleKindV::Inactive(InactiveReason::Unsupported)
        } else if utf8_len(body) > MAX_PAYLOAD || (match o.domains {
            Some(d) => utf8_len(d) > MAX_PAYLOAD,
            None => false,
        }) {
            RuleKindV::Inactive(InactiveReason::Unsupported)
        } else {
            RuleKindV::Url(
                UrlRuleV {
                    pattern: if o.match_case {
                        body
                    } else {
                        lower_seq(body)
                    },
                    action: action_of(exception),
                    anchor,
                    end_anchored,
                    match_case: o.match_case,
                    party: o.party,
                    resource_types: o.resource_types,
                    domains: o.domains,
                    methods: o.methods,
                    client: o.client,
                },
            )
        }
    }
}

/// A rule line (`@@` exception or not) once comments and cosmetic rules are
/// ruled out: its options are parsed first, an unsupported one makes the
/// rule inactive, then the domain tier is tried, then the URL tier — a
/// pattern holding ASCII whitespace being no rule of either.
#[verifier::opaque]
pub open spec fn rule_text(l: Seq<char>) -> (Seq<RuleKindV>, bool) {
    let exception = starts_with(l, seq!['@', '@']);
    let body = if exception {
        l.skip(2)
    } else {
        l
    };
    let (pattern, options) = spec_split_options(body);
    match spec_parse_options(options) {
        None => (Seq::empty(), true),
        Some(o) => compiled(pattern, exception, o),
    }
}

/// What a pattern gives once its options `o` parsed.
#[verifier::opaque]
pub open spec fn compiled(pattern: Seq<char>, exception: bool, o: OptsV) -> (Seq<RuleKindV>, bool) {
    if o.unsupported {
        (seq![RuleKindV::Inactive(InactiveReason::Unsupported)], false)
    } else {
        match domain_verdict(pattern, o.http_scoped) {
            DomainVerdictV::Rule(d, subdomains) => (
                seq![RuleKindV::Active(domain_rule_view(d, exception, subdomains, o))],
                false,
            ),
            DomainVerdictV::Malformed => (Seq::empty(), true),
            DomainVerdictV::NotADomainRule => if has_ascii_ws(pattern) {
                (Seq::empty(), true)
            } else {
                (seq![url_kind(pattern, exception, o)], false)
            },
        }
    }
}

/// What a trimmed adblock line gives. Blank, `!` and `[` lines nothing; a
/// line with a cosmetic marker an inactive rule, or an error when ASCII
/// whitespace comes before the marker; a `#` line without one is a comment;
/// anything else is a rule line.
pub open spec fn adblock_text(l: Seq<char>) -> (Seq<RuleKindV>, bool) {
    if l.len() == 0 || l[0] == '!' || l[0] == '[' {
        (Seq::empty(), false)
    } else {
        match first_marker(l) {
            Some(at) => cosmetic(l, at),
            None => if l[0] == '#' {
                (Seq::empty(), false)
            } else {
                rule_text(l)
            },
        }
    }
}

/// A cosmetic rule whose marker starts at `at`: inactive, or an error when
/// ASCII whitespace comes before the marker.
pub open spec fn cosmetic(l: Seq<char>, at: int) -> (Seq<RuleKindV>, bool) {
    if has_ascii_ws(l.take(at)) {
        (Seq::empty(), true)
    } else {
        (seq![RuleKindV::Inactive(InactiveReason::Cosmetic)], false)
    }
}

/// What one adblock line gives — see [`adblock_text`].
pub open spec fn adblock_line(s: Seq<char>, line: (int, int)) -> (Seq<RuleKindV>, bool) {
    let (a, b) = trim_bounds(s, line.0, line.1);
    adblock_text(s.subrange(a, b))
}

// ─── Options ──────────────────────────────────────────────────────────────

/// The options of one rule.
struct Options {
    dns_types: Option<Box<str>>,
    dns_rewrite: Option<Box<str>>,
    /// Raw `$client` payload, kept on whichever tier's rule carries it.
    client: Option<Box<str>>,
    party: Party,
    resource_types: u16,
    domains: Option<Box<str>>,
    methods: Option<Box<str>>,
    match_case: bool,
    /// Carries an option only a request can answer, so the rule cannot be a
    /// domain rule however name-shaped its pattern is.
    http_scoped: bool,
    /// Carries an option no tier can honor. The rule is dropped rather than
    /// applied without its restriction, which would over-block.
    unsupported: bool,
    positive: u16,
    negated: u16,
    saw_type: bool,
}

impl View for Options {
    type V = OptsV;

    closed spec fn view(&self) -> OptsV {
        OptsV {
            dns_types: opt_view(self.dns_types),
            dns_rewrite: opt_view(self.dns_rewrite),
            client: opt_view(self.client),
            party: self.party,
            resource_types: self.resource_types,
            domains: opt_view(self.domains),
            methods: opt_view(self.methods),
            match_case: self.match_case,
            http_scoped: self.http_scoped,
            unsupported: self.unsupported,
            positive: self.positive,
            negated: self.negated,
            saw_type: self.saw_type,
        }
    }
}

fn new_options() -> (o: Options)
    ensures
        o@ == opts_init(),
{
    Options {
        dns_types: None,
        dns_rewrite: None,
        client: None,
        party: Party::Any,
        resource_types: 0,
        domains: None,
        methods: None,
        match_case: false,
        http_scoped: false,
        unsupported: false,
        positive: 0,
        negated: 0,
        saw_type: false,
    }
}

/// The value after the `=` at `k` of `t`, if there is one.
fn value_box(t: &[char], k: usize) -> (r: Option<Box<str>>)
    requires
        k <= t.len(),
    ensures
        opt_view(r) == (if k < t.len() {
            Some(t@.skip(k + 1))
        } else {
            None::<Seq<char>>
        }),
{
    if k < t.len() {
        let b = boxed_of_range(t, k + 1, t.len());
        proof {
            assert(t@.subrange(k + 1, t.len() as int) =~= t@.skip(k + 1));
        }
        Some(b)
    } else {
        None
    }
}

/// Applies the option `name` of token `t`, whose `=` (if any) is at `k`.
fn apply_named_exec(o: &mut Options, name: &[char], t: &[char], k: usize, negated: bool)
    requires
        k <= t.len(),
    ensures
        final(o)@ == apply_named(
            old(o)@,
            name@,
            if k < t.len() {
                Some(t@.skip(k + 1))
            } else {
                None
            },
            negated,
        ),
{
    if let Some(bit) = option_bit(name) {
        o.saw_type = true;
        o.http_scoped = true;
        if negated {
            o.negated = o.negated | bit;
        } else {
            o.positive = o.positive | bit;
        }
        return;
    }
    apply_dns_exec(o, name, t, k, negated);
}

fn apply_dns_exec(o: &mut Options, name: &[char], t: &[char], k: usize, negated: bool)
    requires
        k <= t.len(),
    ensures
        final(o)@ == apply_dns_option(
            old(o)@,
            name@,
            if k < t.len() {
                Some(t@.skip(k + 1))
            } else {
                None
            },
            negated,
        ),
{
    proof {
        if k < t.len() {
            assert(t@.subrange(k + 1, t.len() as int) =~= t@.skip(k + 1));
        }
    }
    let n_dnstype = ['d', 'n', 's', 't', 'y', 'p', 'e'];
    proof {
        assert(n_dnstype@ == opt_dnstype());
    }
    let n_dnsrewrite = ['d', 'n', 's', 'r', 'e', 'w', 'r', 'i', 't', 'e'];
    proof {
        assert(n_dnsrewrite@ == opt_dnsrewrite());
    }
    let n_client = ['c', 'l', 'i', 'e', 'n', 't'];
    proof {
        assert(n_client@ == opt_client());
    }
    if eq_chars(name, n_dnstype.as_slice()) {
        o.dns_types = value_box(t, k);
    } else if eq_chars(name, n_dnsrewrite.as_slice()) {
        o.dns_rewrite = value_box(t, k);
    } else if eq_chars(name, n_client.as_slice()) {
        if k < t.len() {
            match ClientScope::parse_chars(t, k + 1, t.len()) {
                Some(_) => {
                    o.client = Some(boxed_of_range(t, k + 1, t.len()));
                },
                None => {
                    o.unsupported = true;
                },
            }
        } else {
            o.unsupported = true;
        }
    } else {
        apply_party_exec(o, name, t, k, negated);
    }
}

fn apply_party_exec(o: &mut Options, name: &[char], t: &[char], k: usize, negated: bool)
    requires
        k <= t.len(),
    ensures
        final(o)@ == apply_party_option(
            old(o)@,
            name@,
            if k < t.len() {
                Some(t@.skip(k + 1))
            } else {
                None
            },
            negated,
        ),
{
    let n_third_party = ['t', 'h', 'i', 'r', 'd', '-', 'p', 'a', 'r', 't', 'y'];
    proof {
        assert(n_third_party@ == opt_third_party());
    }
    let n_three_p = ['3', 'p'];
    proof {
        assert(n_three_p@ == opt_three_p());
    }
    let n_first_party = ['f', 'i', 'r', 's', 't', '-', 'p', 'a', 'r', 't', 'y'];
    proof {
        assert(n_first_party@ == opt_first_party());
    }
    let n_one_p = ['1', 'p'];
    proof {
        assert(n_one_p@ == opt_one_p());
    }
    if eq_chars(name, n_third_party.as_slice()) || eq_chars(name, n_three_p.as_slice()) {
        o.http_scoped = true;
        o.party = if negated {
            Party::First
        } else {
            Party::Third
        };
    } else if eq_chars(name, n_first_party.as_slice()) || eq_chars(name, n_one_p.as_slice()) {
        o.http_scoped = true;
        o.party = if negated {
            Party::Third
        } else {
            Party::First
        };
    } else {
        apply_http_exec(o, name, t, k, negated);
    }
}

fn apply_http_exec(o: &mut Options, name: &[char], t: &[char], k: usize, negated: bool)
    requires
        k <= t.len(),
    ensures
        final(o)@ == apply_http_option(
            old(o)@,
            name@,
            if k < t.len() {
                Some(t@.skip(k + 1))
            } else {
                None
            },
            negated,
        ),
{
    proof {
        if k < t.len() {
            assert(t@.subrange(k + 1, t.len() as int) =~= t@.skip(k + 1));
        }
    }
    let n_domain = ['d', 'o', 'm', 'a', 'i', 'n'];
    proof {
        assert(n_domain@ == opt_domain());
    }
    let n_from = ['f', 'r', 'o', 'm'];
    proof {
        assert(n_from@ == opt_from());
    }
    let n_method = ['m', 'e', 't', 'h', 'o', 'd'];
    proof {
        assert(n_method@ == opt_method());
    }
    let n_match_case = ['m', 'a', 't', 'c', 'h', '-', 'c', 'a', 's', 'e'];
    proof {
        assert(n_match_case@ == opt_match_case());
    }
    if eq_chars(name, n_domain.as_slice()) || eq_chars(name, n_from.as_slice()) {
        o.http_scoped = true;
        if k < t.len() && k + 1 < t.len() {
            o.domains = Some(folded(t, k + 1, t.len(), AsciiCase::Lower));
        } else {
            o.unsupported = true;
        }
    } else if eq_chars(name, n_method.as_slice()) {
        o.http_scoped = true;
        if k < t.len() && k + 1 < t.len() {
            o.methods = Some(folded(t, k + 1, t.len(), AsciiCase::Upper));
        } else {
            o.unsupported = true;
        }
    } else if eq_chars(name, n_match_case.as_slice()) {
        o.http_scoped = true;
        o.match_case = !negated;
    } else {
        o.http_scoped = true;
        o.unsupported = true;
    }
}

/// The ASCII case a payload is folded to before it is stored, so matching can
/// compare without folding either side.
#[derive(Clone, Copy)]
enum AsciiCase {
    Lower,
    Upper,
}

/// `v[from..to]` folded to `case`.
fn folded(v: &[char], from: usize, to: usize, case: AsciiCase) -> (r: Box<str>)
    requires
        from <= to <= v.len(),
    ensures
        r@ == match case {
            AsciiCase::Lower => lower_seq(v@.subrange(from as int, to as int)),
            AsciiCase::Upper => upper_seq(v@.subrange(from as int, to as int)),
        },
{
    match case {
        AsciiCase::Lower => into_boxed(lowered_string_of_range(v, from, to)),
        AsciiCase::Upper => into_boxed(uppered_string_of_range(v, from, to)),
    }
}

/// Applies the option token `raw[from..to]`; `false` when it is empty.
fn apply_option_exec(o: &mut Options, raw: &[char], from: usize, to: usize) -> (ok: bool)
    requires
        from <= to <= raw.len(),
    ensures
        ok == apply_option(old(o)@, raw@.subrange(from as int, to as int)).is_some(),
        ok ==> apply_option(old(o)@, raw@.subrange(from as int, to as int)) == Some(final(o)@),
{
    let ghost tok = raw@.subrange(from as int, to as int);
    let (a, b) = trim_range(raw, from, to);
    proof {
        lemma_trim_shift(raw@, from as int, to as int);
        assert(trim_bounds(tok, 0, tok.len() as int) == ((a - from) as int, (b - from) as int));
    }
    if a == b {
        return false;
    }
    let t = copy_of(raw, a, b);
    proof {
        assert(tok.subrange((a - from) as int, (b - from) as int) =~= t@);
        assert(t@.subrange(0, t@.len() as int) =~= t@);
    }
    let k = piece_end(t.as_slice(), 0, t.len(), '=');
    let negated = k > 0 && t[0] == '~';
    let name_from: usize = if negated {
        1
    } else {
        0
    };
    let name = &t[name_from..k];
    proof {
        if negated {
            assert(name@ =~= t@.take(k as int).skip(1));
        } else {
            assert(name@ =~= t@.take(k as int));
        }
    }
    apply_named_exec(o, name, t.as_slice(), k, negated);
    true
}

proof fn lemma_fold_none_sticks(raw: Seq<char>, done: Seq<(int, int)>, rest: Seq<(int, int)>)
    requires
        fold_options(raw, done).is_none(),
    ensures
        fold_options(raw, done + rest).is_none(),
    decreases rest.len(),
{
    if rest.len() == 0 {
        assert(done + rest =~= done);
    } else {
        lemma_fold_none_sticks(raw, done, rest.drop_last());
        assert((done + rest).drop_last() =~= done + rest.drop_last());
    }
}

/// Folds the resource types — see [`finish`].
fn finish_exec(o: &mut Options)
    ensures
        final(o)@ == finish(old(o)@),
{
    if o.saw_type {
        let rt: u16 = if o.positive == 0 {
            ALL_TYPES & !o.negated
        } else {
            o.positive & !o.negated
        };
        o.resource_types = rt;
        o.unsupported = o.unsupported || rt == 0;
    }
}

/// Splits `$option,option=value,...` and recognizes the DNS-safe subset
/// plus the HTTP subset — see [`spec_parse_options`]. `None` when a token is
/// empty.
fn parse_options(raw: &[char]) -> (r: Option<Options>)
    ensures
        match r {
            Some(o) => spec_parse_options(raw@) == Some(o@),
            None => spec_parse_options(raw@).is_none(),
        },
{
    let mut o = new_options();
    if raw.len() == 0 {
        return Some(o);
    }
    proof {
        assert(raw@.subrange(0, raw@.len() as int) =~= raw@);
    }
    let ghost mut done: Seq<(int, int)> = Seq::empty();
    let mut at: usize = 0;
    loop
        invariant
            at <= raw.len(),
            raw.len() > 0,
            raw@.subrange(0, raw@.len() as int) == raw@,
            split_from(raw@, 0, ',') == done + split_from(raw@, at as int, ','),
            fold_options(raw@, done) == Some(o@),
        decreases raw.len() - at,
    {
        let e = piece_end(raw, at, raw.len(), ',');
        let ok = apply_option_exec(&mut o, raw, at, e);
        let ghost prev = done;
        proof {
            done = done.push((at as int, e as int));
            assert(done.drop_last() =~= prev);
            assert(done.last() == (at as int, e as int));
        }
        if !ok {
            proof {
                assert(fold_options(raw@, done).is_none());
                if e >= raw.len() {
                    assert(split_from(raw@, 0, ',') =~= done);
                } else {
                    let rest = split_from(raw@, e + 1, ',');
                    assert(split_from(raw@, 0, ',') =~= done + rest);
                    lemma_fold_none_sticks(raw@, done, rest);
                }
            }
            return None;
        }
        if e >= raw.len() {
            proof {
                assert(split_from(raw@, 0, ',') =~= done);
            }
            finish_exec(&mut o);
            return Some(o);
        }
        proof {
            assert(split_from(raw@, 0, ',') =~= done + split_from(raw@, e + 1, ','));
        }
        at = e + 1;
    }
}


// ─── Lines ────────────────────────────────────────────────────────────────

/// Whether a cosmetic marker starts at `k` of `l`.
fn marker_at_exec(l: &[char], k: usize) -> (b: bool)
    requires
        k < l.len(),
    ensures
        b == marker_at(l@, k as int),
{
    let n = l.len();
    let ghost s = l@;
    if l[k] != '#' {
        proof {
            if marker_at(s, k as int) {
                assert(s.subrange(k as int, k + 2)[0] == s[k as int]);
            }
        }
        return false;
    }
    if k + 1 < n && l[k + 1] == '#' {
        proof {
            assert(s.subrange(k as int, k + 2) =~= seq!['#', '#']);
        }
        return true;
    }
    if k + 1 < n && k + 2 < n && (l[k + 1] == '@' || l[k + 1] == '?' || l[k + 1] == '$') && l[k + 2] == '#' {
        proof {
            if l[k + 1] == '@' {
                assert(s.subrange(k as int, k + 3) =~= seq!['#', '@', '#']);
            } else if l[k + 1] == '?' {
                assert(s.subrange(k as int, k + 3) =~= seq!['#', '?', '#']);
            } else {
                assert(s.subrange(k as int, k + 3) =~= seq!['#', '$', '#']);
            }
        }
        return true;
    }
    proof {
        if occurs_at(s, seq!['#', '#'], k as int) {
            assert(s.subrange(k as int, k + 2)[1] == s[k + 1]);
        }
        if occurs_at(s, seq!['#', '@', '#'], k as int) {
            assert(s.subrange(k as int, k + 3)[1] == s[k + 1]);
            assert(s.subrange(k as int, k + 3)[2] == s[k + 2]);
        }
        if occurs_at(s, seq!['#', '?', '#'], k as int) {
            assert(s.subrange(k as int, k + 3)[1] == s[k + 1]);
            assert(s.subrange(k as int, k + 3)[2] == s[k + 2]);
        }
        if occurs_at(s, seq!['#', '$', '#'], k as int) {
            assert(s.subrange(k as int, k + 3)[1] == s[k + 1]);
            assert(s.subrange(k as int, k + 3)[2] == s[k + 2]);
        }
    }
    false
}

proof fn lemma_first_marker(l: Seq<char>, k: int)
    requires
        marker_at(l, k),
        forall|j: int| 0 <= j < k ==> !marker_at(l, j),
    ensures
        first_marker(l) == Some(k),
{
    reveal(first_marker);
    let c = choose|c: int| marker_at(l, c) && forall|j: int| 0 <= j < c ==> !marker_at(l, j);
    assert(0 <= c);
    if c < k {
    } else if c > k {
    }
}

/// Where the first cosmetic marker of `l` starts — see [`first_marker`].
fn first_marker_exec(l: &[char]) -> (r: Option<usize>)
    ensures
        match r {
            Some(k) => k < l.len() && first_marker(l@) == Some(k as int),
            None => first_marker(l@).is_none(),
        },
{
    let mut k: usize = 0;
    while k < l.len()
        invariant
            0 <= k <= l.len(),
            forall|j: int| 0 <= j < k ==> !marker_at(l@, j),
        decreases l.len() - k,
    {
        if marker_at_exec(l, k) {
            proof {
                lemma_first_marker(l@, k as int);
            }
            return Some(k);
        }
        k += 1;
    }
    proof {
        assert forall|j: int| !marker_at(l@, j) by {
            if 0 <= j < l.len() {
            }
        }
    }
    proof {
        reveal(first_marker);
    }
    None
}

proof fn lemma_last_dollar(b: Seq<char>, k: int)
    requires
        option_dollar(b, k),
        forall|j: int| k < j < b.len() ==> !option_dollar(b, j),
    ensures
        last_option_dollar(b) == Some(k),
{
    reveal(last_option_dollar);
    let c = choose|c: int| option_dollar(b, c) && forall|j: int| c < j < b.len() ==> !option_dollar(b, j);
    if c < k {
    } else if c > k {
    }
}

/// Splits `pattern$option,option=value` at the last unescaped `$`, so a
/// malformed option list is a parse error rather than being silently re-read
/// as part of the pattern — see [`spec_split_options`].
fn split_options(body: &[char]) -> (r: Option<usize>)
    ensures
        match r {
            Some(k) => k < body.len() && last_option_dollar(body@) == Some(k as int),
            None => last_option_dollar(body@).is_none(),
        },
{
    let mut at: Option<usize> = None;
    let mut index: usize = 0;
    while index < body.len()
        invariant
            0 <= index <= body.len(),
            match at {
                Some(k) => k < index && option_dollar(body@, k as int) && forall|j: int|
                    k < j < index ==> !option_dollar(body@, j),
                None => forall|j: int| 0 <= j < index ==> !option_dollar(body@, j),
            },
        decreases body.len() - index,
    {
        if body[index] == '$' && (index == 0 || body[index - 1] != '\\') {
            at = Some(index);
        }
        index += 1;
    }
    match at {
        Some(k) => {
            proof {
                lemma_last_dollar(body@, k as int);
            }
        },
        None => {
            proof {
                reveal(last_option_dollar);
                assert forall|j: int| !option_dollar(body@, j) by {
                    if 0 <= j < body.len() {
                    }
                }
            }
        },
    }
    at
}

/// How the domain tier reads a pattern.
enum DomainVerdict {
    /// The normalized name, and whether subdomains match too.
    Rule(String, bool),
    /// Syntactically broken as a domain rule and not salvageable as a URL one
    /// either — `||^` has no name and no pattern.
    Malformed,
    NotADomainRule,
}

/// Decides whether `pattern` is *purely* about a name — see
/// [`domain_verdict`].
fn domain_rule(pattern: &[char], http_scoped: bool) -> (r: DomainVerdict)
    ensures
        match (r, domain_verdict(pattern@, http_scoped)) {
            (DomainVerdict::Rule(d, s), DomainVerdictV::Rule(dv, sv)) => d@ == dv && s == sv,
            (DomainVerdict::Malformed, DomainVerdictV::Malformed) => true,
            (DomainVerdict::NotADomainRule, DomainVerdictV::NotADomainRule) => true,
            _ => false,
        },
{
    proof {
        reveal(domain_verdict);
    }
    let n = pattern.len();
    if !(n >= 2 && pattern[0] == '|' && pattern[1] == '|') {
        proof {
            if starts_with(pattern@, seq!['|', '|']) {
                assert(pattern@.subrange(0, 2)[0] == pattern@[0]);
                assert(pattern@.subrange(0, 2)[1] == pattern@[1]);
            }
        }
        return DomainVerdict::NotADomainRule;
    }
    proof {
        assert(pattern@.subrange(0, 2) =~= seq!['|', '|']);
    }
    let aa = copy_of(pattern, 2, n);
    proof {
        assert(aa@ =~= pattern@.skip(2));
    }
    let mut end: usize = 0;
    while end < aa.len() && aa[end] != '^' && aa[end] != '/'
        invariant
            0 <= end <= aa.len(),
            stop_at(aa@, 0) == stop_at(aa@, end as int),
        decreases aa.len() - end,
    {
        end += 1;
    }
    if end == 0 {
        return DomainVerdict::Malformed;
    }
    let dp = copy_of(aa.as_slice(), 0, end);
    proof {
        assert(dp@ =~= aa@.take(end as int));
    }
    match normalize_domain_range(dp.as_slice(), 0, dp.len()) {
        None => DomainVerdict::NotADomainRule,
        Some(d) => {
            let rest = aa.len() - end;
            proof {
                let r = aa@.skip(end as int);
                assert(r.len() == rest);
                if rest == 1 {
                    if aa[end as int] == '^' {
                        assert(r =~= seq!['^']);
                    } else {
                        assert(r[0] == aa@[end as int]);
                    }
                }
                if rest == 2 {
                    if aa[end as int] == '^' && aa[end + 1] == '|' {
                        assert(r =~= seq!['^', '|']);
                    } else {
                        assert(r[0] == aa@[end as int]);
                        assert(r[1] == aa@[end + 1]);
                    }
                }
            }
            if http_scoped {
                DomainVerdict::NotADomainRule
            } else if rest == 0 || (rest == 1 && aa[end] == '^') {
                DomainVerdict::Rule(d, true)
            } else if rest == 2 && aa[end] == '^' && aa[end + 1] == '|' {
                DomainVerdict::Rule(d, false)
            } else {
                DomainVerdict::NotADomainRule
            }
        },
    }
}

fn action(exception: bool) -> (r: RuleAction)
    ensures
        r == action_of(exception),
{
    if exception {
        RuleAction::Allow
    } else {
        RuleAction::Block
    }
}

fn inactive(reason: InactiveReason) -> (r: ParsedRule)
    ensures
        r@ == RuleKindV::Inactive(reason),
{
    ParsedRule { kind: RuleKind::Inactive(reason) }
}

/// The anchor of `pattern`, the bounds of its body, and whether its end is
/// anchored — see [`url_parts`].
fn url_bounds(pattern: &[char]) -> (r: (UrlAnchor, usize, usize, bool))
    ensures
        r.1 <= r.2 <= pattern.len(),
        url_parts(pattern@) == (r.0, pattern@.subrange(r.1 as int, r.2 as int), r.3),
{
    let n = pattern.len();
    let ghost p = pattern@;
    let (anchor, from): (UrlAnchor, usize) = if n >= 2 && pattern[0] == '|' && pattern[1] == '|' {
        proof {
            assert(p.subrange(0, 2) =~= seq!['|', '|']);
        }
        (UrlAnchor::Domain, 2)
    } else if n >= 1 && pattern[0] == '|' {
        proof {
            assert(p.subrange(0, 1) =~= seq!['|']);
            if starts_with(p, seq!['|', '|']) {
                assert(p.subrange(0, 2)[1] == p[1]);
            }
        }
        (UrlAnchor::Start, 1)
    } else {
        proof {
            if starts_with(p, seq!['|', '|']) {
                assert(p.subrange(0, 2)[0] == p[0]);
                assert(p.subrange(0, 2)[1] == p[1]);
            }
            if starts_with(p, seq!['|']) {
                assert(p.subrange(0, 1)[0] == p[0]);
            }
        }
        (UrlAnchor::Anywhere, 0)
    };
    let end_anchored = from < n && pattern[n - 1] == '|';
    let to: usize = if end_anchored {
        n - 1
    } else {
        n
    };
    proof {
        let b1 = p.skip(from as int);
        if end_anchored {
            assert(b1.drop_last() =~= p.subrange(from as int, to as int));
        } else {
            assert(b1 =~= p.subrange(from as int, to as int));
        }
        assert(url_parts(p) == (anchor, p.subrange(from as int, to as int), end_anchored));
    }
    (anchor, from, to, end_anchored)
}

/// Compiles what the domain tier rejected into a URL-tier rule — see
/// [`url_kind`].
fn url_rule(pattern: &[char], exception: bool, o: Options) -> (r: ParsedRule)
    ensures
        r@ == url_kind(pattern@, exception, o@),
{
    proof {
        reveal(url_kind);
    }
    let n = pattern.len();
    if n > 2 && pattern[0] == '/' && pattern[n - 1] == '/' {
        return inactive(InactiveReason::Unsupported);
    }
    let (anchor, from, to, end_anchored) = url_bounds(pattern);
    if from == to {
        return inactive(InactiveReason::Unsupported);
    }
    if utf8_len_exceeds(pattern, from, to, MAX_PAYLOAD) {
        return inactive(InactiveReason::Unsupported);
    }
    let long_domains = match &o.domains {
        Some(d) => {
            let dv = chars_of(&**d);
            proof {
                assert(dv@.subrange(0, dv@.len() as int) =~= dv@);
            }
            utf8_len_exceeds(dv.as_slice(), 0, dv.len(), MAX_PAYLOAD)
        },
        None => false,
    };
    if long_domains {
        return inactive(InactiveReason::Unsupported);
    }
    let text = if o.match_case {
        boxed_of_range(pattern, from, to)
    } else {
        into_boxed(lowered_string_of_range(pattern, from, to))
    };
    ParsedRule {
        kind: RuleKind::Url(
            Box::new(
                UrlRule {
                    pattern: text,
                    action: action(exception),
                    anchor,
                    end_anchored,
                    match_case: o.match_case,
                    party: o.party,
                    resource_types: o.resource_types,
                    domains: o.domains,
                    methods: o.methods,
                    client: o.client,
                },
            ),
        ),
    }
}

/// The rules of one trimmed line — see [`adblock_text`]: the rule it gives
/// (if any), and whether it is an error.
fn parse_line(l: &[char]) -> (r: (Option<ParsedRule>, bool))
    ensures
        (match r.0 {
            Some(p) => seq![p@],
            None => Seq::empty(),
        }, r.1) == adblock_text(l@),
{
    let n = l.len();
    if n == 0 || l[0] == '!' || l[0] == '[' {
        return (None, false);
    }
    match first_marker_exec(l) {
        Some(at) => {
            proof {
                assert(l@.subrange(0, at as int) =~= l@.take(at as int));
            }
            if any_ascii_ws(l, 0, at) {
                return (None, true);
            }
            return (Some(inactive(InactiveReason::Cosmetic)), false);
        },
        None => {},
    }
    if l[0] == '#' {
        return (None, false);
    }
    rule_line(l)
}

/// Whether the rule line `l` is an `@@` exception, and its text after that.
fn rule_body(l: &[char]) -> (r: (bool, Vec<char>))
    ensures
        r.0 == starts_with(l@, seq!['@', '@']),
        r.1@ == (if r.0 {
            l@.skip(2)
        } else {
            l@
        }),
{
    let n = l.len();
    let exception = n >= 2 && l[0] == '@' && l[1] == '@';
    proof {
        if exception {
            assert(l@.subrange(0, 2) =~= seq!['@', '@']);
        } else if starts_with(l@, seq!['@', '@']) {
            assert(l@.subrange(0, 2)[0] == l@[0]);
            assert(l@.subrange(0, 2)[1] == l@[1]);
        }
    }
    let body = copy_of(l, if exception { 2 } else { 0 }, n);
    proof {
        if exception {
            assert(body@ =~= l@.skip(2));
        } else {
            assert(body@ =~= l@);
        }
    }
    (exception, body)
}

/// `body` split into pattern and options — see [`spec_split_options`].
fn split_pattern(body: Vec<char>) -> (r: (Vec<char>, Vec<char>))
    ensures
        (r.0@, r.1@) == spec_split_options(body@),
{
    let (pattern, options) = match split_options(body.as_slice()) {
        Some(k) => {
            let p = copy_of(body.as_slice(), 0, k);
            let o = copy_of(body.as_slice(), k + 1, body.len());
            proof {
                assert(p@ =~= body@.take(k as int));
                assert(o@ =~= body@.skip(k + 1));
            }
            (p, o)
        },
        None => {
            let none: Vec<char> = Vec::new();
            proof {
                assert(none@ =~= Seq::<char>::empty());
            }
            (body, none)
        },
    };
    (pattern, options)
}

/// A rule line — see [`rule_text`].
fn rule_line(l: &[char]) -> (r: (Option<ParsedRule>, bool))
    requires
        l.len() > 0,
    ensures
        (match r.0 {
            Some(p) => seq![p@],
            None => Seq::empty(),
        }, r.1) == rule_text(l@),
{
    proof {
        reveal(rule_text);
    }
    let n = l.len();
    let (exception, body) = rule_body(l);
    let (pattern, options) = split_pattern(body);
    let o = match parse_options(options.as_slice()) {
        None => return (None, true),
        Some(o) => o,
    };
    compile_rule(pattern.as_slice(), exception, o)
}

/// A pattern and its parsed options — see [`compiled`].
fn compile_rule(pattern: &[char], exception: bool, o: Options) -> (r: (Option<ParsedRule>, bool))
    ensures
        (match r.0 {
            Some(p) => seq![p@],
            None => Seq::empty(),
        }, r.1) == compiled(pattern@, exception, o@),
{
    proof {
        reveal(compiled);
    }
    if o.unsupported {
        return (Some(inactive(InactiveReason::Unsupported)), false);
    }
    match domain_rule(pattern, o.http_scoped) {
        DomainVerdict::Rule(d, subdomains) => {
            let opts = DomainOpts {
                dns_types: o.dns_types,
                dns_rewrite: o.dns_rewrite,
                client: o.client,
            }.boxed();
            let rule = ParsedRule {
                kind: RuleKind::Active(
                    DomainRule {
                        domain: into_boxed(d),
                        action: action(exception),
                        include_subdomains: subdomains,
                        opts,
                    },
                ),
            };
            (Some(rule), false)
        },
        DomainVerdict::Malformed => (None, true),
        DomainVerdict::NotADomainRule => {
            if any_ascii_ws(pattern, 0, pattern.len()) {
                proof {
                    assert(pattern@.subrange(0, pattern@.len() as int) =~= pattern@);
                }
                (None, true)
            } else {
                proof {
                    assert(pattern@.subrange(0, pattern@.len() as int) =~= pattern@);
                }
                (Some(url_rule(pattern, exception, o)), false)
            }
        },
    }
}

/// Parses one adblock line `v[start..end]`, appending its rule; `true` when
/// the line is an error.
pub fn adblock_line_exec(v: &[char], start: usize, end: usize, rules: &mut Vec<ParsedRule>) -> (error: bool)
    requires
        start <= end <= v.len(),
    ensures
        kinds_of(final(rules)@) == kinds_of(old(rules)@) + adblock_line(v@, (start as int, end as int)).0,
        error == adblock_line(v@, (start as int, end as int)).1,
{
    let (a, b) = trim_range(v, start, end);
    let l = copy_of(v, a, b);
    let (rule, error) = parse_line(l.as_slice());
    match rule {
        Some(r) => {
            proof {
                lemma_kinds_push(rules@, r);
                assert(kinds_of(old(rules)@).push(r@) =~= kinds_of(old(rules)@) + seq![r@]);
            }
            rules.push(r);
        },
        None => {
            proof {
                assert(kinds_of(old(rules)@) + Seq::<RuleKindV>::empty() =~= kinds_of(old(rules)@));
            }
        },
    }
    error
}

/// Parses an adblock-syntax list.
pub fn parse(text: &str) -> (list: ParsedRuleList)
    ensures
        crate::parser::parsed_as(list, text@, RuleFormat::Adblock),
{
    let v = chars_of(text);
    parse_chars(v.as_slice(), RuleFormat::Adblock)
}

// ─── Laws ─────────────────────────────────────────────────────────────────

/// Law: the short party aliases mean their long forms — `3p` is
/// `third-party` and `1p` is `first-party`, negated or not, whatever options
/// came before and whatever value is attached — and `third-party` restricts a
/// rule to third-party requests (its negation to first-party ones), while
/// `first-party` does the reverse.
pub proof fn lemma_party_aliases(o: OptsV, value: Option<Seq<char>>, negated: bool)
    ensures
        apply_named(o, seq!['3', 'p'], value, negated) == apply_named(
            o,
            seq!['t', 'h', 'i', 'r', 'd', '-', 'p', 'a', 'r', 't', 'y'],
            value,
            negated,
        ),
        apply_named(o, seq!['1', 'p'], value, negated) == apply_named(
            o,
            seq!['f', 'i', 'r', 's', 't', '-', 'p', 'a', 'r', 't', 'y'],
            value,
            negated,
        ),
        apply_named(o, seq!['t', 'h', 'i', 'r', 'd', '-', 'p', 'a', 'r', 't', 'y'], value, false).party
            == Party::Third,
        apply_named(o, seq!['t', 'h', 'i', 'r', 'd', '-', 'p', 'a', 'r', 't', 'y'], value, true).party
            == Party::First,
        apply_named(o, seq!['f', 'i', 'r', 's', 't', '-', 'p', 'a', 'r', 't', 'y'], value, false).party
            == Party::First,
        apply_named(o, seq!['f', 'i', 'r', 's', 't', '-', 'p', 'a', 'r', 't', 'y'], value, true).party
            == Party::Third,
{
    let tp = seq!['t', 'h', 'i', 'r', 'd', '-', 'p', 'a', 'r', 't', 'y'];
    let fp = seq!['f', 'i', 'r', 's', 't', '-', 'p', 'a', 'r', 't', 'y'];
    let t3 = seq!['3', 'p'];
    let f1 = seq!['1', 'p'];
    assert(tp == opt_third_party());
    assert(fp == opt_first_party());
    assert(t3 == opt_three_p());
    assert(f1 == opt_one_p());
    assert(t3 != opt_dnstype() && t3 != opt_dnsrewrite() && t3 != opt_client());
    assert(f1 != opt_dnstype() && f1 != opt_dnsrewrite() && f1 != opt_client());
    assert(tp != opt_dnstype() && tp != opt_dnsrewrite() && tp != opt_client());
    assert(fp != opt_dnstype() && fp != opt_dnsrewrite() && fp != opt_client());
    assert(t3 != opt_first_party() && t3 != opt_one_p());
    assert(tp != opt_first_party() && tp != opt_one_p());
    assert(lower_seq(t3).len() == 2);
    assert(lower_seq(f1).len() == 2);
    assert(lower_seq(tp).len() == 11 && lower_seq(tp)[0] == 't');
    assert(lower_seq(fp).len() == 11 && lower_seq(fp)[0] == 'f');
    assert(lower_seq(seq!['s', 'u', 'b', 'd', 'o', 'c', 'u', 'm', 'e', 'n', 't'])[0] == 's');
    assert(spec_option_bit(t3) is None);
    assert(spec_option_bit(f1) is None);
    assert(spec_option_bit(tp) is None);
    assert(spec_option_bit(fp) is None);
}

} // verus!
