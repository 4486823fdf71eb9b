//! Parsed-rule types: the per-line classification result.

use vstd::prelude::*;

verus! {

/// What a matched, active rule does to a query or request.
#[derive(Debug, Clone, Copy, PartialEq, Eq, Structural)]
pub enum RuleAction {
    Block,
    Allow,
}

/// The text of an optional payload, as characters.
pub open spec fn opt_view(o: Option<Box<str>>) -> Option<Seq<char>> {
    match o {
        Some(s) => Some(s@),
        None => None,
    }
}

/// The `$options` a domain rule may carry, held behind a `Box` on
/// [`DomainRule`] because nearly no rule sets any of them.
#[derive(Debug, Clone, Default, PartialEq, Eq)]
pub struct DomainOpts {
    /// Raw `$dnstype` value (e.g. `"A|AAAA"`).
    pub dns_types: Option<Box<str>>,
    /// Raw `$dnsrewrite` value.
    pub dns_rewrite: Option<Box<str>>,
    /// Raw `$client` value (`"192.168.1.5|~laptop"`).
    pub client: Option<Box<str>>,
}

impl DomainOpts {
    pub open spec fn is_bare(&self) -> bool {
        self.dns_types.is_none() && self.dns_rewrite.is_none() && self.client.is_none()
    }

    /// `None` when no option is set, so the rule carrying none — nearly every
    /// rule — costs no allocation.
    pub fn boxed(self) -> (r: Option<Box<Self>>)
        ensures
            self.is_bare() ==> r.is_none(),
            !self.is_bare() ==> r == Some(Box::new(self)),
    {
        let bare = self.dns_types.is_none() && self.dns_rewrite.is_none() && self.client.is_none();
        if bare {
            None
        } else {
            Some(Box::new(self))
        }
    }
}

/// The payloads of a domain rule's options, as characters.
pub struct DomainRuleV {
    pub domain: Seq<char>,
    pub action: RuleAction,
    pub include_subdomains: bool,
    /// Whether the rule carries an options box at all.
    pub has_opts: bool,
    pub dns_types: Option<Seq<char>>,
    pub dns_rewrite: Option<Seq<char>>,
    pub client: Option<Seq<char>>,
}

/// A domain-anchored, DNS-applicable rule.
#[derive(Debug, Clone, PartialEq, Eq)]
pub struct DomainRule {
    /// Lowercased, trailing-dot-stripped domain this rule anchors to.
    pub domain: Box<str>,
    pub action: RuleAction,
    /// Whether subdomains of `domain` match too.
    pub include_subdomains: bool,
    pub opts: Option<Box<DomainOpts>>,
}

impl View for DomainRule {
    type V = DomainRuleV;

    open spec fn view(&self) -> DomainRuleV {
        DomainRuleV {
            domain: self.domain@,
            action: self.action,
            include_subdomains: self.include_subdomains,
            has_opts: self.opts.is_some(),
            dns_types: match self.opts {
                Some(o) => opt_view(o.dns_types),
                None => None,
            },
            dns_rewrite: match self.opts {
                Some(o) => opt_view(o.dns_rewrite),
                None => None,
            },
            client: match self.opts {
                Some(o) => opt_view(o.client),
                None => None,
            },
        }
    }
}

impl DomainRule {
    /// A rule carrying no `$option` — the shape of nearly every parsed line.
    pub fn plain(domain: Box<str>, action: RuleAction, include_subdomains: bool) -> (r: Self)
        ensures
            r@ == (DomainRuleV {
                domain: domain@,
                action,
                include_subdomains,
                has_opts: false,
                dns_types: None,
                dns_rewrite: None,
                client: None,
            }),
    {
        Self { domain, action, include_subdomains, opts: None }
    }

    pub fn dns_types(&self) -> (r: Option<&str>)
        ensures
            match r {
                Some(s) => self@.dns_types == Some(s@),
                None => self@.dns_types.is_none(),
            },
    {
        match &self.opts {
            Some(o) => match &o.dns_types {
                Some(s) => Some(&**s),
                None => None,
            },
            None => None,
        }
    }

    pub fn dns_rewrite(&self) -> (r: Option<&str>)
        ensures
            match r {
                Some(s) => self@.dns_rewrite == Some(s@),
                None => self@.dns_rewrite.is_none(),
            },
    {
        match &self.opts {
            Some(o) => match &o.dns_rewrite {
                Some(s) => Some(&**s),
                None => None,
            },
            None => None,
        }
    }

    pub fn client(&self) -> (r: Option<&str>)
        ensures
            match r {
                Some(s) => self@.client == Some(s@),
                None => self@.client.is_none(),
            },
    {
        match &self.opts {
            Some(o) => match &o.client {
                Some(s) => Some(&**s),
                None => None,
            },
            None => None,
        }
    }
}

/// Where a URL pattern is anchored.
#[derive(Debug, Clone, Copy, PartialEq, Eq, Structural)]
pub enum UrlAnchor {
    /// `||example.com/ads` — at the host, or at any label boundary within it.
    Domain,
    /// `|http://example.com` — only at the very start of the URL.
    Start,
    /// `/ads/banner.gif` — anywhere in the URL.
    Anywhere,
}

/// Which party a rule applies to, from the request's relation to its referer.
#[derive(Debug, Clone, Copy, PartialEq, Eq, Structural)]
pub enum Party {
    Any,
    /// `$third-party` — request host differs from the document's.
    Third,
    /// `$first-party` / `~third-party`.
    First,
}

pub struct UrlRuleV {
    pub pattern: Seq<char>,
    pub action: RuleAction,
    pub anchor: UrlAnchor,
    pub end_anchored: bool,
    pub match_case: bool,
    pub party: Party,
    pub resource_types: u16,
    pub domains: Option<Seq<char>>,
    pub methods: Option<Seq<char>>,
    pub client: Option<Seq<char>>,
}

/// A URL-level rule. Its pattern *is* the rule, so the text is retained.
#[derive(Debug, Clone, PartialEq, Eq)]
pub struct UrlRule {
    /// The pattern with `@@`, anchors and `$options` stripped. Lowercased
    /// unless `$match-case`.
    pub pattern: Box<str>,
    pub action: RuleAction,
    pub anchor: UrlAnchor,
    /// Trailing `|` — the pattern must reach the end of the URL.
    pub end_anchored: bool,
    /// `$match-case`; without it the pattern and URL compare lowercased.
    pub match_case: bool,
    pub party: Party,
    /// A mask of resource-type bits the rule applies to, negation folded in.
    /// **Zero means "any type"**.
    pub resource_types: u16,
    /// Raw `$domain=` value (`"a.com|~b.com"`), lower-cased.
    pub domains: Option<Box<str>>,
    /// Raw `$method=` value, upper-cased.
    pub methods: Option<Box<str>>,
    /// Raw `$client` value.
    pub client: Option<Box<str>>,
}

impl View for UrlRule {
    type V = UrlRuleV;

    open spec fn view(&self) -> UrlRuleV {
        UrlRuleV {
            pattern: self.pattern@,
            action: self.action,
            anchor: self.anchor,
            end_anchored: self.end_anchored,
            match_case: self.match_case,
            party: self.party,
            resource_types: self.resource_types,
            domains: opt_view(self.domains),
            methods: opt_view(self.methods),
            client: opt_view(self.client),
        }
    }
}

/// Why a parsed rule is not active in any tier.
#[derive(Debug, Clone, Copy, PartialEq, Eq, Structural)]
pub enum InactiveReason {
    /// Cosmetic rule (`##`, `#@#`, …).
    Cosmetic,
    /// Carries something no tier can honour: a `/regex/` literal, a pattern
    /// no supported syntax expresses, or an option whose restriction cannot
    /// be applied.
    Unsupported,
}

pub enum RuleKindV {
    Active(DomainRuleV),
    Url(UrlRuleV),
    Inactive(InactiveReason),
}

#[derive(Debug, Clone, PartialEq, Eq)]
pub enum RuleKind {
    /// DNS tier — answers a domain question.
    Active(DomainRule),
    /// URL tier — answers an HTTP request.
    Url(Box<UrlRule>),
    /// No tier.
    Inactive(InactiveReason),
}

impl View for RuleKind {
    type V = RuleKindV;

    open spec fn view(&self) -> RuleKindV {
        match self {
            RuleKind::Active(r) => RuleKindV::Active(r@),
            RuleKind::Url(r) => RuleKindV::Url(r@),
            RuleKind::Inactive(reason) => RuleKindV::Inactive(*reason),
        }
    }
}

/// One parsed line from a rule list, reduced to its classification.
#[derive(Debug, Clone, PartialEq, Eq)]
pub struct ParsedRule {
    pub kind: RuleKind,
}

impl View for ParsedRule {
    type V = RuleKindV;

    open spec fn view(&self) -> RuleKindV {
        self.kind@
    }
}

impl ParsedRule {
    /// DNS-applicable.
    pub fn is_active(&self) -> (b: bool)
        ensures
            b == (self@ is Active),
    {
        match self.kind {
            RuleKind::Active(_) => true,
            _ => false,
        }
    }

    /// HTTP-applicable — compiled into the URL tier.
    pub fn is_url(&self) -> (b: bool)
        ensures
            b == (self@ is Url),
    {
        match self.kind {
            RuleKind::Url(_) => true,
            _ => false,
        }
    }
}

} // verus!
