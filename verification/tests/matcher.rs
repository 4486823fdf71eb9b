use fah_rules::matcher::{
    dedup_slots, ClientContext, MatchDecision, Matcher, MatcherBuilder, QueryType, Verdict,
    MAX_PREALLOC_RULES,
};
use fah_rules::policy::PolicyId;
use fah_rules::resource::ResourceType;
use fah_rules::url_matcher::HttpRequest;
use fah_rules::{DomainOpts, DomainRule, RuleAction};

fn block(domain: &str) -> DomainRule {
    DomainRule::plain(Box::from(domain), RuleAction::Block, true)
}

fn allow(domain: &str) -> DomainRule {
    DomainRule {
        action: RuleAction::Allow,
        ..block(domain)
    }
}

fn with_opts(rule: DomainRule, opts: DomainOpts) -> DomainRule {
    DomainRule {
        opts: opts.boxed(),
        ..rule
    }
}

fn typed(domain: &str, types: &str) -> DomainRule {
    with_opts(
        block(domain),
        DomainOpts {
            dns_types: Some(Box::from(types)),
            ..DomainOpts::default()
        },
    )
}

fn rewritten(domain: &str, to: &str) -> DomainRule {
    with_opts(
        block(domain),
        DomainOpts {
            dns_rewrite: Some(Box::from(to)),
            ..DomainOpts::default()
        },
    )
}

fn matcher_with(rules: &[(&str, DomainRule)]) -> Matcher {
    let mut b = MatcherBuilder::new();
    let list = b.add_list("test");
    for (_, rule) in rules {
        b.add_rule(list, rule);
    }
    b.build()
}

fn decision(m: &Matcher, domain: &str) -> MatchDecision {
    m.lookup(domain, &QueryType::A)
}

fn build_across_lists(rules: &[(&str, DomainRule)], capacity: Option<usize>) -> Matcher {
    let mut b = match capacity {
        Some(cap) => MatcherBuilder::with_capacity(cap),
        None => MatcherBuilder::new(),
    };
    let mut ids: Vec<(&str, u16)> = Vec::new();
    for (list, rule) in rules {
        let id = match ids.iter().find(|(name, _)| name == list) {
            Some((_, id)) => *id,
            None => {
                let id = b.add_list(list);
                ids.push((list, id));
                id
            }
        };
        b.add_rule(id, rule);
    }
    b.build()
}

#[test]
fn exact_domain_blocks() {
    let m = matcher_with(&[("", block("ads.example.com"))]);
    assert!(matches!(decision(&m, "ads.example.com"), MatchDecision::Block(_)));
}

#[test]
fn subdomain_of_block_rule_blocks() {
    let m = matcher_with(&[("", block("example.com"))]);
    assert!(matches!(decision(&m, "tracker.ads.example.com"), MatchDecision::Block(_)));
}

#[test]
fn unrelated_domain_passes() {
    let m = matcher_with(&[("", block("example.com"))]);
    assert_eq!(decision(&m, "example.org"), MatchDecision::Pass);
}

#[test]
fn parent_of_block_rule_passes() {
    let m = matcher_with(&[("", block("ads.example.com"))]);
    assert_eq!(decision(&m, "example.com"), MatchDecision::Pass);
}

#[test]
fn sibling_label_prefix_does_not_falsely_match() {
    let m = matcher_with(&[("", block("example.com"))]);
    assert_eq!(decision(&m, "notexample.com"), MatchDecision::Pass);
}

#[test]
fn allow_beats_block_same_domain() {
    let m = matcher_with(&[("", block("example.com")), ("", allow("example.com"))]);
    assert!(matches!(decision(&m, "example.com"), MatchDecision::Allow(_)));
}

#[test]
fn less_specific_allow_overrides_more_specific_block() {
    let m = matcher_with(&[("", block("ads.example.com")), ("", allow("example.com"))]);
    assert!(matches!(decision(&m, "ads.example.com"), MatchDecision::Allow(_)));
}

#[test]
fn case_insensitive_lookup() {
    let m = matcher_with(&[("", block("ads.example.com"))]);
    assert!(matches!(decision(&m, "ADS.Example.COM"), MatchDecision::Block(_)));
}

#[test]
fn trailing_dot_is_ignored() {
    let m = matcher_with(&[("", block("ads.example.com"))]);
    assert!(matches!(decision(&m, "ads.example.com."), MatchDecision::Block(_)));
}

#[test]
fn dnstype_restricts_matching_qtype() {
    let m = matcher_with(&[("", typed("ads.example.com", "A"))]);
    assert!(matches!(
        m.lookup("ads.example.com", &QueryType::A),
        MatchDecision::Block(_)
    ));
    assert_eq!(
        m.lookup("ads.example.com", &QueryType::Aaaa),
        MatchDecision::Pass
    );
}

#[test]
fn dnstype_negation_matches_everything_except_listed() {
    let m = matcher_with(&[("", typed("ads.example.com", "~A"))]);
    assert_eq!(m.lookup("ads.example.com", &QueryType::A), MatchDecision::Pass);
    assert!(matches!(
        m.lookup("ads.example.com", &QueryType::Aaaa),
        MatchDecision::Block(_)
    ));
    assert!(matches!(
        m.lookup("ads.example.com", &QueryType::Other("HTTPS".into())),
        MatchDecision::Block(_)
    ));
}

#[test]
fn other_qtype_name_is_case_insensitive() {
    let m = matcher_with(&[("", typed("ads.example.com", "HTTPS"))]);
    assert!(matches!(
        m.lookup("ads.example.com", &QueryType::Other("https".into())),
        MatchDecision::Block(_)
    ));
}

#[test]
fn dnsrewrite_payload_is_carried() {
    let m = matcher_with(&[("", rewritten("rewrite.example.com", "0.0.0.0"))]);
    let MatchDecision::Block(r) = m.lookup("rewrite.example.com", &QueryType::A) else {
        panic!("expected block");
    };
    assert_eq!(m.rewrite(r), Some("0.0.0.0"));
}

#[test]
fn decisive_rule_reports_list_and_reconstructed_text() {
    let mut b = MatcherBuilder::new();
    let list = b.add_list("oisd");
    b.add_rule(list, &block("ads.example.com"));
    let m = b.build();
    let MatchDecision::Block(r) = m.lookup("ads.example.com", &QueryType::A) else {
        panic!("expected block");
    };
    let decisive = m.decisive_rule(r);
    assert_eq!(&*decisive.list, "oisd");
    assert_eq!(&*decisive.rule, "||ads.example.com^");
}

#[test]
fn decisive_rule_separates_multiple_options_with_comma() {
    let rule = with_opts(
        block("ads.example.com"),
        DomainOpts {
            dns_types: Some(Box::from("A")),
            dns_rewrite: Some(Box::from("0.0.0.0")),
            ..DomainOpts::default()
        },
    );
    let m = matcher_with(&[("", rule)]);
    let MatchDecision::Block(r) = m.lookup("ads.example.com", &QueryType::A) else {
        panic!("expected block");
    };
    assert_eq!(
        &*m.decisive_rule(r).rule,
        "||ads.example.com^$dnstype=A,dnsrewrite=0.0.0.0"
    );
}

#[test]
fn verdict_materializes_allow() {
    let m = matcher_with(&[("", allow("cdn.example.com"))]);
    match m.verdict("cdn.example.com", &QueryType::A) {
        Verdict::Allow(d) => assert_eq!(&*d.rule, "@@||cdn.example.com^"),
        other => panic!("expected allow, got {other:?}"),
    }
}

#[test]
fn a_dnsrewrite_rule_does_not_decide_an_http_request() {
    let m = matcher_with(&[("", rewritten("rewrite.example.com", "1.2.3.4"))]);
    assert!(matches!(
        m.lookup("rewrite.example.com", &QueryType::A),
        MatchDecision::Block(_)
    ));
    let request = HttpRequest {
        url: "http://rewrite.example.com/x",
        host: "rewrite.example.com",
        method: "GET",
        resource_type: ResourceType::Unknown,
        document_host: None,
    };
    assert_eq!(m.lookup_http(&request), MatchDecision::Pass);
}

#[test]
fn a_plain_domain_block_still_decides_an_http_request() {
    let m = matcher_with(&[("", block("ads.example.com"))]);
    let request = HttpRequest {
        url: "http://ads.example.com/x",
        host: "ads.example.com",
        method: "GET",
        resource_type: ResourceType::Unknown,
        document_host: None,
    };
    assert!(matches!(m.lookup_http(&request), MatchDecision::Block(_)));
}

#[test]
fn empty_matcher_passes_everything() {
    let m = matcher_with(&[]);
    assert_eq!(decision(&m, "anything.example.com"), MatchDecision::Pass);
    assert!(m.is_empty());
}

#[test]
fn the_same_rule_in_two_lists_is_compiled_once() {
    let m = build_across_lists(
        &[
            ("adguard", block("ads.example.com")),
            ("hagezi", block("ads.example.com")),
        ],
        None,
    );
    assert_eq!(m.len(), 1, "an identical rule must not occupy two records");
    assert_eq!(m.duplicates_removed(), 1);
    let MatchDecision::Block(r) = decision(&m, "ads.example.com") else {
        panic!("expected block");
    };
    assert_eq!(&*m.decisive_rule(r).list, "adguard");
}

#[test]
fn an_exact_duplicate_within_one_list_collapses_too() {
    let m = matcher_with(&[
        ("", block("ads.example.com")),
        ("", block("ads.example.com")),
        ("", block("other.example.com")),
    ]);
    assert_eq!(m.len(), 2);
    assert_eq!(m.duplicates_removed(), 1);
}

#[test]
fn block_in_one_list_and_allow_in_another_both_survive() {
    let m = build_across_lists(
        &[
            ("blocklist", block("example.com")),
            ("allowlist", allow("example.com")),
        ],
        None,
    );
    assert_eq!(m.len(), 2);
    assert_eq!(m.duplicates_removed(), 0);
    assert!(matches!(decision(&m, "example.com"), MatchDecision::Allow(_)));
}

#[test]
fn rules_differing_only_in_an_option_are_distinct_identities() {
    let exact = DomainRule {
        include_subdomains: false,
        ..block("ads.example.com")
    };
    let m = matcher_with(&[
        ("", block("ads.example.com")),
        ("", typed("ads.example.com", "A")),
        ("", rewritten("ads.example.com", "0.0.0.0")),
        ("", exact),
        ("", typed("ads.example.com", "A")),
    ]);
    assert_eq!(m.len(), 4, "only the identical pair may collapse");
    assert_eq!(m.duplicates_removed(), 1);
}

#[test]
fn a_domain_that_differs_only_in_case_is_the_same_rule() {
    let m = matcher_with(&[("", block("Ads.Example.COM")), ("", block("ads.example.com"))]);
    assert_eq!(m.len(), 1);
    assert_eq!(m.duplicates_removed(), 1);
    assert!(matches!(decision(&m, "ads.example.com"), MatchDecision::Block(_)));
}

#[test]
fn compiling_the_same_rules_twice_is_byte_identical_whatever_the_capacity() {
    let rules: Vec<(&str, DomainRule)> = vec![
        ("a", block("ads.example.com")),
        ("a", allow("cdn.example.com")),
        ("b", block("ads.example.com")),
        ("b", block("tracker.example.org")),
        ("b", typed("ads.example.com", "AAAA")),
        ("c", block("tracker.example.org")),
    ];
    let baseline = build_across_lists(&rules, None);
    for capacity in [Some(0), Some(1), Some(rules.len()), Some(100_000), None] {
        let other = build_across_lists(&rules, capacity);
        assert_eq!(other.len(), baseline.len());
        assert_eq!(other.slot_len(), baseline.slot_len());
        assert_eq!(other.duplicates_removed(), 2);
        for name in ["ads.example.com", "cdn.example.com", "tracker.example.org", "x.ads.example.com"] {
            assert_eq!(decision(&other, name), decision(&baseline, name));
        }
    }
}

#[test]
fn an_unhinted_builder_grows_its_index_without_losing_or_inventing_rules() {
    let mut b = MatcherBuilder::new();
    let list = b.add_list("big");
    for i in 0..5_000 {
        b.add_rule(list, &block(&format!("host{i}.example.com")));
        b.add_rule(list, &block(&format!("host{i}.example.com")));
    }
    let m = b.build();
    assert_eq!(m.len(), 5_000);
    assert_eq!(m.duplicates_removed(), 5_000);
    assert!(matches!(decision(&m, "host4999.example.com"), MatchDecision::Block(_)));
    assert!(matches!(
        decision(&m, "deep.sub.host0.example.com"),
        MatchDecision::Block(_)
    ));
}

#[test]
fn dedup_shrinks_the_compiled_footprint_of_overlapping_lists() {
    let rules: Vec<(&str, DomainRule)> = (0..1_000)
        .map(|i| ("a", block(&format!("ads{i}.example.com"))))
        .chain((0..1_000).map(|i| ("b", block(&format!("ads{i}.example.com")))))
        .collect();
    let m = build_across_lists(&rules, Some(rules.len()));
    assert_eq!(m.len(), 1_000);
    assert_eq!(m.duplicates_removed(), 1_000);
    let single = build_across_lists(&rules[..1_000], Some(1_000));
    assert_eq!((m.len(), m.slot_len()), (single.len(), single.slot_len()));
}

#[test]
fn with_capacity_clamps_the_preallocation_against_an_inflated_ceiling() {
    let clamped = MatcherBuilder::with_capacity(usize::MAX);
    assert_eq!(clamped.dedup_len(), dedup_slots(MAX_PREALLOC_RULES));
    let exact = MatcherBuilder::with_capacity(1_000);
    assert_eq!(exact.dedup_len(), dedup_slots(1_000));
}

#[test]
fn an_adversarial_list_body_cannot_inflate_the_dedup_allocation() {
    let garbage = "a ".repeat(5_000_000);
    let ceiling = fah_rules::parser::rule_upper_bound(&garbage);
    assert!(ceiling > MAX_PREALLOC_RULES);
    let builder = MatcherBuilder::with_capacity(ceiling);
    assert_eq!(builder.dedup_len(), dedup_slots(MAX_PREALLOC_RULES));
}

#[test]
fn a_clamped_builder_still_compiles_every_distinct_rule() {
    let mut b = MatcherBuilder::with_capacity(4);
    let list = b.add_list("l");
    for i in 0..2_000 {
        b.add_rule(list, &block(&format!("host{i}.example.com")));
        b.add_rule(list, &block(&format!("host{i}.example.com")));
    }
    let m = b.build();
    assert_eq!(m.len(), 2_000);
    assert_eq!(m.duplicates_removed(), 2_000);
    assert!(matches!(decision(&m, "host1999.example.com"), MatchDecision::Block(_)));
}

#[test]
fn a_rule_hidden_from_a_policy_does_not_take_part() {
    let mut b = MatcherBuilder::new();
    let kids = b.add_list_masked("kids", 0b10);
    let all = b.add_list("all");
    b.add_rule(kids, &block("games.example.com"));
    b.add_rule(all, &block("ads.example.com"));
    let m = b.build();
    let default_ctx = ClientContext::anonymous();
    let kids_ctx = ClientContext {
        policy: PolicyId(1),
        ip: None,
        name: None,
    };
    assert_eq!(
        m.lookup_in("games.example.com", &QueryType::A, &default_ctx),
        MatchDecision::Pass
    );
    assert!(matches!(
        m.lookup_in("games.example.com", &QueryType::A, &kids_ctx),
        MatchDecision::Block(_)
    ));
    assert!(matches!(
        m.lookup_in("ads.example.com", &QueryType::A, &kids_ctx),
        MatchDecision::Block(_)
    ));
}

#[test]
fn a_client_scoped_rule_applies_only_to_its_client() {
    let rule = with_opts(
        block("kids.example.com"),
        DomainOpts {
            client: Some(Box::from("192.168.1.5")),
            ..DomainOpts::default()
        },
    );
    let m = matcher_with(&[("", rule)]);
    let ip = fah_rules::ip::IpAddr::parse("192.168.1.5");
    let other = fah_rules::ip::IpAddr::parse("192.168.1.6");
    let ctx = ClientContext {
        policy: PolicyId(0),
        ip,
        name: None,
    };
    let other_ctx = ClientContext {
        policy: PolicyId(0),
        ip: other,
        name: None,
    };
    assert!(matches!(
        m.lookup_in("kids.example.com", &QueryType::A, &ctx),
        MatchDecision::Block(_)
    ));
    assert_eq!(
        m.lookup_in("kids.example.com", &QueryType::A, &other_ctx),
        MatchDecision::Pass
    );
}

#[test]
fn a_parsed_list_compiles_its_domain_rules() {
    let list = fah_rules::parse_rule_list("||ads.example.com^\n@@||ok.ads.example.com^\nexample.com##.x\n");
    let mut b = MatcherBuilder::new();
    b.add_parsed_list("easylist", &list);
    let m = b.build();
    assert_eq!(m.len(), 2);
    assert!(matches!(decision(&m, "x.ads.example.com"), MatchDecision::Block(_)));
    assert!(matches!(decision(&m, "ok.ads.example.com"), MatchDecision::Allow(_)));
}

fn http<'a>(url: &'a str, host: &'a str) -> HttpRequest<'a> {
    HttpRequest {
        url,
        host,
        method: "GET",
        resource_type: ResourceType::Unknown,
        document_host: None,
    }
}

fn compiled(text: &str) -> Matcher {
    let parsed = fah_rules::parse_rule_list(text);
    let mut b = MatcherBuilder::new();
    b.add_parsed_list("list", &parsed);
    b.build()
}

#[test]
fn a_url_rule_decides_a_request_and_names_its_list() {
    let m = compiled("! Title: t\n/ads/banner$script\n||cdn.example.com^\n");
    assert_eq!(m.url_len(), 1);
    let mut req = http("http://e.com/ads/banner.js", "e.com");
    req.resource_type = ResourceType::Script;
    match m.verdict_http(&req) {
        Verdict::Block(d) => {
            assert_eq!(&*d.list, "list");
            assert_eq!(d.rule, "/ads/banner$script");
        }
        other => panic!("expected a block, got {other:?}"),
    }
}

#[test]
fn a_domain_exception_overrides_a_url_block() {
    let m = compiled("! Title: t\n/track/*\n@@||cdn.example.com^\n");
    let req = http("http://cdn.example.com/track/x", "cdn.example.com");
    match m.verdict_http(&req) {
        Verdict::Allow(d) => assert_eq!(d.rule, "@@||cdn.example.com^"),
        other => panic!("expected an allow, got {other:?}"),
    }
}

#[test]
fn a_url_exception_overrides_a_domain_block() {
    let m = compiled("! Title: t\n||ads.example.com^\n@@/ads/ok.js\n");
    let req = http("http://ads.example.com/ads/ok.js", "ads.example.com");
    match m.verdict_http(&req) {
        Verdict::Allow(d) => assert_eq!(d.rule, "@@/ads/ok.js"),
        other => panic!("expected an allow, got {other:?}"),
    }
    let other = http("http://ads.example.com/x", "ads.example.com");
    assert!(matches!(m.lookup_http(&other), MatchDecision::Block(_)));
}

#[test]
fn the_same_url_rule_in_two_lists_is_compiled_once() {
    let parsed = fah_rules::parse_rule_list("! Title: t\n/ads/banner\n");
    let mut b = MatcherBuilder::new();
    b.add_parsed_list("a", &parsed);
    b.add_parsed_list("b", &parsed);
    let m = b.build();
    assert_eq!(m.url_len(), 1);
    assert_eq!(m.url_duplicates_removed(), 1);
    match m.verdict_http(&http("http://e.com/ads/banner", "e.com")) {
        Verdict::Block(d) => assert_eq!(&*d.list, "a"),
        other => panic!("expected a block, got {other:?}"),
    }
}
