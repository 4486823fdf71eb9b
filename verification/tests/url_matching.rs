use fah_rules::rule::{Party, RuleAction, UrlAnchor, UrlRule};
use fah_rules::matcher::{Matcher, MatcherBuilder, QueryType, Verdict};
use fah_rules::parse_rule_list;
use fah_rules::resource::ResourceType;
use fah_rules::url_matcher::HttpRequest;

fn compile(text: &str) -> Matcher {
    let parsed = parse_rule_list(text);
    let mut builder = MatcherBuilder::new();
    builder.add_parsed_list("test", &parsed);
    builder.build()
}

fn get<'a>(url: &'a str, host: &'a str) -> HttpRequest<'a> {
    HttpRequest {
        url,
        host,
        method: "GET",
        resource_type: ResourceType::Unknown,
        document_host: None,
    }
}

fn blocked(matcher: &Matcher, request: &HttpRequest<'_>) -> bool {
    matches!(matcher.verdict_http(request), Verdict::Block(_))
}

#[test]
fn the_domain_option_is_judged_on_the_document_host() {
    let matcher = compile("! t\n-ads/assets/$script,domain=~web-ads.org\n");
    let mut request = get("http://cdn.example.com/-ads/assets/x.js", "cdn.example.com");
    request.resource_type = ResourceType::Script;

    request.document_host = Some("blog.example.com");
    assert!(blocked(&matcher, &request));
    request.document_host = Some("web-ads.org");
    assert!(
        !blocked(&matcher, &request),
        "the `~` entry vetoes the rule"
    );
    request.document_host = Some("docs.web-ads.org");
    assert!(
        !blocked(&matcher, &request),
        "and so does anything under it"
    );
}

#[test]
fn exceptions_beat_blocks_across_both_tiers() {
    let matcher = compile("! t\n||example.com/assets/\n@@||example.com/assets/app.js\n");
    assert!(blocked(
        &matcher,
        &get("http://example.com/assets/ads.js", "example.com")
    ));
    assert!(matches!(
        matcher.verdict_http(&get("http://example.com/assets/app.js", "example.com")),
        Verdict::Allow(_)
    ));

    let matcher = compile("! t\n||example.com/assets/\n@@||example.com^\n");
    assert!(matches!(
        matcher.verdict_http(&get("http://example.com/assets/ads.js", "example.com")),
        Verdict::Allow(_)
    ));
}

#[test]
fn a_domain_rule_blocks_an_http_request_to_that_host() {
    let matcher = compile("! t\n||ads.example.com^\n");
    assert_eq!(matcher.url_len(), 0);
    assert!(blocked(
        &matcher,
        &get("http://ads.example.com/anything", "ads.example.com")
    ));
    assert!(
        blocked(
            &matcher,
            &get("http://deep.ads.example.com/x", "deep.ads.example.com")
        ),
        "subdomain semantics carry over to HTTP"
    );
    assert!(!blocked(
        &matcher,
        &get("http://example.com/x", "example.com")
    ));
}

#[test]
fn a_dnstype_restricted_rule_does_not_decide_a_request() {
    let matcher = compile("! t\n||ads.example.com^$dnstype=A\n");
    assert_eq!(matcher.len(), 1);
    assert!(!blocked(
        &matcher,
        &get("http://ads.example.com/x", "ads.example.com")
    ));
}

#[test]
fn a_url_verdict_names_the_rule_and_its_list() {
    let matcher = compile("! t\n||ads.example.com^*/pixel.gif$third-party\n");
    let mut request = get("http://ads.example.com/a/pixel.gif", "ads.example.com");
    request.document_host = Some("news.other.org");
    match matcher.verdict_http(&request) {
        Verdict::Block(decisive) => {
            assert_eq!(&*decisive.list, "test");
            assert_eq!(&*decisive.rule, "||ads.example.com^*/pixel.gif$third-party");
        }
        other => panic!("expected a block, got {other:?}"),
    }
}

#[test]
fn adding_url_rules_leaves_dns_verdicts_untouched() {
    let dns_only = compile("! t\n||ads.example.com^\n");
    let mixed = compile(
        "! t\n||ads.example.com^\n||ads.example.com^*/pixel.gif$third-party\n/banner/*/ad.js\n",
    );
    for domain in [
        "ads.example.com",
        "deep.ads.example.com",
        "example.com",
        "banner.example.org",
    ] {
        assert_eq!(
            dns_only.verdict(domain, &QueryType::A),
            mixed.verdict(domain, &QueryType::A),
            "the URL tier must not move a DNS verdict for {domain}"
        );
    }
    assert_eq!(mixed.url_len(), 2);
}

#[test]
fn a_url_rule_added_alone_is_judged_by_the_url_tier() {
    let mut builder = MatcherBuilder::new();
    let list = builder.add_list("manual");
    let rule = UrlRule {
        pattern: "/ads/banner".into(),
        action: RuleAction::Block,
        anchor: UrlAnchor::Anywhere,
        end_anchored: false,
        match_case: false,
        party: Party::Any,
        resource_types: 0,
        domains: None,
        methods: None,
        client: None,
    };
    builder.add_url_rule(list, &rule);
    builder.add_url_rule(list, &rule);
    let matcher = builder.build();
    assert_eq!(matcher.len(), 0);
    assert_eq!(matcher.url_len(), 1);
    assert!(blocked(&matcher, &get("http://e.com/ads/banner.gif", "e.com")));
    assert!(!blocked(&matcher, &get("http://e.com/clean.gif", "e.com")));
}
