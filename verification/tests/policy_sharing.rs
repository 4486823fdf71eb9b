use fah_rules::ip::IpAddr;
use fah_rules::matcher::{ClientContext, MatchDecision, Matcher, MatcherBuilder, QueryType};
use fah_rules::parse_rule_list;
use fah_rules::policy::{PolicyId, ALL_POLICIES};
use fah_rules::resource::ResourceType;
use fah_rules::url_matcher::HttpRequest;

/// Compiles `(id, text, policy mask)` lists, in order.
fn compile(texts: &[(&str, &str, u16)]) -> Matcher {
    let mut builder = MatcherBuilder::new();
    for (id, text, mask) in texts {
        let parsed = parse_rule_list(text);
        builder.add_parsed_list_masked(id, &parsed, *mask);
    }
    builder.build()
}

/// The mask of a list that the default policy and `policies` see.
fn seen_by(policies: &[u8]) -> u16 {
    policies
        .iter()
        .fold(PolicyId(0).bit(), |mask, id| mask | PolicyId(*id).bit())
}

fn ctx_for(policy: PolicyId) -> ClientContext<'static> {
    ClientContext {
        policy,
        ip: None,
        name: None,
    }
}

fn ctx_from(ip: &str) -> ClientContext<'static> {
    ClientContext {
        policy: PolicyId(0),
        ip: IpAddr::parse(ip),
        name: None,
    }
}

fn blocks(matcher: &Matcher, domain: &str, policy: PolicyId) -> bool {
    matches!(
        matcher.lookup_in(domain, &QueryType::A, &ctx_for(policy)),
        MatchDecision::Block(_)
    )
}

const SHARED: &str = "\
||ads.example.com^
||tracker.example.net^
||analytics.example.org^
";
const ADULT: &str = "\
||adult-one.example.com^
||adult-two.example.com^
";

#[test]
fn two_policies_over_overlapping_lists_compile_the_shared_list_once() {
    // `kids` (policy 1) enables both lists, `guest` (policy 2) only `shared`.
    let kids = PolicyId(1);
    let guest = PolicyId(2);
    let matcher = compile(&[
        ("shared", SHARED, seen_by(&[1, 2])),
        ("adult", ADULT, seen_by(&[1])),
    ]);
    assert_eq!(
        matcher.len(),
        5,
        "the shared list must contribute its rules once, not once per policy"
    );
    assert!(blocks(&matcher, "ads.example.com", kids));
    assert!(blocks(&matcher, "ads.example.com", guest));
    assert!(blocks(&matcher, "adult-one.example.com", kids));
    assert!(!blocks(&matcher, "adult-one.example.com", guest));
    assert!(blocks(&matcher, "adult-one.example.com", PolicyId(0)));
}

#[test]
fn a_deduplicated_rule_stays_visible_to_every_list_that_supplied_it() {
    // `first-only` (policy 1) enables list a, `second-only` (policy 2) list b.
    let matcher = compile(&[
        ("a", "||ads.example.com^\n", seen_by(&[1])),
        ("b", "||ads.example.com^\n", seen_by(&[2])),
    ]);
    assert_eq!(matcher.len(), 1);
    assert_eq!(matcher.duplicates_removed(), 1);
    assert!(
        blocks(&matcher, "ads.example.com", PolicyId(2)),
        "the surviving record is attributed to list a, but list b supplied it too"
    );
    assert!(blocks(&matcher, "ads.example.com", PolicyId(1)));
}

#[test]
fn the_url_tier_unions_policy_visibility_across_lists_too() {
    let matcher = compile(&[
        ("a", "/ads/banner.gif\n", seen_by(&[1])),
        ("b", "/ads/banner.gif\n", seen_by(&[2])),
    ]);
    assert_eq!(matcher.url_len(), 1);
    assert_eq!(matcher.url_duplicates_removed(), 1);

    let request = HttpRequest {
        url: "http://example.com/ads/banner.gif",
        host: "example.com",
        method: "GET",
        resource_type: ResourceType::Unknown,
        document_host: None,
    };
    for policy in [PolicyId(1), PolicyId(2)] {
        assert!(
            matches!(
                matcher.lookup_http_in(&request, &ctx_for(policy)),
                MatchDecision::Block(_)
            ),
            "policy {} should see a rule its own list supplied",
            policy.0
        );
    }
}

#[test]
fn an_excluded_lists_exception_cannot_suppress_a_block() {
    // `strict` (policy 1) enables only the blocks; `lenient` (policy 2) both.
    let matcher = compile(&[
        ("blocks", "||ads.example.com^\n", seen_by(&[1, 2])),
        ("allows", "@@||ads.example.com^\n", seen_by(&[2])),
    ]);
    assert!(
        blocks(&matcher, "ads.example.com", PolicyId(1)),
        "the exception lives in a list `strict` does not enable"
    );
    assert!(!blocks(&matcher, "ads.example.com", PolicyId(2)));
}

#[test]
fn a_client_scoped_rule_applies_only_to_the_clients_it_names() {
    let matcher = compile(&[(
        "user-rules",
        "||kids-blocked.example.com^$client=192.168.1.50\n",
        ALL_POLICIES,
    )]);
    assert_eq!(matcher.len(), 1);
    let asked_by = |ip: &str| {
        matches!(
            matcher.lookup_in("kids-blocked.example.com", &QueryType::A, &ctx_from(ip)),
            MatchDecision::Block(_)
        )
    };
    assert!(asked_by("192.168.1.50"));
    assert!(!asked_by("192.168.1.51"));
    assert!(!matches!(
        matcher.lookup("kids-blocked.example.com", &QueryType::A),
        MatchDecision::Block(_)
    ));
}

#[test]
fn a_negated_client_scope_excludes_only_that_client() {
    let matcher = compile(&[(
        "user-rules",
        "||ads.example.com^$client=~192.168.1.50\n",
        ALL_POLICIES,
    )]);
    let asked_by = |ip: &str| {
        matches!(
            matcher.lookup_in("ads.example.com", &QueryType::A, &ctx_from(ip)),
            MatchDecision::Block(_)
        )
    };
    assert!(!asked_by("192.168.1.50"));
    assert!(asked_by("192.168.1.51"));
}

#[test]
fn client_scope_is_part_of_a_rules_identity() {
    let matcher = compile(&[(
        "user-rules",
        "||ads.example.com^$client=192.168.1.50\n||ads.example.com^$client=192.168.1.51\n",
        ALL_POLICIES,
    )]);
    assert_eq!(matcher.len(), 2);
    assert_eq!(matcher.duplicates_removed(), 0);

    let MatchDecision::Block(rule) =
        matcher.lookup_in("ads.example.com", &QueryType::A, &ctx_from("192.168.1.51"))
    else {
        panic!("expected a block");
    };
    assert_eq!(
        &*matcher.decisive_rule(rule).rule,
        "||ads.example.com^$client=192.168.1.51"
    );
}

fn class(d: &MatchDecision) -> u8 {
    match d {
        MatchDecision::Allow(_) => 2,
        MatchDecision::Block(_) => 1,
        _ => 0,
    }
}

#[test]
fn a_policy_decides_as_a_matcher_of_only_the_lists_it_sees() {
    let exceptions = "@@||ads.example.com^\n";
    let masked = compile(&[
        ("shared", SHARED, seen_by(&[1, 2])),
        ("adult", ADULT, seen_by(&[1])),
        ("exceptions", exceptions, PolicyId(2).bit()),
    ]);
    let guest_only = compile(&[("shared", SHARED, ALL_POLICIES)]);
    let guest_with_exceptions = compile(&[
        ("shared", SHARED, ALL_POLICIES),
        ("exceptions", exceptions, ALL_POLICIES),
    ]);
    for domain in [
        "ads.example.com",
        "tracker.example.net",
        "adult-one.example.com",
        "adult-two.example.com",
        "clean.example.com",
    ] {
        let policy_zero = masked.lookup_in(domain, &QueryType::A, &ctx_for(PolicyId(0)));
        let seen_by_zero = compile(&[
            ("shared", SHARED, ALL_POLICIES),
            ("adult", ADULT, ALL_POLICIES),
        ])
        .lookup_in(domain, &QueryType::A, &ctx_for(PolicyId(0)));
        assert_eq!(class(&policy_zero), class(&seen_by_zero), "{domain}");

        let guest = masked.lookup_in(domain, &QueryType::A, &ctx_for(PolicyId(2)));
        let alone = guest_with_exceptions.lookup_in(domain, &QueryType::A, &ctx_for(PolicyId(2)));
        assert_eq!(class(&guest), class(&alone), "{domain}");
    }
    assert_eq!(
        class(&guest_only.lookup_in("ads.example.com", &QueryType::A, &ctx_for(PolicyId(0)))),
        1
    );
    assert_eq!(
        class(&masked.lookup_in("ads.example.com", &QueryType::A, &ctx_for(PolicyId(2)))),
        2
    );
}
