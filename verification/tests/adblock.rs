use fah_rules::parser::adblock;
use fah_rules::resource::ALL_TYPES;
use fah_rules::{InactiveReason, Party, RuleAction, RuleKind, UrlAnchor, UrlRule};

fn one(text: &str) -> RuleKind {
    let result = adblock::parse(&format!("{text}\n"));
    assert_eq!(result.rules.len(), 1, "{text} should parse to one rule");
    result.rules.into_iter().next().unwrap().kind
}

fn url_of(text: &str) -> UrlRule {
    match one(text) {
        RuleKind::Url(rule) => *rule,
        other => panic!("{text} should be a URL rule, got {other:?}"),
    }
}

#[test]
fn parses_plain_block_rule() {
    let result = adblock::parse("||ads.example.com^\n");
    assert_eq!(result.active_count(), 1);
    match &result.rules[0].kind {
        RuleKind::Active(rule) => {
            assert_eq!(&*rule.domain, "ads.example.com");
            assert_eq!(rule.action, RuleAction::Block);
        }
        other => panic!("expected active rule, got {other:?}"),
    }
}

#[test]
fn parses_exception_rule() {
    let result = adblock::parse("@@||cdn.example.com^\n");
    match &result.rules[0].kind {
        RuleKind::Active(rule) => assert_eq!(rule.action, RuleAction::Allow),
        other => panic!("expected active rule, got {other:?}"),
    }
}

#[test]
fn keeps_dnstype_and_dnsrewrite_active() {
    let result =
        adblock::parse("||a.example.com^$dnstype=A|AAAA\n||b.example.com^$dnsrewrite=0.0.0.0\n");
    assert_eq!(result.active_count(), 2);
}

#[test]
fn client_option_is_active_and_retains_its_payload() {
    let result = adblock::parse("||kids.example.com^$client=192.168.1.5\n");
    assert_eq!(result.active_count(), 1);
    let RuleKind::Active(rule) = &result.rules[0].kind else {
        panic!("expected a domain rule, got {:?}", result.rules[0].kind);
    };
    assert_eq!(rule.client(), Some("192.168.1.5"));
}

#[test]
fn client_scoping_survives_alongside_http_options() {
    let RuleKind::Url(rule) = one("||ads.example.com^$client=192.168.1.5,third-party") else {
        panic!("expected a URL rule");
    };
    assert_eq!(rule.client.as_deref(), Some("192.168.1.5"));
    assert_eq!(rule.party, Party::Third);
}

#[test]
fn a_valueless_client_option_is_unsupported() {
    assert_eq!(
        one("||ads.example.com^$client"),
        RuleKind::Inactive(InactiveReason::Unsupported)
    );
    assert_eq!(
        one("||ads.example.com^$client="),
        RuleKind::Inactive(InactiveReason::Unsupported)
    );
}

#[test]
fn a_client_payload_the_compiler_cannot_use_is_unsupported() {
    assert_eq!(
        one("||ads.example.com^$client=10.0.0.1/99"),
        RuleKind::Inactive(InactiveReason::Unsupported)
    );
    assert_eq!(
        one("||ads.example.com^$client=|"),
        RuleKind::Inactive(InactiveReason::Unsupported)
    );
}

#[test]
fn hash_comments_produce_no_rule() {
    let result = adblock::parse("# Title: a hybrid list\n#\n||ads.example.com^\n");
    assert_eq!(result.rules.len(), 1);
    assert_eq!(result.active_count(), 1);
    assert_eq!(result.url_count(), 0);
    assert_eq!(result.parse_errors, 0);
}

#[test]
fn a_generic_cosmetic_rule_still_opens_with_a_hash() {
    assert_eq!(
        one("###banner-ad-container"),
        RuleKind::Inactive(InactiveReason::Cosmetic)
    );
}

#[test]
fn a_comment_quoting_a_cosmetic_marker_is_not_a_rule() {
    let result = adblock::parse("! use example.com##.ad-banner to hide banners\n");
    assert_eq!(result.rules.len(), 0);
}

#[test]
fn cosmetic_rule_is_inactive() {
    let result = adblock::parse("example.com##.ad-banner\n");
    assert_eq!(
        result.rules[0].kind,
        RuleKind::Inactive(InactiveReason::Cosmetic)
    );
}

#[test]
fn path_qualified_rules_become_url_rules_with_their_text() {
    let rule = url_of("||paypal.com^*/pixel.gif$third-party");
    assert_eq!(&*rule.pattern, "paypal.com^*/pixel.gif");
    assert_eq!(rule.anchor, UrlAnchor::Domain);
    assert_eq!(rule.party, Party::Third);
    assert_eq!(rule.action, RuleAction::Block);
    assert!(!rule.end_anchored);

    let rule = url_of("||googleapis.com^*/gen_204?");
    assert_eq!(&*rule.pattern, "googleapis.com^*/gen_204?");

    let rule = url_of("||example.com/ads/banner.js");
    assert_eq!(&*rule.pattern, "example.com/ads/banner.js");
    assert_eq!(rule.anchor, UrlAnchor::Domain);
}

#[test]
fn a_url_rule_is_not_dns_applicable() {
    let result = adblock::parse("||paypal.com^*/pixel.gif$third-party\n");
    assert_eq!(result.active_count(), 0);
    assert!(result.rules[0].is_url());
    assert!(!result.rules[0].is_active());
}

#[test]
fn non_anchored_pattern_is_a_url_rule() {
    let rule = url_of("/banner/*/ad.js");
    assert_eq!(rule.anchor, UrlAnchor::Anywhere);
    assert_eq!(&*rule.pattern, "/banner/*/ad.js");
}

#[test]
fn a_bare_substring_pattern_is_a_url_rule() {
    let rule = url_of("&rb=&uuid=$third-party");
    assert_eq!(rule.anchor, UrlAnchor::Anywhere);
    assert_eq!(&*rule.pattern, "&rb=&uuid=");
    assert_eq!(rule.party, Party::Third);
}

#[test]
fn address_anchors_are_recorded_not_kept_in_the_pattern() {
    let rule = url_of("|http://ads.example.com/track|");
    assert_eq!(rule.anchor, UrlAnchor::Start);
    assert!(rule.end_anchored);
    assert_eq!(&*rule.pattern, "http://ads.example.com/track");
}

#[test]
fn a_domain_pattern_with_an_http_option_moves_to_the_url_tier() {
    let rule = url_of("||ads.example.com^$third-party");
    assert_eq!(&*rule.pattern, "ads.example.com^");
    assert_eq!(rule.anchor, UrlAnchor::Domain);
    assert_eq!(rule.party, Party::Third);
}

#[test]
fn resource_type_options_fold_into_a_mask() {
    let script = url_of("||ads.example.com^$script").resource_types;
    let image = url_of("||ads.example.com^$image").resource_types;
    assert_ne!(script, 0);
    assert_ne!(script, image);
    assert_eq!(
        url_of("||ads.example.com^$script,image").resource_types,
        script | image
    );
    assert_eq!(
        url_of("||ads.example.com^$~script").resource_types,
        ALL_TYPES & !script
    );
    assert_eq!(url_of("||ads.example.com^$third-party").resource_types, 0);
}

#[test]
fn a_type_set_that_folds_to_nothing_is_refused() {
    assert_eq!(
        one("||ads.example.com^$script,~script"),
        RuleKind::Inactive(InactiveReason::Unsupported)
    );
}

#[test]
fn domain_and_method_payloads_are_retained_normalized() {
    let rule = url_of("||ads.example.com^$domain=A.Com|~b.com");
    assert_eq!(rule.domains.as_deref(), Some("a.com|~b.com"));
    let rule = url_of("||ads.example.com^$method=get|post");
    assert_eq!(rule.methods.as_deref(), Some("GET|POST"));
}

#[test]
fn patterns_are_folded_unless_match_case_says_otherwise() {
    assert_eq!(
        &*url_of("||Ads.Example.COM/Track").pattern,
        "ads.example.com/track"
    );
    let cased = url_of("||Ads.Example.COM/Track$match-case");
    assert_eq!(&*cased.pattern, "Ads.Example.COM/Track");
    assert!(cased.match_case);
}

#[test]
fn party_negation_flips_the_side() {
    assert_eq!(url_of("||a.example.com^$~third-party").party, Party::First);
    assert_eq!(url_of("||a.example.com^$first-party").party, Party::First);
    assert_eq!(url_of("||a.example.com^$~first-party").party, Party::Third);
}

#[test]
fn exceptions_survive_into_the_url_tier() {
    let rule = url_of("@@||cdn.example.com/assets/$script");
    assert_eq!(rule.action, RuleAction::Allow);
}

#[test]
fn a_regex_literal_is_unsupported() {
    assert_eq!(
        one("/^https?:\\/\\/ads\\./"),
        RuleKind::Inactive(InactiveReason::Unsupported)
    );
}

#[test]
fn an_unrecognized_option_drops_the_rule_rather_than_widening_it() {
    assert_eq!(
        one("||hltv.org^*=|$popup,domain=hltv.org"),
        RuleKind::Inactive(InactiveReason::Unsupported)
    );
    assert_eq!(
        one("||ads.example.com^$removeparam=utm_source"),
        RuleKind::Inactive(InactiveReason::Unsupported)
    );
}

#[test]
fn a_payload_too_large_for_the_compiled_record_is_refused_where_it_is_counted() {
    let long_pattern = format!("||big.example.com/{}", "a".repeat(70_000));
    assert_eq!(
        one(&long_pattern),
        RuleKind::Inactive(InactiveReason::Unsupported)
    );

    let entries: Vec<String> = (0..7_000).map(|i| format!("d{i}.example.com")).collect();
    let long_domains = format!("||big.example.com^$domain={}", entries.join("|"));
    assert_eq!(
        one(&long_domains),
        RuleKind::Inactive(InactiveReason::Unsupported)
    );
}

#[test]
fn an_options_only_line_matches_nothing_rather_than_everything() {
    assert_eq!(
        one("$third-party"),
        RuleKind::Inactive(InactiveReason::Unsupported)
    );
}

#[test]
fn end_anchor_stays_active_without_subdomains() {
    let result = adblock::parse("||clarity.ms^|\n");
    match &result.rules[0].kind {
        RuleKind::Active(rule) => {
            assert_eq!(&*rule.domain, "clarity.ms");
            assert_eq!(rule.action, RuleAction::Block);
            assert!(!rule.include_subdomains, "`|` anchors the address end");
        }
        other => panic!("`||d^|` is a DNS rule, got {other:?}"),
    }
}

#[test]
fn end_anchored_exception_stays_an_allow_rule() {
    let result = adblock::parse("@@||data.notify.macys.com^|\n");
    match &result.rules[0].kind {
        RuleKind::Active(rule) => {
            assert_eq!(rule.action, RuleAction::Allow);
            assert!(!rule.include_subdomains);
        }
        other => panic!("an exception must not be dropped, got {other:?}"),
    }
}

#[test]
fn end_anchor_followed_by_options_is_still_parsed() {
    let result = adblock::parse("||a.example.com^|$dnstype=A\n");
    match &result.rules[0].kind {
        RuleKind::Active(rule) => {
            assert!(!rule.include_subdomains);
            assert_eq!(rule.dns_types(), Some("A"));
        }
        other => panic!("expected an active rule, got {other:?}"),
    }
}

#[test]
fn bare_separator_still_includes_subdomains() {
    let result = adblock::parse("||ads.example.com^\n||b.example.com^$dnstype=A\n||c.example.com\n");
    for rule in &result.rules {
        match &rule.kind {
            RuleKind::Active(rule) => assert!(rule.include_subdomains),
            other => panic!("expected active rules, got {other:?}"),
        }
    }
}

#[test]
fn empty_domain_anchor_is_parse_error() {
    let result = adblock::parse("||^\n");
    assert_eq!(result.parse_errors, 1);
    assert_eq!(result.rules.len(), 0);
}

#[test]
fn trailing_comma_in_options_is_parse_error() {
    let result = adblock::parse("||example.com^$script,\n");
    assert_eq!(result.parse_errors, 1);
}

#[test]
fn a_dollar_inside_the_pattern_does_not_swallow_the_options() {
    let rule = url_of("||shop.example.com/price$5/track$image");
    assert_eq!(&*rule.pattern, "shop.example.com/price$5/track");
    assert_ne!(rule.resource_types, 0);
}

#[test]
fn comment_and_header_lines_are_skipped() {
    let result = adblock::parse("! comment\n[Adblock Plus 2.0]\n\n");
    assert_eq!(result.rules.len(), 0);
    assert_eq!(result.parse_errors, 0);
}

#[test]
fn a_pattern_containing_whitespace_is_a_parse_error() {
    let result = adblock::parse("||valid.example^\nthis is not a rule at all\n");
    assert_eq!(result.parse_errors, 1);
    assert_eq!(result.parse_error_lines, vec![2]);
    assert_eq!(result.active_count(), 1);

    let result = adblock::parse("||a.example^\n!!x\nbad line ###\n");
    assert_eq!(result.parse_errors, 1);
}

#[test]
fn whitespace_in_option_payload_is_not_the_pattern_error_path() {
    let result = adblock::parse("||ads.example.com^$dnsrewrite=NOERROR\n");
    assert_eq!(result.parse_errors, 0);
    assert_eq!(result.active_count(), 1);
}
