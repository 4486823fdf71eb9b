use fah_rules::matcher::{MatcherBuilder, QueryType, Verdict};
use fah_rules::{parse_rule_list, RuleKind};

#[test]
fn path_qualified_rules_never_block_the_whole_domain() {
    const RULES: &[(&str, &str)] = &[
        ("||paypal.com^*/pixel.gif$third-party", "paypal.com"),
        ("||googleapis.com^*/gen_204?", "googleapis.com"),
        ("||amazonaws.com^*/prod_analytics", "amazonaws.com"),
        ("||s3.amazonaws.com^*/secure.js", "s3.amazonaws.com"),
        ("||ebay.com^*/madrona_loadscripts.js", "ebay.com"),
        ("||x.com^*/log.json", "x.com"),
        ("||cloudfront.net^*.bmp?", "cloudfront.net"),
        ("||akamai.net^*/sitetracking/", "akamai.net"),
        (
            "||bing.com^*/glinkping.aspx$ping,xmlhttprequest",
            "bing.com",
        ),
        ("||opera.com^*admaven$document", "opera.com"),
    ];

    for (rule, domain) in RULES {
        let parsed = parse_rule_list(&format!("! Title: t\n||seed.invalid^\n{rule}\n"));
        let mut builder = MatcherBuilder::new();
        builder.add_parsed_list("test", &parsed);
        let matcher = builder.build();

        assert_eq!(
            matcher.verdict(domain, &QueryType::A),
            Verdict::Pass,
            "{rule} must not produce a DNS verdict for {domain}"
        );
        assert_eq!(
            matcher.verdict(&format!("www.{domain}"), &QueryType::A),
            Verdict::Pass,
            "{rule} must not reach subdomains of {domain} either"
        );
        let url: Vec<_> = parsed
            .rules
            .iter()
            .filter(|parsed| parsed.is_url())
            .collect();
        assert_eq!(
            url.len(),
            1,
            "{rule} should be the only URL rule in the fixture"
        );
        assert!(
            matches!(url[0].kind, RuleKind::Url(_)),
            "{rule} belongs in the URL tier"
        );
        assert_eq!(
            matcher.url_len(),
            1,
            "{rule} must reach the compiled URL tier, not stop at the parser"
        );
    }
}

#[test]
fn domain_anchored_rules_stay_dns_rules() {
    for domain in ["paypal.com", "googleapis.com", "amazonaws.com", "x.com"] {
        let parsed = parse_rule_list(&format!("! Title: t\n||{domain}^\n"));
        let mut builder = MatcherBuilder::new();
        builder.add_parsed_list("test", &parsed);
        let matcher = builder.build();

        assert!(
            matches!(matcher.verdict(domain, &QueryType::A), Verdict::Block(_)),
            "||{domain}^ addresses the domain itself and must block it"
        );
        assert!(
            matches!(
                matcher.verdict(&format!("www.{domain}"), &QueryType::A),
                Verdict::Block(_)
            ),
            "||{domain}^ carries subdomain semantics"
        );
        assert_eq!(parsed.active_count(), 1);
    }
}

#[test]
fn end_anchored_rules_match_the_host_but_not_its_subdomains() {
    let parsed = parse_rule_list("! Title: t\n||clarity.ms^|\n@@||link.nzz.ch^|\n");
    let mut builder = MatcherBuilder::new();
    builder.add_parsed_list("test", &parsed);
    let matcher = builder.build();

    assert!(matches!(
        matcher.verdict("clarity.ms", &QueryType::A),
        Verdict::Block(_)
    ));
    assert_eq!(
        matcher.verdict("sub.clarity.ms", &QueryType::A),
        Verdict::Pass,
        "`||d^|` anchors the address end — it must not carry subdomain semantics"
    );
    assert!(matches!(
        matcher.verdict("link.nzz.ch", &QueryType::A),
        Verdict::Allow(_)
    ));
    assert_eq!(
        matcher.verdict("sub.link.nzz.ch", &QueryType::A),
        Verdict::Pass,
        "an end-anchored exception must not widen to subdomains either"
    );
}
