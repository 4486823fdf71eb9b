use fah_rules::resource::{bit_for_option, ResourceType, ALL_TYPES};
use fah_rules::rule::{Party, RuleAction, UrlAnchor, UrlRule};
use fah_rules::url_keys::{hash_key, ngram_hash, ngram_word, KeyKind};
use fah_rules::url_matcher::{
    host_span, match_from, registrable, Budget, HttpRequest, UrlDecision, UrlIndex,
    UrlIndexBuilder, NGRAM_BUCKET_CAP,
};

fn rule(pattern: &str) -> UrlRule {
    UrlRule {
        pattern: pattern.into(),
        action: RuleAction::Block,
        anchor: UrlAnchor::Anywhere,
        end_anchored: false,
        match_case: false,
        party: Party::Any,
        resource_types: 0,
        domains: None,
        methods: None,
        client: None,
    }
}

fn request<'a>(url: &'a str, host: &'a str) -> HttpRequest<'a> {
    HttpRequest {
        url,
        host,
        method: "GET",
        resource_type: ResourceType::Unknown,
        document_host: None,
    }
}

fn index_of(rules: Vec<UrlRule>) -> UrlIndex {
    let mut builder = UrlIndexBuilder::default();
    for rule in &rules {
        builder.add(0, rule);
    }
    builder.build()
}

fn blocks(index: &UrlIndex, request: &HttpRequest<'_>) -> bool {
    matches!(index.lookup(request), UrlDecision::Block(_))
}

#[test]
fn a_substring_pattern_matches_anywhere_in_the_url() {
    let index = index_of(vec![rule("/ads/banner")]);
    assert!(blocks(
        &index,
        &request("http://example.com/img/ads/banner.gif", "example.com")
    ));
    assert!(!blocks(
        &index,
        &request("http://example.com/img/banner.gif", "example.com")
    ));
}

#[test]
fn a_wildcard_spans_any_run_of_bytes() {
    let index = index_of(vec![rule("/banner/*/ad.js")]);
    assert!(blocks(
        &index,
        &request(
            "http://x.example.com/banner/deep/nested/ad.js",
            "x.example.com"
        )
    ));
    assert!(!blocks(
        &index,
        &request("http://x.example.com/banner/ad.css", "x.example.com")
    ));
}

#[test]
fn the_separator_matches_a_delimiter_or_the_end_of_the_url() {
    let index = index_of(vec![UrlRule {
        anchor: UrlAnchor::Domain,
        ..rule("ads.example.com^")
    }]);
    assert!(blocks(
        &index,
        &request("http://ads.example.com/pixel", "ads.example.com")
    ));
    assert!(blocks(
        &index,
        &request("http://ads.example.com", "ads.example.com")
    ));
    assert!(!blocks(
        &index,
        &request(
            "http://ads.example.community/pixel",
            "ads.example.community"
        )
    ));
}

#[test]
fn the_domain_anchor_matches_label_boundaries_only() {
    let index = index_of(vec![UrlRule {
        anchor: UrlAnchor::Domain,
        ..rule("example.com/track")
    }]);
    assert!(blocks(
        &index,
        &request("http://example.com/track", "example.com")
    ));
    assert!(blocks(
        &index,
        &request("http://deep.sub.example.com/track", "deep.sub.example.com")
    ));
    assert!(
        !blocks(
            &index,
            &request("http://notexample.com/track", "notexample.com")
        ),
        "`||` must anchor at a label boundary, not any substring"
    );
}

#[test]
fn the_start_anchor_matches_only_at_position_zero() {
    let index = index_of(vec![UrlRule {
        anchor: UrlAnchor::Start,
        ..rule("http://ads.example.com/")
    }]);
    assert!(blocks(
        &index,
        &request("http://ads.example.com/pixel", "ads.example.com")
    ));
    assert!(!blocks(
        &index,
        &request(
            "http://example.com/?u=http://ads.example.com/",
            "example.com"
        )
    ));
}

#[test]
fn the_end_anchor_requires_the_pattern_to_reach_the_url_end() {
    let index = index_of(vec![UrlRule {
        end_anchored: true,
        ..rule("/ad.js")
    }]);
    assert!(blocks(
        &index,
        &request("http://example.com/ad.js", "example.com")
    ));
    assert!(!blocks(
        &index,
        &request("http://example.com/ad.js?v=2", "example.com")
    ));
}

#[test]
fn matching_is_case_insensitive_unless_the_rule_says_otherwise() {
    let folded = index_of(vec![rule("/track/pixel")]);
    assert!(blocks(
        &folded,
        &request("http://example.com/TRACK/Pixel", "example.com")
    ));

    let cased = index_of(vec![UrlRule {
        match_case: true,
        ..rule("/Track/Pixel")
    }]);
    assert!(blocks(
        &cased,
        &request("http://example.com/Track/Pixel", "example.com")
    ));
    assert!(!blocks(
        &cased,
        &request("http://example.com/track/pixel", "example.com")
    ));
}

#[test]
fn a_pattern_of_only_wildcards_still_terminates() {
    let index = index_of(vec![rule("/a***b")]);
    assert!(blocks(&index, &request("http://e.com/aXXb", "e.com")));
    assert!(!blocks(&index, &request("http://e.com/aXX", "e.com")));
}

#[test]
fn an_exception_beats_a_block_however_they_are_ordered() {
    for reversed in [false, true] {
        let mut rules = vec![
            rule("/ads/banner"),
            UrlRule {
                action: RuleAction::Allow,
                ..rule("/ads/banner")
            },
        ];
        if reversed {
            rules.reverse();
        }
        let index = index_of(rules);
        assert!(matches!(
            index.lookup(&request("http://e.com/ads/banner.gif", "e.com")),
            UrlDecision::Allow(_)
        ));
    }
}

#[test]
fn nothing_matching_is_a_pass() {
    let index = index_of(vec![rule("/ads/banner")]);
    assert!(matches!(
        index.lookup(&request("http://e.com/index.html", "e.com")),
        UrlDecision::Pass
    ));
}

#[test]
fn a_type_restricted_rule_ignores_other_types() {
    let script = bit_for_option("script").unwrap();
    let index = index_of(vec![UrlRule {
        resource_types: script,
        ..rule("/widget")
    }]);
    let mut req = request("http://e.com/widget.js", "e.com");
    req.resource_type = ResourceType::Script;
    assert!(blocks(&index, &req));
    req.resource_type = ResourceType::Image;
    assert!(!blocks(&index, &req));
    req.resource_type = ResourceType::Unknown;
    assert!(!blocks(&index, &req));
}

#[test]
fn third_party_needs_a_referer_from_another_registrable_domain() {
    let index = index_of(vec![UrlRule {
        party: Party::Third,
        ..rule("/pixel.gif")
    }]);
    let mut req = request("http://ads.example.com/pixel.gif", "ads.example.com");
    assert!(!blocks(&index, &req), "no referer means first-party");

    req.document_host = Some("www.example.com");
    assert!(!blocks(&index, &req), "same site is not third-party");

    req.document_host = Some("news.other.org");
    assert!(blocks(&index, &req));
}

#[test]
fn first_party_is_the_exact_complement() {
    let index = index_of(vec![UrlRule {
        party: Party::First,
        ..rule("/pixel.gif")
    }]);
    let mut req = request("http://ads.example.com/pixel.gif", "ads.example.com");
    req.document_host = Some("www.example.com");
    assert!(blocks(&index, &req));
    req.document_host = Some("news.other.org");
    assert!(!blocks(&index, &req));
}

#[test]
fn domain_option_whitelists_and_vetoes() {
    let index = index_of(vec![UrlRule {
        domains: Some("news.org|~sport.news.org".into()),
        ..rule("/pixel.gif")
    }]);
    let mut req = request("http://ads.example.com/pixel.gif", "ads.example.com");

    req.document_host = Some("news.org");
    assert!(blocks(&index, &req));
    req.document_host = Some("world.news.org");
    assert!(blocks(&index, &req), "subdomains fall under the entry");
    req.document_host = Some("sport.news.org");
    assert!(!blocks(&index, &req), "an explicit `~` entry vetoes");
    req.document_host = Some("other.com");
    assert!(!blocks(&index, &req));
    req.document_host = None;
    assert!(
        !blocks(&index, &req),
        "no document cannot satisfy a positive entry"
    );
}

#[test]
fn a_wildcard_domain_entry_matches_any_public_suffix() {
    let index = index_of(vec![UrlRule {
        domains: Some("example.*".into()),
        ..rule("/pixel.gif")
    }]);
    let mut req = request("http://ads.other.com/pixel.gif", "ads.other.com");
    for document in ["example.com", "example.co.uk", "www.example.com"] {
        req.document_host = Some(document);
        assert!(blocks(&index, &req), "{document} is under example.*");
    }
    for document in ["notexample.com", "example.com.evil.net", "other.com"] {
        req.document_host = Some(document);
        assert!(!blocks(&index, &req), "{document} is not under example.*");
    }
}

#[test]
fn an_undetermined_type_declines_a_typed_block_but_not_a_typed_exception() {
    let script = bit_for_option("script").unwrap();
    let index = index_of(vec![
        UrlRule {
            resource_types: script,
            ..rule("/assets/")
        },
        UrlRule {
            action: RuleAction::Allow,
            resource_types: script,
            ..rule("/assets/")
        },
    ]);
    let mut req = request("http://cdn.example.com/assets/a.js", "cdn.example.com");
    req.resource_type = ResourceType::Unknown;
    assert!(
        matches!(index.lookup(&req), UrlDecision::Allow(_)),
        "the exception must survive an undetermined type"
    );

    let blocks_only = index_of(vec![UrlRule {
        resource_types: script,
        ..rule("/assets/")
    }]);
    assert!(
        !blocks(&blocks_only, &req),
        "a typed block must still decline an undetermined type"
    );
}

#[test]
fn a_purely_negated_domain_option_applies_everywhere_else() {
    let index = index_of(vec![UrlRule {
        domains: Some("~safe.org".into()),
        ..rule("/pixel.gif")
    }]);
    let mut req = request("http://ads.example.com/pixel.gif", "ads.example.com");
    req.document_host = Some("safe.org");
    assert!(!blocks(&index, &req));
    req.document_host = Some("elsewhere.com");
    assert!(blocks(&index, &req));
}

#[test]
fn method_option_selects_and_vetoes() {
    let index = index_of(vec![UrlRule {
        methods: Some("POST".into()),
        ..rule("/collect")
    }]);
    let mut req = request("http://e.com/collect", "e.com");
    assert!(!blocks(&index, &req));
    req.method = "POST";
    assert!(blocks(&index, &req));
}

#[test]
fn a_pathological_pattern_cannot_spend_an_unbounded_lookup() {
    let pattern = format!("{}*{}b", "a".repeat(40), "a".repeat(40));
    let index = index_of(vec![rule(&pattern)]);
    let url = format!("http://h.example.com/aab{}", "a".repeat(4000));
    let req = request(&url, "h.example.com");

    let start = std::time::Instant::now();
    let decision = index.lookup(&req);
    let elapsed = start.elapsed();

    assert!(matches!(decision, UrlDecision::Pass));
    assert_eq!(
        index.budget_exhausted(),
        1,
        "the lookup must report that it stopped short, not fail silently"
    );
    assert!(elapsed.as_millis() < 2000, "took {elapsed:?}");
}

#[test]
fn a_long_url_still_matches_an_ordinary_rule() {
    let index = index_of(vec![rule("/trackpixel")]);
    let url = format!("http://h.example.com/{}/trackpixel", "x".repeat(8000));
    let req = request(&url, "h.example.com");
    assert!(blocks(&index, &req));
    assert_eq!(
        index.budget_exhausted(),
        0,
        "an ordinary rule on a long URL must not be cut short"
    );
}

#[test]
fn an_identical_rule_from_two_lists_is_compiled_once() {
    let mut builder = UrlIndexBuilder::default();
    builder.add(0, &rule("/ads/banner"));
    builder.add(1, &rule("/ads/banner"));
    builder.add(1, &rule("/ads/other"));
    let index = builder.build();
    assert_eq!(index.len(), 2);
    assert_eq!(index.duplicates_removed(), 1);
    let UrlDecision::Block(idx) = index.lookup(&request("http://e.com/ads/banner", "e.com"))
    else {
        panic!("expected a block");
    };
    assert_eq!(index.list_id(idx), 0);
}

#[test]
fn rules_differing_only_in_an_option_are_distinct() {
    let mut builder = UrlIndexBuilder::default();
    builder.add(0, &rule("/ads/banner"));
    builder.add(
        0,
        &UrlRule {
            party: Party::Third,
            ..rule("/ads/banner")
        },
    );
    builder.add(
        0,
        &UrlRule {
            domains: Some("news.org".into()),
            ..rule("/ads/banner")
        },
    );
    let index = builder.build();
    assert_eq!(index.len(), 3);
    assert_eq!(index.duplicates_removed(), 0);
}

#[test]
fn an_empty_index_passes_everything() {
    let index = index_of(vec![]);
    assert_eq!(index.len(), 0);
    assert!(matches!(
        index.lookup(&request("http://e.com/ads/banner", "e.com")),
        UrlDecision::Pass
    ));
}

#[test]
fn rule_text_round_trips_the_canonical_form() {
    let index = index_of(vec![UrlRule {
        anchor: UrlAnchor::Domain,
        party: Party::Third,
        domains: Some("news.org".into()),
        ..rule("ads.example.com^*/pixel.gif")
    }]);
    assert_eq!(
        index.rule_text(0),
        "||ads.example.com^*/pixel.gif$third-party,domain=news.org"
    );
}

#[test]
fn rule_text_marks_exceptions_and_anchors() {
    let index = index_of(vec![UrlRule {
        action: RuleAction::Allow,
        anchor: UrlAnchor::Start,
        end_anchored: true,
        ..rule("http://cdn.example.com/app.js")
    }]);
    assert_eq!(index.rule_text(0), "@@|http://cdn.example.com/app.js|");
}

#[test]
fn rule_text_prefers_the_negated_form_for_a_near_complete_type_set() {
    let script = bit_for_option("script").unwrap();
    let index = index_of(vec![UrlRule {
        resource_types: ALL_TYPES & !script,
        ..rule("/widget")
    }]);
    assert_eq!(index.rule_text(0), "/widget$~script");
}

#[test]
fn host_span_finds_the_authority() {
    let url = "http://ads.example.com:8080/path?q=1";
    let (start, end) = host_span(url.as_bytes());
    assert_eq!(&url[start..end], "ads.example.com:8080");
    let bare = "example.com/x";
    let (start, end) = host_span(bare.as_bytes());
    assert_eq!(&bare[start..end], "example.com");
}

#[test]
fn registrable_takes_the_last_two_labels() {
    assert_eq!(registrable("a.b.example.com"), "example.com");
    assert_eq!(registrable("example.com"), "example.com");
    assert_eq!(registrable("localhost"), "localhost");
}

#[test]
fn rule_text_lists_types_match_case_and_methods_in_order() {
    let script = bit_for_option("script").unwrap();
    let image = bit_for_option("image").unwrap();
    let index = index_of(vec![UrlRule {
        resource_types: script | image,
        match_case: true,
        methods: Some("POST".into()),
        party: Party::First,
        ..rule("/Collect")
    }]);
    assert_eq!(
        index.rule_text(0),
        "/Collect$script,image,first-party,match-case,method=POST"
    );
}

#[test]
fn a_leading_caret_matches_at_a_separator_or_the_end() {
    let index = index_of(vec![rule("^ads^")]);
    assert!(blocks(&index, &request("http://e.com/ads/x", "e.com")));
    assert!(blocks(&index, &request("http://e.com/x?ads", "e.com")));
    assert!(!blocks(&index, &request("http://e.com/xads/x", "e.com")));
}

#[test]
fn a_star_at_the_end_matches_any_tail() {
    let mut budget = Budget::new();
    assert!(match_from(b"/ads/*", b"/ads/", 0, true, false, &mut budget));
    assert!(match_from(b"/ads/*", b"/ads/anything", 0, true, false, &mut budget));
    assert!(!match_from(b"/ads/*", b"/ad/", 0, true, false, &mut budget));
    assert!(!budget.exhausted);
}

#[test]
fn the_separator_does_not_match_a_label_character() {
    let mut budget = Budget::new();
    for (text, expected) in [
        (&b"a/b"[..], true),
        (b"a?b", true),
        (b"a.b", false),
        (b"a-b", false),
        (b"a_b", false),
        (b"a%b", false),
    ] {
        assert_eq!(
            match_from(b"a^b", text, 0, true, false, &mut budget),
            expected,
            "{:?}",
            String::from_utf8_lossy(text)
        );
    }
}

#[test]
fn the_index_decides_exactly_what_a_full_scan_decides() {
    let patterns = [
        "/ads/banner",
        "tracker.example.com/collect",
        "&utm_source=",
        "^adserver^",
        "/pixel.gif",
        "/a/b",
        "/adserver",
        "&campaign_id",
        "-metrics",
        "*trackpixel/",
        "*_analytics.js",
        "*banneroid*",
        "*promo",
    ];
    let rules: Vec<UrlRule> = patterns.iter().map(|p| rule(p)).collect();
    let index = index_of(rules);

    let urls = [
        "http://example.com/img/ads/banner.gif",
        "http://tracker.example.com/collect?id=1",
        "http://example.com/p?&utm_source=x",
        "http://example.com/adserver/x",
        "http://example.com/pixel.gif",
        "http://example.com/a/b",
        "http://example.com/adserver12/beacon",
        "http://example.com/p?&campaign_id_v2=7",
        "http://example.com/-metrics-collector/x",
        "http://cdn.example.com/mytrackpixel/1",
        "http://cdn.example.com/vendor_analytics.js",
        "http://cdn.example.com/xbanneroidx/1",
        "http://cdn.example.com/megapromo",
        "http://example.com/nothing/here",
        "http://www.wikipedia.org/wiki/Rust",
        "http://example.com/trackpixel",
    ];
    for url in urls {
        let req = request(url, "example.com");
        let indexed = index.lookup(&req);
        let scanned = index.lookup_scanning(&req).0;
        assert_eq!(
            matches!(indexed, UrlDecision::Block(_)),
            matches!(scanned, UrlDecision::Block(_)),
            "index and full scan disagree on {url}"
        );
    }
}

#[test]
fn every_long_enough_literal_run_is_indexed_and_only_short_ones_fall_back() {
    for pattern in [
        "/adserver",
        "*trackpixel/",
        "*trackpixel",
        "*banneroid*",
        "/fp/es.js",
        "t.co^",
        "0.0.0.0^",
    ] {
        let index = index_of(vec![rule(pattern)]);
        assert_eq!(
            index.unindexed_len(),
            0,
            "{pattern} offers a literal run the index can reach"
        );
    }
    let index = index_of(vec![rule("*a*b*")]);
    assert_eq!(index.unindexed_len(), 1);
    assert_eq!(index.ngram_keys(), 0);

    let index = index_of(vec![rule("/adserver")]);
    assert!(blocks(
        &index,
        &request("http://e.com/adserver99/x", "e.com")
    ));
    let index = index_of(vec![rule("*trackpixel/")]);
    assert!(blocks(
        &index,
        &request("http://e.com/mytrackpixel/1", "e.com")
    ));
}

#[test]
fn a_two_sided_unbounded_token_is_reached_through_the_ngram_index() {
    let index = index_of(vec![rule("*banneroid*")]);
    assert_eq!(index.unindexed_len(), 0, "must not fall back to the scan");
    assert_eq!(index.ngram_keys(), 1);

    for url in [
        "http://e.com/banneroid/1",
        "http://e.com/xxbanneroid/1",
        "http://e.com/xxbanneroidyy/1",
    ] {
        assert!(blocks(&index, &request(url, "e.com")), "{url}");
    }
    assert!(
        !blocks(&index, &request("http://e.com/banner/oid/1", "e.com")),
        "a separator breaks the token, so the n-gram cannot span it"
    );
}

#[test]
fn a_bounded_key_is_preferred_over_an_ngram_key() {
    let index = index_of(vec![rule("/adserver*zqxjv*")]);
    assert_eq!(index.ngram_keys(), 0, "the prefix key must win");
    assert_eq!(index.unindexed_len(), 0);
    assert!(blocks(
        &index,
        &request("http://e.com/adserverX/zqxjv/1", "e.com")
    ));
}

#[test]
fn a_repeated_ngram_does_not_recheck_the_same_rule() {
    let index = index_of(vec![rule("*banneroid*")]);
    let url = format!("http://h.example.com/{}", "ban".repeat(2600));
    let req = request(&url, "h.example.com");

    let start = std::time::Instant::now();
    assert!(matches!(index.lookup(&req), UrlDecision::Pass));
    let elapsed = start.elapsed();

    assert_eq!(
        index.budget_exhausted(),
        0,
        "the allowance must not be what saves this"
    );
    assert!(elapsed.as_millis() < 200, "took {elapsed:?}");
}

#[test]
fn ngram_overflow_demotes_to_the_scan_without_losing_rules() {
    const ALPHABET: &[u8] = b"abcdefghijklmnopqrstuvwxyz";
    let patterns: Vec<String> = (0..NGRAM_BUCKET_CAP + 64)
        .map(|n| {
            let (a, b, c) = (n / 676 % 26, n / 26 % 26, n % 26);
            format!(
                "*{}{}{}*",
                ALPHABET[a] as char, ALPHABET[b] as char, ALPHABET[c] as char
            )
        })
        .collect();
    let index = index_of(patterns.iter().map(|p| rule(p)).collect());

    assert_eq!(index.len(), patterns.len(), "no rule may be dropped");
    assert_eq!(index.ngram_keys(), NGRAM_BUCKET_CAP);
    assert_eq!(index.unindexed_len(), patterns.len() - NGRAM_BUCKET_CAP);

    for pattern in &patterns {
        let token = pattern.trim_matches('*');
        let url = format!("http://e.com/xx{token}yy");
        assert!(
            blocks(&index, &request(&url, "e.com")),
            "{pattern} stopped firing on {url}"
        );
    }
}

#[test]
fn the_index_agrees_with_a_full_scan_on_random_rulesets() {
    let mut state = 0x2545_f491_4f6c_dd1d_u64;
    let mut next = move || {
        state ^= state << 13;
        state ^= state >> 7;
        state ^= state << 17;
        state
    };
    const ALPHABET: &[u8] = b"ad/.-_*^&=?xyz1";

    for round in 0..200 {
        let rules: Vec<UrlRule> = (0..12)
            .map(|_| {
                let pattern: String = (0..1 + next() as usize % 10)
                    .map(|_| ALPHABET[next() as usize % ALPHABET.len()] as char)
                    .collect();
                UrlRule {
                    anchor: match next() % 3 {
                        0 => UrlAnchor::Anywhere,
                        1 => UrlAnchor::Start,
                        _ => UrlAnchor::Domain,
                    },
                    end_anchored: next() % 4 == 0,
                    action: if next() % 5 == 0 {
                        RuleAction::Allow
                    } else {
                        RuleAction::Block
                    },
                    ..rule(&pattern)
                }
            })
            .collect();
        let index = index_of(rules.clone());

        for _ in 0..40 {
            let tail: String = (0..1 + next() as usize % 24)
                .map(|_| ALPHABET[next() as usize % (ALPHABET.len() - 2)] as char)
                .filter(|byte| *byte != '*' && *byte != '^')
                .collect();
            let url = format!("http://host.example.com/{tail}");
            let req = request(&url, "host.example.com");
            let outcome = |decision: UrlDecision| match decision {
                UrlDecision::Allow(_) => 2,
                UrlDecision::Block(_) => 1,
                UrlDecision::Pass => 0,
            };
            assert_eq!(
                outcome(index.lookup(&req)),
                outcome(index.lookup_scanning(&req).0),
                "round {round}: index and full scan disagree on {url}\npatterns: {:?}",
                rules.iter().map(|r| r.pattern.to_string()).collect::<Vec<_>>()
            );
        }
    }
}

#[test]
fn the_key_kinds_do_not_collide_with_each_other() {
    let mut hashes: Vec<u64> = [KeyKind::Exact, KeyKind::Prefix, KeyKind::Suffix]
        .iter()
        .map(|&kind| hash_key(kind, b"ads"))
        .collect();
    hashes.push(ngram_hash(ngram_word(b"ads")));
    for (at, hash) in hashes.iter().enumerate() {
        assert!(
            !hashes[at + 1..].contains(hash),
            "two key kinds hash `ads` alike"
        );
    }
}

#[test]
fn a_key_hash_folds_case() {
    assert_eq!(hash_key(KeyKind::Exact, b"AdS"), hash_key(KeyKind::Exact, b"ads"));
    assert_ne!(hash_key(KeyKind::Exact, b"ads"), hash_key(KeyKind::Exact, b"adt"));
    assert_eq!(ngram_word(b"AbC"), 0x0061_6263);
}

#[test]
fn a_prefix_and_a_suffix_key_reach_longer_url_tokens() {
    let index = index_of(vec![rule("/adserver"), rule("*trackpixel/")]);
    assert_eq!(index.unindexed_len(), 0);
    assert_eq!(index.ngram_keys(), 0);
    assert!(blocks(&index, &request("http://e.com/adserverXYZ/1", "e.com")));
    assert!(blocks(&index, &request("http://e.com/mytrackpixel/", "e.com")));
    assert!(!blocks(&index, &request("http://e.com/myadserver/1", "e.com")));
}

#[test]
fn a_star_free_attempt_costs_one_unit_and_a_starred_one_at_most_one_per_position() {
    let mut budget = Budget::new();
    let before = budget.remaining;
    assert!(match_from(b"abc", b"xxabcxx", 2, false, false, &mut budget));
    assert_eq!(before - budget.remaining, 1);
    let before = budget.remaining;
    assert!(!match_from(b"a*z", b"abcdefgh", 0, false, false, &mut budget));
    let spent = before - budget.remaining;
    assert!(spent >= 1 && spent <= 1 + 8);
    assert!(!budget.exhausted);
}

#[test]
fn an_allowance_too_small_for_the_pattern_says_so() {
    let mut budget = Budget { remaining: 3, floor: 0, exhausted: false };
    let text = b"aaaaaaaaaaaaaaaaaaaa";
    assert!(!match_from(b"*a*ab", text, 0, false, false, &mut budget));
    assert!(budget.exhausted);
    assert!(budget.remaining <= 3);
}

#[test]
fn within_the_allowance_the_index_and_the_scan_agree_on_kind() {
    let mut b = UrlIndexBuilder::new();
    b.add(0, &rule("/ads/banner"));
    let mut allow = rule("/ads/banner");
    allow.action = RuleAction::Allow;
    b.add(0, &allow);
    b.add(0, &rule("*tracker*"));
    let ix = b.build();
    for url in [
        "http://e.com/ads/banner.gif",
        "http://e.com/tracker/x",
        "http://e.com/clean",
    ] {
        let req = HttpRequest {
            url,
            host: "e.com",
            method: "GET",
            resource_type: ResourceType::Unknown,
            document_host: None,
        };
        let (indexed, cut) = ix.lookup_metered(&req);
        let (scanned, scan_cut) = ix.lookup_scanning(&req);
        assert!(!cut && !scan_cut);
        assert_eq!(
            std::mem::discriminant(&indexed),
            std::mem::discriminant(&scanned)
        );
    }
    assert_eq!(ix.budget_exhausted(), 0);
}

#[test]
fn an_exhausted_flag_on_entry_does_not_change_the_answer() {
    let mut budget = Budget { remaining: 100, floor: 0, exhausted: true };
    assert!(match_from(b"/ads/", b"http://e.com/ads/", 12, false, false, &mut budget));
    assert!(budget.exhausted);
    assert_eq!(budget.remaining, 99);
}

#[test]
fn a_budget_at_its_floor_answers_no_and_spends_nothing() {
    let mut budget = Budget { remaining: 5, floor: 5, exhausted: false };
    assert!(!match_from(b"abc", b"abc", 0, false, false, &mut budget));
    assert!(budget.exhausted);
    assert_eq!(budget.remaining, 5);
}

#[test]
fn a_rule_with_an_inner_star_is_found_by_the_index_as_by_the_scan() {
    let mut b = UrlIndexBuilder::new();
    for k in 0..1000 {
        b.add(0, &rule(&format!("/zz{k:04}q/")));
    }
    b.add(0, &rule("/ads/*/banner"));
    let ix = b.build();
    let url = format!("http://example.com/ads/{}/banner.gif", "x".repeat(60));
    let req = HttpRequest {
        url: &url,
        host: "example.com",
        method: "GET",
        resource_type: ResourceType::Unknown,
        document_host: None,
    };
    let (indexed, cut) = ix.lookup_metered(&req);
    let (scanned, scan_cut) = ix.lookup_scanning(&req);
    assert!(!cut && !scan_cut);
    assert!(matches!(indexed, UrlDecision::Block(1000)));
    assert!(matches!(scanned, UrlDecision::Block(1000)));
}
