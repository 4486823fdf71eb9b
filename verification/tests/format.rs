use fah_rules::format::SAMPLE_LINES;
use fah_rules::{detect_format, RuleFormat};

#[test]
fn detects_hosts_from_ip_prefixed_line() {
    assert_eq!(
        detect_format("# comment\n0.0.0.0 ads.example.com\n"),
        RuleFormat::Hosts
    );
}

#[test]
fn detects_plain_domain_list() {
    assert_eq!(
        detect_format("! not a hosts comment\nads.example.com\n"),
        RuleFormat::PlainDomainList
    );
}

#[test]
fn detects_adblock_from_domain_anchor() {
    assert_eq!(
        detect_format("! Title: x\n||ads.example.com^\n"),
        RuleFormat::Adblock
    );
}

#[test]
fn detects_adblock_from_cosmetic_marker() {
    assert_eq!(
        detect_format("example.com##.ad-banner\n"),
        RuleFormat::Adblock
    );
}

#[test]
fn all_comments_defaults_to_plain_domain_list() {
    assert_eq!(
        detect_format("# only comments\n! and more\n"),
        RuleFormat::PlainDomainList
    );
}

#[test]
fn url_substring_patterns_are_adblock_even_without_an_anchor() {
    let text = "! Title: EasyList\n\
                &rb=&uuid=$third-party\n\
                &subaffid=%$subdocument,third-party\n\
                -ad-manager/$~stylesheet\n\
                -ad.jpg.pagespeed.$image\n";
    assert_eq!(detect_format(text), RuleFormat::Adblock);
}

#[test]
fn a_single_stray_adblock_line_does_not_flip_a_domain_list() {
    let mut text = String::from("||stray.example.com^\n");
    for i in 0..50 {
        text.push_str(&format!("ads{i}.example.com\n"));
    }
    assert_eq!(detect_format(&text), RuleFormat::PlainDomainList);
}

#[test]
fn wildcard_domain_entries_stay_a_plain_domain_list() {
    let text = "*.ads.example.com\ntracker.example.net\nads.example.org\n";
    assert_eq!(detect_format(text), RuleFormat::PlainDomainList);
}

#[test]
fn hosts_entries_outvote_their_own_domain_tokens() {
    let text = "0.0.0.0 a.example.com\n0.0.0.0 b.example.com\n127.0.0.1 c.example.com\n";
    assert_eq!(detect_format(text), RuleFormat::Hosts);
}

#[test]
fn detection_stops_after_the_sample() {
    let mut text = String::new();
    for i in 0..SAMPLE_LINES {
        text.push_str(&format!("||ads{i}.example.com^\n"));
    }
    for i in 0..10_000 {
        text.push_str(&format!("plain{i}.example.com\n"));
    }
    assert_eq!(detect_format(&text), RuleFormat::Adblock);
}
