use fah_rules::parser::{parse, rule_upper_bound};
use fah_rules::{parse_rule_list, RuleFormat, RuleKind};

fn assert_bounds(text: &str) {
    let actual = parse(text)
        .rules
        .iter()
        .filter(|rule| matches!(rule.kind, RuleKind::Active(_)))
        .count();
    let bound = rule_upper_bound(text);
    assert!(
        bound >= actual,
        "upper bound {bound} is below the {actual} rules actually parsed from:\n{text}"
    );
}

#[test]
fn upper_bound_covers_every_format() {
    assert_bounds("0.0.0.0 a.example.com b.example.com c.example.com\n0.0.0.0 d.example\n");
    assert_bounds("# comment\n\nads.example.com\ntracker.example.org\n");
    assert_bounds(
        "! title\n||ads.example.com^\n@@||cdn.example.com^\n||x.example^$dnstype=A\n",
    );
    assert_bounds("");
}

#[test]
fn comment_and_blank_lines_cost_no_slots() {
    assert_eq!(
        rule_upper_bound("# a comment with many words\n\n!another\n"),
        0
    );
}

#[test]
fn the_bound_counts_host_tokens_per_line() {
    assert_eq!(
        rule_upper_bound("0.0.0.0 a.example.com b.example.com c.example.com\n0.0.0.0 d.example\n"),
        6
    );
    assert_eq!(rule_upper_bound("  ads.example.com  \r\n#x\n"), 1);
}

#[test]
fn parse_rule_list_dispatches_on_the_detected_format() {
    let hosts = parse_rule_list("0.0.0.0 a.example.com b.example.com\n");
    assert_eq!(hosts.format, RuleFormat::Hosts);
    assert_eq!(hosts.active_count(), 2);

    let domains = parse_rule_list("ads.example.com\ntracker.example.net\n");
    assert_eq!(domains.format, RuleFormat::PlainDomainList);
    assert_eq!(domains.active_count(), 2);

    let adblock = parse_rule_list("! Title\n||ads.example.com^\nexample.com##.ad\n/banner/*/ad.js\n");
    assert_eq!(adblock.format, RuleFormat::Adblock);
    let counts = adblock.counts();
    assert_eq!((counts.active, counts.url, counts.inactive), (1, 1, 1));
    assert_eq!(adblock.inactive_count(), 1);
}

#[test]
fn error_lines_are_one_based_and_capped() {
    let mut text = String::new();
    for i in 0..150 {
        text.push_str(&format!("bad domain {i}\n"));
    }
    let list = fah_rules::parser::domain_list::parse(&text);
    assert_eq!(list.parse_errors, 150);
    assert_eq!(list.parse_error_lines.len(), 100);
    assert_eq!(list.parse_error_lines[0], 1);
    assert_eq!(list.parse_error_lines[99], 100);
}

#[test]
fn a_cosmetic_line_counts_toward_the_ceiling() {
    let text = "||a.com^\n###b\n";
    let list = parse(text);
    assert_eq!(list.format, RuleFormat::Adblock);
    assert_eq!(list.rules.len(), 2);
    assert_eq!(rule_upper_bound(text), 2);
    assert!(list.rules.len() <= rule_upper_bound(text));
}
