use fah_rules::parser::domain_list;

#[test]
fn parses_bare_domain_lines() {
    let result = domain_list::parse("ads.example.com\ntracker.example.net\n");
    assert_eq!(result.active_count(), 2);
    assert_eq!(result.parse_errors, 0);
}

#[test]
fn rejects_lines_with_whitespace() {
    let result = domain_list::parse("bad domain.com\n");
    assert_eq!(result.parse_errors, 1);
}

#[test]
fn rejects_wildcard_domain() {
    let result = domain_list::parse("*.example.com\n");
    assert_eq!(result.parse_errors, 1);
}
