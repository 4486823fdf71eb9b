use fah_rules::domain::{normalize_domain, MAX_DOMAIN_LEN};

#[test]
fn accepts_plain_domain_and_lowercases() {
    assert_eq!(
        normalize_domain("Ads.Example.COM").as_deref(),
        Some("ads.example.com")
    );
}

#[test]
fn strips_trailing_dot() {
    assert_eq!(
        normalize_domain("example.com.").as_deref(),
        Some("example.com")
    );
}

#[test]
fn rejects_wildcard() {
    assert_eq!(normalize_domain("*.example.com"), None);
}

#[test]
fn rejects_empty() {
    assert_eq!(normalize_domain(""), None);
    assert_eq!(normalize_domain("."), None);
}

#[test]
fn rejects_leading_hyphen() {
    assert_eq!(normalize_domain("-example.com"), None);
}

#[test]
fn rejects_a_name_longer_than_dns_allows() {
    assert!(normalize_domain(&"a".repeat(MAX_DOMAIN_LEN)).is_some());
    assert_eq!(normalize_domain(&"a".repeat(MAX_DOMAIN_LEN + 1)), None);
    assert!(normalize_domain(&format!("{}.", "a".repeat(MAX_DOMAIN_LEN))).is_some());
}
