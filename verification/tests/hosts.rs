use fah_rules::parser::hosts;

#[test]
fn parses_single_hostname_line() {
    let result = hosts::parse("0.0.0.0 ads.example.com\n");
    assert_eq!(result.active_count(), 1);
    assert_eq!(result.parse_errors, 0);
}

#[test]
fn parses_multiple_hostnames_per_line() {
    let result = hosts::parse("0.0.0.0 a.example.com b.example.com\n");
    assert_eq!(result.active_count(), 2);
}

#[test]
fn skips_comments_and_blank_lines() {
    let result = hosts::parse("# header\n\n0.0.0.0 ads.example.com\n");
    assert_eq!(result.active_count(), 1);
    assert_eq!(result.parse_errors, 0);
}

#[test]
fn counts_line_without_ip_as_error() {
    let result = hosts::parse("not-an-ip-line\n");
    assert_eq!(result.parse_errors, 1);
    assert_eq!(result.rules.len(), 0);
}

#[test]
fn counts_ip_without_hostname_as_error() {
    let result = hosts::parse("0.0.0.0\n");
    assert_eq!(result.parse_errors, 1);
}

#[test]
fn skips_standard_loopback_preamble_without_error() {
    let result = hosts::parse(
        "127.0.0.1 localhost\n\
         127.0.0.1 localhost.localdomain\n\
         255.255.255.255 broadcasthost\n\
         ::1 ip6-localhost ip6-loopback\n\
         0.0.0.0 ads.example.com\n",
    );
    assert_eq!(result.active_count(), 1);
    assert_eq!(result.parse_errors, 0);
}

#[test]
fn loopback_ip_pointed_at_real_domain_still_blocks() {
    let result = hosts::parse("127.0.0.1 ads.example.com\n");
    assert_eq!(result.active_count(), 1);
}
