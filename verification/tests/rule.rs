use fah_rules::{DomainOpts, DomainRule, ParsedRule, RuleAction};

#[test]
fn a_parsed_rule_is_32_bytes() {
    assert_eq!(std::mem::size_of::<ParsedRule>(), 32);
    assert_eq!(std::mem::size_of::<DomainRule>(), 32);
}

#[test]
fn a_rule_carrying_no_option_allocates_nothing() {
    assert!(DomainOpts::default().boxed().is_none());
    assert!(
        DomainRule::plain(Box::from("a.example.com"), RuleAction::Block, true)
            .opts
            .is_none()
    );
}

#[test]
fn each_option_alone_is_enough_to_box_and_reads_back() {
    let one = |opts: DomainOpts| DomainRule {
        opts: opts.boxed(),
        ..DomainRule::plain(Box::from("a.example.com"), RuleAction::Block, true)
    };
    let typed = one(DomainOpts {
        dns_types: Some(Box::from("A")),
        ..DomainOpts::default()
    });
    let rewritten = one(DomainOpts {
        dns_rewrite: Some(Box::from("0.0.0.0")),
        ..DomainOpts::default()
    });
    let scoped = one(DomainOpts {
        client: Some(Box::from("192.168.1.5")),
        ..DomainOpts::default()
    });
    assert_eq!(typed.dns_types(), Some("A"));
    assert_eq!(typed.dns_rewrite(), None);
    assert_eq!(rewritten.dns_rewrite(), Some("0.0.0.0"));
    assert_eq!(scoped.client(), Some("192.168.1.5"));
}
