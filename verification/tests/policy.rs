use fah_rules::policy::{PolicyError, PolicyId, PolicySet, ALL_POLICIES, MAX_POLICIES};
use fah_rules::client::ClientScope;
use fah_rules::ip::IpAddr;

#[test]
fn policy_errors_read_as_sentences() {
    assert_eq!(
        PolicyError::Timezone("not a timezone".to_string()).message(),
        "invalid timezone: not a timezone"
    );
    assert_eq!(
        PolicyError::TooMany { max: 16, got: 17 }.message(),
        "at most 16 policies may exist including the default; got 17"
    );
    assert_eq!(
        PolicyError::Assignment {
            policy: "kids".to_string(),
            message: "a schedule needs both start and end".to_string(),
        }
        .message(),
        "policy \"kids\": a schedule needs both start and end"
    );
}

#[test]
fn each_policy_has_its_own_bit_and_all_of_them_fill_the_mask() {
    assert_eq!(PolicyId::default_policy(), PolicyId(0));
    assert_eq!(PolicyId(0).bit(), 1);
    assert_eq!(PolicyId(3).bit(), 8);
    assert_eq!(PolicyId(15).bit(), 0x8000);
    assert_eq!(PolicyId(16).bit(), 0);
    let all = (0..MAX_POLICIES as u8).fold(0u16, |mask, id| mask | PolicyId(id).bit());
    assert_eq!(all, ALL_POLICIES);
}


fn ip(text: &str) -> IpAddr {
    IpAddr::parse(text).unwrap()
}

#[test]
fn client_scopes_honour_positives_and_negations() {
    let scope = ClientScope::parse("192.168.1.50|10.0.0.0/8").unwrap();
    assert!(scope.admits(Some(ip("192.168.1.50")), None));
    assert!(scope.admits(Some(ip("10.1.2.3")), None));
    assert!(!scope.admits(Some(ip("192.168.1.51")), None));

    let except = ClientScope::parse("~192.168.1.50").unwrap();
    assert!(!except.admits(Some(ip("192.168.1.50")), None));
    assert!(except.admits(Some(ip("192.168.1.51")), None));
}

#[test]
fn a_client_scope_that_parses_to_nothing_is_rejected() {
    assert!(ClientScope::parse("").is_none());
    assert!(ClientScope::parse("|||").is_none());
    assert!(ClientScope::parse("192.168.1.0/99").is_none());
}

#[test]
fn a_named_scope_matches_without_an_address() {
    let scope = ClientScope::parse("laptop").unwrap();
    assert!(scope.admits(None, Some("laptop")));
    assert!(!scope.admits(None, Some("desktop")));
    assert!(!scope.admits(None, None));
}

#[test]
fn the_default_set_is_one_policy_seeing_every_list() {
    let set = PolicySet::single_default();
    assert!(set.is_default_only());
    assert_eq!(set.len(), 1);
    assert!(!set.is_empty());
    assert_eq!(set.mask_for_list("anything"), ALL_POLICIES);
}

#[test]
fn a_policy_naming_lists_sees_only_those_and_the_default_sees_all() {
    let set = PolicySet::from_list_selections(vec![(
        "kids".to_string(),
        Some(vec!["oisd".to_string(), "adult".to_string()]),
    )])
    .unwrap();
    assert_eq!(set.len(), 2);
    assert!(!set.is_default_only());
    let kids = set.id_of("kids").unwrap();
    assert_eq!(kids, PolicyId(1));
    assert_eq!(set.id_of("default"), Some(PolicyId(0)));
    assert_eq!(set.id_of("nobody"), None);
    assert_eq!(set.mask_for_list("oisd"), PolicyId(0).bit() | kids.bit());
    assert_eq!(set.mask_for_list("adult"), 0b11);
    assert_eq!(set.mask_for_list("easylist"), PolicyId(0).bit());
}

#[test]
fn a_policy_naming_no_lists_sees_every_list() {
    let set = PolicySet::from_list_selections(vec![
        ("guest".to_string(), None),
        ("kids".to_string(), Some(vec!["kids".to_string()])),
    ])
    .unwrap();
    assert_eq!(set.len(), 3);
    let guest = set.id_of("guest").unwrap();
    assert_eq!(set.mask_for_list("whatever"), PolicyId(0).bit() | guest.bit());
    assert_eq!(set.mask_for_list("kids"), 0b111);
}

#[test]
fn more_policies_than_mask_bits_is_refused() {
    let configured: Vec<(String, Option<Vec<String>>)> =
        (0..MAX_POLICIES).map(|index| (format!("p{index}"), None)).collect();
    assert_eq!(
        PolicySet::from_list_selections(configured).err(),
        Some(PolicyError::TooMany { max: 16, got: 17 })
    );
    let fifteen: Vec<(String, Option<Vec<String>>)> =
        (0..MAX_POLICIES - 1).map(|index| (format!("p{index}"), None)).collect();
    let set = PolicySet::from_list_selections(fifteen).unwrap();
    assert_eq!(set.mask_for_list("any"), 0xFFFF);
    assert_eq!(set.id_of("p14"), Some(PolicyId(15)));
}
