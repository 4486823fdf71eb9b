use fah_rules::interception::{
    normalize_host, Active, DocumentError, ExclusionSet, InterceptionDocument, InvalidExclusion,
    MAX_CLIENTS, MAX_EXCLUDE_DOMAINS, MAX_LABEL_LEN, MAX_NAME_LEN,
};
use fah_rules::ip::IpAddr;

fn document(clients: &[&str], exclude_domains: &[&str]) -> InterceptionDocument {
    InterceptionDocument {
        clients: clients.iter().map(|entry| entry.to_string()).collect(),
        exclude_domains: exclude_domains
            .iter()
            .map(|entry| entry.to_string())
            .collect(),
    }
}

fn set(user: &[&str]) -> ExclusionSet {
    ExclusionSet::new(user).unwrap()
}

fn ip(text: &str) -> IpAddr {
    IpAddr::parse(text).unwrap()
}

#[test]
fn an_exact_host_matches() {
    let set = set(&["bank.com"]);
    assert!(set.contains("bank.com"));
    assert!(set.contains("Bank.COM."));
}

#[test]
fn a_parent_suffix_matches_its_subdomains() {
    let set = set(&["bank.com"]);
    assert!(set.contains("api.bank.com"));
    assert!(set.contains("deep.api.bank.com"));
}

#[test]
fn a_lookalike_that_only_ends_with_the_name_does_not_match() {
    let set = set(&["bank.com"]);
    assert!(!set.contains("notbank.com"));
    assert!(!set.contains("bank.com.evil"));
    assert!(!set.contains("com"));
}

#[test]
fn user_entries_are_normalized() {
    let set = set(&[" Bank.Example. ", "other.example"]);
    assert_eq!(set.len(), 2);
    assert!(set.contains("api.bank.example"));
}

#[test]
fn a_malformed_entry_is_rejected_by_name() {
    for entry in [
        "",
        ".",
        "*.bank.example",
        "https://bank.example",
        "bank.example/",
        "bank.example:443",
        "-bad.example",
        "bad..example",
    ] {
        assert_eq!(
            ExclusionSet::new(&[entry]).err(),
            Some(InvalidExclusion(entry.to_string())),
            "{entry:?}"
        );
    }
}

#[test]
fn the_empty_set_matches_nothing() {
    let set = ExclusionSet::default();
    assert!(set.is_empty());
    assert!(!set.contains("apple.com"));
    assert!(!set.contains("bank.example"));
}

#[test]
fn normalize_host_lowercases_and_bounds_what_it_accepts() {
    assert_eq!(
        normalize_host(b"Example.COM").as_deref(),
        Some("example.com")
    );
    assert_eq!(
        normalize_host(b"host_name.example").as_deref(),
        Some("host_name.example")
    );
    assert_eq!(
        normalize_host(b"a-b.example").as_deref(),
        Some("a-b.example")
    );
    for raw in [
        &b""[..],
        b".",
        b"bad..example",
        b"-bad.example",
        b"bad.example-",
        b"bank.example.",
        b"bank.example:443",
        b"*.bank.example",
    ] {
        assert!(
            normalize_host(raw).is_none(),
            "{:?}",
            String::from_utf8_lossy(raw)
        );
    }
    let long_label = vec![b'a'; MAX_LABEL_LEN + 1];
    assert!(normalize_host(&long_label).is_none());
    let long_name = vec![b'a'; MAX_NAME_LEN + 1];
    assert!(normalize_host(&long_name).is_none());
}

#[test]
fn compile_rejects_over_cap_naming_list_and_overage() {
    let hosts: Vec<String> = (0..MAX_EXCLUDE_DOMAINS + 1)
        .map(|index| format!("h{index}.example"))
        .collect();
    let over_hosts = InterceptionDocument {
        clients: Vec::new(),
        exclude_domains: hosts,
    };
    assert_eq!(
        Active::compile(over_hosts).unwrap_err(),
        DocumentError::OverCap {
            list: "exclude_domains",
            len: MAX_EXCLUDE_DOMAINS + 1,
            cap: MAX_EXCLUDE_DOMAINS,
        }
    );

    let clients: Vec<String> = (0..MAX_CLIENTS + 1)
        .map(|index| format!("10.0.{}.{}", index / 256, index % 256))
        .collect();
    let over_clients = InterceptionDocument {
        clients,
        exclude_domains: Vec::new(),
    };
    let error = Active::compile(over_clients).unwrap_err();
    assert_eq!(
        error,
        DocumentError::OverCap {
            list: "clients",
            len: MAX_CLIENTS + 1,
            cap: MAX_CLIENTS,
        }
    );
    assert_eq!(
        error.message(),
        "clients: 257 entries exceed the cap of 256 by 1"
    );
}

#[test]
fn compile_rejects_an_invalid_client_naming_its_index() {
    let error = Active::compile(document(
        &["192.168.88.1", "192.168.88.2", "10.0.0.0/8", "10.0.0.300"],
        &[],
    ))
    .unwrap_err();
    assert_eq!(
        error,
        DocumentError::InvalidEntry {
            list: "clients",
            index: 3,
            entry: "10.0.0.300".to_string(),
        }
    );
    assert_eq!(
        error.message(),
        "clients[3]: \"10.0.0.300\" is not an IP address or CIDR block"
    );

    let error = Active::compile(document(&[], &["ok.example", "bad..example"])).unwrap_err();
    assert_eq!(
        error,
        DocumentError::InvalidEntry {
            list: "exclude_domains",
            index: 1,
            entry: "bad..example".to_string(),
        }
    );
    assert_eq!(
        error.message(),
        "exclude_domains[1]: \"bad..example\" is not a hostname"
    );
}

#[test]
fn compile_rejects_duplicates_after_normalization() {
    let error = Active::compile(document(
        &[],
        &["a.example", "Bank.ro", "b.example", "bank.ro."],
    ))
    .unwrap_err();
    assert_eq!(
        error,
        DocumentError::Duplicate {
            list: "exclude_domains",
            index: 3,
            entry: "bank.ro.".to_string(),
            duplicate_of: 1,
        }
    );
    assert_eq!(
        error.message(),
        "exclude_domains[3]: \"bank.ro.\" duplicates entry 1 after normalization"
    );

    let error = Active::compile(document(
        &["192.168.88.10", "10.0.0.1", "192.168.88.10"],
        &[],
    ))
    .unwrap_err();
    assert_eq!(
        error,
        DocumentError::Duplicate {
            list: "clients",
            index: 2,
            entry: "192.168.88.10".to_string(),
            duplicate_of: 0,
        }
    );
}

#[test]
fn compile_accepts_a_host_inside_a_listed_cidr() {
    let active = Active::compile(document(&["192.168.88.0/24", "192.168.88.10"], &[])).unwrap();
    assert_eq!(active.scope.client_count(), 2);
    assert!(active.scope.intercepts(ip("192.168.88.10")));
    assert!(active.scope.intercepts(ip("192.168.88.99")));
    assert!(!active.scope.intercepts(ip("192.168.89.1")));
}

#[test]
fn compile_keeps_the_document_spelling_out_of_the_scope() {
    let active = Active::compile(document(&[" 192.168.88.10 "], &[" Bank.Example. "])).unwrap();
    assert_eq!(active.document.clients, vec![" 192.168.88.10 ".to_string()]);
    assert_eq!(
        active.document.exclude_domains,
        vec![" Bank.Example. ".to_string()]
    );
    assert!(active.scope.intercepts(ip("192.168.88.10")));
    assert!(active.scope.excludes("api.bank.example"));
    assert_eq!(active.scope.exclusion_count(), 1);
}

#[test]
fn lookup_cost_is_independent_of_list_size() {
    let hosts: Vec<String> = (0..MAX_EXCLUDE_DOMAINS)
        .map(|index| format!("h{index}.example"))
        .collect();
    let active = Active::compile(InterceptionDocument {
        clients: Vec::new(),
        exclude_domains: hosts,
    })
    .unwrap();
    assert_eq!(active.scope.exclusion_count(), MAX_EXCLUDE_DOMAINS);
    assert!(active.scope.excludes("deep.h0.example"));
    for _ in 0..1_000 {
        assert!(!active.scope.excludes("ads.example.com"));
    }
}

#[test]
fn an_invalid_exclusion_names_the_entry_quoted() {
    let error = ExclusionSet::new(&["bad..example"]).unwrap_err();
    assert_eq!(error.message(), "not a hostname: \"bad..example\"");
}

#[test]
fn a_label_of_exactly_the_limit_is_accepted() {
    let mut raw = vec![b'a'; MAX_LABEL_LEN];
    raw.extend_from_slice(b".example");
    assert!(normalize_host(&raw).is_some());
}

#[test]
fn a_bare_address_and_its_one_address_prefix_are_the_same_client() {
    let error = Active::compile(document(&["10.0.0.1", "10.0.0.1/32"], &[])).unwrap_err();
    assert_eq!(
        error,
        DocumentError::Duplicate {
            list: "clients",
            index: 1,
            entry: "10.0.0.1/32".to_string(),
            duplicate_of: 0,
        }
    );
}

#[test]
fn duplicate_exclusions_collapse_in_a_user_set() {
    let set = set(&["bank.example", "BANK.example."]);
    assert_eq!(set.len(), 1);
}
