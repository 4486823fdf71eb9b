use fah_rules::resource::{bit_for_option, bit_for_request, ResourceType, ALL_TYPES};

#[test]
fn option_names_are_case_insensitive_and_aliased() {
    assert_eq!(bit_for_option("XHR"), bit_for_option("xmlhttprequest"));
    assert_eq!(bit_for_option("css"), bit_for_option("stylesheet"));
    assert_eq!(bit_for_option("Beacon"), bit_for_option("ping"));
}

#[test]
fn an_unknown_option_is_not_a_resource_type() {
    assert_eq!(bit_for_option("third-party"), None);
    assert_eq!(bit_for_option("popup"), None);
}

#[test]
fn an_undetermined_request_type_carries_no_bit() {
    assert_eq!(bit_for_request(ResourceType::Unknown), 0);
    assert_ne!(bit_for_request(ResourceType::Script), 0);
}

#[test]
fn every_type_has_a_matching_option_name() {
    let pairs = [
        (ResourceType::Document, "document"),
        (ResourceType::Subdocument, "subdocument"),
        (ResourceType::Script, "script"),
        (ResourceType::Stylesheet, "stylesheet"),
        (ResourceType::Image, "image"),
        (ResourceType::Font, "font"),
        (ResourceType::Media, "media"),
        (ResourceType::XmlHttpRequest, "xmlhttprequest"),
        (ResourceType::WebSocket, "websocket"),
        (ResourceType::Ping, "ping"),
        (ResourceType::Object, "object"),
        (ResourceType::Other, "other"),
    ];
    let mut union = 0u16;
    for (kind, name) in pairs {
        assert_eq!(bit_for_option(name), Some(bit_for_request(kind)));
        union |= bit_for_request(kind);
    }
    assert_eq!(union, ALL_TYPES);
    assert_eq!(bit_for_option("script"), Some(4));
}

#[test]
fn all_types_covers_every_bit_and_nothing_more() {
    let kinds = [
        ResourceType::Document,
        ResourceType::Subdocument,
        ResourceType::Script,
        ResourceType::Stylesheet,
        ResourceType::Image,
        ResourceType::Font,
        ResourceType::Media,
        ResourceType::XmlHttpRequest,
        ResourceType::WebSocket,
        ResourceType::Ping,
        ResourceType::Object,
        ResourceType::Other,
    ];
    let union = kinds
        .iter()
        .map(|kind| bit_for_request(*kind))
        .fold(0, |acc, bit| acc | bit);
    assert_eq!(union, ALL_TYPES);
}
