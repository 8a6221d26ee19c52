use adblock_engine::request::{parse_resource_type, Request, RequestError, ResourceType};
use adblock_engine::url::{
    byte_in_class, check_class, find_label_start, find_registrable_start, is_host_under,
    known_suffix, parse_url, same_site, ByteClass,
};

#[test]
fn well_formed_urls_give_their_host() {
    assert_eq!(parse_url(b"https://ads.example/x"), Some((8, 19)));
    assert_eq!(parse_url(b"http://a.example"), Some((7, 16)));
    assert_eq!(parse_url(b"http://a.example:8080/p"), Some((7, 16)));
    assert_eq!(parse_url(b"http://a.example:/p"), Some((7, 16)));
    assert_eq!(parse_url(b"ws://a.example?q=1"), Some((5, 14)));
    assert_eq!(parse_url(b"a+b-c.d://h#f"), Some((10, 11)));
    assert_eq!(parse_url(b"https://a.example/p:80@x"), Some((8, 17)));
    assert_eq!(parse_url(b"https://127.0.0.1/"), Some((8, 17)));
}

#[test]
fn malformed_urls_are_refused() {
    for url in [
        "",
        "ads.example",
        "//ads.example",
        "://ads.example",
        "https:/ads.example",
        "https:ads.example",
        "https://",
        "https:///path",
        "https://:80/",
        "1ttp://a.example",
        "ht tp://a.example",
        "https://a.example/a b",
        "https://a.example:80x/",
        "https://user@a.example/",
        "https://[::1]/",
        "https://a.exam\tple/",
        "https://a.example/\x7f",
        "h_t://a.example",
    ] {
        assert_eq!(parse_url(url.as_bytes()), None, "{:?}", url);
    }
}

#[test]
fn byte_classes_are_told_apart() {
    assert!(byte_in_class(ByteClass::Scheme, b'+'));
    assert!(!byte_in_class(ByteClass::Scheme, b'_'));
    assert!(byte_in_class(ByteClass::Host, b'_'));
    assert!(!byte_in_class(ByteClass::Host, b'+'));
    assert!(byte_in_class(ByteClass::Digit, b'0'));
    assert!(!byte_in_class(ByteClass::Digit, b'a'));
    assert!(byte_in_class(ByteClass::Visible, 0x21));
    assert!(byte_in_class(ByteClass::Visible, 0x80));
    assert!(!byte_in_class(ByteClass::Visible, 0x20));
    assert!(!byte_in_class(ByteClass::Visible, 0x7f));
    assert!(check_class(b"abc1", 0, 3, ByteClass::Host));
    assert!(check_class(b"a/c", 2, 3, ByteClass::Host));
    assert!(!check_class(b"a/c", 0, 3, ByteClass::Host));
    assert!(check_class(b"///", 1, 1, ByteClass::Digit));
}

#[test]
fn registrable_domain_is_suffix_and_one_label() {
    assert_eq!(find_registrable_start(b"sub.example.com"), 4);
    assert_eq!(find_registrable_start(b"a.b.example.com"), 4);
    assert_eq!(find_registrable_start(b"example.com"), 0);
    assert_eq!(find_registrable_start(b"localhost"), 0);
    assert_eq!(find_registrable_start(b""), 0);
    assert_eq!(find_registrable_start(b"www.example.co.uk"), 4);
    assert_eq!(find_registrable_start(b"example.co.uk"), 0);
    assert_eq!(find_registrable_start(b"co.uk"), 0);
    assert_eq!(find_registrable_start(b"a.b.shop.com.au"), 4);
    assert_eq!(find_registrable_start(b"10.20.30.40"), 0);
    assert_eq!(find_registrable_start(b"a.example.7"), 0);
    assert_eq!(find_label_start(b"a.bc.def", 8), 5);
    assert_eq!(find_label_start(b"a.bc.def", 4), 2);
    assert_eq!(find_label_start(b"a.bc.def", 1), 0);
    assert_eq!(find_label_start(b"a.bc.def", 0), 0);
}

#[test]
fn known_suffixes_are_two_labels() {
    for s in ["co.uk", "org.uk", "ac.uk", "gov.uk", "com.au", "net.au", "org.au", "co.nz"] {
        assert!(known_suffix(s.as_bytes()));
    }
    for s in ["co.jp", "co.in", "co.kr", "co.za", "com.br", "com.cn", "com.mx", "com.tr"] {
        assert!(known_suffix(s.as_bytes()));
    }
    for s in ["com", "uk", "example.com", "co.uk.", "xco.uk", ""] {
        assert!(!known_suffix(s.as_bytes()));
    }
}

#[test]
fn same_site_compares_registrable_domains() {
    assert!(same_site(b"a.example.com", b"b.example.com"));
    assert!(same_site(b"example.com", b"www.example.com"));
    assert!(!same_site(b"example.com", b"example.org"));
    assert!(!same_site(b"a.example.co.uk", b"b.other.co.uk"));
    assert!(same_site(b"a.example.co.uk", b"example.co.uk"));
    assert!(!same_site(b"example.com", b""));
    assert!(same_site(b"", b""));
    assert!(!same_site(b"10.0.0.1", b"11.0.0.1"));
}

#[test]
fn host_is_under_domain_at_label_boundary() {
    assert!(is_host_under(b"example.com", b"example.com"));
    assert!(is_host_under(b"sub.example.com", b"example.com"));
    assert!(is_host_under(b"a.b.example.com", b"example.com"));
    assert!(is_host_under(b"example.com", b"com"));
    assert!(!is_host_under(b"notexample.com", b"example.com"));
    assert!(!is_host_under(b"example.com", b"sub.example.com"));
    assert!(!is_host_under(b"example.com", b"example.org"));
    assert!(!is_host_under(b"example.com", b""));
    assert!(!is_host_under(b"", b""));
    assert!(!is_host_under(b".example.com", b".example.com.."));
}

#[test]
fn resource_type_labels_are_known() {
    assert_eq!(parse_resource_type(b"document"), Some(ResourceType::Document));
    assert_eq!(parse_resource_type(b"subdocument"), Some(ResourceType::Subdocument));
    assert_eq!(parse_resource_type(b"script"), Some(ResourceType::Script));
    assert_eq!(parse_resource_type(b"image"), Some(ResourceType::Image));
    assert_eq!(parse_resource_type(b"stylesheet"), Some(ResourceType::Stylesheet));
    assert_eq!(parse_resource_type(b"object"), Some(ResourceType::Object));
    assert_eq!(parse_resource_type(b"xmlhttprequest"), Some(ResourceType::XmlHttpRequest));
    assert_eq!(parse_resource_type(b"font"), Some(ResourceType::Font));
    assert_eq!(parse_resource_type(b"media"), Some(ResourceType::Media));
    assert_eq!(parse_resource_type(b"websocket"), Some(ResourceType::Websocket));
    assert_eq!(parse_resource_type(b"ping"), Some(ResourceType::Ping));
    assert_eq!(parse_resource_type(b"other"), Some(ResourceType::Other));
    assert_eq!(parse_resource_type(b"Script"), None);
    assert_eq!(parse_resource_type(b""), None);
    assert_eq!(parse_resource_type(b"frame"), None);
}

#[test]
fn request_derives_host_and_party() {
    let req = Request::new("HTTPS://CDN.Ads.Example/Lib.JS", "https://www.example.com/page", "script")
        .unwrap();
    assert_eq!(req.url(), b"https://cdn.ads.example/lib.js");
    assert_eq!(req.host_span(), (8, 23));
    assert_eq!(req.source_host(), b"www.example.com");
    assert_eq!(req.hostname(), b"cdn.ads.example");
    assert_eq!(req.domain(), b"ads.example");
    assert_eq!(req.source_domain(), b"example.com");
    assert!(req.is_third_party());
    assert_eq!(req.request_type(), ResourceType::Script);
    let req = Request::new("https://img.example.com/a.png", "https://www.example.com/", "image").unwrap();
    assert!(!req.is_third_party());
    assert_eq!(req.request_type(), ResourceType::Image);
}

#[test]
fn request_with_unknown_source_or_label() {
    let req = Request::new("https://a.example/", "", "beacon").unwrap();
    assert_eq!(req.source_host(), b"");
    assert_eq!(req.source_domain(), b"");
    assert_eq!(req.domain(), b"a.example");
    assert!(req.is_third_party());
    assert_eq!(req.request_type(), ResourceType::Other);
    let req = Request::new("https://a.example/", "https://", "document").unwrap();
    assert_eq!(req.source_host(), b"");
    assert_eq!(req.request_type(), ResourceType::Document);
    let req = Request::from_bytes(b"https://a.example/", b"about:blank", b"ping").unwrap();
    assert_eq!(req.source_host(), b"");
    assert_eq!(req.request_type(), ResourceType::Ping);
}

#[test]
fn request_with_malformed_url_is_invalid() {
    assert!(matches!(
        Request::new("ads.example/x", "https://example.com", "image"),
        Err(RequestError::InvalidRequest)
    ));
    assert!(matches!(
        Request::new("", "https://example.com", "image"),
        Err(RequestError::InvalidRequest)
    ));
    assert!(matches!(
        Request::from_bytes(b"https://a b/", b"", b""),
        Err(RequestError::InvalidRequest)
    ));
}
