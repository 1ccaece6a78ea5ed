use spout::net::{
    extract_response_value, is_private_ip, parse_http_url, pick_resolved_address, resolve_target,
    uri_encode, validate_response_url, IpAddress,
};

#[test]
fn encodes_filename_for_url_template() {
    assert_eq!(uri_encode("a b+c.png"), "a%20b%2Bc.png");
}

#[test]
fn rejects_private_upload_targets() {
    let (_, host, port) = resolve_target("https://127.0.0.1/upload").ok().unwrap();
    assert_eq!(host, "127.0.0.1");
    assert_eq!(port, 443);
    let err = pick_resolved_address(&vec![IpAddress::V4([127, 0, 0, 1])]).unwrap_err();
    assert_eq!(err.message(), "url resolves to a private ip address");
}

#[test]
fn validates_response_url_scheme_and_size() {
    validate_response_url("https://example.com/image.png").unwrap();

    let err = validate_response_url("file:///tmp/image.png").unwrap_err();
    assert_eq!(err.message(), "unexpected scheme in response url: file");

    let too_long = format!("https://example.com/{}", "a".repeat(2048));
    let err = validate_response_url(&too_long).unwrap_err();
    assert_eq!(err.message(), "response body is too large to be a valid url");
}

#[test]
fn extracts_plain_and_json_response_urls() {
    assert_eq!(
        extract_response_value(" https://example.com/a.png\n", ".").unwrap(),
        "https://example.com/a.png"
    );
    assert_eq!(
        extract_response_value(r#"{"data":{"links":["https://e.test/a"]}}"#, "data.links.0")
            .unwrap(),
        "https://e.test/a"
    );
}

#[test]
fn encodes_every_reserved_byte() {
    assert_eq!(uri_encode("AZaz09-_.~"), "AZaz09-_.~");
    assert_eq!(uri_encode("/?#%"), "%2F%3F%23%25");
    assert_eq!(uri_encode("é"), "%C3%A9");
    assert_eq!(uri_encode(""), "");
}

#[test]
fn encoding_distributes_over_concatenation() {
    let pairs = [("a b", "+c.png"), ("", "x"), ("é", "ü/"), ("report ", "2024.pdf")];
    for (a, b) in pairs {
        let joined = format!("{a}{b}");
        assert_eq!(uri_encode(&joined), uri_encode(a) + &uri_encode(b));
    }
}

#[test]
fn encoding_is_identity_only_on_unreserved_text() {
    for s in ["plain-name_1.0~x", "", "ABC"] {
        assert_eq!(uri_encode(s), s);
    }
    for s in ["a b", "é", "x/y", "100%"] {
        assert_ne!(uri_encode(s), s);
        assert!(uri_encode(s).len() > s.chars().count());
    }
}

#[test]
fn private_address_ranges() {
    let private = [
        [127, 0, 0, 1],
        [10, 1, 2, 3],
        [0, 0, 0, 0],
        [169, 254, 1, 1],
        [172, 16, 0, 1],
        [172, 31, 255, 255],
        [192, 168, 1, 1],
        [100, 64, 0, 1],
        [100, 127, 0, 1],
    ];
    for o in private {
        assert!(is_private_ip(IpAddress::V4(o)), "{:?}", o);
    }
    let public = [[8, 8, 8, 8], [172, 32, 0, 1], [100, 128, 0, 1], [169, 253, 0, 1], [1, 1, 1, 1]];
    for o in public {
        assert!(!is_private_ip(IpAddress::V4(o)), "{:?}", o);
    }
    assert!(is_private_ip(IpAddress::V6([0, 0, 0, 0, 0, 0, 0, 1])));
    assert!(is_private_ip(IpAddress::V6([0xfd00, 0, 0, 0, 0, 0, 0, 1])));
    assert!(is_private_ip(IpAddress::V6([0xfe80, 0, 0, 0, 0, 0, 0, 1])));
    assert!(!is_private_ip(IpAddress::V6([0x2001, 0xdb8, 0, 0, 0, 0, 0, 1])));
}

#[test]
fn mapped_ipv4_addresses_follow_their_ipv4_part() {
    // ::ffff:127.0.0.1, ::ffff:10.1.2.3, ::ffff:192.168.0.1, ::ffff:169.254.1.1
    assert!(is_private_ip(IpAddress::V6([0, 0, 0, 0, 0, 0xffff, 0x7f00, 1])));
    assert!(is_private_ip(IpAddress::V6([0, 0, 0, 0, 0, 0xffff, 0x0a01, 0x0203])));
    assert!(is_private_ip(IpAddress::V6([0, 0, 0, 0, 0, 0xffff, 0xc0a8, 1])));
    assert!(is_private_ip(IpAddress::V6([0, 0, 0, 0, 0, 0xffff, 0xa9fe, 0x0101])));
    // ::ffff:8.8.8.8 and ::ffff:172.32.0.1 are public
    assert!(!is_private_ip(IpAddress::V6([0, 0, 0, 0, 0, 0xffff, 0x0808, 0x0808])));
    assert!(!is_private_ip(IpAddress::V6([0, 0, 0, 0, 0, 0xffff, 0xac20, 1])));
}

#[test]
fn resolved_addresses_are_checked_all() {
    let public = IpAddress::V4([93, 184, 216, 34]);
    assert_eq!(pick_resolved_address(&vec![public]).unwrap(), public);
    let err = pick_resolved_address(&vec![public, IpAddress::V4([10, 0, 0, 1])]).unwrap_err();
    assert_eq!(err.message(), "url resolves to a private ip address");
    let err = pick_resolved_address(&vec![]).unwrap_err();
    assert_eq!(err.message(), "no addresses resolved for host");
}

#[test]
fn upload_urls_must_be_http() {
    let url = parse_http_url("http://example.com/x").ok().unwrap();
    assert_eq!(url.scheme(), "http");
    assert_eq!(url.as_url().as_str(), "http://example.com/x");
    match parse_http_url("ftp://example.com/x") {
        Err(err) => assert_eq!(err.message(), "unsupported scheme: ftp"),
        Ok(_) => panic!("ftp accepted"),
    }
    match parse_http_url("not a url") {
        Err(err) => assert!(err.message().starts_with("invalid url: ")),
        Ok(_) => panic!("garbage accepted"),
    }
    let (_, host, port) = resolve_target("http://example.com:8080/up").ok().unwrap();
    assert_eq!((host.as_str(), port), ("example.com", 8080));
}

#[test]
fn response_url_must_parse() {
    let err = validate_response_url("no scheme here").unwrap_err();
    assert!(err.message().starts_with("response value is not a valid url: "));
}

#[test]
fn json_paths_report_what_is_missing() {
    let body = r#"{"a":{"b":1,"c":[{"d":"x"}]},"0":"zero"}"#;
    assert_eq!(extract_response_value(body, "a.c.0.d").unwrap(), "x");
    assert_eq!(extract_response_value(body, "0").unwrap(), "zero");
    let err = extract_response_value(body, "a.e").unwrap_err();
    assert_eq!(err.message(), "key 'e' not found in response");
    let err = extract_response_value(body, "a.b").unwrap_err();
    assert_eq!(err.message(), "response path 'a.b' is not a string");
    let err = extract_response_value(body, "a.c.5").unwrap_err();
    assert_eq!(err.message(), "key '5' not found in response");
    let err = extract_response_value("not json", "a").unwrap_err();
    assert!(err.message().starts_with("response is not valid json: "));
    assert_eq!(extract_response_value(r#"["u"]"#, "+0").unwrap(), "u");
}

#[test]
fn plain_bodies_are_trimmed_of_unicode_space() {
    assert_eq!(
        extract_response_value("\u{a0}\t https://x.test/a \u{3000}\r\n", ".").unwrap(),
        "https://x.test/a"
    );
    assert_eq!(extract_response_value("   ", ".").unwrap(), "");
}
