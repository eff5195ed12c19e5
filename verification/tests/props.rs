use axum_forwarded_header::parse_forwarded_header;
use axum_forwarded_header::to_ip_addresses;
use axum_forwarded_header::IpAddress;

#[test]
fn test_no_key_value_yields_empty_record() {
    let h = parse_forwarded_header("just a bare token");
    assert!(h.for_field.is_empty());
    assert_eq!(h.by, None);
    assert_eq!(h.host, None);
    assert_eq!(h.proto, None);

    let h = parse_forwarded_header("");
    assert!(h.for_field.is_empty());
    assert_eq!(h.by, None);
    assert_eq!(h.host, None);
    assert_eq!(h.proto, None);
}

#[test]
fn test_single_for_entry() {
    let h = parse_forwarded_header("for=192.168.0.1");
    assert_eq!(h.for_field, vec!["192.168.0.1".to_string()]);
    assert_eq!(h.by, None);
    assert_eq!(h.host, None);
    assert_eq!(h.proto, None);
}

#[test]
fn test_quoted_bracketed_entry_kept_verbatim_and_folded() {
    let h = parse_forwarded_header("For=\"[2001:db8:cafe::17]:4711\"");
    assert_eq!(h.for_field, vec!["\"[2001:db8:cafe::17]:4711\"".to_string()]);
}

#[test]
fn test_three_keys_in_one_header() {
    let h = parse_forwarded_header("for=192.0.2.60;proto=http;by=203.0.113.43");
    assert_eq!(h.for_field, vec!["192.0.2.60".to_string()]);
    assert_eq!(h.proto, Some("http".to_string()));
    assert_eq!(h.by, Some("203.0.113.43".to_string()));
}

#[test]
fn test_comma_separated_for_keeps_order() {
    let h = parse_forwarded_header("for=192.0.2.43, for=198.51.100.17");
    assert_eq!(
        h.for_field,
        vec!["192.0.2.43".to_string(), "198.51.100.17".to_string()]
    );
}

#[test]
fn test_repeated_by_last_wins() {
    let h = parse_forwarded_header("by=1.2.3.4;by=5.6.7.8");
    assert_eq!(h.by, Some("5.6.7.8".to_string()));
}

#[test]
fn test_repeated_host_and_proto_last_wins() {
    let h = parse_forwarded_header("host=a.example;host=b.example;proto=http;proto=https");
    assert_eq!(h.host, Some("b.example".to_string()));
    assert_eq!(h.proto, Some("https".to_string()));
}

#[test]
fn test_values_are_lowercased_whole() {
    let h = parse_forwarded_header("PROTO=HTTPS;HOST=Example.COM");
    assert_eq!(h.proto, Some("https".to_string()));
    assert_eq!(h.host, Some("example.com".to_string()));
}

#[test]
fn test_stray_space_before_equals() {
    let h = parse_forwarded_header("for =10.0.0.1");
    assert_eq!(h.for_field, vec!["10.0.0.1".to_string()]);
}

#[test]
fn test_value_with_equals_keeps_tail_after_last() {
    let h = parse_forwarded_header("by=a=b;for=x=y");
    assert_eq!(h.by, Some("b".to_string()));
    assert_eq!(h.for_field, vec!["y".to_string()]);
}

#[test]
fn test_comma_piece_without_key_is_kept_raw() {
    let h = parse_forwarded_header("for=1.2.3.4, garbage");
    assert_eq!(h.for_field, vec!["1.2.3.4".to_string(), "garbage".to_string()]);
}

#[test]
fn test_segments_are_trimmed() {
    let h = parse_forwarded_header("  for=1.2.3.4  ;  proto=http  ");
    assert_eq!(h.for_field, vec!["1.2.3.4".to_string()]);
    assert_eq!(h.proto, Some("http".to_string()));
}

#[test]
fn test_parse_is_deterministic() {
    let raw = "for=192.0.2.43, for=198.51.100.17;by=1.2.3.4;host=h;proto=https";
    let h1 = parse_forwarded_header(raw);
    let h2 = parse_forwarded_header(raw);
    assert_eq!(h1.for_field, h2.for_field);
    assert_eq!(h1.by, h2.by);
    assert_eq!(h1.host, h2.host);
    assert_eq!(h1.proto, h2.proto);
}

#[test]
fn test_to_ip_addresses_v4() {
    let addrs = to_ip_addresses(&vec!["198.51.100.17".to_string()]);
    assert_eq!(addrs, vec![IpAddress::V4(198, 51, 100, 17)]);
}

#[test]
fn test_to_ip_addresses_bracketed_v6() {
    let addrs = to_ip_addresses(&vec!["\"[2001:db8:cafe::17]:4711\"".to_string()]);
    assert_eq!(
        addrs,
        vec![IpAddress::V6(0x2001, 0xdb8, 0xcafe, 0, 0, 0, 0, 0x17)]
    );
}

#[test]
fn test_to_ip_addresses_invalid_is_dropped() {
    let addrs = to_ip_addresses(&vec!["not-an-ip".to_string()]);
    assert!(addrs.is_empty());
}

#[test]
fn test_to_ip_addresses_mixed_keeps_order() {
    let addrs = to_ip_addresses(&vec![
        "192.0.2.43".to_string(),
        "nope".to_string(),
        "\"[::1]:80\"".to_string(),
    ]);
    assert_eq!(
        addrs,
        vec![
            IpAddress::V4(192, 0, 2, 43),
            IpAddress::V6(0, 0, 0, 0, 0, 0, 0, 1),
        ]
    );
}

#[test]
fn test_ip_grammar_edges() {
    // leading zeros, oversized octets and extra pieces are rejected
    assert!(to_ip_addresses(&vec!["01.2.3.4".to_string()]).is_empty());
    assert!(to_ip_addresses(&vec!["256.1.1.1".to_string()]).is_empty());
    assert!(to_ip_addresses(&vec!["1.2.3.4.5".to_string()]).is_empty());
    assert!(to_ip_addresses(&vec!["1.2.3.4 ".to_string()]).is_empty());
    // zero stands alone
    assert_eq!(
        to_ip_addresses(&vec!["0.0.0.0".to_string()]),
        vec![IpAddress::V4(0, 0, 0, 0)]
    );
}

#[test]
fn test_ipv6_grammar_edges() {
    assert_eq!(
        to_ip_addresses(&vec!["::".to_string()]),
        vec![IpAddress::V6(0, 0, 0, 0, 0, 0, 0, 0)]
    );
    assert_eq!(
        to_ip_addresses(&vec!["1:2:3:4:5:6:7:8".to_string()]),
        vec![IpAddress::V6(1, 2, 3, 4, 5, 6, 7, 8)]
    );
    // uppercase hexadecimal digits are accepted
    assert_eq!(
        to_ip_addresses(&vec!["2001:DB8::17".to_string()]),
        vec![IpAddress::V6(0x2001, 0xdb8, 0, 0, 0, 0, 0, 0x17)]
    );
    // an embedded IPv4 tail counts as the last two groups
    assert_eq!(
        to_ip_addresses(&vec!["::ffff:192.0.2.1".to_string()]),
        vec![IpAddress::V6(0, 0, 0, 0, 0, 0xffff, 0xc000, 0x201)]
    );
    // a double elision, a five-digit group and a lone colon are rejected
    assert!(to_ip_addresses(&vec!["1::2::3".to_string()]).is_empty());
    assert!(to_ip_addresses(&vec!["12345::".to_string()]).is_empty());
    assert!(to_ip_addresses(&vec![":".to_string()]).is_empty());
    // eight groups leave no room for an elision
    assert!(to_ip_addresses(&vec!["1:2:3:4:5:6:7:8::".to_string()]).is_empty());
}

#[test]
fn test_bracket_extraction() {
    // everything after the last '[' and before the first ']' is parsed
    assert_eq!(
        to_ip_addresses(&vec!["[::1]".to_string()]),
        vec![IpAddress::V6(0, 0, 0, 0, 0, 0, 0, 1)]
    );
    // a ']' with no address before it yields nothing
    assert!(to_ip_addresses(&vec!["]1.2.3.4".to_string()]).is_empty());
    assert!(to_ip_addresses(&vec!["[]".to_string()]).is_empty());
}
