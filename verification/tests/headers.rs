use hyper::header::{HeaderName, HeaderValue};
use hyper::HeaderMap;
use ranx::headers::{
    add_forwarded, copy_headers, get_client_ip, hop_by_hop, name_is, sanitized, value_is_safe,
    HEADER_ROOM,
};

fn pairs(map: &HeaderMap) -> Vec<(String, Vec<u8>)> {
    map.iter().map(|(k, v)| (k.as_str().to_string(), v.as_bytes().to_vec())).collect()
}

fn text_pairs(list: &[(&str, &str)]) -> Vec<(String, Vec<u8>)> {
    list.iter().map(|(k, v)| (k.to_string(), v.as_bytes().to_vec())).collect()
}

#[test]
fn hop_by_hop_names_are_recognised_in_any_case() {
    for name in [
        "connection",
        "keep-alive",
        "proxy-authenticate",
        "proxy-authorization",
        "te",
        "trailers",
        "transfer-encoding",
        "upgrade",
        "Connection",
        "KEEP-ALIVE",
        "Transfer-Encoding",
        "uPgRaDe",
    ] {
        assert!(hop_by_hop(name), "{}", name);
    }
    for name in ["host", "content-length", "t", "tee", "connections", "", "upgrade-insecure-requests", "keep_alive"] {
        assert!(!hop_by_hop(name), "{}", name);
    }
    assert!(name_is("TE", "te"));
    assert!(!name_is("te", "TE"));
    assert!(!name_is("\u{54}\u{45}x", "te"));
}

#[test]
fn header_sanitization_drops_connection_and_transfer_encoding() {
    let mut src = HeaderMap::new();
    src.insert("connection", HeaderValue::from_static("keep-alive"));
    src.insert("transfer-encoding", HeaderValue::from_static("chunked"));
    src.insert("accept", HeaderValue::from_static("text/html"));
    src.insert("host", HeaderValue::from_static("example.com"));
    let mut dst = HeaderMap::new();
    copy_headers(&src, &mut dst);
    assert!(dst.get("connection").is_none());
    assert!(dst.get("transfer-encoding").is_none());
    assert_eq!(pairs(&dst), text_pairs(&[("accept", "text/html"), ("host", "example.com")]));
}

#[test]
fn header_sanitization_drops_every_hop_by_hop_header() {
    let mut src = HeaderMap::new();
    for name in [
        "connection",
        "keep-alive",
        "proxy-authenticate",
        "proxy-authorization",
        "te",
        "trailers",
        "transfer-encoding",
        "upgrade",
    ] {
        src.insert(HeaderName::from_static(name), HeaderValue::from_static("x"));
    }
    src.insert("x-kept", HeaderValue::from_static("yes"));
    let clean = sanitized(&src).unwrap();
    assert_eq!(pairs(&clean), text_pairs(&[("x-kept", "yes")]));
}

#[test]
fn copying_keeps_every_value_of_a_repeated_header() {
    let mut src = HeaderMap::new();
    src.append("accept", HeaderValue::from_static("text/html"));
    src.append("cookie", HeaderValue::from_static("a=1"));
    src.append("accept", HeaderValue::from_static("text/plain"));
    src.append("accept", HeaderValue::from_static("image/png"));
    src.append("te", HeaderValue::from_static("trailers"));
    src.append("te", HeaderValue::from_static("gzip"));
    let mut dst = HeaderMap::new();
    copy_headers(&src, &mut dst);
    assert_eq!(
        pairs(&dst),
        text_pairs(&[
            ("accept", "text/html"),
            ("accept", "text/plain"),
            ("accept", "image/png"),
            ("cookie", "a=1"),
        ])
    );
    assert_eq!(src.len(), 6);
}

#[test]
fn copying_adds_to_what_the_target_holds() {
    let mut src = HeaderMap::new();
    src.insert("host", HeaderValue::from_static("new"));
    src.insert("connection", HeaderValue::from_static("close"));
    let mut dst = HeaderMap::new();
    dst.append("host", HeaderValue::from_static("old-1"));
    dst.append("via", HeaderValue::from_static("proxy"));
    dst.append("host", HeaderValue::from_static("old-2"));
    dst.append("connection", HeaderValue::from_static("mine"));
    copy_headers(&src, &mut dst);
    assert_eq!(
        pairs(&dst),
        text_pairs(&[
            ("host", "old-1"),
            ("host", "old-2"),
            ("host", "new"),
            ("via", "proxy"),
            ("connection", "mine"),
        ])
    );
}

#[test]
fn copying_keeps_bytes_that_are_no_text() {
    let mut src = HeaderMap::new();
    src.insert("x-raw", HeaderValue::from_bytes(&[0x80, 0xff, b'a']).unwrap());
    let mut dst = HeaderMap::new();
    copy_headers(&src, &mut dst);
    assert_eq!(pairs(&dst), vec![("x-raw".to_string(), vec![0x80, 0xff, b'a'])]);
}

#[test]
fn copying_nothing_changes_nothing() {
    let src = HeaderMap::new();
    let mut dst = HeaderMap::new();
    dst.insert("a", HeaderValue::from_static("1"));
    copy_headers(&src, &mut dst);
    assert_eq!(pairs(&dst), text_pairs(&[("a", "1")]));
    assert_eq!(sanitized(&src).unwrap().len(), 0);
}

#[test]
fn sanitized_refuses_more_headers_than_fit() {
    let mut src = HeaderMap::new();
    for _ in 0..HEADER_ROOM {
        src.append("x", HeaderValue::from_static("v"));
    }
    assert!(sanitized(&src).is_some());
    src.append("x", HeaderValue::from_static("v"));
    assert!(sanitized(&src).is_none());
}

#[test]
fn client_is_taken_from_forwarded_for_first() {
    let mut h = HeaderMap::new();
    h.insert("x-real-ip", HeaderValue::from_static("10.0.0.2"));
    h.insert("x-forwarded-for", HeaderValue::from_static("10.0.0.1"));
    assert_eq!(get_client_ip(&h), Some("10.0.0.1".to_string()));
}

#[test]
fn client_is_taken_from_real_ip_otherwise() {
    let mut h = HeaderMap::new();
    h.insert("x-real-ip", HeaderValue::from_static("10.0.0.2"));
    assert_eq!(get_client_ip(&h), Some("10.0.0.2".to_string()));
    assert_eq!(get_client_ip(&HeaderMap::new()), None);
}

#[test]
fn client_header_that_is_no_text_is_passed_over() {
    let mut h = HeaderMap::new();
    h.insert("x-forwarded-for", HeaderValue::from_bytes(&[b'1', 0x80]).unwrap());
    h.insert("x-real-ip", HeaderValue::from_static("10.0.0.2"));
    assert_eq!(get_client_ip(&h), Some("10.0.0.2".to_string()));
    let mut only = HeaderMap::new();
    only.insert("x-forwarded-for", HeaderValue::from_bytes(&[0xfe]).unwrap());
    assert_eq!(get_client_ip(&only), None);
}

#[test]
fn client_is_the_first_value_of_a_repeated_header() {
    let mut h = HeaderMap::new();
    h.append("x-forwarded-for", HeaderValue::from_static("1.1.1.1"));
    h.append("x-forwarded-for", HeaderValue::from_static("2.2.2.2"));
    assert_eq!(get_client_ip(&h), Some("1.1.1.1".to_string()));
}

#[test]
fn forwarded_headers_are_put_down() {
    let mut h = HeaderMap::new();
    h.insert("accept", HeaderValue::from_static("*/*"));
    add_forwarded(&mut h, Some("example.com"), Some(8443), Some("https"));
    assert_eq!(
        pairs(&h),
        text_pairs(&[
            ("accept", "*/*"),
            ("x-forwarded-host", "example.com"),
            ("x-forwarded-port", "8443"),
            ("x-forwarded-proto", "https"),
        ])
    );
}

#[test]
fn forwarded_headers_are_left_out_where_the_address_lacks_them() {
    let mut h = HeaderMap::new();
    add_forwarded(&mut h, None, None, None);
    assert_eq!(h.len(), 0);
    add_forwarded(&mut h, Some("h"), None, None);
    assert_eq!(pairs(&h), text_pairs(&[("x-forwarded-host", "h")]));
}

#[test]
fn forwarded_headers_replace_what_the_client_sent() {
    let mut h = HeaderMap::new();
    h.append("x-forwarded-host", HeaderValue::from_static("spoofed"));
    h.append("x-forwarded-host", HeaderValue::from_static("twice"));
    h.append("accept", HeaderValue::from_static("*/*"));
    add_forwarded(&mut h, Some("real"), None, None);
    assert_eq!(pairs(&h), text_pairs(&[("x-forwarded-host", "real"), ("accept", "*/*")]));
}

#[test]
fn forwarded_value_with_a_control_character_is_not_put_down() {
    let mut h = HeaderMap::new();
    add_forwarded(&mut h, Some("bad\nhost"), Some(80), Some("ht\u{7f}tp"));
    assert_eq!(pairs(&h), text_pairs(&[("x-forwarded-port", "80")]));
    let mut t = HeaderMap::new();
    add_forwarded(&mut t, Some("tab\there"), None, Some("caf\u{e9}"));
    assert_eq!(
        pairs(&t),
        vec![
            ("x-forwarded-host".to_string(), b"tab\there".to_vec()),
            ("x-forwarded-proto".to_string(), "caf\u{e9}".as_bytes().to_vec()),
        ]
    );
}

#[test]
fn copying_leaves_the_order_of_other_repeated_headers() {
    let mut dst = HeaderMap::new();
    dst.append("a", HeaderValue::from_static("1"));
    dst.append("b", HeaderValue::from_static("1"));
    dst.append("a", HeaderValue::from_static("2"));
    dst.append("b", HeaderValue::from_static("2"));
    dst.append("c", HeaderValue::from_static("1"));
    let mut src = HeaderMap::new();
    src.append("a", HeaderValue::from_static("3"));
    src.append("d", HeaderValue::from_static("4"));
    src.append("a", HeaderValue::from_static("5"));
    src.append("b", HeaderValue::from_static("6"));
    copy_headers(&src, &mut dst);
    assert_eq!(
        pairs(&dst),
        text_pairs(&[
            ("a", "1"),
            ("a", "2"),
            ("a", "3"),
            ("a", "5"),
            ("b", "1"),
            ("b", "2"),
            ("b", "6"),
            ("c", "1"),
            ("d", "4"),
        ])
    );
}

#[test]
fn forwarded_headers_leave_repeated_headers_whole() {
    let mut h = HeaderMap::new();
    h.append("accept", HeaderValue::from_static("a"));
    h.append("x-forwarded-proto", HeaderValue::from_static("old"));
    h.append("accept", HeaderValue::from_static("b"));
    h.append("x-forwarded-proto", HeaderValue::from_static("older"));
    add_forwarded(&mut h, None, None, Some("https"));
    assert_eq!(
        pairs(&h),
        text_pairs(&[("accept", "a"), ("accept", "b"), ("x-forwarded-proto", "https")])
    );
}

#[test]
fn safe_values_are_told_from_unsafe_ones() {
    for v in ["", "plain", "with space", "tab\there", "caf\u{e9}", "~!@#"] {
        assert!(value_is_safe(v), "{:?}", v);
        assert!(HeaderValue::from_str(v).is_ok());
    }
    for v in ["line\nbreak", "cr\rhere", "nul\u{0}", "del\u{7f}", "\u{1f}"] {
        assert!(!value_is_safe(v), "{:?}", v);
        assert!(HeaderValue::from_str(v).is_err());
    }
}
