use axum::http::header;
use axum::http::HeaderMap;
use multi_server::headers::{
    header_text, is_field_name, is_field_value, is_upgrade_request, remove_hop_by_hop_headers,
    request_body_too_large, visible_text,
};

fn chars(text: &str) -> Vec<char> {
    text.chars().collect()
}

#[test]
fn removes_standard_and_connection_named_hop_headers() {
    let mut headers = HeaderMap::new();
    headers.insert(header::CONNECTION, "keep-alive, x-internal".parse().unwrap());
    headers.insert("keep-alive", "timeout=5".parse().unwrap());
    headers.insert("x-internal", "secret".parse().unwrap());
    headers.insert("x-forwarded-test", "kept".parse().unwrap());

    remove_hop_by_hop_headers(&mut headers);

    assert!(!headers.contains_key(header::CONNECTION));
    assert!(!headers.contains_key("keep-alive"));
    assert!(!headers.contains_key("x-internal"));
    assert_eq!(headers["x-forwarded-test"], "kept");
}

#[test]
fn every_standard_hop_header_is_removed_and_others_keep_all_values() {
    let mut headers = HeaderMap::new();
    for name in [
        "connection",
        "keep-alive",
        "proxy-authenticate",
        "proxy-authorization",
        "te",
        "trailer",
        "transfer-encoding",
        "upgrade",
    ] {
        headers.insert(name, "x".parse().unwrap());
    }
    headers.append("set-cookie", "a=1".parse().unwrap());
    headers.append("set-cookie", "b=2".parse().unwrap());
    remove_hop_by_hop_headers(&mut headers);
    assert_eq!(headers.keys_len(), 1);
    let values: Vec<_> = headers.get_all("set-cookie").iter().collect();
    assert_eq!(values, ["a=1", "b=2"]);
    let before = headers.clone();
    remove_hop_by_hop_headers(&mut headers);
    assert_eq!(headers, before);
}

#[test]
fn a_connection_list_with_odd_names_is_harmless() {
    let mut headers = HeaderMap::new();
    headers.insert("connection", " , X-One ,bad name,".parse().unwrap());
    headers.insert("x-one", "1".parse().unwrap());
    headers.insert("x-two", "2".parse().unwrap());
    remove_hop_by_hop_headers(&mut headers);
    assert_eq!(headers.len(), 1);
    assert_eq!(headers["x-two"], "2");
}

#[test]
fn a_listed_name_that_is_no_field_name_is_kept() {
    let mut headers = HeaderMap::new();
    headers.insert("connection", "\"x, x-gone".parse().unwrap());
    headers.insert(axum::http::HeaderName::from_static("\"x"), "kept".parse().unwrap());
    headers.insert("x-gone", "1".parse().unwrap());
    remove_hop_by_hop_headers(&mut headers);
    let left: Vec<&str> = headers.keys().map(|name| name.as_str()).collect();
    assert_eq!(left, ["\"x"]);
    assert!(header_text(&headers, "\"x").is_none());
}

#[test]
fn an_upgrade_needs_both_fields() {
    let mut headers = HeaderMap::new();
    assert!(!is_upgrade_request(&headers));
    headers.insert("upgrade", "websocket".parse().unwrap());
    assert!(!is_upgrade_request(&headers));
    headers.insert("connection", "keep-alive".parse().unwrap());
    assert!(!is_upgrade_request(&headers));
    headers.insert("connection", "keep-alive, Upgrade ".parse().unwrap());
    assert!(is_upgrade_request(&headers));
    headers.remove("upgrade");
    assert!(!is_upgrade_request(&headers));
}

#[test]
fn an_announced_body_is_held_to_the_limit() {
    let mut headers = HeaderMap::new();
    assert!(!request_body_too_large(&headers, 0));
    headers.insert("content-length", "10".parse().unwrap());
    assert!(!request_body_too_large(&headers, 10));
    assert!(request_body_too_large(&headers, 9));
    headers.insert("content-length", "ten".parse().unwrap());
    assert!(!request_body_too_large(&headers, 0));
    headers.insert("content-length", "99999999999999999999".parse().unwrap());
    assert!(!request_body_too_large(&headers, 0));
}

#[test]
fn only_visible_values_are_text() {
    assert_eq!(visible_text(b"a\tb~").unwrap(), "a\tb~");
    assert!(visible_text(&[97, 200]).is_none());
    assert!(visible_text(&[127]).is_none());
    let mut headers = HeaderMap::new();
    headers.append("x-a", "first".parse().unwrap());
    headers.append("x-a", "second".parse().unwrap());
    assert_eq!(header_text(&headers, "X-A").unwrap(), "first");
    assert!(header_text(&headers, "x-b").is_none());
}

#[test]
fn field_names_and_values_are_checked() {
    assert!(is_field_name(&chars("X-Site_1")));
    assert!(!is_field_name(&chars("")));
    assert!(!is_field_name(&chars("a b")));
    assert!(!is_field_name(&chars("a:")));
    assert!(!is_field_name(&chars("\u{e9}")));
    assert!(is_field_name(&chars(&"a".repeat(65535))));
    assert!(!is_field_name(&chars(&"a".repeat(65536))));
    assert!(is_field_value("caf\u{e9}\t1"));
    assert!(!is_field_value("a\nb"));
    assert!(!is_field_value("\u{7f}"));
}
