use axum::http::header;
use multi_server::cgi::{parse_cgi_response, CgiError};
use multi_server::error::{failure_reply, SiteError};
use multi_server::number::NumberError;
use multi_server::reply::{response, Reply, ReplyBody};

fn body(reply: &Reply) -> &[u8] {
    match &reply.body {
        ReplyBody::Bytes(bytes) => bytes,
        other => panic!("unexpected {other:?}"),
    }
}

fn error_of(output: &[u8]) -> CgiError {
    parse_cgi_response(output).unwrap_err()
}

#[test]
fn parses_cgi_headers_and_status() {
    let response = parse_cgi_response(
        b"Status: 201 Created\r\nContent-Type: text/plain\r\nX-Site: test\r\n\r\ncreated",
    )
    .unwrap();
    assert_eq!(response.status, 201);
    assert_eq!(response.headers[header::CONTENT_TYPE], "text/plain");
    assert_eq!(response.headers["x-site"], "test");
    assert_eq!(body(&response), b"created");
}

#[test]
fn treats_headerless_output_as_html() {
    let response = parse_cgi_response(b"<h1>Hello</h1>").unwrap();
    assert_eq!(response.status, 200);
    assert_eq!(response.headers[header::CONTENT_TYPE], "text/html; charset=utf-8");
    assert_eq!(body(&response), b"<h1>Hello</h1>");
}

#[test]
fn an_empty_head_has_no_fields() {
    let reply = parse_cgi_response(b"\n\nbody").unwrap();
    assert_eq!(reply.status, 200);
    assert!(reply.headers.is_empty());
    assert_eq!(body(&reply), b"body");
}

#[test]
fn lines_may_end_in_a_line_feed_alone() {
    let reply = parse_cgi_response(b"X-A: 1\nx-a:2\nSTATUS:404\n\nno").unwrap();
    assert_eq!(reply.status, 404);
    let values: Vec<_> = reply.headers.get_all("x-a").iter().collect();
    assert_eq!(values, ["1", "2"]);
    assert_eq!(body(&reply), b"no");
}

#[test]
fn the_long_gap_is_looked_for_first() {
    let reply = parse_cgi_response(b"X-A: 1\n\nX-B: 2\r\n\r\nrest");
    assert!(matches!(reply.unwrap_err(), CgiError::NoColon));
    let reply = parse_cgi_response(b"X-A: 1\r\nX-B: 2\r\n\r\n\n\nrest").unwrap();
    assert_eq!(body(&reply), b"\n\nrest");
}

#[test]
fn a_body_may_hold_anything() {
    let body_bytes = b"\r\n\r\nStatus: 500\n\n\xff";
    let mut output = b"Status: 202\r\nX-Name: caf\xc3\xa9\r\n\r\n".to_vec();
    output.extend_from_slice(body_bytes);
    let reply = parse_cgi_response(&output).unwrap();
    assert_eq!(reply.status, 202);
    assert_eq!(reply.headers["x-name"].as_bytes(), b"caf\xc3\xa9");
    assert_eq!(body(&reply), body_bytes);
}

#[test]
fn the_last_status_counts() {
    let reply = parse_cgi_response(b"Status: 201\nStatus: +204 x\n\n").unwrap();
    assert_eq!(reply.status, 204);
}

#[test]
fn every_kind_of_bad_head_is_told() {
    assert!(matches!(error_of(b"\xff: 1\n\n"), CgiError::NotText));
    assert_eq!(error_of(b"\xff: 1\n\n").message(), "stdio response headers are not UTF-8");
    assert_eq!(error_of(b"nonsense\n\n").message(), "invalid stdio response header");
    assert_eq!(error_of(b"Status: \n\n").message(), "empty Status header");
    assert!(matches!(
        error_of(b"Status: abc\n\n"),
        CgiError::StatusNumber(NumberError::InvalidDigit)
    ));
    assert_eq!(error_of(b"Status: abc\n\n").message(), "invalid digit found in string");
    assert_eq!(
        error_of(b"Status: 70000\n\n").message(),
        "number too large to fit in target type"
    );
    assert_eq!(error_of(b"Status: 99\n\n").message(), "invalid status code");
    assert_eq!(error_of(b"Status: 1000\n\n").message(), "invalid status code");
    assert_eq!(error_of(b"bad name: 1\n\n").message(), "invalid HTTP header name");
    assert_eq!(error_of(b": 1\n\n").message(), "invalid HTTP header name");
    assert_eq!(error_of(b"x: a\x01b\n\n").message(), "failed to parse header value");
    assert_eq!(CgiError::TooManyFields.message(), "max size reached");
}

#[test]
fn an_unreadable_line_counts_before_an_earlier_defect() {
    assert!(matches!(error_of(b"bad name: 1\nnonsense\n\n"), CgiError::NoColon));
    assert!(matches!(error_of(b"Status: 99\nbad name: 1\n\n"), CgiError::StatusCode));
    assert!(matches!(error_of(b"x: a\x01\nStatus: 99\n\n"), CgiError::FieldValue));
}

#[test]
fn more_fields_than_a_reply_holds_are_told() {
    let mut output = String::new();
    for number in 0..40000 {
        output.push_str(&format!("x-{number}: 1\n"));
    }
    output.push('\n');
    assert!(matches!(error_of(output.as_bytes()), CgiError::TooManyFields));
    let mut output = String::new();
    for number in 0..6554 {
        output.push_str(&format!("x-{number}: 1\n"));
    }
    output.push('\n');
    let reply = parse_cgi_response(output.as_bytes()).unwrap();
    assert_eq!(reply.headers.len(), 6554);
}

#[test]
fn a_text_reply_has_no_fields() {
    let reply = response(404, "caf\u{e9}\n");
    assert_eq!(reply.status, 404);
    assert!(reply.headers.is_empty());
    assert_eq!(body(&reply), "caf\u{e9}\n".as_bytes());
}

#[test]
fn a_failure_is_answered_with_its_message() {
    let reply = failure_reply(&SiteError::Cgi(CgiError::EmptyStatus));
    assert_eq!(reply.status, 502);
    assert_eq!(body(&reply), b"multi-server: empty Status header\n");
    let message = |error: SiteError| error.message();
    assert_eq!(message(SiteError::Io("broken pipe".to_string())), "broken pipe");
    assert_eq!(message(SiteError::UnexpectedProcess), "invalid running state for stdio site");
    assert_eq!(
        message(SiteError::NamespaceFailed { namespace: "ms00000001".to_string() }),
        "failed to configure network namespace ms00000001"
    );
}
