use axum::http::HeaderMap;
use multi_server::environment::Environment;
use multi_server::error::SiteError;
use multi_server::fastcgi::{
    begin_fastcgi, encode_fastcgi_length, encode_fastcgi_params, fastcgi_request, forward_fastcgi,
    read_record_head, script_candidate, select_script, write_fastcgi_record, Answer, AnswerStep,
    FastcgiStep, RecordHead,
};
use multi_server::manifest::{Domains, Lifecycle, Limits, Manifest, Serve};
use multi_server::path::FilePath;
use multi_server::reply::ReplyBody;
use multi_server::request::RequestHead;
use multi_server::resolver::ResolvedSite;

fn site(serve: Serve) -> ResolvedSite {
    ResolvedSite {
        domain: "php.test".to_string(),
        manifest_directory: FilePath::from_text("/sites/php.test"),
        directory: FilePath::from_text("/srv/php"),
        runtime_key: FilePath::from_text("/sites/php.test"),
        manifest: Manifest {
            version: 1,
            site_root: "/srv/php".to_string(),
            domains: Domains::default(),
            serve,
            routes: Vec::new(),
            prepare: Vec::new(),
            lifecycle: Lifecycle::default(),
            limits: Limits::default(),
        },
    }
}

fn php() -> ResolvedSite {
    site(Serve::Fastcgi {
        command: vec!["php-cgi".to_string()],
        environment: Environment::new(),
        working_directory: None,
        port_environment: "PORT".to_string(),
        upstream_host: "127.0.0.1".to_string(),
        startup_timeout_seconds: 15,
        document_root: "public".to_string(),
        front_controller: "index.php".to_string(),
    })
}

fn request(path: &str, headers: HeaderMap) -> RequestHead {
    RequestHead {
        method: "POST".to_string(),
        uri: format!("{path}?q=1"),
        path: path.to_string(),
        query: Some("q=1".to_string()),
        version: "HTTP/1.1".to_string(),
        headers,
    }
}

fn value<'a>(params: &'a [(String, String)], name: &str) -> Vec<&'a str> {
    params.iter().filter(|param| param.0 == name).map(|param| param.1.as_str()).collect()
}

#[test]
fn encodes_fastcgi_parameter_lengths() {
    let encoded = encode_fastcgi_params(&[("A".into(), "B".repeat(130))]);
    assert_eq!(encoded[0], 1);
    assert_eq!(&encoded[1..5], &[0x80, 0, 0, 130]);
    assert_eq!(encoded[5], b'A');
    assert_eq!(encoded.len(), 5 + 1 + 130);
}

#[test]
fn lengths_take_one_byte_or_four() {
    let bytes = |length: usize| {
        let mut output = vec![9];
        encode_fastcgi_length(length, &mut output);
        output
    };
    assert_eq!(bytes(0), [9, 0]);
    assert_eq!(bytes(127), [9, 127]);
    assert_eq!(bytes(128), [9, 0x80, 0, 0, 128]);
    assert_eq!(bytes(0x0102_0304), [9, 0x81, 2, 3, 4]);
    assert_eq!(bytes(0x7fff_ffff), [9, 0xff, 0xff, 0xff, 0xff]);
}

#[test]
fn names_and_values_are_counted_in_bytes() {
    let encoded = encode_fastcgi_params(&[("N".into(), "\u{e9}".into()), ("M".into(), "".into())]);
    assert_eq!(encoded, [1, 2, b'N', 0xc3, 0xa9, 1, 0, b'M']);
}

#[test]
fn a_record_is_padded_to_eight_bytes() {
    let mut stream = Vec::new();
    write_fastcgi_record(&mut stream, 5, b"abc");
    assert_eq!(stream, [1, 5, 0, 1, 0, 3, 5, 0, b'a', b'b', b'c', 0, 0, 0, 0, 0]);
    let mut stream = Vec::new();
    write_fastcgi_record(&mut stream, 4, &[7; 264]);
    assert_eq!(&stream[..8], &[1, 4, 0, 1, 1, 8, 0, 0]);
    assert_eq!(stream.len(), 272);
}

#[test]
fn a_request_is_a_stream_of_records() {
    let stream = fastcgi_request(&[("A".to_string(), "B".to_string())], b"");
    let expected: Vec<u8> = vec![
        1, 1, 0, 1, 0, 8, 0, 0, 0, 1, 0, 0, 0, 0, 0, 0, // begin
        1, 4, 0, 1, 0, 4, 4, 0, 1, 1, b'A', b'B', 0, 0, 0, 0, // parameters
        1, 4, 0, 1, 0, 0, 0, 0, // no more parameters
        1, 5, 0, 1, 0, 0, 0, 0, // no body
    ];
    assert_eq!(stream, expected);
}

#[test]
fn a_long_body_is_cut_into_records() {
    let body: Vec<u8> = (0..70000u32).map(|number| number as u8).collect();
    let stream = fastcgi_request(&[], &body);
    let mut at = 16 + 8;
    let mut read = Vec::new();
    loop {
        let mut head = [0u8; 8];
        head.copy_from_slice(&stream[at..at + 8]);
        let head = read_record_head(&head).unwrap();
        assert_eq!(head.record_type, 5);
        let length = head.content_length as usize;
        read.extend_from_slice(&stream[at + 8..at + 8 + length]);
        at += 8 + length + head.padding_length as usize;
        if length == 0 {
            break;
        }
    }
    assert_eq!(at, stream.len());
    assert_eq!(read, body);
}

#[test]
fn a_named_script_is_run_where_it_exists() {
    let site = php();
    let candidate = script_candidate(&site, "//wp/login.php").unwrap().unwrap();
    assert_eq!(candidate.to_text(), "/srv/php/public/wp/login.php");
    let script = select_script(&site, "//wp/login.php", true).unwrap();
    assert_eq!(script.filename.to_text(), "/srv/php/public/wp/login.php");
    assert_eq!(script.name, "/wp/login.php");
    assert_eq!(script.root.to_text(), "/srv/php/public");
    let script = select_script(&site, "/wp/login.php", false).unwrap();
    assert_eq!(script.filename.to_text(), "/srv/php/public/index.php");
    assert_eq!(script.name, "/index.php");
}

#[test]
fn other_paths_go_to_the_front_controller() {
    let site = php();
    for path in ["/", "/about", "/../secret.php", "/a/../b.php", "/style.css"] {
        assert!(script_candidate(&site, path).unwrap().is_none());
        assert_eq!(select_script(&site, path, true).unwrap().name, "/index.php");
    }
}

#[test]
fn a_site_without_fastcgi_has_no_script() {
    let other = site(Serve::Static { root: "public".to_string(), index: Vec::new() });
    assert_eq!(script_candidate(&other, "/").unwrap_err().message(), "not a FastCGI service");
    assert!(matches!(select_script(&other, "/", true).unwrap_err(), SiteError::NotFastcgi));
}

#[test]
fn a_missing_script_is_not_found() {
    let site = php();
    let head = request("/", HeaderMap::new());
    let script = select_script(&site, &head.path, false).unwrap();
    let reply = match begin_fastcgi("php.test", &head, &script, false, b"abc") {
        FastcgiStep::Answer(reply) => reply,
        other => panic!("unexpected {other:?}"),
    };
    assert_eq!(reply.status, 404);
    match reply.body {
        ReplyBody::Bytes(bytes) => assert_eq!(bytes, b"FastCGI script not found\n"),
        other => panic!("unexpected {other:?}"),
    }
}

#[test]
fn a_script_that_exists_is_sent_the_request() {
    let site = php();
    let head = request("/", HeaderMap::new());
    let script = select_script(&site, &head.path, false).unwrap();
    let params = forward_fastcgi("php.test", &head, &script, 3);
    match begin_fastcgi("php.test", &head, &script, true, b"abc") {
        FastcgiStep::Send(stream) => assert_eq!(stream, fastcgi_request(&params, b"abc")),
        other => panic!("unexpected {other:?}"),
    }
}

#[test]
fn the_parameters_describe_the_request() {
    let site = php();
    let mut headers = HeaderMap::new();
    headers.insert("content-type", "text/plain".parse().unwrap());
    headers.insert("content-length", "3".parse().unwrap());
    headers.insert("x-some-thing", "v".parse().unwrap());
    let head = request("/a/b", headers);
    let script = select_script(&site, &head.path, false).unwrap();
    let params = forward_fastcgi("php.test", &head, &script, 3);
    let names: Vec<&str> = params.iter().map(|param| param.0.as_str()).collect();
    assert_eq!(
        names[..15],
        [
            "GATEWAY_INTERFACE",
            "SERVER_SOFTWARE",
            "SERVER_PROTOCOL",
            "REQUEST_METHOD",
            "REQUEST_URI",
            "DOCUMENT_URI",
            "QUERY_STRING",
            "SCRIPT_NAME",
            "SCRIPT_FILENAME",
            "DOCUMENT_ROOT",
            "SERVER_NAME",
            "SERVER_PORT",
            "REMOTE_ADDR",
            "CONTENT_LENGTH",
            "REDIRECT_STATUS",
        ]
    );
    assert_eq!(value(&params, "GATEWAY_INTERFACE"), ["CGI/1.1"]);
    assert_eq!(value(&params, "SERVER_SOFTWARE"), ["multi-server"]);
    assert_eq!(value(&params, "SERVER_PROTOCOL"), ["HTTP/1.1"]);
    assert_eq!(value(&params, "REQUEST_METHOD"), ["POST"]);
    assert_eq!(value(&params, "REQUEST_URI"), ["/a/b?q=1"]);
    assert_eq!(value(&params, "DOCUMENT_URI"), ["/a/b"]);
    assert_eq!(value(&params, "QUERY_STRING"), ["q=1"]);
    assert_eq!(value(&params, "SCRIPT_NAME"), ["/index.php"]);
    assert_eq!(value(&params, "SCRIPT_FILENAME"), ["/srv/php/public/index.php"]);
    assert_eq!(value(&params, "DOCUMENT_ROOT"), ["/srv/php/public"]);
    assert_eq!(value(&params, "SERVER_NAME"), ["php.test"]);
    assert_eq!(value(&params, "SERVER_PORT"), ["80"]);
    assert_eq!(value(&params, "REMOTE_ADDR"), ["127.0.0.1"]);
    assert_eq!(value(&params, "CONTENT_LENGTH"), ["3"]);
    assert_eq!(value(&params, "REDIRECT_STATUS"), ["200"]);
    assert_eq!(value(&params, "CONTENT_TYPE"), ["text/plain"]);
    assert_eq!(value(&params, "HTTP_X_SOME_THING"), ["v"]);
    assert_eq!(params.len(), 17);
}

#[test]
fn a_request_that_came_over_tls_says_so() {
    let site = php();
    let mut headers = HeaderMap::new();
    headers.insert("x-forwarded-proto", "HTTPS".parse().unwrap());
    let head = request("/", headers);
    let script = select_script(&site, &head.path, false).unwrap();
    let params = forward_fastcgi("php.test", &head, &script, 0);
    assert_eq!(value(&params, "HTTPS"), ["on"]);
    assert_eq!(value(&params, "SERVER_PORT"), ["80", "443"]);
    assert_eq!(params.len(), 18);
}

#[test]
fn a_record_head_must_be_for_the_request() {
    let head = read_record_head(&[1, 6, 0, 1, 2, 3, 4, 0]).unwrap();
    assert_eq!(
        head,
        RecordHead { record_type: 6, content_length: 515, padding_length: 4 }
    );
    for bytes in [[2, 6, 0, 1, 0, 0, 0, 0], [1, 6, 0, 2, 0, 0, 0, 0], [1, 6, 1, 1, 0, 0, 0, 0]] {
        let error = read_record_head(&bytes).unwrap_err();
        assert_eq!(error.message(), "invalid FastCGI response");
    }
}

#[test]
fn an_answer_collects_output_until_it_ends() {
    let mut answer = Answer::new();
    assert!(matches!(answer.take_record(6, b"X-A: 1\r\n\r", 100), Ok(AnswerStep::Continue)));
    assert!(matches!(answer.take_record(7, b"warning", 100), Ok(AnswerStep::Continue)));
    assert!(matches!(answer.take_record(9, b"other", 100), Ok(AnswerStep::Continue)));
    assert!(matches!(answer.take_record(6, b"\nbody", 100), Ok(AnswerStep::Continue)));
    assert!(matches!(answer.take_record(3, b"", 100), Ok(AnswerStep::Finished)));
    assert_eq!(answer.messages, b"warning");
    let reply = answer.into_reply().unwrap();
    assert_eq!(reply.headers["x-a"], "1");
    match reply.body {
        ReplyBody::Bytes(bytes) => assert_eq!(bytes, b"body"),
        other => panic!("unexpected {other:?}"),
    }
}

#[test]
fn an_answer_is_held_to_its_limit() {
    let mut answer = Answer::new();
    assert!(answer.take_record(6, b"12345", 5).is_ok());
    let error = answer.take_record(6, b"6", 5).unwrap_err();
    assert_eq!(error.message(), "FastCGI response exceeded its output limit");
    assert!(matches!(answer.take_record(3, b"", 5), Ok(AnswerStep::Finished)));
}
