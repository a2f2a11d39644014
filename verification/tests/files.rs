use axum::http::HeaderMap;
use multi_server::files::{
    choose_index, decide_file, file_reply, index_path, invalid_path, not_found, parse_byte_range,
    static_target, FileFacts, FileStep, Part,
};
use multi_server::path::FilePath;
use multi_server::reply::{Reply, ReplyBody};
use multi_server::request::RequestHead;

const FACTS: FileFacts = FileFacts { length: 100, modified: Some(784_111_777_500_000_000) };

fn request(method: &str, fields: &[(&'static str, &str)]) -> RequestHead {
    let mut headers = HeaderMap::new();
    for (name, value) in fields {
        headers.insert(*name, value.parse().unwrap());
    }
    RequestHead {
        method: method.to_string(),
        uri: "/a".to_string(),
        path: "/a".to_string(),
        query: None,
        version: "HTTP/1.1".to_string(),
        headers,
    }
}

fn answer(step: FileStep) -> Reply {
    match step {
        FileStep::Answer(reply) => reply,
        FileStep::Send(part) => panic!("unexpected {part:?}"),
    }
}

fn part(step: FileStep) -> Part {
    match step {
        FileStep::Send(part) => part,
        FileStep::Answer(reply) => panic!("unexpected {reply:?}"),
    }
}

fn is_empty(reply: &Reply) -> bool {
    matches!(&reply.body, ReplyBody::Bytes(bytes) if bytes.is_empty())
}

#[test]
fn parses_single_byte_ranges() {
    assert_eq!(parse_byte_range("bytes=0-9", 100), Some((0, 9)));
    assert_eq!(parse_byte_range("bytes=90-", 100), Some((90, 99)));
    assert_eq!(parse_byte_range("bytes=-10", 100), Some((90, 99)));
    assert_eq!(parse_byte_range("bytes=100-", 100), None);
    assert_eq!(parse_byte_range("bytes=0-1,3-4", 100), None);
}

#[test]
fn odd_byte_ranges() {
    assert_eq!(parse_byte_range("bytes=0-1000", 100), Some((0, 99)));
    assert_eq!(parse_byte_range("bytes=-1000", 100), Some((0, 99)));
    assert_eq!(parse_byte_range("bytes=-0", 100), None);
    assert_eq!(parse_byte_range("bytes=-", 100), None);
    assert_eq!(parse_byte_range("bytes=5-4", 100), None);
    assert_eq!(parse_byte_range("bytes=5", 100), None);
    assert_eq!(parse_byte_range("bytes=a-b", 100), None);
    assert_eq!(parse_byte_range("items=0-1", 100), None);
    assert_eq!(parse_byte_range("bytes=0-", 0), None);
    assert_eq!(parse_byte_range("bytes=99-99", 100), Some((99, 99)));
    assert_eq!(parse_byte_range("bytes=18446744073709551616-", 100), None);
}

#[test]
fn a_target_lies_below_the_root() {
    let site = FilePath::from_text("/sites/a");
    let target = |path: &str| static_target(&site, "public", path).map(|file| file.to_text());
    assert_eq!(target("/x/y.txt").unwrap(), "/sites/a/public/x/y.txt");
    assert_eq!(target("//x").unwrap(), "/sites/a/public/x");
    assert_eq!(target("/").unwrap(), "/sites/a/public/");
    assert_eq!(target("/x/./y").unwrap(), "/sites/a/public/x/./y");
    assert!(target("/../x").is_none());
    assert!(target("/x/../../y").is_none());
    assert!(target("/./x").is_none());
    let reply = invalid_path();
    assert_eq!(reply.status, 400);
    assert!(matches!(&reply.body, ReplyBody::Bytes(bytes) if bytes == b"invalid path\n"));
}

#[test]
fn the_first_index_that_is_a_file_stands_for_a_directory() {
    let directory = FilePath::from_text("/d");
    let indexes = vec!["a.html".to_string(), "b.html".to_string(), "c.html".to_string()];
    assert_eq!(index_path(&directory, &indexes, 1).unwrap().to_text(), "/d/b.html");
    assert!(index_path(&directory, &indexes, 3).is_none());
    let chosen = choose_index(directory.copy(), &indexes, &vec![false, true, true]);
    assert_eq!(chosen.to_text(), "/d/b.html");
    let chosen = choose_index(directory.copy(), &indexes, &vec![false, false, false]);
    assert_eq!(chosen.to_text(), "/d");
    let reply = not_found();
    assert_eq!(reply.status, 404);
    assert!(matches!(&reply.body, ReplyBody::Bytes(bytes) if bytes == b"not found\n"));
}

#[test]
fn the_tag_tells_length_and_time() {
    assert_eq!(FACTS.etag(), "\"64-ae1b981da166f00\"");
    assert_eq!(FileFacts { length: 0, modified: None }.etag(), "\"0-0\"");
    assert_eq!(FileFacts { length: 255, modified: Some(-1) }.etag(), "\"ff-0\"");
}

#[test]
fn a_whole_file_is_sent_with_its_fields() {
    let get = request("GET", &[]);
    let part = part(decide_file(&get, &FACTS));
    assert_eq!(part, Part { start: 0, end: 99, partial: false });
    let reply = file_reply(&get, FilePath::from_text("/d/page.html"), &FACTS, part);
    assert_eq!(reply.status, 200);
    assert_eq!(reply.headers["content-type"], "text/html");
    assert_eq!(reply.headers["content-length"], "100");
    assert_eq!(reply.headers["accept-ranges"], "bytes");
    assert_eq!(reply.headers["etag"], FACTS.etag().as_str());
    assert_eq!(reply.headers["last-modified"], "Sun, 06 Nov 1994 08:49:37 GMT");
    assert_eq!(reply.headers.len(), 5);
    match reply.body {
        ReplyBody::File { path, start, length } => {
            assert_eq!(path.to_text(), "/d/page.html");
            assert_eq!((start, length), (0, 100));
        }
        other => panic!("unexpected {other:?}"),
    }
}

#[test]
fn a_part_is_sent_with_its_place() {
    let get = request("GET", &[("range", "bytes=10-19")]);
    let part = part(decide_file(&get, &FACTS));
    assert_eq!(part, Part { start: 10, end: 19, partial: true });
    let reply = file_reply(&get, FilePath::from_text("/d/data.unknown"), &FACTS, part);
    assert_eq!(reply.status, 206);
    assert_eq!(reply.headers["content-type"], "application/octet-stream");
    assert_eq!(reply.headers["content-length"], "10");
    assert_eq!(reply.headers["content-range"], "bytes 10-19/100");
    assert!(matches!(reply.body, ReplyBody::File { start: 10, length: 10, .. }));
}

#[test]
fn a_range_that_the_file_does_not_have_is_refused() {
    let reply = answer(decide_file(&request("GET", &[("range", "bytes=100-")]), &FACTS));
    assert_eq!(reply.status, 416);
    assert_eq!(reply.headers["content-range"], "bytes */100");
    assert_eq!(reply.headers.len(), 1);
    assert!(is_empty(&reply));
}

#[test]
fn a_head_request_gets_the_same_fields_and_no_body() {
    let get = request("GET", &[]);
    let head = request("HEAD", &[]);
    let whole = part(decide_file(&head, &FACTS));
    let path = FilePath::from_text("/d/a.css");
    let with_body = file_reply(&get, path.copy(), &FACTS, whole);
    let without = file_reply(&head, path, &FACTS, whole);
    assert_eq!(with_body.headers, without.headers);
    assert_eq!(with_body.status, without.status);
    assert!(is_empty(&without));
    assert!(!is_empty(&with_body));
}

#[test]
fn an_empty_file_has_an_empty_part() {
    let facts = FileFacts { length: 0, modified: None };
    let get = request("GET", &[]);
    let whole = part(decide_file(&get, &facts));
    let reply = file_reply(&get, FilePath::from_text("/d/a.txt"), &facts, whole);
    assert_eq!(reply.headers["content-length"], "0");
    assert_eq!(reply.headers["content-type"], "text/plain");
    assert!(!reply.headers.contains_key("last-modified"));
    assert!(matches!(reply.body, ReplyBody::File { start: 0, length: 0, .. }));
}

#[test]
fn the_tag_of_a_reply_is_known_again() {
    let tag = FACTS.etag();
    let list = format!("\"other\" , {tag}");
    for value in [tag.as_str(), list.as_str()] {
        let reply = answer(decide_file(&request("GET", &[("if-none-match", value)]), &FACTS));
        assert_eq!(reply.status, 304);
        assert_eq!(reply.headers["etag"], tag.as_str());
        assert_eq!(reply.headers.len(), 1);
        assert!(is_empty(&reply));
    }
    let lone = format!(" ,{tag}\t, \"x\"");
    let reply = answer(decide_file(&request("GET", &[("if-none-match", lone.as_str())]), &FACTS));
    assert_eq!(reply.status, 304);
    let newer = FileFacts { length: 101, modified: FACTS.modified };
    part(decide_file(&request("GET", &[("if-none-match", tag.as_str())]), &newer));
}

#[test]
fn the_date_of_a_reply_is_known_again() {
    let get = request("GET", &[]);
    let whole = part(decide_file(&get, &FACTS));
    let reply = file_reply(&get, FilePath::from_text("/a"), &FACTS, whole);
    let date = reply.headers["last-modified"].to_str().unwrap().to_string();
    let again = request("GET", &[("if-modified-since", date.as_str())]);
    assert_eq!(answer(decide_file(&again, &FACTS)).status, 304);
}

#[test]
fn dates_are_compared_with_a_second_to_spare() {
    let since = "Sun, 06 Nov 1994 08:49:37 GMT";
    let ask = request("GET", &[("if-modified-since", since)]);
    let at = |nanos: i128| FileFacts { length: 1, modified: Some(784_111_777_000_000_000 + nanos) };
    assert_eq!(answer(decide_file(&ask, &at(1_000_000_000))).status, 304);
    part(decide_file(&ask, &at(1_000_000_001)));
    part(decide_file(&request("GET", &[("if-modified-since", "yesterday")]), &at(0)));
    part(decide_file(&ask, &FileFacts { length: 1, modified: None }));
}

#[test]
fn dates_outside_the_calendar_are_told_apart() {
    let at = |modified: i128| FileFacts { length: 1, modified: Some(modified) };
    assert!(at(0).is_datable());
    assert!(!at(-1).is_datable());
    assert!(at(253_402_300_799_999_999_999).is_datable());
    assert!(!at(253_402_300_800_000_000_000).is_datable());
    assert!(FileFacts { length: 1, modified: None }.is_datable());
    let facts = at(253_402_300_799_999_999_999);
    let get = request("GET", &[]);
    let whole = part(decide_file(&get, &facts));
    let reply = file_reply(&get, FilePath::from_text("/a"), &facts, whole);
    assert_eq!(reply.headers["last-modified"], "Fri, 31 Dec 9999 23:59:59 GMT");
}
