//! Replies from files: which file, whether it is sent, and which part of it.

use axum::http::HeaderMap;
use vstd::prelude::*;
use vstd::slice::slice_subrange;
use vstd::utf8::encode_utf8;

use crate::dates::{fmt_http_date, guess_media_type, http_date_seconds, http_date_text, media_type,
    parse_http_date, visible_chars, END_OF_DATES};
use crate::headers::{field_name, field_value, header_append, header_fields, header_text,
    lemma_visible_text, new_headers, text_of, value_text, values_of};
use crate::number::{all_digits, decimal, decimal_text, hex, hex_text, law_numeral_is_read,
    law_digits_tell_number, law_number_is_written, lemma_digits_look, number_char, number_value,
    parse_number, unsigned, worth};
use crate::path::{joined, law_join_stays_within, lemma_trimmed_is_relative, lossy_text, plain,
    within, FilePath};
use crate::reply::{response, same_fields, Reply, ReplyBody};
use crate::request::RequestHead;
use crate::text::{begins_with, chars_of, find, law_marks_are_taken_off, law_parted_at_first,
    lemma_position, lemma_split_listed, listed, position, same_chars, same_text, split, split_first,
    split_on, split_once, string_of, trim, trim_leading, trimmed, views_of, without_leading};

verus! {

// ---------------------------------------------------------------------------
// Byte ranges

/// The first and the last byte that a range of a file of `length` bytes takes
/// in. Only one range is understood.
pub open spec fn byte_range(value: Seq<char>, length: u64) -> Option<(u64, u64)> {
    let range = value.skip(6);
    if !"bytes="@.is_prefix_of(value) || range.contains(',') || length == 0 {
        None
    } else {
        match split_first(range, '-') {
            None => None,
            Some((first, last)) => if first.len() == 0 {
                match number_value(last, 10, u64::MAX as nat) {
                    Ok(count) => if count == 0 {
                        None
                    } else if count >= length {
                        Some((0, (length - 1) as u64))
                    } else {
                        Some(((length - count) as u64, (length - 1) as u64))
                    },
                    Err(_) => None,
                }
            } else {
                match number_value(first, 10, u64::MAX as nat) {
                    Ok(start) => match range_end(last, length) {
                        Some(end) => if start <= end {
                            Some((start as u64, end as u64))
                        } else {
                            None
                        },
                        None => None,
                    },
                    Err(_) => None,
                }
            },
        }
    }
}

/// The last byte that a range takes in: at most that of the file.
pub open spec fn range_end(last: Seq<char>, length: u64) -> Option<nat> {
    if last.len() == 0 {
        Some((length - 1) as nat)
    } else {
        match number_value(last, 10, u64::MAX as nat) {
            Ok(end) => if end < length {
                Some(end)
            } else {
                Some((length - 1) as nat)
            },
            Err(_) => None,
        }
    }
}

/// The first and the last byte that a range of a file of `length` bytes takes
/// in.
pub fn parse_byte_range(value: &str, length: u64) -> (range: Option<(u64, u64)>)
    ensures
        range == byte_range(value@, length),
        range matches Some((start, end)) ==> start <= end < length,
{
    proof {
        reveal_strlit("bytes=");
    }
    let chars = chars_of(value);
    let unit = chars_of("bytes=");
    if !begins_with(chars.as_slice(), unit.as_slice()) {
        return None;
    }
    let n = chars.len();
    let range = slice_subrange(chars.as_slice(), 6, n);
    assert(range@ =~= value@.skip(6));
    proof {
        crate::text::lemma_position(range@, ',');
    }
    if find(range, ',').is_some() {
        assert(range@[position(range@, ',') as int] == ',');
        return None;
    }
    assert(!range@.contains(','));
    if length == 0 {
        return None;
    }
    match split_once(range, '-') {
        None => None,
        Some((first, last)) => {
            if first.len() == 0 {
                return match parse_number(last, 10, u64::MAX) {
                    Ok(count) => {
                        if count == 0 {
                            None
                        } else if count >= length {
                            Some((0, length - 1))
                        } else {
                            Some((length - count, length - 1))
                        }
                    },
                    Err(_) => None,
                };
            }
            match parse_number(first, 10, u64::MAX) {
                Ok(start) => {
                    let end: u64 = if last.len() == 0 {
                        length - 1
                    } else {
                        match parse_number(last, 10, u64::MAX) {
                            Ok(end) => if end < length {
                                end
                            } else {
                                length - 1
                            },
                            Err(_) => {
                                return None;
                            },
                        }
                    };
                    if start <= end {
                        Some((start, end))
                    } else {
                        None
                    }
                },
                Err(_) => None,
            }
        },
    }
}

// ---------------------------------------------------------------------------
// Which file

/// What a path asks for, seen from the root.
pub open spec fn relative_path(path: Seq<char>) -> Seq<u8> {
    encode_utf8(without_leading(path, '/'))
}

/// What a path asks for below the root of a site. Nothing for a path with
/// components that do not name an entry of a directory.
pub fn static_target(site_directory: &FilePath, root: &str, path: &str) -> (target: Option<FilePath>)
    ensures
        match target {
            Some(file) => plain(relative_path(path@)) && file@ == joined(
                joined(site_directory@, encode_utf8(root@)),
                relative_path(path@),
            ),
            None => !plain(relative_path(path@)),
        },
{
    let chars = chars_of(path);
    let relative = string_of(trim_leading(chars.as_slice(), '/'));
    if !FilePath::from_text(relative.as_str()).is_plain() {
        return None;
    }
    Some(site_directory.join(root).join(relative.as_str()))
}

/// The first of the indexes that is a file.
pub open spec fn first_file(files: Seq<bool>) -> Option<int>
    decreases files.len(),
{
    if files.len() == 0 {
        None
    } else if files[0] {
        Some(0)
    } else {
        match first_file(files.drop_first()) {
            Some(i) => Some(i + 1),
            None => None,
        }
    }
}

proof fn lemma_first_file(files: Seq<bool>, at: int)
    requires
        0 <= at <= files.len(),
        forall|k: int| 0 <= k < at ==> !#[trigger] files[k],
    ensures
        first_file(files) == match first_file(files.skip(at)) {
            Some(i) => Some(i + at),
            None => None::<int>,
        },
    decreases at,
{
    if at == 0 {
        assert(files.skip(0) =~= files);
    } else {
        let rest = files.drop_first();
        assert(!files[0]);
        assert forall|k: int| 0 <= k < at - 1 implies !#[trigger] rest[k] by {
            assert(!files[k + 1]);
        }
        lemma_first_file(rest, at - 1);
        assert(rest.skip(at - 1) =~= files.skip(at));
    }
}

/// The index at a place in the list, seen from a directory.
pub fn index_path(directory: &FilePath, indexes: &Vec<String>, at: usize) -> (path: Option<FilePath>)
    ensures
        match path {
            Some(file) => at < indexes@.len() && file@ == joined(
                directory@,
                encode_utf8(indexes@[at as int]@),
            ),
            None => at >= indexes@.len(),
        },
{
    if at < indexes.len() {
        Some(directory.join(indexes[at].as_str()))
    } else {
        None
    }
}

/// The file that stands for a directory: the first of the indexes that is a
/// file, as `files` tells in the order of the indexes, and else the directory
/// itself.
pub fn choose_index(directory: FilePath, indexes: &Vec<String>, files: &Vec<bool>) -> (path: FilePath)
    requires
        files@.len() == indexes@.len(),
    ensures
        path@ == match first_file(files@) {
            Some(i) => joined(directory@, encode_utf8(indexes@[i]@)),
            None => directory@,
        },
        first_file(files@) matches Some(i) ==> 0 <= i < indexes@.len(),
        (forall|i: int| 0 <= i < files@.len() ==> !#[trigger] files@[i]) ==> path@ == directory@,
{
    proof {
        law_first_index(files@);
    }
    let mut i: usize = 0;
    while i < files.len()
        invariant
            i <= files@.len(),
            files@.len() == indexes@.len(),
            forall|k: int| 0 <= k < i ==> !#[trigger] files@[k],
        decreases files@.len() - i,
    {
        if files[i] {
            proof {
                lemma_first_file(files@, i as int);
                assert(files@.skip(i as int)[0]);
            }
            return directory.join(indexes[i].as_str());
        }
        i = i + 1;
    }
    proof {
        lemma_first_file(files@, i as int);
        assert(files@.skip(i as int).len() == 0);
    }
    directory
}

/// The reply to a path that cannot be looked up.
pub fn invalid_path() -> (reply: Reply)
    ensures
        reply.is_text(400, "invalid path\n"@),
{
    response(400, "invalid path\n")
}

/// The reply to a path at which there is no file.
pub fn not_found() -> (reply: Reply)
    ensures
        reply.is_text(404, "not found\n"@),
{
    response(404, "not found\n")
}

// ---------------------------------------------------------------------------
// Whether it is sent

/// What the disk tells of a file.
#[derive(Debug, PartialEq, Eq, Structural, Clone, Copy)]
pub struct FileFacts {
    /// How many bytes it has.
    pub length: u64,
    /// When it was modified, in nanoseconds since the epoch.
    pub modified: Option<i128>,
}

/// Nanoseconds in a second.
pub const NANOS: i128 = 1_000_000_000;

impl FileFacts {
    /// The time of the modification in the tag: none counts as the epoch, and so
    /// does one before it.
    pub open spec fn tag_time(self) -> nat {
        match self.modified {
            Some(time) => if time >= 0 {
                time as nat
            } else {
                0
            },
            None => 0,
        }
    }

    /// The tag of the file as it is now.
    pub open spec fn tag(self) -> Seq<char> {
        "\""@ + hex_text(self.length as nat) + "-"@ + hex_text(self.tag_time()) + "\""@
    }

    /// Whether a header field can tell when the file was modified.
    pub open spec fn datable(self) -> bool {
        self.modified matches Some(time) ==> 0 <= time < END_OF_DATES * NANOS
    }

    /// The second of the modification.
    pub open spec fn modified_second(self) -> u64 {
        (self.modified->Some_0 / NANOS) as u64
    }

    /// Whether a header field can tell when the file was modified.
    pub fn is_datable(&self) -> (yes: bool)
        ensures
            yes == self.datable(),
    {
        match self.modified {
            Some(time) => time >= 0 && time < END_OF_DATES as i128 * NANOS,
            None => true,
        }
    }

    /// The tag of the file as it is now.
    pub fn etag(&self) -> (text: String)
        ensures
            text@ == self.tag(),
    {
        let time: u128 = match self.modified {
            Some(time) => if time >= 0 {
                time as u128
            } else {
                0
            },
            None => 0,
        };
        let length_text = hex(self.length as u128);
        let time_text = hex(time);
        "\"".to_string().concat(length_text.as_str()).concat("-").concat(time_text.as_str()).concat(
            "\"",
        )
    }
}

/// Whether a list of tags has this one in it.
pub open spec fn lists_tag(text: Seq<char>, tag: Seq<char>) -> bool {
    exists|i: int|
        0 <= i < split_on(text, ',').len() && trimmed(#[trigger] split_on(text, ',')[i]) == tag
}

/// Whether a request names the tag of the file as it is now.
pub open spec fn knows_tag(fields: Seq<(Seq<char>, Seq<u8>)>, facts: FileFacts) -> bool {
    text_of(fields, "if-none-match"@) matches Some(text) && lists_tag(text, facts.tag())
}

/// Whether a request names a date no more than a second before the
/// modification.
pub open spec fn knows_date(fields: Seq<(Seq<char>, Seq<u8>)>, facts: FileFacts) -> bool {
    &&& facts.modified matches Some(time)
    &&& text_of(fields, "if-modified-since"@) matches Some(text)
    &&& http_date_seconds(text) matches Some(since)
    &&& time <= (since + 1) * NANOS
}

/// Whether a request has the file as it is now.
pub open spec fn not_modified(fields: Seq<(Seq<char>, Seq<u8>)>, facts: FileFacts) -> bool {
    knows_tag(fields, facts) || knows_date(fields, facts)
}

/// The part of a file that a reply holds.
#[derive(Debug, PartialEq, Eq, Structural, Clone, Copy)]
pub struct Part {
    /// The first byte.
    pub start: u64,
    /// The last byte.
    pub end: u64,
    /// Whether a range was asked for.
    pub partial: bool,
}

impl Part {
    /// How many bytes the part has.
    pub open spec fn length(self, facts: FileFacts) -> nat {
        if facts.length == 0 {
            0
        } else {
            (self.end - self.start + 1) as nat
        }
    }

    /// Whether this is a part of the file.
    pub open spec fn fits(self, facts: FileFacts) -> bool {
        if facts.length == 0 {
            self.start == 0 && self.end == 0 && !self.partial
        } else {
            self.start <= self.end < facts.length
        }
    }
}

/// The part of a file that a request asks for, or nothing where it asks for one
/// that the file does not have.
pub open spec fn requested_part(fields: Seq<(Seq<char>, Seq<u8>)>, facts: FileFacts) -> Option<Part> {
    match text_of(fields, "range"@) {
        Some(value) => match byte_range(value, facts.length) {
            Some((start, end)) => Some(Part { start, end, partial: true }),
            None => None,
        },
        None => Some(
            Part {
                start: 0,
                end: if facts.length == 0 {
                    0
                } else {
                    (facts.length - 1) as u64
                },
                partial: false,
            },
        ),
    }
}

/// What is done with a file that was found.
#[derive(Debug)]
pub enum FileStep {
    /// It is not sent.
    Answer(Reply),
    /// A part of it is sent.
    Send(Part),
}

/// The fields of the reply to a request that has the file as it is now.
pub open spec fn not_modified_fields(facts: FileFacts) -> Seq<(Seq<char>, Seq<u8>)> {
    seq![("etag"@, encode_utf8(facts.tag()))]
}

/// The fields of the reply to a request for a part that the file does not have.
pub open spec fn unsatisfiable_fields(facts: FileFacts) -> Seq<(Seq<char>, Seq<u8>)> {
    seq![("content-range"@, encode_utf8("bytes */"@ + decimal_text(facts.length as nat)))]
}

/// What is done with a file that was found.
pub open spec fn file_step(fields: Seq<(Seq<char>, Seq<u8>)>, facts: FileFacts, step: FileStep) -> bool {
    if not_modified(fields, facts) {
        step matches FileStep::Answer(reply) && reply.is_made_of(
            304,
            not_modified_fields(facts),
            Seq::empty(),
        )
    } else {
        match requested_part(fields, facts) {
            Some(part) => step == FileStep::Send(part),
            None => step matches FileStep::Answer(reply) && reply.is_made_of(
                416,
                unsatisfiable_fields(facts),
                Seq::empty(),
            ),
        }
    }
}

proof fn lemma_field_names()
    ensures
        field_name("if-none-match"@),
        crate::text::lower("if-none-match"@) == "if-none-match"@,
        field_name("if-modified-since"@),
        crate::text::lower("if-modified-since"@) == "if-modified-since"@,
        field_name("range"@),
        crate::text::lower("range"@) == "range"@,
        field_name("etag"@),
        crate::text::lower("etag"@) == "etag"@,
        field_name("content-range"@),
        crate::text::lower("content-range"@) == "content-range"@,
        field_name("content-type"@),
        crate::text::lower("content-type"@) == "content-type"@,
        field_name("content-length"@),
        crate::text::lower("content-length"@) == "content-length"@,
        field_name("accept-ranges"@),
        crate::text::lower("accept-ranges"@) == "accept-ranges"@,
        field_name("last-modified"@),
        crate::text::lower("last-modified"@) == "last-modified"@,
{
    reveal_strlit("if-none-match");
    reveal_strlit("if-modified-since");
    reveal_strlit("range");
    reveal_strlit("etag");
    reveal_strlit("content-range");
    reveal_strlit("content-type");
    reveal_strlit("content-length");
    reveal_strlit("accept-ranges");
    reveal_strlit("last-modified");
    assert(crate::text::lower("if-none-match"@) =~= "if-none-match"@);
    assert(crate::text::lower("if-modified-since"@) =~= "if-modified-since"@);
    assert(crate::text::lower("range"@) =~= "range"@);
    assert(crate::text::lower("etag"@) =~= "etag"@);
    assert(crate::text::lower("content-range"@) =~= "content-range"@);
    assert(crate::text::lower("content-type"@) =~= "content-type"@);
    assert(crate::text::lower("content-length"@) =~= "content-length"@);
    assert(crate::text::lower("accept-ranges"@) =~= "accept-ranges"@);
    assert(crate::text::lower("last-modified"@) =~= "last-modified"@);
}

proof fn lemma_concat_visible(a: Seq<char>, b: Seq<char>)
    requires
        visible_chars(a),
        visible_chars(b),
    ensures
        visible_chars(a + b),
{
    assert forall|i: int| 0 <= i < (a + b).len() implies ' ' <= #[trigger] (a + b)[i] <= '~' by {
        if i < a.len() {
            assert((a + b)[i] == a[i]);
        } else {
            assert((a + b)[i] == b[i - a.len()]);
        }
    }
}

proof fn lemma_number_visible(n: nat, radix: nat)
    requires
        radix == 10 || radix == 16,
    ensures
        visible_chars(crate::number::digits(n, radix)),
{
    lemma_digits_look(n, radix);
}

proof fn lemma_tag_visible(facts: FileFacts)
    ensures
        visible_chars(facts.tag()),
{
    reveal_strlit("\"");
    reveal_strlit("-");
    let length = hex_text(facts.length as nat);
    let time = hex_text(facts.tag_time());
    lemma_number_visible(facts.length as nat, 16);
    lemma_number_visible(facts.tag_time(), 16);
    lemma_concat_visible("\""@, length);
    lemma_concat_visible("\""@ + length, "-"@);
    lemma_concat_visible("\""@ + length + "-"@, time);
    lemma_concat_visible("\""@ + length + "-"@ + time, "\""@);
}

proof fn lemma_range_visible(start: nat, end: nat, length: nat)
    ensures
        visible_chars("bytes */"@ + decimal_text(length)),
        visible_chars(range_text(start, end, length)),
{
    reveal_strlit("bytes */");
    reveal_strlit("bytes ");
    reveal_strlit("-");
    reveal_strlit("/");
    lemma_number_visible(start, 10);
    lemma_number_visible(end, 10);
    lemma_number_visible(length, 10);
    lemma_concat_visible("bytes */"@, decimal_text(length));
    let a = "bytes "@ + decimal_text(start);
    let b = a + "-"@;
    let c = b + decimal_text(end);
    let d = c + "/"@;
    lemma_concat_visible("bytes "@, decimal_text(start));
    lemma_concat_visible(a, "-"@);
    lemma_concat_visible(b, decimal_text(end));
    lemma_concat_visible(c, "/"@);
    lemma_concat_visible(d, decimal_text(length));
}

/// Adds a field to those that are there.
fn add_field(headers: &mut HeaderMap, name: &str, value: &str)
    requires
        field_name(name@),
        crate::text::lower(name@) == name@,
        field_value(value@),
        header_fields(*old(headers)).len() < 10,
    ensures
        header_fields(*final(headers)).len() == header_fields(*old(headers)).len() + 1,
        same_fields(
            header_fields(*final(headers)),
            header_fields(*old(headers)).push((name@, encode_utf8(value@))),
        ),
{
    let ghost before = header_fields(*headers);
    header_append(headers, name, value);
    proof {
        let more = before.push((name@, encode_utf8(value@)));
        assert(more.drop_last() =~= before);
    }
}

proof fn lemma_same_fields_push(
    a: Seq<(Seq<char>, Seq<u8>)>,
    b: Seq<(Seq<char>, Seq<u8>)>,
    field: (Seq<char>, Seq<u8>),
)
    requires
        same_fields(a, b),
    ensures
        same_fields(a.push(field), b.push(field)),
{
    assert(a.push(field).drop_last() =~= a);
    assert(b.push(field).drop_last() =~= b);
    assert forall|name: Seq<char>| #[trigger]
        values_of(a.push(field), name) == values_of(b.push(field), name) by {
        assert(values_of(a, name) == values_of(b, name));
    }
}

fn one_field_reply(status: u16, name: &str, value: &str) -> (reply: Reply)
    requires
        field_name(name@),
        crate::text::lower(name@) == name@,
        field_value(value@),
    ensures
        reply.is_made_of(
            status as nat,
            seq![(name@, encode_utf8(value@))],
            Seq::empty(),
        ),
{
    let mut headers = new_headers();
    let ghost empty = header_fields(headers);
    add_field(&mut headers, name, value);
    assert(empty.push((name@, encode_utf8(value@))) =~= seq![(name@, encode_utf8(value@))]);
    Reply { status, headers, body: ReplyBody::Bytes(Vec::new()) }
}

fn has_tag(text: &str, tag: &str) -> (yes: bool)
    ensures
        yes == lists_tag(text@, tag@),
{
    let chars = chars_of(text);
    let wanted = chars_of(tag);
    let listed = split(chars.as_slice(), ',');
    let mut i: usize = 0;
    while i < listed.len()
        invariant
            i <= listed@.len(),
            views_of(listed@) == split_on(text@, ','),
            wanted@ == tag@,
            forall|k: int| 0 <= k < i ==> trimmed(#[trigger] split_on(text@, ',')[k]) != tag@,
        decreases listed@.len() - i,
    {
        assert(views_of(listed@)[i as int] == listed@[i as int]@);
        if same_chars(trim(listed[i].as_slice()), wanted.as_slice()) {
            assert(trimmed(split_on(text@, ',')[i as int]) == tag@);
            return true;
        }
        i = i + 1;
    }
    false
}

/// What is done with a file that was found: a request that has it as it is now,
/// or that asks for a part that it does not have, is answered without it.
pub fn decide_file(request: &RequestHead, facts: &FileFacts) -> (step: FileStep)
    ensures
        file_step(header_fields(request.headers), *facts, step),
{
    let ghost fields = header_fields(request.headers);
    proof {
        lemma_field_names();
        lemma_tag_visible(*facts);
        lemma_visible_text(facts.tag());
        lemma_range_visible(0, 0, facts.length as nat);
        lemma_visible_text("bytes */"@ + decimal_text(facts.length as nat));
    }
    let tag = facts.etag();
    if let Some(text) = header_text(&request.headers, "if-none-match") {
        if has_tag(text.as_str(), tag.as_str()) {
            return FileStep::Answer(one_field_reply(304, "etag", tag.as_str()));
        }
    }
    assert(!knows_tag(fields, *facts));
    if let Some(time) = facts.modified {
        if let Some(text) = header_text(&request.headers, "if-modified-since") {
            if let Some(since) = parse_http_date(text.as_str()) {
                if time <= (since as i128 + 1) * NANOS {
                    return FileStep::Answer(one_field_reply(304, "etag", tag.as_str()));
                }
            }
        }
    }
    assert(!knows_date(fields, *facts));
    match header_text(&request.headers, "range") {
        Some(value) => match parse_byte_range(value.as_str(), facts.length) {
            Some((start, end)) => FileStep::Send(Part { start, end, partial: true }),
            None => {
                let length = decimal(facts.length);
                let range = "bytes */".to_string().concat(length.as_str());
                FileStep::Answer(one_field_reply(416, "content-range", range.as_str()))
            },
        },
        None => {
            let end: u64 = if facts.length == 0 {
                0
            } else {
                facts.length - 1
            };
            FileStep::Send(Part { start: 0, end, partial: false })
        },
    }
}

// ---------------------------------------------------------------------------
// The reply with the file

/// How a field tells which part of a file a reply holds.
pub open spec fn range_text(start: nat, end: nat, length: nat) -> Seq<char> {
    "bytes "@ + decimal_text(start) + "-"@ + decimal_text(end) + "/"@ + decimal_text(length)
}

/// The fields that every reply with a part of a file has.
pub open spec fn common_fields(path: Seq<u8>, facts: FileFacts, part: Part) -> Seq<
    (Seq<char>, Seq<u8>),
> {
    seq![
        ("content-type"@, encode_utf8(media_type(lossy_text(path)))),
        ("content-length"@, encode_utf8(decimal_text(part.length(facts)))),
        ("accept-ranges"@, encode_utf8("bytes"@)),
        ("etag"@, encode_utf8(facts.tag())),
    ]
}

/// The field with the date of the modification.
pub open spec fn date_fields(facts: FileFacts) -> Seq<(Seq<char>, Seq<u8>)> {
    if facts.modified is Some {
        seq![("last-modified"@, encode_utf8(http_date_text(facts.modified_second())))]
    } else {
        Seq::empty()
    }
}

/// The field with the part of the file.
pub open spec fn range_fields(facts: FileFacts, part: Part) -> Seq<(Seq<char>, Seq<u8>)> {
    if part.partial {
        seq![
            (
                "content-range"@,
                encode_utf8(range_text(part.start as nat, part.end as nat, facts.length as nat)),
            ),
        ]
    } else {
        Seq::empty()
    }
}

/// The fields of a reply with a part of a file.
pub open spec fn file_fields(path: Seq<u8>, facts: FileFacts, part: Part) -> Seq<
    (Seq<char>, Seq<u8>),
> {
    common_fields(path, facts, part) + date_fields(facts) + range_fields(facts, part)
}

/// Whether the date of a file reads back from the field that tells it.
pub open spec fn date_reads_back(facts: FileFacts) -> bool {
    facts.modified is Some ==> {
        let text = http_date_text(facts.modified_second());
        value_text(encode_utf8(text)) == Some(text) && http_date_seconds(text) == Some(
            facts.modified_second(),
        )
    }
}

/// Whether `reply` is the one with a part of the file at `path`. A request for
/// the head alone gets the same fields and no body.
pub open spec fn is_file_reply(
    method: Seq<char>,
    path: FilePath,
    facts: FileFacts,
    part: Part,
    reply: Reply,
) -> bool {
    &&& reply.has(
        if part.partial {
            206
        } else {
            200
        },
        file_fields(path@, facts, part),
    )
    &&& if method == "HEAD"@ {
        reply.body.holds(Seq::empty())
    } else {
        reply.body == (ReplyBody::File {
            path,
            start: part.start,
            length: part.length(facts) as u64,
        })
    }
}

/// The reply with a part of the file at `path`. A request for the head alone
/// gets the same fields and no body.
pub fn file_reply(request: &RequestHead, path: FilePath, facts: &FileFacts, part: Part) -> (reply:
    Reply)
    requires
        facts.datable(),
        part.fits(*facts),
    ensures
        is_file_reply(request.method@, path, *facts, part, reply),
        date_reads_back(*facts),
        value_text(encode_utf8(media_type(lossy_text(path@)))) == Some(
            media_type(lossy_text(path@)),
        ),
        !lossy_text(path@).contains('.') ==> media_type(lossy_text(path@))
            == "application/octet-stream"@,
{
    proof {
        lemma_field_names();
        reveal_strlit("bytes");
        lemma_visible_text("bytes"@);
        lemma_tag_visible(*facts);
        lemma_visible_text(facts.tag());
        lemma_number_visible(part.length(*facts), 10);
        lemma_visible_text(decimal_text(part.length(*facts)));
        lemma_range_visible(part.start as nat, part.end as nat, facts.length as nat);
        lemma_visible_text(
            range_text(part.start as nat, part.end as nat, facts.length as nat),
        );
    }
    let shown = path.to_text();
    let content_type = guess_media_type(shown.as_str());
    proof {
        lemma_visible_text(content_type@);
    }
    let length: u64 = if facts.length == 0 {
        0
    } else {
        part.end - part.start + 1
    };
    let length_text = decimal(length);
    let tag = facts.etag();
    let mut headers = new_headers();
    let ghost mut fields: Seq<(Seq<char>, Seq<u8>)> = Seq::empty();
    let ghost mut before = header_fields(headers);
    add_field(&mut headers, "content-type", content_type.as_str());
    proof {
        let field = ("content-type"@, encode_utf8(content_type@));
        lemma_same_fields_push(before, fields, field);
        fields = fields.push(field);
        before = header_fields(headers);
    }
    add_field(&mut headers, "content-length", length_text.as_str());
    proof {
        let field = ("content-length"@, encode_utf8(length_text@));
        lemma_same_fields_push(before, fields, field);
        fields = fields.push(field);
        before = header_fields(headers);
    }
    add_field(&mut headers, "accept-ranges", "bytes");
    proof {
        let field = ("accept-ranges"@, encode_utf8("bytes"@));
        lemma_same_fields_push(before, fields, field);
        fields = fields.push(field);
        before = header_fields(headers);
    }
    add_field(&mut headers, "etag", tag.as_str());
    proof {
        let field = ("etag"@, encode_utf8(tag@));
        lemma_same_fields_push(before, fields, field);
        fields = fields.push(field);
        before = header_fields(headers);
        assert(fields =~= common_fields(path@, *facts, part));
    }
    if let Some(time) = facts.modified {
        let second = (time / NANOS) as u64;
        assert(second == facts.modified_second() && second < END_OF_DATES);
        let date = fmt_http_date(second);
        proof {
            lemma_visible_text(date@);
        }
        add_field(&mut headers, "last-modified", date.as_str());
        proof {
            let field = ("last-modified"@, encode_utf8(date@));
            lemma_same_fields_push(before, fields, field);
            fields = fields.push(field);
            before = header_fields(headers);
        }
    }
    assert(fields =~= common_fields(path@, *facts, part) + date_fields(*facts));
    if part.partial {
        let start_text = decimal(part.start);
        let end_text = decimal(part.end);
        let total_text = decimal(facts.length);
        let range = "bytes ".to_string().concat(start_text.as_str()).concat("-").concat(
            end_text.as_str(),
        ).concat("/").concat(total_text.as_str());
        add_field(&mut headers, "content-range", range.as_str());
        proof {
            let field = ("content-range"@, encode_utf8(range@));
            lemma_same_fields_push(before, fields, field);
            fields = fields.push(field);
        }
    }
    assert(fields =~= file_fields(path@, *facts, part));
    let status: u16 = if part.partial {
        206
    } else {
        200
    };
    let body = if same_text(request.method.as_str(), "HEAD") {
        ReplyBody::Bytes(Vec::new())
    } else {
        ReplyBody::File { path, start: part.start, length }
    };
    Reply { status, headers, body }
}

// ---------------------------------------------------------------------------
// Laws

/// What a path asks for lies below the root.
pub proof fn law_target_is_below_root(root: Seq<u8>, path: Seq<char>)
    requires
        plain(relative_path(path)),
    ensures
        within(joined(root, relative_path(path)), root),
{
    lemma_trimmed_is_relative(path);
    law_join_stays_within(root, relative_path(path));
}

/// A range takes in at least one byte, and only bytes that the file has.
pub proof fn law_range_is_inside(value: Seq<char>, length: u64)
    ensures
        byte_range(value, length) matches Some((start, end)) ==> start <= end < length,
{
}

/// More than one range is never taken.
pub proof fn law_one_range_only(value: Seq<char>, length: u64)
    requires
        value.contains(','),
    ensures
        byte_range(value, length) is None,
{
    reveal_strlit("bytes=");
    let at = choose|k: int| 0 <= k < value.len() && value[k] == ',';
    if "bytes="@.is_prefix_of(value) {
        assert(value[0] == "bytes="@[0] && value[1] == "bytes="@[1] && value[2] == "bytes="@[2]
            && value[3] == "bytes="@[3] && value[4] == "bytes="@[4] && value[5] == "bytes="@[5]);
        assert(at >= 6);
        assert(value.skip(6)[at - 6] == ',');
    }
}

/// The part that a request asks for is a part of the file, and the whole file
/// where it asks for none.
pub proof fn law_requested_part_fits(fields: Seq<(Seq<char>, Seq<u8>)>, facts: FileFacts)
    ensures
        requested_part(fields, facts) matches Some(part) ==> part.fits(facts) && part.length(facts)
            <= facts.length,
        text_of(fields, "range"@) is None ==> (requested_part(fields, facts) matches Some(part)
            && part.start == 0 && part.length(facts) == facts.length),
{
}

proof fn lemma_tag_is_one_piece(facts: FileFacts)
    ensures
        forall|i: int| 0 <= i < facts.tag().len() ==> #[trigger] facts.tag()[i] != ',',
        trimmed(facts.tag()) == facts.tag(),
{
    let tag = facts.tag();
    reveal_strlit("\"");
    reveal_strlit("-");
    let a = "\""@;
    let b = hex_text(facts.length as nat);
    let c = "-"@;
    let d = hex_text(facts.tag_time());
    lemma_digits_look(facts.length as nat, 16);
    lemma_digits_look(facts.tag_time(), 16);
    assert(tag == a + b + c + d + a);
    assert forall|i: int| 0 <= i < tag.len() implies #[trigger] tag[i] != ',' by {
        if i < a.len() {
            assert(tag[i] == a[i]);
        } else if i < a.len() + b.len() {
            assert(tag[i] == b[i - a.len()]);
        } else if i < a.len() + b.len() + c.len() {
            assert(tag[i] == c[i - a.len() - b.len()]);
        } else if i < a.len() + b.len() + c.len() + d.len() {
            assert(tag[i] == d[i - a.len() - b.len() - c.len()]);
        } else {
            assert(tag[i] == a[0]);
        }
    }
    assert(tag[0] == '"' && tag.last() == '"');
}

/// A request that names the tag of a reply, alone or anywhere in a list with
/// commas, is told that the file is as it was, as long as it is. There may be
/// white space around the tag. The tag can be named: it is text, and no comma
/// stands in it.
pub proof fn law_own_tag_is_known(
    fields: Seq<(Seq<char>, Seq<u8>)>,
    facts: FileFacts,
    pieces: Seq<Seq<char>>,
    at: int,
)
    requires
        text_of(fields, "if-none-match"@) == Some(listed(pieces, ',')),
        0 <= at < pieces.len(),
        trimmed(pieces[at]) == facts.tag(),
        forall|i: int, k: int|
            0 <= i < pieces.len() && 0 <= k < pieces[i].len() ==> #[trigger] pieces[i][k] != ',',
    ensures
        not_modified(fields, facts),
        value_text(encode_utf8(facts.tag())) == Some(facts.tag()),
        trimmed(facts.tag()) == facts.tag(),
        forall|i: int| 0 <= i < facts.tag().len() ==> #[trigger] facts.tag()[i] != ',',
{
    lemma_tag_is_one_piece(facts);
    lemma_tag_visible(facts);
    lemma_visible_text(facts.tag());
    lemma_split_listed(pieces, ',');
    assert(trimmed(split_on(listed(pieces, ','), ',')[at]) == facts.tag());
}

/// The tag alone is such a list.
pub proof fn law_own_tag_alone_is_known(fields: Seq<(Seq<char>, Seq<u8>)>, facts: FileFacts)
    requires
        text_of(fields, "if-none-match"@) == Some(facts.tag()),
    ensures
        not_modified(fields, facts),
{
    lemma_tag_is_one_piece(facts);
    let pieces = seq![facts.tag()];
    assert(listed(pieces, ',') == facts.tag());
    law_own_tag_is_known(fields, facts, pieces, 0);
}

/// A request that names the date of a reply is told that the file is as it was,
/// as long as it is.
pub proof fn law_own_date_is_known(fields: Seq<(Seq<char>, Seq<u8>)>, facts: FileFacts)
    requires
        facts.modified is Some,
        facts.datable(),
    ensures
        date_reads_back(facts) && text_of(fields, "if-modified-since"@) == Some(
            http_date_text(facts.modified_second()),
        ) ==> not_modified(fields, facts),
{
}

proof fn lemma_only_value(
    before: Seq<(Seq<char>, Seq<u8>)>,
    field: (Seq<char>, Seq<u8>),
    after: Seq<(Seq<char>, Seq<u8>)>,
)
    requires
        forall|i: int| 0 <= i < before.len() ==> (#[trigger] before[i]).0 != field.0,
        forall|i: int| 0 <= i < after.len() ==> (#[trigger] after[i]).0 != field.0,
    ensures
        values_of(before.push(field) + after, field.0) == seq![field.1],
    decreases before.len() + after.len(),
{
    let whole = before.push(field) + after;
    if after.len() > 0 {
        let less = after.drop_last();
        assert forall|i: int| 0 <= i < less.len() implies (#[trigger] less[i]).0 != field.0 by {
            assert(less[i] == after[i]);
        }
        lemma_only_value(before, field, less);
        assert(whole.drop_last() =~= before.push(field) + less);
        assert(whole.last() == after[after.len() - 1]);
    } else {
        assert(whole.drop_last() =~= before);
        lemma_no_value(before, field.0);
        assert(values_of(whole, field.0) =~= seq![field.1]);
    }
}

proof fn lemma_no_value(fields: Seq<(Seq<char>, Seq<u8>)>, name: Seq<char>)
    requires
        forall|i: int| 0 <= i < fields.len() ==> (#[trigger] fields[i]).0 != name,
    ensures
        values_of(fields, name) == Seq::<Seq<u8>>::empty(),
    decreases fields.len(),
{
    if fields.len() > 0 {
        let less = fields.drop_last();
        assert forall|i: int| 0 <= i < less.len() implies (#[trigger] less[i]).0 != name by {
            assert(less[i] == fields[i]);
        }
        lemma_no_value(less, name);
        assert(fields.last() == fields[fields.len() - 1]);
    }
}

proof fn lemma_names_differ()
    ensures
        "content-length"@ != "content-type"@,
        "content-length"@ != "accept-ranges"@,
        "content-length"@ != "etag"@,
        "content-length"@ != "last-modified"@,
        "content-length"@ != "content-range"@,
        "accept-ranges"@ != "content-type"@,
        "accept-ranges"@ != "etag"@,
        "accept-ranges"@ != "last-modified"@,
        "accept-ranges"@ != "content-range"@,
{
    reveal_strlit("content-type");
    reveal_strlit("content-length");
    reveal_strlit("accept-ranges");
    reveal_strlit("etag");
    reveal_strlit("last-modified");
    reveal_strlit("content-range");
    assert("content-length"@[8] == 'l' && "content-type"@[8] == 't');
    assert("content-length"@[0] != "accept-ranges"@[0]);
    assert("accept-ranges"@[0] != "content-type"@[0]);
    assert("accept-ranges"@.len() == 13 && "last-modified"@.len() == 13);
    assert("accept-ranges"@[0] != "last-modified"@[0]);
    assert("accept-ranges"@[0] != "content-range"@[0]);
}

proof fn lemma_length_and_ranges(path: Seq<u8>, facts: FileFacts, part: Part)
    ensures
        values_of(file_fields(path, facts, part), "content-length"@) == seq![
            encode_utf8(decimal_text(part.length(facts))),
        ],
        values_of(file_fields(path, facts, part), "accept-ranges"@) == seq![encode_utf8("bytes"@)],
{
    let all = file_fields(path, facts, part);
    lemma_names_differ();
    assert(all =~= all.take(1).push(all[1]) + all.skip(2));
    lemma_only_value(all.take(1), all[1], all.skip(2));
    assert(all =~= all.take(2).push(all[2]) + all.skip(3));
    lemma_only_value(all.take(2), all[2], all.skip(3));
}

/// A request without conditions and ranges gets the whole file. Asked for the
/// head alone, it gets the same status and the same fields, and no body.
pub proof fn law_head_is_get_without_body(
    fields: Seq<(Seq<char>, Seq<u8>)>,
    facts: FileFacts,
    step: FileStep,
    path: FilePath,
    method: Seq<char>,
    get: Reply,
    head: Reply,
)
    requires
        text_of(fields, "if-none-match"@) is None,
        text_of(fields, "if-modified-since"@) is None,
        text_of(fields, "range"@) is None,
        file_step(fields, facts, step),
        method != "HEAD"@,
        step matches FileStep::Send(part) ==> is_file_reply(method, path, facts, part, get)
            && is_file_reply("HEAD"@, path, facts, part, head),
    ensures
        step is Send,
        get.status == 200,
        get.body == (ReplyBody::File { path, start: 0, length: facts.length }),
        values_of(header_fields(get.headers), "content-length"@) == seq![
            encode_utf8(decimal_text(facts.length as nat)),
        ],
        values_of(header_fields(get.headers), "accept-ranges"@) == seq![encode_utf8("bytes"@)],
        head.status == get.status,
        same_fields(header_fields(head.headers), header_fields(get.headers)),
        head.body.holds(Seq::empty()),
{
    let part = requested_part(fields, facts)->Some_0;
    assert(step == FileStep::Send(part));
    lemma_length_and_ranges(path@, facts, part);
    assert(part.length(facts) == facts.length);
    assert forall|name: Seq<char>| #[trigger]
        values_of(header_fields(head.headers), name) == values_of(
            header_fields(get.headers),
            name,
        ) by {
        let expected = file_fields(path@, facts, part);
        assert(values_of(header_fields(get.headers), name) == values_of(expected, name));
    }
}

/// The text of a range from one byte to another, either of which may be left out.
pub open spec fn range_request(first: Seq<char>, last: Seq<char>) -> Seq<char> {
    "bytes="@ + first.push('-') + last
}

proof fn lemma_numeral_look(text: Seq<char>, k: int)
    requires
        all_digits(unsigned(text)),
        0 <= k < text.len(),
    ensures
        '0' <= text[k] <= '9' || text[k] == '+',
{
    if text[0] == '+' {
        if k > 0 {
            assert(unsigned(text)[k - 1] == text[k]);
        }
    } else {
        assert(unsigned(text)[k] == text[k]);
    }
}

proof fn lemma_range_request(first: Seq<char>, last: Seq<char>)
    requires
        first.len() == 0 || all_digits(unsigned(first)),
        last.len() == 0 || all_digits(unsigned(last)),
    ensures
        "bytes="@.is_prefix_of(range_request(first, last)),
        !range_request(first, last).skip(6).contains(','),
        split_first(range_request(first, last).skip(6), '-') == Some((first, last)),
{
    reveal_strlit("bytes=");
    let value = range_request(first, last);
    let range = value.skip(6);
    assert("bytes="@ =~= value.subrange(0, 6));
    assert(range =~= first.push('-') + last);
    assert forall|k: int| 0 <= k < first.len() implies #[trigger] first[k] != '-' && first[k]
        != ',' by {
        lemma_numeral_look(first, k);
    }
    law_parted_at_first(first, last, '-');
    assert forall|k: int| 0 <= k < range.len() implies range[k] != ',' by {
        if k < first.len() {
            assert(range[k] == first[k]);
        } else if k > first.len() {
            assert(range[k] == last[k - first.len() - 1]);
            lemma_numeral_look(last, k - first.len() - 1);
        }
    }
}

/// A range from one byte to another begins at the one, and ends at the other or
/// at the last byte of the file, whichever comes first. One that begins behind
/// its end or behind that of the file is not served, nor one whose end is no
/// 64-bit number.
pub proof fn law_closed_range(first: Seq<char>, last: Seq<char>, length: u64)
    requires
        all_digits(unsigned(first)),
        all_digits(unsigned(last)),
    ensures
        worth(unsigned(first), 10) < length && worth(unsigned(first), 10) <= worth(unsigned(last), 10) && worth(unsigned(last), 10)
            < length ==> byte_range(range_request(first, last), length) == Some(
            (worth(unsigned(first), 10) as u64, worth(unsigned(last), 10) as u64),
        ),
        worth(unsigned(first), 10) < length <= worth(unsigned(last), 10) <= u64::MAX ==> byte_range(
            range_request(first, last),
            length,
        ) == Some((worth(unsigned(first), 10) as u64, (length - 1) as u64)),
        worth(unsigned(first), 10) >= length || worth(unsigned(first), 10) > worth(unsigned(last), 10) || worth(unsigned(last), 10)
            > u64::MAX ==> byte_range(range_request(first, last), length) is None,
{
    lemma_range_request(first, last);
    law_numeral_is_read(first, u64::MAX as nat);
    law_numeral_is_read(last, u64::MAX as nat);
}

/// A range with no end goes on to the last byte of the file. One that begins
/// behind it is not served.
pub proof fn law_open_range(first: Seq<char>, length: u64)
    requires
        all_digits(unsigned(first)),
    ensures
        worth(unsigned(first), 10) < length ==> byte_range(range_request(first, Seq::empty()), length)
            == Some((worth(unsigned(first), 10) as u64, (length - 1) as u64)),
        worth(unsigned(first), 10) >= length ==> byte_range(range_request(first, Seq::empty()), length)
            is None,
{
    lemma_range_request(first, Seq::empty());
    law_numeral_is_read(first, u64::MAX as nat);
}

/// A range with no beginning asks for so many bytes at the end of the file, or
/// for the whole file where it has no more. One that asks for no byte, or for
/// some of an empty file, is not served.
pub proof fn law_suffix_range(last: Seq<char>, length: u64)
    requires
        all_digits(unsigned(last)),
    ensures
        0 < worth(unsigned(last), 10) < length ==> byte_range(range_request(Seq::empty(), last), length)
            == Some(((length - worth(unsigned(last), 10)) as u64, (length - 1) as u64)),
        0 < length <= worth(unsigned(last), 10) <= u64::MAX ==> byte_range(
            range_request(Seq::empty(), last),
            length,
        ) == Some((0u64, (length - 1) as u64)),
        worth(unsigned(last), 10) == 0 || worth(unsigned(last), 10) > u64::MAX || length == 0 ==> byte_range(
            range_request(Seq::empty(), last),
            length,
        ) is None,
{
    lemma_range_request(Seq::empty(), last);
    law_numeral_is_read(last, u64::MAX as nat);
}

/// Numbers written in decimal are taken as they are: from `a` to the end of the
/// file, from `a` to `b`, and the last `b` bytes.
pub proof fn law_written_ranges(a: u64, b: u64, length: u64)
    ensures
        a < length ==> byte_range("bytes="@ + decimal_text(a as nat) + "-"@, length) == Some(
            (a, (length - 1) as u64),
        ),
        a <= b && a < length ==> byte_range(
            "bytes="@ + decimal_text(a as nat) + "-"@ + decimal_text(b as nat),
            length,
        ) == Some(
            (
                a,
                if b < length {
                    b
                } else {
                    (length - 1) as u64
                },
            ),
        ),
        b > 0 && length > 0 ==> byte_range("bytes=-"@ + decimal_text(b as nat), length) == Some(
            (
                if b < length {
                    (length - b) as u64
                } else {
                    0
                },
                (length - 1) as u64,
            ),
        ),
{
    reveal_strlit("bytes=");
    reveal_strlit("bytes=-");
    reveal_strlit("-");
    let first = decimal_text(a as nat);
    let last = decimal_text(b as nat);
    let none = Seq::<char>::empty();
    law_number_is_written(a as nat, 10);
    law_number_is_written(b as nat, 10);
    assert('0' <= first[0] <= '9' && '0' <= last[0] <= '9') by {
        assert(number_char(first[0], 10));
        assert(number_char(last[0], 10));
    }
    law_open_range(first, length);
    law_closed_range(first, last, length);
    law_suffix_range(last, length);
    assert("bytes="@ + first + "-"@ =~= range_request(first, none));
    assert("bytes="@ + first + "-"@ + last =~= range_request(first, last));
    assert("bytes=-"@ + last =~= range_request(none, last));
}

/// Only a text of that form is served: one range, of numbers that fit.
pub proof fn law_only_ranges_are_served(value: Seq<char>, length: u64)
    requires
        byte_range(value, length) is Some,
    ensures
        exists|first: Seq<char>, last: Seq<char>|
            {
                &&& value == #[trigger] range_request(first, last)
                &&& first.len() > 0 || last.len() > 0
                &&& first.len() == 0 || number_value(first, 10, u64::MAX as nat) is Ok
                &&& last.len() == 0 || number_value(last, 10, u64::MAX as nat) is Ok
            },
        length > 0,
{
    reveal_strlit("bytes=");
    let range = value.skip(6);
    let (first, last) = split_first(range, '-')->Some_0;
    lemma_position(range, '-');
    assert(first.push('-') + last =~= range);
    assert("bytes="@ =~= value.subrange(0, 6));
    assert(value =~= range_request(first, last));
}

/// What a path asks for is what stands behind the slashes in front of it.
pub proof fn law_slashes_in_front(slashes: nat, relative: Seq<char>)
    requires
        relative.len() > 0 ==> relative[0] != '/',
    ensures
        relative_path(Seq::new(slashes, |i: int| '/') + relative) == encode_utf8(relative),
{
    law_marks_are_taken_off(relative, slashes, '/');
}

/// The first index that is a file stands for a directory, and none does where no
/// index is.
pub proof fn law_first_index(files: Seq<bool>)
    ensures
        match first_file(files) {
            Some(at) => 0 <= at < files.len() && files[at] && forall|k: int|
                0 <= k < at ==> !#[trigger] files[k],
            None => forall|k: int| 0 <= k < files.len() ==> !#[trigger] files[k],
        },
    decreases files.len(),
{
    if files.len() > 0 && !files[0] {
        let rest = files.drop_first();
        law_first_index(rest);
        match first_file(rest) {
            Some(at) => {
                assert(rest[at] == files[at + 1]);
                assert forall|k: int| 0 <= k < at + 1 implies !#[trigger] files[k] by {
                    if k > 0 {
                        assert(!rest[k - 1]);
                    }
                }
            },
            None => {
                assert forall|k: int| 0 <= k < files.len() implies !#[trigger] files[k] by {
                    if k > 0 {
                        assert(!rest[k - 1]);
                    }
                }
            },
        }
    }
}

/// The time that a tag tells: the nanoseconds of the modification, and none where
/// it is not known or lies before the epoch.
pub proof fn law_time_in_tag(facts: FileFacts)
    ensures
        facts.modified is None ==> facts.tag_time() == 0,
        facts.modified matches Some(time) ==> time < 0 ==> facts.tag_time() == 0,
        facts.modified matches Some(time) ==> time >= 0 ==> facts.tag_time() == time,
{
}

/// The tag of a file holds its length and the time of its modification, in
/// hexadecimal, between quotation marks.
pub proof fn law_tag_form(facts: FileFacts)
    ensures
        exists|length: Seq<char>, time: Seq<char>|
            {
                &&& facts.tag() == seq!['"'] + length + seq!['-'] + time + seq!['"']
                &&& #[trigger] worth(length, 16) == facts.length
                &&& #[trigger] worth(time, 16) == facts.tag_time()
                &&& forall|i: int| 0 <= i < length.len() ==> number_char(#[trigger] length[i], 16)
                &&& forall|i: int| 0 <= i < time.len() ==> number_char(#[trigger] time[i], 16)
            },
{
    reveal_strlit("\"");
    reveal_strlit("-");
    let length = hex_text(facts.length as nat);
    let time = hex_text(facts.tag_time());
    law_number_is_written(facts.length as nat, 16);
    law_number_is_written(facts.tag_time(), 16);
    assert(facts.tag() =~= seq!['"'] + length + seq!['-'] + time + seq!['"']);
    assert(worth(length, 16) == facts.length);
    assert(worth(time, 16) == facts.tag_time());
}

/// Two files with the same tag have the same length and the same time in it: a
/// file that is modified or gets another length has another tag.
pub proof fn law_tag_tells_file(a: FileFacts, b: FileFacts)
    requires
        a.tag() == b.tag(),
    ensures
        a.length == b.length,
        a.tag_time() == b.tag_time(),
{
    reveal_strlit("\"");
    reveal_strlit("-");
    lemma_tag_parts(a);
    lemma_tag_parts(b);
    law_digits_tell_number(a.length as nat, b.length as nat, 16);
    law_digits_tell_number(a.tag_time(), b.tag_time(), 16);
}

proof fn lemma_tag_parts(facts: FileFacts)
    ensures
        split_first(facts.tag().skip(1).drop_last(), '-') == Some(
            (hex_text(facts.length as nat), hex_text(facts.tag_time())),
        ),
{
    reveal_strlit("\"");
    reveal_strlit("-");
    let length = hex_text(facts.length as nat);
    let time = hex_text(facts.tag_time());
    lemma_digits_look(facts.length as nat, 16);
    assert forall|i: int| 0 <= i < length.len() implies #[trigger] length[i] != '-' by {
        assert(number_char(length[i], 16));
    }
    law_parted_at_first(length, time, '-');
    assert(facts.tag().skip(1).drop_last() =~= length.push('-') + time);
}

/// A request that does not name the tag of a file as it is now does not know it
/// by its tag.
pub proof fn law_other_tags_are_not_known(
    fields: Seq<(Seq<char>, Seq<u8>)>,
    facts: FileFacts,
    pieces: Seq<Seq<char>>,
)
    requires
        pieces.len() > 0,
        forall|i: int, k: int|
            0 <= i < pieces.len() && 0 <= k < pieces[i].len() ==> #[trigger] pieces[i][k] != ',',
        forall|i: int|
            0 <= i < pieces.len() ==> trimmed(#[trigger] pieces[i]) != facts.tag(),
    ensures
        text_of(fields, "if-none-match"@) == Some(listed(pieces, ',')) ==> !knows_tag(fields, facts),
        text_of(fields, "if-none-match"@) is None ==> !knows_tag(fields, facts),
{
    lemma_split_listed(pieces, ',');
}

/// A request knows a file by a date if and only if it gives one that can be read
/// and the file was modified at most a second after it, to the nanosecond.
pub proof fn law_date_is_known(
    fields: Seq<(Seq<char>, Seq<u8>)>,
    facts: FileFacts,
    text: Seq<char>,
    since: u64,
    time: i128,
)
    ensures
        facts.modified is None ==> !knows_date(fields, facts),
        text_of(fields, "if-modified-since"@) is None ==> !knows_date(fields, facts),
        text_of(fields, "if-modified-since"@) == Some(text) && http_date_seconds(text) is None
            ==> !knows_date(fields, facts),
        text_of(fields, "if-modified-since"@) == Some(text) && http_date_seconds(text) == Some(since)
            && facts.modified == Some(time) ==> (knows_date(fields, facts) <==> time <= since
            * 1_000_000_000 + 1_000_000_000),
{
}

/// A request has a file as it is now if and only if it knows it by its tag or by
/// its date.
pub proof fn law_not_modified(fields: Seq<(Seq<char>, Seq<u8>)>, facts: FileFacts)
    ensures
        not_modified(fields, facts) <==> knows_tag(fields, facts) || knows_date(fields, facts),
{
}

/// A date can be told from the epoch to the end of the year 9999. The second that
/// is told is the one in which the file was modified.
pub proof fn law_second_of_modification(facts: FileFacts)
    ensures
        facts.modified is None ==> facts.datable(),
        facts.modified matches Some(time) ==> (facts.datable() <==> 0 <= time
            < 253_402_300_800int * 1_000_000_000),
        facts.modified matches Some(time) ==> facts.datable() ==> facts.modified_second()
            * 1_000_000_000 <= time < facts.modified_second() * 1_000_000_000 + 1_000_000_000,
{
}

/// A request without a range asks for the whole file, and one with a range for
/// that range or for nothing that the file has.
pub proof fn law_requested_part(
    fields: Seq<(Seq<char>, Seq<u8>)>,
    facts: FileFacts,
    value: Seq<char>,
)
    ensures
        text_of(fields, "range"@) is None ==> {
            &&& requested_part(fields, facts) matches Some(part)
            &&& !part.partial
            &&& part.start == 0
            &&& facts.length > 0 ==> part.end == facts.length - 1
            &&& facts.length == 0 ==> part.end == 0
        },
        text_of(fields, "range"@) == Some(value) ==> {
            &&& byte_range(value, facts.length) is None ==> requested_part(fields, facts) is None
            &&& byte_range(value, facts.length) matches Some((start, end)) ==> (requested_part(
                fields,
                facts,
            ) matches Some(part) && part.partial && part.start == start && part.end == end)
        },
{
}

/// A part has as many bytes as there are from its first to its last, and none of
/// an empty file. It is one of a file if it begins no later than it ends, and
/// ends in the file.
pub proof fn law_part_of_file(part: Part, facts: FileFacts)
    ensures
        facts.length == 0 ==> part.length(facts) == 0,
        facts.length > 0 && part.start <= part.end ==> part.length(facts) == part.end - part.start
            + 1,
        facts.length > 0 ==> (part.fits(facts) <==> part.start <= part.end && part.end
            < facts.length),
        facts.length == 0 ==> (part.fits(facts) <==> part.start == 0 && part.end == 0
            && !part.partial),
{
}

/// What is done with a file: a request that has it as it is now gets status 304
/// and the tag, whatever range it asks for; one that asks for a part that the
/// file does not have gets status 416 and the length of the file; neither gets a
/// body. Any other gets the part that it asks for.
pub proof fn law_file_step(fields: Seq<(Seq<char>, Seq<u8>)>, facts: FileFacts, step: FileStep)
    requires
        file_step(fields, facts, step),
    ensures
        not_modified_fields(facts).len() == 1,
        unsatisfiable_fields(facts).len() == 1,
        not_modified(fields, facts) ==> {
            &&& step matches FileStep::Answer(reply)
            &&& reply.status == 304
            &&& values_of(header_fields(reply.headers), "etag"@) == seq![encode_utf8(facts.tag())]
            &&& reply.body matches ReplyBody::Bytes(bytes)
            &&& bytes@.len() == 0
        },
        !not_modified(fields, facts) && requested_part(fields, facts) is None ==> {
            &&& step matches FileStep::Answer(reply)
            &&& reply.status == 416
            &&& values_of(header_fields(reply.headers), "content-range"@) == seq![
                encode_utf8("bytes */"@ + decimal_text(facts.length as nat)),
            ]
            &&& reply.body matches ReplyBody::Bytes(bytes)
            &&& bytes@.len() == 0
        },
        !not_modified(fields, facts) ==> (requested_part(fields, facts) matches Some(part) ==> step
            == FileStep::Send(part)),
{
    let tag = not_modified_fields(facts);
    let range = unsatisfiable_fields(facts);
    let nothing = Seq::<(Seq<char>, Seq<u8>)>::empty();
    assert(tag =~= nothing.push(tag[0]) + nothing);
    assert(range =~= nothing.push(range[0]) + nothing);
    lemma_only_value(nothing, tag[0], nothing);
    lemma_only_value(nothing, range[0], nothing);
    if let FileStep::Answer(reply) = step {
        let values = values_of(header_fields(reply.headers), "etag"@);
        let others = values_of(header_fields(reply.headers), "content-range"@);
        if not_modified(fields, facts) {
            assert(values == values_of(tag, "etag"@));
        } else {
            assert(others == values_of(range, "content-range"@));
        }
    }
}

/// The text of a part: its first byte, its last byte and the length of the file,
/// in decimal.
pub proof fn law_text_of_part(start: nat, end: nat, length: nat)
    ensures
        range_text(start, end, length) == "bytes "@ + decimal_text(start) + "-"@ + decimal_text(end)
            + "/"@ + decimal_text(length),
{
}

proof fn lemma_more_names_differ()
    ensures
        "etag"@ != "content-type"@,
        "etag"@ != "last-modified"@,
        "etag"@ != "content-range"@,
        "content-type"@ != "last-modified"@,
        "content-type"@ != "content-range"@,
        "last-modified"@ != "content-range"@,
{
    reveal_strlit("content-type");
    reveal_strlit("etag");
    reveal_strlit("last-modified");
    reveal_strlit("content-range");
    assert("etag"@.len() == 4 && "content-type"@.len() == 12);
    assert("last-modified"@.len() == 13 && "content-range"@.len() == 13);
    assert("last-modified"@[0] == 'l' && "content-range"@[0] == 'c');
}

/// What the fields of a reply with a part of a file say: the type, the number of
/// bytes that are sent, that ranges are served, the tag, the date of the
/// modification where it is known, and the part where a range was asked for. There
/// are no others.
pub proof fn law_fields_of_reply(path: Seq<u8>, facts: FileFacts, part: Part)
    ensures
        ({
            let all = file_fields(path, facts, part);
            &&& values_of(all, "content-type"@) == seq![encode_utf8(media_type(lossy_text(path)))]
            &&& facts.length == 0 ==> values_of(all, "content-length"@) == seq![
                encode_utf8(decimal_text(0)),
            ]
            &&& facts.length > 0 && part.start <= part.end ==> values_of(all, "content-length"@)
                == seq![encode_utf8(decimal_text((part.end - part.start + 1) as nat))]
            &&& values_of(all, "accept-ranges"@) == seq![encode_utf8("bytes"@)]
            &&& values_of(all, "etag"@) == seq![encode_utf8(facts.tag())]
            &&& facts.modified is Some ==> values_of(all, "last-modified"@) == seq![
                encode_utf8(http_date_text(facts.modified_second())),
            ]
            &&& facts.modified is None ==> values_of(all, "last-modified"@).len() == 0
            &&& part.partial ==> values_of(all, "content-range"@) == seq![
                encode_utf8(range_text(part.start as nat, part.end as nat, facts.length as nat)),
            ]
            &&& !part.partial ==> values_of(all, "content-range"@).len() == 0
            &&& all.len() == 4 + if facts.modified is Some {
                1int
            } else {
                0
            } + if part.partial {
                1int
            } else {
                0
            }
        }),
{
    let all = file_fields(path, facts, part);
    let n = 4 + date_fields(facts).len() as int;
    lemma_names_differ();
    lemma_more_names_differ();
    lemma_length_and_ranges(path, facts, part);
    assert(all =~= all.take(0).push(all[0]) + all.skip(1));
    lemma_only_value(all.take(0), all[0], all.skip(1));
    assert(all =~= all.take(3).push(all[3]) + all.skip(4));
    lemma_only_value(all.take(3), all[3], all.skip(4));
    if facts.modified is Some {
        assert(all =~= all.take(4).push(all[4]) + all.skip(5));
        lemma_only_value(all.take(4), all[4], all.skip(5));
    } else {
        lemma_no_value(all, "last-modified"@);
    }
    if part.partial {
        assert(all =~= all.take(n).push(all[n]) + all.skip(n + 1));
        lemma_only_value(all.take(n), all[n], all.skip(n + 1));
    } else {
        lemma_no_value(all, "content-range"@);
    }
}

/// A reply with a file has status 206 if and only if a range was asked for, and
/// else status 200. Its body is the part of the file, and nothing where only the
/// head was asked for.
pub proof fn law_reply_with_file(
    method: Seq<char>,
    path: FilePath,
    facts: FileFacts,
    part: Part,
    reply: Reply,
)
    requires
        part.fits(facts),
        is_file_reply(method, path, facts, part, reply),
    ensures
        reply.status == if part.partial {
            206
        } else {
            200int
        },
        forall|name: Seq<char>| #[trigger]
            values_of(header_fields(reply.headers), name) == values_of(
                file_fields(path@, facts, part),
                name,
            ),
        method == "HEAD"@ ==> (reply.body matches ReplyBody::Bytes(bytes) && bytes@.len() == 0),
        method != "HEAD"@ ==> (reply.body matches ReplyBody::File { path: file, start, length }
            && file == path && start == part.start && length == part.length(facts)),
{
}

} // verus!
