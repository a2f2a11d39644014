//! Replies in the form in which a program writes them to its output.

use vstd::prelude::*;
use vstd::slice::{slice_subrange, slice_to_vec};
use vstd::utf8::{char_u32_cast, decode_utf8, encode_scalar, encode_utf8, encode_utf8_decode_utf8,
    encode_utf8_valid_utf8, valid_utf8};

use crate::headers::{field_name, field_value, header_append, header_fields, is_field_name,
    is_field_value, new_headers, token_char, values_of, ROOM};
use crate::number::{all_digits, decimal_text, law_number_is_written, law_numeral_is_read,
    law_only_decimal_is_read, number_char, number_value, parse_number, unsigned, worth,
    NumberError};
use crate::path::same_bytes;
use crate::reply::{Reply, ReplyBody};
use crate::text::{chars_of, first_word, law_first_word, law_parted_at_first, lemma_position_is,
    lemma_split_joined, lines, lines_of, lower, lower_char, same_but_case, same_ignoring_case,
    split_first, split_on, split_once, string_of, trim, trimmed, views_of, white_space,
    without_return, word};

verus! {

/// Why the output of a program is not a reply.
#[derive(Debug)]
pub enum CgiError {
    /// The head is not UTF-8.
    NotText,
    /// A line of the head has no colon.
    NoColon,
    /// A status line has no number.
    EmptyStatus,
    /// A status line has something else in the place of the number.
    StatusNumber(NumberError),
    /// The number is not a status code.
    StatusCode,
    /// A text cannot be the name of a field.
    FieldName,
    /// A text cannot be the value of a field.
    FieldValue,
    /// There are more fields than a reply can hold.
    TooManyFields,
}

impl CgiError {
    /// What the error says.
    pub open spec fn text(self) -> Seq<char> {
        match self {
            CgiError::NotText => "stdio response headers are not UTF-8"@,
            CgiError::NoColon => "invalid stdio response header"@,
            CgiError::EmptyStatus => "empty Status header"@,
            CgiError::StatusNumber(error) => error.text(),
            CgiError::StatusCode => "invalid status code"@,
            CgiError::FieldName => "invalid HTTP header name"@,
            CgiError::FieldValue => "failed to parse header value"@,
            CgiError::TooManyFields => "max size reached"@,
        }
    }

    /// What the error says.
    pub fn message(&self) -> (text: String)
        ensures
            text@ == self.text(),
    {
        match self {
            CgiError::NotText => "stdio response headers are not UTF-8".to_string(),
            CgiError::NoColon => "invalid stdio response header".to_string(),
            CgiError::EmptyStatus => "empty Status header".to_string(),
            CgiError::StatusNumber(error) => error.message(),
            CgiError::StatusCode => "invalid status code".to_string(),
            CgiError::FieldName => "invalid HTTP header name".to_string(),
            CgiError::FieldValue => "failed to parse header value".to_string(),
            CgiError::TooManyFields => "max size reached".to_string(),
        }
    }
}

/// Trusted: `std::str::from_utf8` gives the text that the bytes encode, or an
/// error where they are not valid UTF-8.
#[verifier::external_body]
fn from_utf8(bytes: &[u8]) -> (text: Option<String>)
    ensures
        match text {
            Some(t) => valid_utf8(bytes@) && t@ == decode_utf8(bytes@),
            None => !valid_utf8(bytes@),
        },
{
    std::str::from_utf8(bytes).ok().map(|text| text.to_string())
}

// ---------------------------------------------------------------------------
// Head and body

/// Whether `pattern` stands at the place `at`.
pub open spec fn occurs_at(bytes: Seq<u8>, pattern: Seq<u8>, at: int) -> bool {
    &&& 0 <= at
    &&& at + pattern.len() <= bytes.len()
    &&& bytes.subrange(at, at + pattern.len()) == pattern
}

/// The first place at which `pattern` stands, from `from` on.
pub open spec fn first_occurrence(bytes: Seq<u8>, pattern: Seq<u8>, from: int) -> Option<int>
    decreases bytes.len() - from + 1,
{
    if from < 0 || from + pattern.len() > bytes.len() {
        None
    } else if occurs_at(bytes, pattern, from) {
        Some(from)
    } else {
        first_occurrence(bytes, pattern, from + 1)
    }
}

/// Before the first place at which a pattern stands, it stands nowhere.
pub proof fn law_first_occurrence(bytes: Seq<u8>, pattern: Seq<u8>, from: int)
    requires
        0 <= from,
    ensures
        match first_occurrence(bytes, pattern, from) {
            Some(at) => from <= at && occurs_at(bytes, pattern, at) && forall|k: int|
                from <= k < at ==> !#[trigger] occurs_at(bytes, pattern, k),
            None => forall|k: int| from <= k ==> !#[trigger] occurs_at(bytes, pattern, k),
        },
    decreases bytes.len() - from + 1,
{
    if from + pattern.len() <= bytes.len() && !occurs_at(bytes, pattern, from) {
        law_first_occurrence(bytes, pattern, from + 1);
    }
}

fn find_bytes(bytes: &[u8], pattern: &[u8]) -> (at: Option<usize>)
    ensures
        match at {
            Some(i) => first_occurrence(bytes@, pattern@, 0) == Some(i as int) && i + pattern@.len()
                <= bytes@.len(),
            None => first_occurrence(bytes@, pattern@, 0) is None,
        },
{
    let n = bytes.len();
    let m = pattern.len();
    let mut i: usize = 0;
    while m <= n && i <= n - m
        invariant
            n == bytes@.len(),
            m == pattern@.len(),
            m <= n ==> i <= n - m + 1,
            first_occurrence(bytes@, pattern@, 0) == first_occurrence(bytes@, pattern@, i as int),
        decreases n - i,
    {
        if same_bytes(slice_subrange(bytes, i, i + m), pattern) {
            return Some(i);
        }
        if i == n - m {
            assert(first_occurrence(bytes@, pattern@, i + 1) is None);
            return None;
        }
        i = i + 1;
    }
    None
}

/// An empty line, where lines end in a carriage return and a line feed.
pub open spec fn long_gap() -> Seq<u8> {
    seq![13, 10, 13, 10]
}

/// An empty line, where lines end in a line feed.
pub open spec fn short_gap() -> Seq<u8> {
    seq![10, 10]
}

/// The head and the body of an output: what stands before and behind the first
/// empty line.
pub open spec fn head_and_body(output: Seq<u8>) -> Option<(Seq<u8>, Seq<u8>)> {
    match first_occurrence(output, long_gap(), 0) {
        Some(at) => Some((output.take(at), output.skip(at + 4))),
        None => match first_occurrence(output, short_gap(), 0) {
            Some(at) => Some((output.take(at), output.skip(at + 2))),
            None => None,
        },
    }
}

fn split_output(output: &[u8]) -> (parts: Option<(&[u8], &[u8])>)
    ensures
        match parts {
            Some((head, body)) => head_and_body(output@) == Some((head@, body@)),
            None => head_and_body(output@) is None,
        },
{
    let long: Vec<u8> = vec![13, 10, 13, 10];
    let short: Vec<u8> = vec![10, 10];
    assert(long@ =~= long_gap());
    assert(short@ =~= short_gap());
    let n = output.len();
    if let Some(at) = find_bytes(output, long.as_slice()) {
        let head = slice_subrange(output, 0, at);
        let body = slice_subrange(output, at + 4, n);
        assert(head@ =~= output@.take(at as int));
        assert(body@ =~= output@.skip(at + 4));
        return Some((head, body));
    }
    if let Some(at) = find_bytes(output, short.as_slice()) {
        let head = slice_subrange(output, 0, at);
        let body = slice_subrange(output, at + 2, n);
        assert(head@ =~= output@.take(at as int));
        assert(body@ =~= output@.skip(at + 2));
        return Some((head, body));
    }
    None
}

// ---------------------------------------------------------------------------
// The lines of the head

/// The number in a status line.
pub open spec fn status_number(value: Seq<char>) -> Result<nat, CgiError> {
    match first_word(value) {
        Some(number) => match number_value(number, 10, 65535) {
            Ok(n) => Ok(n),
            Err(error) => Err(CgiError::StatusNumber(error)),
        },
        None => Err(CgiError::EmptyStatus),
    }
}

/// What makes a line unreadable.
pub open spec fn line_fault(line: Seq<char>) -> Option<CgiError> {
    match split_first(line, ':') {
        None => Some(CgiError::NoColon),
        Some((name, value)) => if same_but_case(name, "status"@) {
            match status_number(value) {
                Ok(_) => None,
                Err(error) => Some(error),
            }
        } else {
            None
        },
    }
}

/// What a reply cannot take over from a line that can be read.
pub open spec fn line_defect(line: Seq<char>) -> Option<CgiError> {
    match split_first(line, ':') {
        None => None,
        Some((name, value)) => if same_but_case(name, "status"@) {
            match status_number(value) {
                Ok(n) => if 100 <= n < 1000 {
                    None
                } else {
                    Some(CgiError::StatusCode)
                },
                Err(_) => None,
            }
        } else if !field_name(trimmed(name)) {
            Some(CgiError::FieldName)
        } else if !field_value(trimmed(value)) {
            Some(CgiError::FieldValue)
        } else {
            None
        },
    }
}

/// The fault of the first line that cannot be read.
pub open spec fn first_fault(head: Seq<Seq<char>>) -> Option<CgiError>
    decreases head.len(),
{
    if head.len() == 0 {
        None
    } else {
        match first_fault(head.drop_last()) {
            Some(error) => Some(error),
            None => line_fault(head.last()),
        }
    }
}

/// The defect of the first line that a reply cannot take over.
pub open spec fn first_defect(head: Seq<Seq<char>>) -> Option<CgiError>
    decreases head.len(),
{
    if head.len() == 0 {
        None
    } else {
        match first_defect(head.drop_last()) {
            Some(error) => Some(error),
            None => line_defect(head.last()),
        }
    }
}

/// The status in the last status line, or 200.
pub open spec fn head_status(head: Seq<Seq<char>>) -> nat
    decreases head.len(),
{
    if head.len() == 0 {
        200
    } else {
        match split_first(head.last(), ':') {
            Some((name, value)) => if same_but_case(name, "status"@) {
                status_number(value)->Ok_0
            } else {
                head_status(head.drop_last())
            },
            None => head_status(head.drop_last()),
        }
    }
}

/// The fields in the other lines.
pub open spec fn head_fields(head: Seq<Seq<char>>) -> Seq<(Seq<char>, Seq<u8>)>
    decreases head.len(),
{
    if head.len() == 0 {
        Seq::empty()
    } else {
        let before = head_fields(head.drop_last());
        match split_first(head.last(), ':') {
            Some((name, value)) => if same_but_case(name, "status"@) {
                before
            } else {
                before.push((lower(trimmed(name)), encode_utf8(trimmed(value))))
            },
            None => before,
        }
    }
}

proof fn lemma_first_fault_stays(head: Seq<Seq<char>>, count: int)
    requires
        0 <= count <= head.len(),
        first_fault(head.take(count)) is Some,
    ensures
        first_fault(head) == first_fault(head.take(count)),
    decreases head.len() - count,
{
    if count < head.len() {
        assert(head.take(count + 1).drop_last() =~= head.take(count));
        lemma_first_fault_stays(head, count + 1);
    } else {
        assert(head.take(count) =~= head);
    }
}

// ---------------------------------------------------------------------------
// Replies

/// The fields of a reply to a program that writes no head.
pub open spec fn html_fields() -> Seq<(Seq<char>, Seq<u8>)> {
    seq![("content-type"@, encode_utf8("text/html; charset=utf-8"@))]
}

/// What the lines of a head and a body make, where the lines fit.
pub open spec fn made_by(
    head: Seq<Seq<char>>,
    body: Seq<u8>,
    made: Result<Reply, CgiError>,
) -> bool {
    match first_fault(head) {
        Some(error) => made == Err::<Reply, _>(error),
        None => match first_defect(head) {
            Some(error) => made == Err::<Reply, _>(error),
            None => made matches Ok(reply) && reply.is_made_of(
                head_status(head),
                head_fields(head),
                body,
            ),
        },
    }
}

/// What an output makes. The lines of a head with more than `ROOM` fields may
/// not fit.
pub open spec fn output_makes(output: Seq<u8>, made: Result<Reply, CgiError>) -> bool {
    match head_and_body(output) {
        None => made matches Ok(reply) && reply.is_made_of(200, html_fields(), output),
        Some((head, body)) => if !valid_utf8(head) {
            made == Err::<Reply, _>(CgiError::NotText)
        } else {
            let found = lines_of(decode_utf8(head));
            ||| made_by(found, body, made)
            ||| made == Err::<Reply, _>(CgiError::TooManyFields) && first_fault(found) is None
                && head_fields(found).len() > ROOM
        },
    }
}

proof fn lemma_html_values()
    ensures
        field_name("content-type"@),
        field_value("text/html; charset=utf-8"@),
        lower("content-type"@) == "content-type"@,
{
    reveal_strlit("content-type");
    reveal_strlit("text/html; charset=utf-8");
    crate::headers::lemma_visible_text("text/html; charset=utf-8"@);
    assert(lower("content-type"@) =~= "content-type"@);
}

fn html_reply(output: &[u8]) -> (reply: Reply)
    ensures
        reply.is_made_of(200, html_fields(), output@),
{
    let mut headers = new_headers();
    proof {
        lemma_html_values();
        assert(html_fields().drop_last() =~= Seq::empty());
    }
    header_append(&mut headers, "content-type", "text/html; charset=utf-8");
    proof {
        let empty = Seq::<(Seq<char>, Seq<u8>)>::empty();
        assert forall|name: Seq<char>| #[trigger]
            values_of(header_fields(headers), name) == values_of(html_fields(), name) by {
            assert(values_of(empty, name) == Seq::<Seq<u8>>::empty());
            assert(values_of(html_fields().drop_last(), name) == Seq::<Seq<u8>>::empty());
        }
    }
    Reply { status: 200, headers, body: ReplyBody::Bytes(slice_to_vec(output)) }
}

/// What one line adds to a reply.
enum Line {
    /// The status.
    Status(u16),
    /// A field.
    Field {
        /// Its name.
        name: String,
        /// Its value.
        value: String,
    },
    /// Nothing: a reply cannot take it over.
    Defect(CgiError),
}

fn read_line(line: &[char]) -> (read: Result<Line, CgiError>)
    ensures
        match read {
            Err(error) => line_fault(line@) == Some(error),
            Ok(Line::Defect(error)) => line_fault(line@) is None && line_defect(line@) == Some(error),
            Ok(Line::Status(status)) => {
                &&& line_fault(line@) is None
                &&& line_defect(line@) is None
                &&& split_first(line@, ':') matches Some((n, v))
                &&& same_but_case(n, "status"@)
                &&& status_number(v) == Ok::<nat, CgiError>(status as nat)
            },
            Ok(Line::Field { name, value }) => {
                &&& line_fault(line@) is None
                &&& line_defect(line@) is None
                &&& split_first(line@, ':') matches Some((n, v))
                &&& !same_but_case(n, "status"@)
                &&& name@ == trimmed(n)
                &&& value@ == trimmed(v)
                &&& field_name(name@)
                &&& field_value(value@)
            },
        },
{
    match split_once(line, ':') {
        None => Err(CgiError::NoColon),
        Some((name, value)) => {
            let key = chars_of("status");
            if same_ignoring_case(name, key.as_slice()) {
                match word(value) {
                    None => Err(CgiError::EmptyStatus),
                    Some(number) => match parse_number(number, 10, 65535) {
                        Err(error) => Err(CgiError::StatusNumber(error)),
                        Ok(n) => {
                            if 100 <= n && n < 1000 {
                                Ok(Line::Status(n as u16))
                            } else {
                                Ok(Line::Defect(CgiError::StatusCode))
                            }
                        },
                    },
                }
            } else {
                let name = string_of(trim(name));
                let value = string_of(trim(value));
                let name_chars = chars_of(name.as_str());
                if !is_field_name(name_chars.as_slice()) {
                    Ok(Line::Defect(CgiError::FieldName))
                } else if !is_field_value(value.as_str()) {
                    Ok(Line::Defect(CgiError::FieldValue))
                } else {
                    Ok(Line::Field { name, value })
                }
            }
        },
    }
}

/// The reply in the output of a program. An output without a head is a web
/// page. A line that cannot be read counts before one that a reply cannot take
/// over.
pub fn parse_cgi_response(output: &[u8]) -> (made: Result<Reply, CgiError>)
    ensures
        output_makes(output@, made),
{
    let (head, body) = match split_output(output) {
        None => {
            return Ok(html_reply(output));
        },
        Some(parts) => parts,
    };
    let text = match from_utf8(head) {
        None => {
            return Err(CgiError::NotText);
        },
        Some(text) => text,
    };
    let chars = chars_of(text.as_str());
    let found = lines(chars.as_slice());
    let ghost all = lines_of(decode_utf8(head@));
    let mut headers = new_headers();
    let mut status: u16 = 200;
    let mut pending: Option<CgiError> = None;
    assert(all.take(0) =~= Seq::empty());
    let mut i: usize = 0;
    while i < found.len()
        invariant
            i <= found@.len(),
            views_of(found@) == all,
            first_fault(all.take(i as int)) is None,
            match pending {
                None => first_defect(all.take(i as int)) is None && status == head_status(
                    all.take(i as int),
                ) && header_fields(headers).len() == head_fields(all.take(i as int)).len()
                    && forall|name: Seq<char>| #[trigger]
                    values_of(header_fields(headers), name) == values_of(
                        head_fields(all.take(i as int)),
                        name,
                    ),
                Some(error) => first_defect(all.take(i as int)) == Some(error) || (error
                    == CgiError::TooManyFields && head_fields(all.take(i as int)).len() > ROOM),
            },
            head_and_body(output@) == Some((head@, body@)),
            valid_utf8(head@),
            all == lines_of(decode_utf8(head@)),
        decreases found@.len() - i,
    {
        let ghost before = all.take(i as int);
        let ghost after = all.take(i + 1);
        proof {
            assert(after.drop_last() =~= before);
            assert(views_of(found@)[i as int] == found@[i as int]@);
            assert(after.last() == found@[i as int]@);
        }
        match read_line(found[i].as_slice()) {
            Err(error) => {
                proof {
                    lemma_first_fault_stays(all, i + 1);
                }
                return Err(error);
            },
            Ok(Line::Status(n)) => {
                status = n;
            },
            Ok(Line::Defect(error)) => {
                if pending.is_none() {
                    pending = Some(error);
                }
            },
            Ok(Line::Field { name, value }) => {
                if pending.is_none() {
                    let ghost fields = header_fields(headers);
                    if !header_append(&mut headers, name.as_str(), value.as_str()) {
                        pending = Some(CgiError::TooManyFields);
                    } else {
                        proof {
                            let more = head_fields(after);
                            assert(more.drop_last() =~= head_fields(before));
                            assert forall|n: Seq<char>| #[trigger]
                                values_of(header_fields(headers), n) == values_of(more, n) by {
                                assert(values_of(fields, n) == values_of(head_fields(before), n));
                            }
                        }
                    }
                }
            },
        }
        i = i + 1;
    }
    assert(all.take(i as int) =~= all);
    match pending {
        Some(error) => Err(error),
        None => Ok(Reply { status, headers, body: ReplyBody::Bytes(slice_to_vec(body)) }),
    }
}

// ---------------------------------------------------------------------------
// Laws

/// Lines with a carriage return and a line feed between them.
pub open spec fn line_text(head: Seq<Seq<char>>) -> Seq<char>
    decreases head.len(),
{
    if head.len() == 0 {
        Seq::empty()
    } else if head.len() == 1 {
        head[0]
    } else {
        line_text(head.drop_last()).push('\r').push('\n') + head.last()
    }
}

/// A line that can stand in a head: not empty, and without a line end in it.
pub open spec fn is_line(line: Seq<char>) -> bool {
    &&& line.len() > 0
    &&& forall|i: int| 0 <= i < line.len() ==> #[trigger] line[i] != '\r' && line[i] != '\n'
}

/// What a program writes: a head, an empty line and a body.
pub open spec fn written(head: Seq<Seq<char>>, body: Seq<u8>) -> Seq<u8> {
    encode_utf8(line_text(head)) + long_gap() + body
}

proof fn lemma_encode_concat(a: Seq<char>, b: Seq<char>)
    ensures
        encode_utf8(a + b) == encode_utf8(a) + encode_utf8(b),
    decreases a.len(),
{
    if a.len() == 0 {
        assert(a + b =~= b);
        assert(encode_utf8(a) + encode_utf8(b) =~= encode_utf8(b));
    } else {
        let first = encode_scalar(a[0] as u32);
        assert((a + b).drop_first() =~= a.drop_first() + b);
        lemma_encode_concat(a.drop_first(), b);
        assert(first + (encode_utf8(a.drop_first()) + encode_utf8(b)) =~= (first + encode_utf8(
            a.drop_first(),
        )) + encode_utf8(b));
    }
}

proof fn lemma_scalar_bytes(scalar: u32)
    ensures
        scalar < 128 ==> encode_scalar(scalar) == seq![scalar as u8],
        scalar >= 128 ==> encode_scalar(scalar).len() > 0 && forall|i: int|
            0 <= i < encode_scalar(scalar).len() ==> #[trigger] encode_scalar(scalar)[i] >= 128,
{
    assert(scalar < 128 ==> (scalar & 0x7F) as u8 == scalar as u8) by (bit_vector);
    assert(0xC0u8 | ((scalar >> 6) & 0x1F) as u8 >= 128u8) by (bit_vector);
    assert(0xE0u8 | ((scalar >> 12) & 0x0F) as u8 >= 128u8) by (bit_vector);
    assert(0xF0u8 | ((scalar >> 18) & 0x7) as u8 >= 128u8) by (bit_vector);
    assert(0x80u8 | (scalar & 0x3F) as u8 >= 128u8) by (bit_vector);
    assert(0x80u8 | ((scalar >> 6) & 0x3F) as u8 >= 128u8) by (bit_vector);
    assert(0x80u8 | ((scalar >> 12) & 0x3F) as u8 >= 128u8) by (bit_vector);
}

proof fn lemma_line_bytes(line: Seq<char>)
    requires
        forall|i: int| 0 <= i < line.len() ==> #[trigger] line[i] != '\r' && line[i] != '\n',
    ensures
        encode_utf8(line).len() >= line.len(),
        forall|i: int|
            0 <= i < encode_utf8(line).len() ==> #[trigger] encode_utf8(line)[i] != 13 && encode_utf8(
                line,
            )[i] != 10,
    decreases line.len(),
{
    if line.len() > 0 {
        let rest = line.drop_first();
        let scalar = line[0] as u32;
        let first = encode_scalar(scalar);
        let whole = encode_utf8(line);
        assert forall|i: int| 0 <= i < rest.len() implies #[trigger] rest[i] != '\r' && rest[i]
            != '\n' by {
            assert(rest[i] == line[i + 1]);
        }
        lemma_line_bytes(rest);
        lemma_scalar_bytes(scalar);
        char_u32_cast(line[0], scalar);
        assert(scalar != 13 && scalar != 10);
        assert(whole == first + encode_utf8(rest));
        assert forall|i: int| 0 <= i < whole.len() implies #[trigger] whole[i] != 13 && whole[i]
            != 10 by {
            if i < first.len() {
                assert(whole[i] == first[i]);
            } else {
                assert(whole[i] == encode_utf8(rest)[i - first.len()]);
            }
        }
    }
}

/// Whether a carriage return at a place has something other than another one
/// two places behind it.
spec fn is_paired(bytes: Seq<u8>, k: int) -> bool {
    bytes[k] == 13 ==> k + 2 < bytes.len() && bytes[k + 2] != 13
}

/// Behind every carriage return in a head comes a line feed, and then a line.
proof fn lemma_head_bytes(head: Seq<Seq<char>>)
    requires
        head.len() > 0,
        forall|i: int| 0 <= i < head.len() ==> is_line(#[trigger] head[i]),
    ensures
        forall|k: int|
            0 <= k < encode_utf8(line_text(head)).len() ==> #[trigger] is_paired(
                encode_utf8(line_text(head)),
                k,
            ),
    decreases head.len(),
{
    let last = head.last();
    assert(is_line(last));
    lemma_line_bytes(last);
    if head.len() > 1 {
        let front = head.drop_last();
        assert forall|i: int| 0 <= i < front.len() implies is_line(#[trigger] front[i]) by {
            assert(front[i] == head[i]);
        }
        lemma_head_bytes(front);
        let before = line_text(front);
        let ends = seq!['\r', '\n'];
        assert(before.push('\r').push('\n') + last =~= before + (ends + last));
        lemma_encode_concat(before, ends + last);
        lemma_encode_concat(ends, last);
        assert(encode_utf8(ends) =~= seq![13u8, 10u8]) by {
            assert(ends.drop_first() =~= seq!['\n']);
            assert(seq!['\n'].drop_first() =~= Seq::<char>::empty());
            reveal_with_fuel(encode_utf8, 3);
            lemma_scalar_bytes(13);
            lemma_scalar_bytes(10);
        }
        let a = encode_utf8(before);
        let b = encode_utf8(last);
        let whole = encode_utf8(line_text(head));
        assert(whole =~= a + seq![13u8, 10u8] + b);
        assert forall|k: int| 0 <= k < whole.len() implies #[trigger] is_paired(whole, k) by {
            if k < a.len() {
                assert(is_paired(a, k));
                assert(whole[k] == a[k]);
                if a[k] == 13 {
                    assert(whole[k + 2] == a[k + 2]);
                }
            } else if k == a.len() {
                assert(whole[k + 2] == b[0]);
            } else if k == a.len() + 1 {
                assert(whole[k] == 10);
            } else {
                assert(whole[k] == b[k - a.len() - 2]);
            }
        }
    } else {
        assert(line_text(head) == last);
    }
}

proof fn lemma_returned_pieces(head: Seq<Seq<char>>)
    requires
        head.len() > 0,
        forall|i: int| 0 <= i < head.len() ==> is_line(#[trigger] head[i]),
    ensures
        split_on(line_text(head).push('\r'), '\n') == head.map_values(
            |line: Seq<char>| line.push('\r'),
        ),
    decreases head.len(),
{
    let last = head.last();
    let ended = last.push('\r');
    assert(is_line(last));
    assert forall|i: int| 0 <= i < ended.len() implies #[trigger] ended[i] != '\n' by {
        if i < last.len() {
            assert(ended[i] == last[i]);
        }
    }
    lemma_position_is(ended, '\n', ended.len() as int);
    assert(split_on(ended, '\n') =~= seq![ended]);
    let returned = head.map_values(|line: Seq<char>| line.push('\r'));
    if head.len() == 1 {
        assert(returned =~= seq![ended]);
    } else {
        let front = head.drop_last();
        assert forall|i: int| 0 <= i < front.len() implies is_line(#[trigger] front[i]) by {
            assert(front[i] == head[i]);
        }
        lemma_returned_pieces(front);
        let before = line_text(front).push('\r');
        assert(line_text(head).push('\r') =~= before.push('\n') + ended);
        lemma_split_joined(before, ended, '\n');
        assert(returned =~= front.map_values(|line: Seq<char>| line.push('\r')) + seq![ended]);
    }
}

proof fn lemma_lines_read_back(head: Seq<Seq<char>>)
    requires
        head.len() > 0,
        forall|i: int| 0 <= i < head.len() ==> is_line(#[trigger] head[i]),
    ensures
        lines_of(line_text(head)) == head,
{
    let last = head.last();
    assert(is_line(last));
    lemma_position_is(last, '\n', last.len() as int);
    assert(split_on(last, '\n') =~= seq![last]);
    if head.len() == 1 {
        assert(lines_of(line_text(head)) =~= head);
    } else {
        let front = head.drop_last();
        assert forall|i: int| 0 <= i < front.len() implies is_line(#[trigger] front[i]) by {
            assert(front[i] == head[i]);
        }
        lemma_returned_pieces(front);
        let before = line_text(front).push('\r');
        let pieces = split_on(line_text(head), '\n');
        assert(line_text(head) == before.push('\n') + last);
        lemma_split_joined(before, last, '\n');
        assert(pieces =~= front.map_values(|line: Seq<char>| line.push('\r')) + seq![last]);
        assert forall|i: int| 0 <= i < front.len() implies without_return(#[trigger] pieces[i])
            == head[i] by {
            assert(pieces[i] == front[i].push('\r'));
            assert(front[i].push('\r').drop_last() =~= front[i]);
        }
        assert(pieces.last() == last);
        assert(lines_of(line_text(head)) =~= head);
    }
}

proof fn lemma_first_is(bytes: Seq<u8>, pattern: Seq<u8>, at: int)
    requires
        occurs_at(bytes, pattern, at),
        forall|k: int| 0 <= k < at ==> !#[trigger] occurs_at(bytes, pattern, k),
    ensures
        first_occurrence(bytes, pattern, 0) == Some(at),
{
    law_first_occurrence(bytes, pattern, 0);
}

proof fn lemma_no_gap_inside(bytes: Seq<u8>, body: Seq<u8>, k: int)
    requires
        0 <= k < bytes.len(),
        is_paired(bytes, k),
    ensures
        !occurs_at(bytes + long_gap() + body, long_gap(), k),
{
    let output = bytes + long_gap() + body;
    if occurs_at(output, long_gap(), k) {
        let window = output.subrange(k, k + 4);
        assert(window == long_gap());
        assert(window[0] == output[k]);
        assert(window[2] == output[k + 2]);
        assert(output[k] == bytes[k]);
        assert(output[k + 2] == bytes[k + 2]);
    }
}

proof fn lemma_written_splits(bytes: Seq<u8>, body: Seq<u8>)
    requires
        forall|k: int| 0 <= k < bytes.len() ==> #[trigger] is_paired(bytes, k),
    ensures
        head_and_body(bytes + long_gap() + body) == Some((bytes, body)),
{
    let gap = long_gap();
    let output = bytes + gap + body;
    let at = bytes.len() as int;
    assert(first_occurrence(output, gap, 0) == Some(at)) by {
        assert forall|k: int| 0 <= k < at implies !#[trigger] occurs_at(output, gap, k) by {
            assert(is_paired(bytes, k));
            lemma_no_gap_inside(bytes, body, k);
        }
        assert(occurs_at(output, gap, at)) by {
            assert(output.subrange(at, at + 4) =~= gap);
        }
        lemma_first_is(output, gap, at);
    }
    assert(output.take(at) =~= bytes);
    assert(output.skip(at + 4) =~= body);
}

/// What a program writes is what is replied: of a head of lines, an empty line
/// and a body, the lines make the status and the fields, and the body is the
/// body, whatever it holds.
pub proof fn law_output_is_read_as_written(
    head: Seq<Seq<char>>,
    body: Seq<u8>,
    made: Result<Reply, CgiError>,
)
    requires
        head.len() > 0,
        forall|i: int| 0 <= i < head.len() ==> is_line(#[trigger] head[i]),
        output_makes(written(head, body), made),
    ensures
        made_by(head, body, made) || (made == Err::<Reply, _>(CgiError::TooManyFields)
            && first_fault(head) is None && head_fields(head).len() > ROOM),
{
    let text = line_text(head);
    lemma_head_bytes(head);
    lemma_written_splits(encode_utf8(text), body);
    encode_utf8_valid_utf8(text);
    encode_utf8_decode_utf8(text);
    lemma_lines_read_back(head);
}

/// A line with a name, a colon and a value makes the field with that name and
/// that value.
pub proof fn law_field_line_reads_back(name: Seq<char>, value: Seq<char>)
    requires
        field_name(name),
        field_value(value),
        trimmed(value) == value,
        !same_but_case(name, "status"@),
    ensures
        line_fault(name.push(':').push(' ') + value) is None,
        line_defect(name.push(':').push(' ') + value) is None,
        head_fields(seq![name.push(':').push(' ') + value]) == seq![
            (lower(name), encode_utf8(value)),
        ],
        head_status(seq![name.push(':').push(' ') + value]) == 200,
{
    let line = name.push(':').push(' ') + value;
    let rest = seq![' '] + value;
    let at = name.len() as int;
    assert forall|k: int| 0 <= k < at implies #[trigger] line[k] != ':' by {
        assert(line[k] == name[k]);
        assert(token_char(name[k]));
    }
    lemma_position_is(line, ':', at);
    assert(line.take(at) =~= name);
    assert(line.skip(at + 1) =~= rest);
    assert(split_first(line, ':') == Some((name, rest)));
    assert(rest.drop_first() =~= value);
    assert(trimmed(rest) == trimmed(value));
    assert(token_char(name[0]) && token_char(name[name.len() - 1]));
    assert(trimmed(name) == name);
    let nothing = Seq::<Seq<char>>::empty();
    assert(seq![line].drop_last() =~= nothing);
    assert(seq![line].last() == line);
    assert(head_status(nothing) == 200);
    assert(head_fields(nothing) =~= Seq::empty());
    assert(head_fields(seq![line]) =~= seq![(lower(name), encode_utf8(value))]);
}

/// A line that gives the status.
pub open spec fn gives_status(line: Seq<char>) -> bool {
    split_first(line, ':') matches Some((name, _)) && same_but_case(name, "status"@)
}

/// What two runs of lines make together: the fields of both, the fault and the
/// defect of the first line that has one, and the last status that is given.
pub proof fn law_lines_add_up(a: Seq<Seq<char>>, b: Seq<Seq<char>>)
    ensures
        head_fields(a + b) == head_fields(a) + head_fields(b),
        first_fault(a) is Some ==> first_fault(a + b) == first_fault(a),
        first_fault(a) is None ==> first_fault(a + b) == first_fault(b),
        first_defect(a) is Some ==> first_defect(a + b) == first_defect(a),
        first_defect(a) is None ==> first_defect(a + b) == first_defect(b),
        (forall|i: int| 0 <= i < b.len() ==> !gives_status(#[trigger] b[i])) ==> head_status(a + b)
            == head_status(a),
        (exists|i: int| 0 <= i < b.len() && gives_status(#[trigger] b[i])) ==> head_status(a + b)
            == head_status(b),
    decreases b.len(),
{
    let all = a + b;
    if b.len() == 0 {
        assert(all =~= a);
        assert(head_fields(a) + head_fields(b) =~= head_fields(a));
    } else {
        let less = b.drop_last();
        law_lines_add_up(a, less);
        assert(all.drop_last() =~= a + less);
        assert(all.last() == b.last());
        assert(head_fields(all) =~= head_fields(a) + head_fields(b));
        if gives_status(b.last()) {
            assert(gives_status(b[b.len() - 1]));
        } else {
            assert(head_status(all) == head_status(a + less));
            assert(head_status(b) == head_status(less));
            if forall|i: int| 0 <= i < b.len() ==> !gives_status(#[trigger] b[i]) {
                assert forall|i: int| 0 <= i < less.len() implies !gives_status(
                    #[trigger] less[i],
                ) by {
                    assert(less[i] == b[i]);
                }
            } else {
                let i = choose|i: int| 0 <= i < b.len() && gives_status(#[trigger] b[i]);
                assert(i < b.len() - 1);
                assert(gives_status(less[i]));
            }
        }
    }
}

/// What one line makes by itself is what its kind says: a status line no field,
/// and any other line no status.
pub proof fn law_one_line(line: Seq<char>)
    ensures
        first_fault(seq![line]) == line_fault(line),
        first_defect(seq![line]) == line_defect(line),
        gives_status(line) ==> head_fields(seq![line]) == Seq::<(Seq<char>, Seq<u8>)>::empty(),
        !gives_status(line) ==> head_status(seq![line]) == 200,
{
    let nothing = Seq::<Seq<char>>::empty();
    assert(seq![line].drop_last() =~= nothing);
    assert(seq![line].last() == line);
    assert(first_fault(nothing) is None);
    assert(first_defect(nothing) is None);
    assert(head_fields(nothing) =~= Seq::empty());
    assert(head_status(nothing) == 200);
}

/// A status line, in letters of either case, gives the number that its first
/// word stands for. A number of three digits that does not begin with a zero is
/// a status; a smaller or a larger one is refused when the line is taken over,
/// and one that is no 16-bit number when it is read.
pub proof fn law_status_line(
    name: Seq<char>,
    front: Seq<char>,
    number: Seq<char>,
    back: Seq<char>,
)
    requires
        same_but_case(name, "status"@),
        forall|k: int| 0 <= k < front.len() ==> white_space(#[trigger] front[k]),
        all_digits(unsigned(number)),
        back.len() > 0 ==> white_space(back[0]),
    ensures
        ({
            let line = name.push(':') + (front + number + back);
            let n = worth(unsigned(number), 10);
            &&& gives_status(line)
            &&& n <= 65535 ==> line_fault(line) is None && head_status(seq![line]) == n
            &&& n > 65535 ==> line_fault(line) == Some(
                CgiError::StatusNumber(NumberError::Overflow),
            )
            &&& 100 <= n <= 999 ==> line_defect(line) is None
            &&& n < 100 || 999 < n <= 65535 ==> line_defect(line) == Some(CgiError::StatusCode)
        }),
{
    let value = front + number + back;
    let line = name.push(':') + value;
    lemma_status_name(name);
    law_parted_at_first(name, value, ':');
    assert forall|k: int| 0 <= k < number.len() implies !white_space(#[trigger] number[k]) by {
        if number[0] != '+' {
            assert(unsigned(number)[k] == number[k]);
        } else if k > 0 {
            assert(unsigned(number)[k - 1] == number[k]);
        }
    }
    law_first_word(front, number, back);
    law_numeral_is_read(number, 65535);
    law_one_line(line);
    assert(seq![line].last() == line);
}

proof fn lemma_status_name(name: Seq<char>)
    requires
        same_but_case(name, "status"@),
    ensures
        forall|k: int| 0 <= k < name.len() ==> #[trigger] name[k] != ':',
{
    reveal_strlit("status");
    let key = "status"@;
    assert(lower(name).len() == lower(key).len());
    assert forall|k: int| 0 <= k < name.len() implies #[trigger] name[k] != ':' by {
        assert(lower(name)[k] == lower_char(name[k]));
        assert(lower(key)[k] == lower_char(key[k]));
    }
}

/// A status line with nothing behind the colon, or with something else than a
/// number there, cannot be read; nor can a line without a colon.
pub proof fn law_unreadable_line(
    name: Seq<char>,
    front: Seq<char>,
    number: Seq<char>,
    back: Seq<char>,
)
    requires
        same_but_case(name, "status"@),
        forall|k: int| 0 <= k < front.len() ==> white_space(#[trigger] front[k]),
        number.len() > 0,
        forall|k: int| 0 <= k < number.len() ==> !white_space(#[trigger] number[k]),
        !all_digits(unsigned(number)),
        back.len() > 0 ==> white_space(back[0]),
    ensures
        line_fault(name) == Some(CgiError::NoColon),
        line_fault(name.push(':') + front) == Some(CgiError::EmptyStatus),
        line_fault(name.push(':') + (front + number + back)) matches Some(
            CgiError::StatusNumber(_),
        ),
{
    let value = front + number + back;
    lemma_status_name(name);
    law_parted_at_first(name, value, ':');
    law_parted_at_first(name, front, ':');
    law_first_word(front, number, back);
    if number_value(number, 10, 65535) is Ok {
        law_only_decimal_is_read(number, 65535);
    }
    assert(status_number(value) is Err);
}

/// Any other line gives one field: what stands before the first colon is its
/// name, in lower case, and what stands behind it is its value, each without the
/// white space around it. Where the one is no name or the other no value, the
/// line is refused.
pub proof fn law_field_line(
    name: Seq<char>,
    value: Seq<char>,
)
    requires
        forall|k: int| 0 <= k < name.len() ==> #[trigger] name[k] != ':',
        !same_but_case(name, "status"@),
    ensures
        ({
            let line = name.push(':') + value;
            &&& !gives_status(line)
            &&& line_fault(line) is None
            &&& head_fields(seq![line]) == seq![(lower(trimmed(name)), encode_utf8(trimmed(value)))]
            &&& line_defect(line) == Some(CgiError::FieldName) <==> !field_name(trimmed(name))
            &&& line_defect(line) == Some(CgiError::FieldValue) <==> field_name(trimmed(name))
                && !field_value(trimmed(value))
            &&& line_defect(line) is None <==> field_name(trimmed(name)) && field_value(
                trimmed(value),
            )
        }),
{
    let line = name.push(':') + value;
    law_parted_at_first(name, value, ':');
    let nothing = Seq::<Seq<char>>::empty();
    assert(seq![line].drop_last() =~= nothing);
    assert(seq![line].last() == line);
    assert(head_fields(nothing) =~= Seq::empty());
    assert(head_fields(seq![line]) =~= seq![(lower(trimmed(name)), encode_utf8(trimmed(value)))]);
}

/// The line that gives a status: the number, and where there is one the reason
/// behind a space.
pub open spec fn status_text(n: nat, reason: Option<Seq<char>>) -> Seq<char> {
    match reason {
        None => "Status: "@ + decimal_text(n),
        Some(words) => "Status: "@ + decimal_text(n) + " "@ + words,
    }
}

/// Any number of three digits is taken as the status, with a reason or without.
/// The reply to a head whose last status line it is has that status.
pub proof fn law_status_is_replied(
    n: nat,
    reason: Option<Seq<char>>,
    before: Seq<Seq<char>>,
    after: Seq<Seq<char>>,
    body: Seq<u8>,
    made: Result<Reply, CgiError>,
)
    requires
        100 <= n <= 999,
        first_fault(before) is None,
        first_defect(before) is None,
        first_fault(after) is None,
        first_defect(after) is None,
        forall|i: int| 0 <= i < after.len() ==> !gives_status(#[trigger] after[i]),
    ensures
        line_fault(status_text(n, reason)) is None,
        line_defect(status_text(n, reason)) is None,
        made_by(before + seq![status_text(n, reason)] + after, body, made) ==> (made matches Ok(
            reply,
        ) && reply.status == n),
{
    reveal_strlit("Status: ");
    reveal_strlit("status");
    reveal_strlit(" ");
    let number = decimal_text(n);
    let name = "Status: "@.take(6);
    let front = seq![' '];
    let back = match reason {
        None => Seq::empty(),
        Some(words) => " "@ + words,
    };
    let line = status_text(n, reason);
    assert(line =~= name.push(':') + (front + number + back));
    assert(lower(name) =~= lower("status"@));
    assert(white_space(front[0]));
    law_number_is_written(n, 10);
    assert forall|k: int| 0 <= k < number.len() implies '0' <= #[trigger] number[k] <= '9' by {
        assert(number_char(number[k], 10));
    }
    assert(number[0] != '+');
    law_status_line(name, front, number, back);
    law_one_line(line);
    let one = seq![line];
    law_lines_add_up(before, one);
    law_lines_add_up(before + one, after);
    assert(gives_status(one[0]));
}

/// A head without a status line is replied to with status 200. The fields of the
/// reply are those of the head, and its body is the body. Where a line cannot be
/// read or taken over there is no reply, and one that cannot be read counts first.
pub proof fn law_head_is_replied(
    head: Seq<Seq<char>>,
    body: Seq<u8>,
    made: Result<Reply, CgiError>,
)
    requires
        made_by(head, body, made),
    ensures
        made is Err <==> exists|i: int|
            0 <= i < head.len() && (line_fault(#[trigger] head[i]) is Some || line_defect(head[i])
                is Some),
        first_fault(head) matches Some(error) ==> made == Err::<Reply, _>(error),
        first_fault(head) is None ==> (first_defect(head) matches Some(error) ==> made == Err::<
            Reply,
            _,
        >(error)),
        made matches Ok(reply) ==> {
            &&& (forall|i: int| 0 <= i < head.len() ==> !gives_status(#[trigger] head[i]))
                ==> reply.status == 200
            &&& reply.body matches ReplyBody::Bytes(bytes)
            &&& bytes@ == body
            &&& forall|name: Seq<char>| #[trigger]
                values_of(header_fields(reply.headers), name) == values_of(head_fields(head), name)
        },
{
    lemma_first_is_there(head);
    let nothing = Seq::<Seq<char>>::empty();
    assert(nothing + head =~= head);
    law_lines_add_up(nothing, head);
}

proof fn lemma_first_is_there(head: Seq<Seq<char>>)
    ensures
        first_fault(head) is Some <==> exists|i: int|
            0 <= i < head.len() && line_fault(#[trigger] head[i]) is Some,
        first_defect(head) is Some <==> exists|i: int|
            0 <= i < head.len() && line_defect(#[trigger] head[i]) is Some,
    decreases head.len(),
{
    if head.len() > 0 {
        let less = head.drop_last();
        lemma_first_is_there(less);
        assert(head.last() == head[head.len() - 1]);
        assert forall|i: int| 0 <= i < less.len() implies #[trigger] less[i] == head[i] by {}
        if first_fault(less) is Some {
            let i = choose|i: int| 0 <= i < less.len() && line_fault(#[trigger] less[i]) is Some;
            assert(line_fault(head[i]) is Some);
        }
        if first_defect(less) is Some {
            let i = choose|i: int| 0 <= i < less.len() && line_defect(#[trigger] less[i]) is Some;
            assert(line_defect(head[i]) is Some);
        }
        if exists|i: int| 0 <= i < head.len() && line_fault(#[trigger] head[i]) is Some {
            let i = choose|i: int| 0 <= i < head.len() && line_fault(#[trigger] head[i]) is Some;
            if i < less.len() {
                assert(line_fault(less[i]) is Some);
            }
        }
        if exists|i: int| 0 <= i < head.len() && line_defect(#[trigger] head[i]) is Some {
            let i = choose|i: int| 0 <= i < head.len() && line_defect(#[trigger] head[i]) is Some;
            if i < less.len() {
                assert(line_defect(less[i]) is Some);
            }
        }
    }
}

/// Whether a line ends at `at` and the next one is empty, where lines end in a
/// carriage return and a line feed.
pub open spec fn returned_gap_at(output: Seq<u8>, at: int) -> bool {
    &&& 0 <= at
    &&& at + 4 <= output.len()
    &&& output[at] == 13 && output[at + 1] == 10
    &&& output[at + 2] == 13 && output[at + 3] == 10
}

/// Whether a line ends at `at` and the next one is empty, where lines end in a
/// line feed.
pub open spec fn plain_gap_at(output: Seq<u8>, at: int) -> bool {
    &&& 0 <= at
    &&& at + 2 <= output.len()
    &&& output[at] == 10 && output[at + 1] == 10
}

proof fn lemma_gaps(output: Seq<u8>, at: int)
    ensures
        occurs_at(output, long_gap(), at) <==> returned_gap_at(output, at),
        occurs_at(output, short_gap(), at) <==> plain_gap_at(output, at),
{
    let long = long_gap();
    let short = short_gap();
    if returned_gap_at(output, at) {
        assert(output.subrange(at, at + 4) =~= long);
    }
    if plain_gap_at(output, at) {
        assert(output.subrange(at, at + 2) =~= short);
    }
    if occurs_at(output, long, at) {
        let part = output.subrange(at, at + 4);
        assert(part[0] == output[at] && part[1] == output[at + 1] && part[2] == output[at + 2]
            && part[3] == output[at + 3]);
    }
    if occurs_at(output, short, at) {
        let part = output.subrange(at, at + 2);
        assert(part[0] == output[at] && part[1] == output[at + 1]);
    }
}

/// An output with no empty line is a web page as it stands.
pub proof fn law_page_without_head(output: Seq<u8>, made: Result<Reply, CgiError>)
    requires
        forall|k: int| !#[trigger] returned_gap_at(output, k),
        forall|k: int| !#[trigger] plain_gap_at(output, k),
        output_makes(output, made),
    ensures
        made matches Ok(reply) && {
            &&& reply.status == 200
            &&& reply.body matches ReplyBody::Bytes(bytes)
            &&& bytes@ == output
            &&& values_of(header_fields(reply.headers), "content-type"@) == seq![
                encode_utf8("text/html; charset=utf-8"@),
            ]
            &&& forall|name: Seq<char>|
                name != "content-type"@ ==> (#[trigger] values_of(
                    header_fields(reply.headers),
                    name,
                )).len() == 0
        },
{
    law_first_occurrence(output, long_gap(), 0);
    law_first_occurrence(output, short_gap(), 0);
    if let Some(at) = first_occurrence(output, long_gap(), 0) {
        lemma_gaps(output, at);
    }
    if let Some(at) = first_occurrence(output, short_gap(), 0) {
        lemma_gaps(output, at);
    }
    let nothing = Seq::<(Seq<char>, Seq<u8>)>::empty();
    assert(html_fields().drop_last() =~= nothing);
    assert forall|name: Seq<char>| #[trigger] values_of(nothing, name) =~= Seq::empty() by {}
    assert(values_of(nothing, "content-type"@).len() == 0);
    assert(html_fields().last() == ("content-type"@, encode_utf8("text/html; charset=utf-8"@)));
    assert(values_of(html_fields(), "content-type"@) =~= seq![
        encode_utf8("text/html; charset=utf-8"@),
    ]);
    assert forall|name: Seq<char>| name != "content-type"@ implies (#[trigger] values_of(
        html_fields(),
        name,
    )).len() == 0 by {
        assert(values_of(nothing, name).len() == 0);
    }
    assert(made is Ok);
    let reply = made->Ok_0;
    assert(reply.is_made_of(200, html_fields(), output));
    assert(values_of(header_fields(reply.headers), "content-type"@) == values_of(
        html_fields(),
        "content-type"@,
    ));
}

/// An output is parted at the first empty line between carriage returns and line
/// feeds; where there is none, at the first between line feeds alone.
pub proof fn law_parted_at_empty_line(output: Seq<u8>, at: int)
    ensures
        returned_gap_at(output, at) && (forall|k: int|
            0 <= k < at ==> !#[trigger] returned_gap_at(output, k)) ==> head_and_body(output)
            == Some((output.take(at), output.skip(at + 4))),
        plain_gap_at(output, at) && (forall|k: int| !#[trigger] returned_gap_at(output, k)) && (
        forall|k: int| 0 <= k < at ==> !#[trigger] plain_gap_at(output, k)) ==> head_and_body(output)
            == Some((output.take(at), output.skip(at + 2))),
{
    lemma_gaps(output, at);
    law_first_occurrence(output, long_gap(), 0);
    law_first_occurrence(output, short_gap(), 0);
    if let Some(k) = first_occurrence(output, long_gap(), 0) {
        lemma_gaps(output, k);
    }
    if let Some(k) = first_occurrence(output, short_gap(), 0) {
        lemma_gaps(output, k);
    }
}

/// A head that is not UTF-8 is refused, and any other is read by its lines. Only a
/// head with more fields than a reply is sure to hold may be refused for that.
pub proof fn law_head_is_text(
    output: Seq<u8>,
    head: Seq<u8>,
    body: Seq<u8>,
    made: Result<Reply, CgiError>,
)
    requires
        head_and_body(output) == Some((head, body)),
        output_makes(output, made),
    ensures
        !valid_utf8(head) ==> made == Err::<Reply, _>(CgiError::NotText),
        valid_utf8(head) && head_fields(lines_of(decode_utf8(head))).len() <= 6554 ==> made_by(
            lines_of(decode_utf8(head)),
            body,
            made,
        ),
{
}

/// What the errors say.
pub proof fn law_cgi_messages(error: NumberError)
    ensures
        CgiError::NotText.text() == "stdio response headers are not UTF-8"@,
        CgiError::NoColon.text() == "invalid stdio response header"@,
        CgiError::EmptyStatus.text() == "empty Status header"@,
        CgiError::StatusNumber(error).text() == error.text(),
        CgiError::StatusCode.text() == "invalid status code"@,
        CgiError::FieldName.text() == "invalid HTTP header name"@,
        CgiError::FieldValue.text() == "failed to parse header value"@,
        CgiError::TooManyFields.text() == "max size reached"@,
{
}

} // verus!
