//! Header fields: what the library reads of a header map, and which fields a
//! proxy must not pass on.

use axum::http::header::{HeaderName, HeaderValue};
use axum::http::HeaderMap;
use vstd::prelude::*;
use vstd::utf8::{encode_utf8, is_ascii_chars_encode_utf8};

use crate::number::{all_digits, decimal_text, law_number_is_written, law_numeral_is_read,
    law_only_decimal_is_read, number_char, number_value, parse_number, unsigned, worth};
use crate::text::{chars_of, lemma_split_listed, listed, lower, same_but_case, same_ignoring_case,
    split, split_on, string_of, trim, trimmed, views_of};

verus! {

/// Trusted: the header map of the `http` crate, as an opaque type.
#[verifier::external_type_specification]
#[verifier::external_body]
#[verifier::reject_recursive_types(T)]
pub struct ExHeaderMap<T>(HeaderMap<T>);

/// Trusted: the header value of the `http` crate, as an opaque type.
#[verifier::external_type_specification]
#[verifier::external_body]
pub struct ExHeaderValue(HeaderValue);

/// The fields of a header map, in the order in which the map is walked.
pub uninterp spec fn header_fields(headers: HeaderMap) -> Seq<(Seq<char>, Seq<u8>)>;

/// The values of the fields called `name`, in their order.
pub open spec fn values_of(fields: Seq<(Seq<char>, Seq<u8>)>, name: Seq<char>) -> Seq<Seq<u8>>
    decreases fields.len(),
{
    if fields.len() == 0 {
        Seq::empty()
    } else {
        let before = values_of(fields.drop_last(), name);
        if fields.last().0 == name {
            before.push(fields.last().1)
        } else {
            before
        }
    }
}

/// The number of fields that a header map holds in any case.
pub const ROOM: usize = 6554;

/// A character that may stand in a field name.
pub open spec fn token_char(c: char) -> bool {
    ||| 'a' <= c <= 'z'
    ||| 'A' <= c <= 'Z'
    ||| '0' <= c <= '9'
    ||| c == '!' || c == '#' || c == '$' || c == '%' || c == '&' || c == '\'' || c == '*' || c
        == '+'
    ||| c == '-' || c == '.' || c == '^' || c == '_' || c == '`' || c == '|' || c == '~'
}

/// A text that can be the name of a field.
pub open spec fn field_name(name: Seq<char>) -> bool {
    &&& 0 < name.len() <= 65535
    &&& forall|i: int| 0 <= i < name.len() ==> token_char(#[trigger] name[i])
}

/// A byte that may stand in a field value.
pub open spec fn value_byte(b: u8) -> bool {
    (b >= 32 && b != 127) || b == 9
}

/// A text that can be the value of a field.
pub open spec fn field_value(value: Seq<char>) -> bool {
    forall|i: int| 0 <= i < encode_utf8(value).len() ==> value_byte(#[trigger] encode_utf8(value)[i])
}

/// Trusted: `HeaderMap::new` makes a map without fields.
#[verifier::external_body]
pub(crate) fn new_headers() -> (headers: HeaderMap)
    ensures
        header_fields(headers) == Seq::<(Seq<char>, Seq<u8>)>::empty(),
{
    HeaderMap::new()
}

/// Trusted: `HeaderMap::get` gives the first value of the field with that
/// name, whose letters may be in either case, or nothing where the map has no
/// such field. It does so for a text that `HeaderName::from_bytes` takes as a
/// name.
#[verifier::external_body]
pub(crate) fn header_get(headers: &HeaderMap, name: &str) -> (value: Option<Vec<u8>>)
    requires
        field_name(name@),
    ensures
        match value {
            Some(bytes) => values_of(header_fields(*headers), lower(name@)).len() > 0 && bytes@
                == values_of(header_fields(*headers), lower(name@))[0],
            None => values_of(header_fields(*headers), lower(name@)).len() == 0,
        },
{
    headers.get(name).map(|value| value.as_bytes().to_vec())
}

/// Trusted: `HeaderMap::remove` takes out every value of the field with that
/// name, whose letters may be in either case, and leaves the values of the
/// other fields as they were. It does so for a text that
/// `HeaderName::from_bytes` takes as a name. Nothing is said of the order of the
/// fields.
#[verifier::external_body]
pub(crate) fn header_remove(headers: &mut HeaderMap, name: &str)
    requires
        field_name(name@),
    ensures
        forall|n: Seq<char>| #[trigger]
            values_of(header_fields(*final(headers)), n) == if n == lower(name@) {
                Seq::empty()
            } else {
                values_of(header_fields(*old(headers)), n)
            },
{
    headers.remove(name);
}

/// Trusted: `HeaderMap::try_append` adds a value behind those that the field
/// already has, under the name in lower case, and leaves the other fields as
/// they were; where the map has no room it changes nothing. It has room for
/// another name while it holds fewer than `ROOM` of them. The name and the
/// value are converted by `HeaderName::from_bytes` and `HeaderValue::from_str`,
/// which take every text that `field_name` and `field_value` describe.
#[verifier::external_body]
pub(crate) fn header_append(headers: &mut HeaderMap, name: &str, value: &str) -> (added: bool)
    requires
        field_name(name@),
        field_value(value@),
    ensures
        header_fields(*old(headers)).len() < ROOM ==> added,
        added ==> header_fields(*final(headers)).len() == header_fields(*old(headers)).len() + 1,
        added ==> forall|n: Seq<char>| #[trigger]
            values_of(header_fields(*final(headers)), n) == if n == lower(name@) {
                values_of(header_fields(*old(headers)), n).push(encode_utf8(value@))
            } else {
                values_of(header_fields(*old(headers)), n)
            },
        !added ==> header_fields(*final(headers)) == header_fields(*old(headers)),
{
    let name = HeaderName::from_bytes(name.as_bytes()).unwrap();
    headers.try_append(name, HeaderValue::from_str(value).unwrap()).is_ok()
}

/// The fields in a list of names and values.
pub open spec fn field_views(list: Seq<(String, Vec<u8>)>) -> Seq<(Seq<char>, Seq<u8>)> {
    list.map_values(|field: (String, Vec<u8>)| (field.0@, field.1@))
}

/// Trusted: `HeaderMap::iter` visits every field, each as often as it has
/// values.
#[verifier::external_body]
pub(crate) fn header_list(headers: &HeaderMap) -> (list: Vec<(String, Vec<u8>)>)
    ensures
        field_views(list@) == header_fields(*headers),
{
    headers.iter().map(|(name, value)| (name.as_str().to_string(), value.as_bytes().to_vec())).collect()
}

/// Whether `c` may stand in a field name.
fn is_token_char(c: char) -> (yes: bool)
    ensures
        yes == token_char(c),
{
    ('a' <= c && c <= 'z') || ('A' <= c && c <= 'Z') || ('0' <= c && c <= '9') || c == '!' || c
        == '#' || c == '$' || c == '%' || c == '&' || c == '\'' || c == '*' || c == '+' || c == '-'
        || c == '.' || c == '^' || c == '_' || c == '`' || c == '|' || c == '~'
}

/// Whether `name` can be the name of a field.
pub fn is_field_name(name: &[char]) -> (yes: bool)
    ensures
        yes == field_name(name@),
{
    if name.len() == 0 || name.len() > 65535 {
        return false;
    }
    let mut i: usize = 0;
    while i < name.len()
        invariant
            i <= name@.len(),
            forall|k: int| 0 <= k < i ==> token_char(#[trigger] name@[k]),
        decreases name@.len() - i,
    {
        if !is_token_char(name[i]) {
            return false;
        }
        i = i + 1;
    }
    true
}

/// Whether `value` can be the value of a field.
pub fn is_field_value(value: &str) -> (yes: bool)
    ensures
        yes == field_value(value@),
{
    let bytes = value.as_bytes();
    let mut i: usize = 0;
    while i < bytes.len()
        invariant
            i <= bytes@.len(),
            bytes@ == encode_utf8(value@),
            forall|k: int| 0 <= k < i ==> value_byte(#[trigger] encode_utf8(value@)[k]),
        decreases bytes@.len() - i,
    {
        let b = bytes[i];
        if !((b >= 32 && b != 127) || b == 9) {
            assert(!value_byte(encode_utf8(value@)[i as int]));
            return false;
        }
        i = i + 1;
    }
    true
}

// ---------------------------------------------------------------------------
// Values as text

/// A byte that stands for itself in the text of a field value.
pub open spec fn visible(b: u8) -> bool {
    32 <= b < 127 || b == 9
}

/// The text of a field value: there is one where every byte is visible ASCII
/// or a tab.
pub open spec fn value_text(value: Seq<u8>) -> Option<Seq<char>> {
    if forall|i: int| 0 <= i < value.len() ==> visible(#[trigger] value[i]) {
        Some(value.map_values(|b: u8| b as char))
    } else {
        None
    }
}

/// The text of a field value.
pub fn visible_text(value: &[u8]) -> (text: Option<String>)
    ensures
        match text {
            Some(t) => value_text(value@) == Some(t@),
            None => value_text(value@) is None,
        },
{
    let mut text = String::new();
    let mut i: usize = 0;
    while i < value.len()
        invariant
            i <= value@.len(),
            forall|k: int| 0 <= k < i ==> visible(#[trigger] value@[k]),
            text@ == value@.map_values(|b: u8| b as char).take(i as int),
        decreases value@.len() - i,
    {
        let b = value[i];
        if !((32 <= b && b < 127) || b == 9) {
            assert(!visible(value@[i as int]));
            return None;
        }
        text.push(b as char);
        i = i + 1;
    }
    assert(text@ =~= value@.map_values(|b: u8| b as char));
    Some(text)
}

/// A text of visible ASCII characters can be the value of a field, and is the
/// text of that value.
pub proof fn lemma_visible_text(text: Seq<char>)
    requires
        forall|i: int| 0 <= i < text.len() ==> ' ' <= #[trigger] text[i] <= '~',
    ensures
        field_value(text),
        value_text(encode_utf8(text)) == Some(text),
{
    let bytes = encode_utf8(text);
    is_ascii_chars_encode_utf8(text);
    assert forall|i: int| 0 <= i < bytes.len() implies value_byte(#[trigger] bytes[i]) && visible(
        bytes[i],
    ) by {
        assert(text[i] as u8 == bytes[i]);
    }
    assert(bytes.map_values(|b: u8| b as char) =~= text) by {
        assert forall|i: int| 0 <= i < text.len() implies bytes[i] as char == #[trigger] text[i] by {
            assert(text[i] as u8 == bytes[i]);
        }
    }
}

/// The text of the first value of the field `name`.
pub open spec fn text_of(fields: Seq<(Seq<char>, Seq<u8>)>, name: Seq<char>) -> Option<Seq<char>> {
    let values = values_of(fields, name);
    if values.len() == 0 {
        None
    } else {
        value_text(values[0])
    }
}

/// The text of the first value of the field `name`. Nothing where `name` cannot
/// be the name of a field.
pub fn header_text(headers: &HeaderMap, name: &str) -> (text: Option<String>)
    ensures
        match text {
            Some(t) => field_name(name@) && text_of(header_fields(*headers), lower(name@)) == Some(
                t@,
            ),
            None => field_name(name@) ==> text_of(header_fields(*headers), lower(name@)) is None,
        },
{
    let chars = chars_of(name);
    if !is_field_name(chars.as_slice()) {
        return None;
    }
    match header_get(headers, name) {
        Some(value) => visible_text(value.as_slice()),
        None => None,
    }
}

// ---------------------------------------------------------------------------
// Hop-by-hop fields

/// The field names among some pieces of text, in lower case. What cannot be the
/// name of a field is passed over.
pub open spec fn names_among(pieces: Seq<Seq<char>>) -> Seq<Seq<char>>
    decreases pieces.len(),
{
    if pieces.len() == 0 {
        Seq::empty()
    } else {
        let before = names_among(pieces.drop_last());
        let name = trimmed(pieces.last());
        if field_name(name) {
            before.push(lower(name))
        } else {
            before
        }
    }
}

/// The names that a `Connection` field lists, in lower case.
pub open spec fn connection_names(fields: Seq<(Seq<char>, Seq<u8>)>) -> Seq<Seq<char>> {
    match text_of(fields, "connection"@) {
        Some(text) => names_among(split_on(text, ',')),
        None => Seq::empty(),
    }
}

/// The fields that concern a single connection wherever they stand.
pub open spec fn hop_by_hop(name: Seq<char>) -> bool {
    ||| name == "connection"@
    ||| name == "keep-alive"@
    ||| name == "proxy-authenticate"@
    ||| name == "proxy-authorization"@
    ||| name == "te"@
    ||| name == "trailer"@
    ||| name == "transfer-encoding"@
    ||| name == "upgrade"@
}

/// Whether a proxy takes the field `name` out of these fields.
pub open spec fn dropped(fields: Seq<(Seq<char>, Seq<u8>)>, name: Seq<char>) -> bool {
    hop_by_hop(name) || connection_names(fields).contains(name)
}

/// What is left of the field `name` once a proxy has taken out the fields that
/// concern a single connection.
pub open spec fn passed_on(fields: Seq<(Seq<char>, Seq<u8>)>, name: Seq<char>) -> Seq<Seq<u8>> {
    if dropped(fields, name) {
        Seq::empty()
    } else {
        values_of(fields, name)
    }
}

proof fn lemma_lower_is_same(text: Seq<char>)
    requires
        forall|i: int| 0 <= i < text.len() ==> !('A' <= #[trigger] text[i] <= 'Z'),
    ensures
        lower(text) == text,
{
    assert(lower(text) =~= text);
}

/// The names below are names of fields, and in lower case already.
pub proof fn lemma_names_are_lower()
    ensures
        field_name("connection"@),
        field_name("keep-alive"@),
        field_name("proxy-authenticate"@),
        field_name("proxy-authorization"@),
        field_name("te"@),
        field_name("trailer"@),
        field_name("transfer-encoding"@),
        field_name("upgrade"@),
        field_name("content-length"@),
        lower("connection"@) == "connection"@,
        lower("keep-alive"@) == "keep-alive"@,
        lower("proxy-authenticate"@) == "proxy-authenticate"@,
        lower("proxy-authorization"@) == "proxy-authorization"@,
        lower("te"@) == "te"@,
        lower("trailer"@) == "trailer"@,
        lower("transfer-encoding"@) == "transfer-encoding"@,
        lower("upgrade"@) == "upgrade"@,
        lower("content-length"@) == "content-length"@,
{
    reveal_strlit("connection");
    reveal_strlit("keep-alive");
    reveal_strlit("proxy-authenticate");
    reveal_strlit("proxy-authorization");
    reveal_strlit("te");
    reveal_strlit("trailer");
    reveal_strlit("transfer-encoding");
    reveal_strlit("upgrade");
    reveal_strlit("content-length");
    lemma_lower_is_same("connection"@);
    lemma_lower_is_same("keep-alive"@);
    lemma_lower_is_same("proxy-authenticate"@);
    lemma_lower_is_same("proxy-authorization"@);
    lemma_lower_is_same("te"@);
    lemma_lower_is_same("trailer"@);
    lemma_lower_is_same("transfer-encoding"@);
    lemma_lower_is_same("upgrade"@);
    lemma_lower_is_same("content-length"@);
}

/// Takes out the fields that concern a single connection: those that
/// `Connection` lists and the standard ones.
pub fn remove_hop_by_hop_headers(headers: &mut HeaderMap)
    ensures
        forall|n: Seq<char>| #[trigger]
            values_of(header_fields(*final(headers)), n) == passed_on(
                header_fields(*old(headers)),
                n,
            ),
{
    let ghost fields = header_fields(*headers);
    proof {
        lemma_names_are_lower();
    }
    if let Some(text) = header_text(headers, "connection") {
        let chars = chars_of(text.as_str());
        let listed = split(chars.as_slice(), ',');
        let ghost pieces = split_on(chars@, ',');
        assert(pieces.take(0) =~= Seq::empty());
        let mut i: usize = 0;
        while i < listed.len()
            invariant
                i <= listed@.len(),
                pieces == split_on(chars@, ','),
                views_of(listed@) == pieces,
                forall|n: Seq<char>| #[trigger]
                    values_of(header_fields(*headers), n) == if names_among(
                        pieces.take(i as int),
                    ).contains(n) {
                        Seq::empty()
                    } else {
                        values_of(fields, n)
                    },
            decreases listed@.len() - i,
        {
            let name = trim(listed[i].as_slice());
            let ghost known = names_among(pieces.take(i as int));
            proof {
                assert(views_of(listed@)[i as int] == listed@[i as int]@);
                assert(pieces.take(i + 1).drop_last() =~= pieces.take(i as int));
                assert(pieces.take(i + 1).last() == listed@[i as int]@);
            }
            if is_field_name(name) {
                let name_text = string_of(name);
                let ghost before = header_fields(*headers);
                header_remove(headers, name_text.as_str());
                proof {
                    assert(names_among(pieces.take(i + 1)) == known.push(lower(name@)));
                    assert forall|n: Seq<char>| #[trigger]
                        values_of(header_fields(*headers), n) == if known.push(
                            lower(name@),
                        ).contains(n) {
                            Seq::empty()
                        } else {
                            values_of(fields, n)
                        } by {
                        lemma_push_contains(known, lower(name@), n);
                        assert(values_of(before, n) == if known.contains(n) {
                            Seq::empty()
                        } else {
                            values_of(fields, n)
                        });
                    }
                }
            }
            i = i + 1;
        }
        assert(pieces.take(i as int) =~= pieces);
    }
    header_remove(headers, "connection");
    header_remove(headers, "keep-alive");
    header_remove(headers, "proxy-authenticate");
    header_remove(headers, "proxy-authorization");
    header_remove(headers, "te");
    header_remove(headers, "trailer");
    header_remove(headers, "transfer-encoding");
    header_remove(headers, "upgrade");
}

/// A text in lower case stays as it is.
pub proof fn lemma_lower_twice(text: Seq<char>)
    ensures
        lower(lower(text)) == lower(text),
{
    assert(lower(lower(text)) =~= lower(text));
}

proof fn lemma_push_contains<T>(items: Seq<T>, item: T, sought: T)
    ensures
        items.push(item).contains(sought) <==> (items.contains(sought) || item == sought),
{
    let more = items.push(item);
    if items.contains(sought) {
        let k = choose|k: int| 0 <= k < items.len() && items[k] == sought;
        assert(more[k] == sought);
    }
    if item == sought {
        assert(more[items.len() as int] == sought);
    }
    if more.contains(sought) {
        let k = choose|k: int| 0 <= k < more.len() && more[k] == sought;
        if k < items.len() {
            assert(items[k] == sought);
        }
    }
}

// ---------------------------------------------------------------------------
// What a request asks for

/// Whether a comma-separated list has `word` in it, in any case.
pub open spec fn lists_word(text: Seq<char>, word: Seq<char>) -> bool {
    exists|i: int|
        0 <= i < split_on(text, ',').len() && same_but_case(
            trimmed(#[trigger] split_on(text, ',')[i]),
            word,
        )
}

/// Whether a request asks for another protocol on its connection.
pub open spec fn asks_upgrade(fields: Seq<(Seq<char>, Seq<u8>)>) -> bool {
    &&& values_of(fields, "upgrade"@).len() > 0
    &&& text_of(fields, "connection"@) matches Some(text) && lists_word(text, "upgrade"@)
}

/// Whether a request asks for another protocol on its connection.
pub fn is_upgrade_request(headers: &HeaderMap) -> (yes: bool)
    ensures
        yes == asks_upgrade(header_fields(*headers)),
{
    proof {
        lemma_names_are_lower();
    }
    if header_get(headers, "upgrade").is_none() {
        return false;
    }
    match header_text(headers, "connection") {
        Some(text) => {
            let chars = chars_of(text.as_str());
            let listed = split(chars.as_slice(), ',');
            let word = chars_of("upgrade");
            let mut i: usize = 0;
            while i < listed.len()
                invariant
                    i <= listed@.len(),
                    views_of(listed@) == split_on(chars@, ','),
                    word@ == "upgrade"@,
                    forall|k: int|
                        0 <= k < i ==> !same_but_case(
                            trimmed(#[trigger] split_on(chars@, ',')[k]),
                            "upgrade"@,
                        ),
                    chars@ == text@,
                    text_of(header_fields(*headers), "connection"@) == Some(text@),
                    values_of(header_fields(*headers), "upgrade"@).len() > 0,
                decreases listed@.len() - i,
            {
                assert(views_of(listed@)[i as int] == listed@[i as int]@);
                if same_ignoring_case(trim(listed[i].as_slice()), word.as_slice()) {
                    return true;
                }
                i = i + 1;
            }
            false
        },
        None => false,
    }
}

/// Whether a request announces a body of more than `limit` bytes.
pub open spec fn announces_more(fields: Seq<(Seq<char>, Seq<u8>)>, limit: nat) -> bool {
    text_of(fields, "content-length"@) matches Some(text) && number_value(
        text,
        10,
        u64::MAX as nat,
    ) matches Ok(length) && length > limit
}

/// Whether a request announces a body of more than `limit` bytes.
pub fn request_body_too_large(headers: &HeaderMap, limit: usize) -> (yes: bool)
    ensures
        yes == announces_more(header_fields(*headers), limit as nat),
{
    proof {
        lemma_names_are_lower();
    }
    match header_text(headers, "content-length") {
        Some(text) => {
            let chars = chars_of(text.as_str());
            match parse_number(chars.as_slice(), 10, u64::MAX) {
                Ok(length) => length > limit as u64,
                Err(_) => false,
            }
        },
        None => false,
    }
}

// ---------------------------------------------------------------------------
// Laws

/// Once the fields that concern a single connection are out, none of them is
/// left, every other field has all its values in their order, and taking them
/// out once more changes nothing.
pub proof fn law_removal_settles(
    before: Seq<(Seq<char>, Seq<u8>)>,
    after: Seq<(Seq<char>, Seq<u8>)>,
    name: Seq<char>,
)
    requires
        forall|n: Seq<char>| #[trigger] values_of(after, n) == passed_on(before, n),
    ensures
        hop_by_hop(name) ==> values_of(after, name).len() == 0,
        connection_names(before).contains(name) ==> values_of(after, name).len() == 0,
        !hop_by_hop(name) && !connection_names(before).contains(name) ==> values_of(after, name)
            == values_of(before, name),
        passed_on(after, name) == values_of(after, name),
{
    assert(values_of(after, "connection"@) == passed_on(before, "connection"@));
    assert(values_of(after, name) == passed_on(before, name));
}

/// The values of a field in two runs of fields are those in the one and then
/// those in the other. One field has its value under its own name alone.
pub proof fn law_values_add_up(
    a: Seq<(Seq<char>, Seq<u8>)>,
    b: Seq<(Seq<char>, Seq<u8>)>,
    name: Seq<char>,
    other: Seq<char>,
    value: Seq<u8>,
)
    ensures
        values_of(a + b, name) == values_of(a, name) + values_of(b, name),
        values_of(seq![(name, value)], name) == seq![value],
        other != name ==> values_of(seq![(name, value)], other).len() == 0,
        values_of(Seq::empty(), name).len() == 0,
    decreases b.len(),
{
    let one = seq![(name, value)];
    let nothing = Seq::<(Seq<char>, Seq<u8>)>::empty();
    assert(one.drop_last() =~= nothing);
    assert(one.last() == (name, value));
    assert(values_of(nothing, name) =~= Seq::empty());
    assert(values_of(nothing, other) =~= Seq::empty());
    assert(values_of(one, name) =~= seq![value]);
    if b.len() == 0 {
        assert(a + b =~= a);
        assert(values_of(a, name) + values_of(b, name) =~= values_of(a, name));
    } else {
        law_values_add_up(a, b.drop_last(), name, other, value);
        assert((a + b).drop_last() =~= a + b.drop_last());
        assert((a + b).last() == b.last());
        assert(values_of(a + b, name) =~= values_of(a, name) + values_of(b, name));
    }
}

/// The name of a field is made of visible ASCII characters, none of which is a
/// delimiter, and every such text of at most 65535 characters is one.
pub proof fn law_names_of_fields(name: Seq<char>)
    ensures
        field_name(name) <==> 1 <= name.len() <= 65535 && forall|i: int|
            0 <= i < name.len() ==> {
                let c = #[trigger] name[i];
                &&& '!' <= c <= '~'
                &&& c != '"' && c != '(' && c != ')' && c != ',' && c != '/' && c != ':' && c != ';'
                &&& c != '<' && c != '=' && c != '>' && c != '?' && c != '@'
                &&& c != '[' && c != '\\' && c != ']' && c != '{' && c != '}'
            },
{
    if field_name(name) {
        assert forall|i: int| 0 <= i < name.len() implies ({
            let c = #[trigger] name[i];
            &&& '!' <= c <= '~'
            &&& c != '"' && c != '(' && c != ')' && c != ',' && c != '/' && c != ':' && c != ';'
            &&& c != '<' && c != '=' && c != '>' && c != '?' && c != '@'
            &&& c != '[' && c != '\\' && c != ']' && c != '{' && c != '}'
        }) by {
            assert(token_char(name[i]));
        }
    }
}

/// The value of a field is any text without control characters, the tab aside.
pub proof fn law_values_of_fields(value: Seq<char>)
    ensures
        field_value(value) <==> forall|i: int|
            0 <= i < encode_utf8(value).len() ==> {
                let b = #[trigger] encode_utf8(value)[i];
                b == 9 || 32 <= b <= 126 || 128 <= b
            },
{
    if field_value(value) {
        assert forall|i: int| 0 <= i < encode_utf8(value).len() implies ({
            let b = #[trigger] encode_utf8(value)[i];
            b == 9 || 32 <= b <= 126 || 128 <= b
        }) by {
            assert(value_byte(encode_utf8(value)[i]));
        }
    }
}

/// A value is text where each of its bytes is a tab or a visible ASCII character,
/// and then that text has the same characters; any other value is none.
pub proof fn law_text_of_value(value: Seq<u8>)
    ensures
        value_text(value) is Some <==> forall|i: int|
            0 <= i < value.len() ==> (#[trigger] value[i] == 9 || 32 <= value[i] <= 126),
        value_text(value) matches Some(text) ==> text.len() == value.len() && forall|i: int|
            0 <= i < value.len() ==> #[trigger] text[i] as int == value[i] as int,
{
    if forall|i: int| 0 <= i < value.len() ==> (#[trigger] value[i] == 9 || 32 <= value[i] <= 126) {
        assert forall|i: int| 0 <= i < value.len() implies visible(#[trigger] value[i]) by {}
    }
    if value_text(value) is Some {
        assert forall|i: int| 0 <= i < value.len() implies (#[trigger] value[i] == 9 || 32
            <= value[i] <= 126) by {
            assert(visible(value[i]));
        }
    }
}

/// The text of a field is that of its first value: later ones do not matter, and
/// there is none where there is no value.
pub proof fn law_first_value_counts(
    before: Seq<(Seq<char>, Seq<u8>)>,
    after: Seq<(Seq<char>, Seq<u8>)>,
    name: Seq<char>,
    value: Seq<u8>,
)
    requires
        values_of(before, name).len() == 0,
    ensures
        text_of(before, name) is None,
        text_of(before + seq![(name, value)] + after, name) == value_text(value),
{
    law_values_add_up(before, seq![(name, value)], name, name, value);
    law_values_add_up(before + seq![(name, value)], after, name, name, value);
    let values = values_of(before + seq![(name, value)] + after, name);
    assert(values[0] == value);
}

proof fn lemma_names_among(pieces: Seq<Seq<char>>, name: Seq<char>)
    ensures
        names_among(pieces).contains(name) <==> exists|i: int|
            0 <= i < pieces.len() && field_name(trimmed(#[trigger] pieces[i])) && lower(
                trimmed(pieces[i]),
            ) == name,
    decreases pieces.len(),
{
    if pieces.len() > 0 {
        let less = pieces.drop_last();
        let n = pieces.len() - 1;
        lemma_names_among(less, name);
        let last = trimmed(pieces.last());
        assert(pieces.last() == pieces[n]);
        assert forall|i: int| 0 <= i < less.len() implies #[trigger] less[i] == pieces[i] by {}
        if field_name(last) {
            lemma_push_contains(names_among(less), lower(last), name);
        }
        if names_among(less).contains(name) {
            let i = choose|i: int|
                0 <= i < less.len() && field_name(trimmed(#[trigger] less[i])) && lower(
                    trimmed(less[i]),
                ) == name;
            assert(field_name(trimmed(pieces[i])));
        }
        if exists|i: int|
            0 <= i < pieces.len() && field_name(trimmed(#[trigger] pieces[i])) && lower(
                trimmed(pieces[i]),
            ) == name {
            let i = choose|i: int|
                0 <= i < pieces.len() && field_name(trimmed(#[trigger] pieces[i])) && lower(
                    trimmed(pieces[i]),
                ) == name;
            if i < n {
                assert(field_name(trimmed(less[i])) && lower(trimmed(less[i])) == name);
            }
        }
    }
}

/// The eight fields that concern a single connection wherever they stand.
pub open spec fn single_connection_names() -> Seq<Seq<char>> {
    seq![
        "connection"@,
        "keep-alive"@,
        "proxy-authenticate"@,
        "proxy-authorization"@,
        "te"@,
        "trailer"@,
        "transfer-encoding"@,
        "upgrade"@,
    ]
}

proof fn lemma_eight_names(name: Seq<char>)
    ensures
        hop_by_hop(name) <==> single_connection_names().contains(name),
{
    let all = single_connection_names();
    assert(all[0] == "connection"@ && all[1] == "keep-alive"@ && all[2] == "proxy-authenticate"@
        && all[3] == "proxy-authorization"@ && all[4] == "te"@ && all[5] == "trailer"@ && all[6]
        == "transfer-encoding"@ && all[7] == "upgrade"@);
    if hop_by_hop(name) {
        assert(all.contains(all[0]) && all.contains(all[1]) && all.contains(all[2]) && all.contains(
            all[3],
        ) && all.contains(all[4]) && all.contains(all[5]) && all.contains(all[6]) && all.contains(
            all[7],
        ));
    }
    if all.contains(name) {
        let k = choose|k: int| 0 <= k < all.len() && all[k] == name;
        assert(k == 0 || k == 1 || k == 2 || k == 3 || k == 4 || k == 5 || k == 6 || k == 7);
    }
}

/// A field is taken out if and only if it is one of the eight or the field
/// `connection` lists it, in letters of either case and with white space around
/// it or none. Any other field is passed on with all its values.
pub proof fn law_passed_on(
    fields: Seq<(Seq<char>, Seq<u8>)>,
    pieces: Seq<Seq<char>>,
    name: Seq<char>,
)
    requires
        pieces.len() > 0,
        forall|i: int, k: int|
            0 <= i < pieces.len() && 0 <= k < pieces[i].len() ==> #[trigger] pieces[i][k] != ',',
        text_of(fields, "connection"@) == Some(listed(pieces, ',')),
    ensures
        single_connection_names().contains(name) || (exists|i: int|
            0 <= i < pieces.len() && field_name(trimmed(#[trigger] pieces[i])) && lower(
                trimmed(pieces[i]),
            ) == name) ==> passed_on(fields, name).len() == 0,
        !single_connection_names().contains(name) && !(exists|i: int|
            0 <= i < pieces.len() && field_name(trimmed(#[trigger] pieces[i])) && lower(
                trimmed(pieces[i]),
            ) == name) ==> passed_on(fields, name) == values_of(fields, name),
{
    lemma_eight_names(name);
    lemma_split_listed(pieces, ',');
    lemma_names_among(pieces, name);
}

/// Where the field `connection` is not there, or is no text, only the eight
/// fields are taken out.
pub proof fn law_nothing_listed(fields: Seq<(Seq<char>, Seq<u8>)>, name: Seq<char>)
    requires
        text_of(fields, "connection"@) is None,
    ensures
        single_connection_names().contains(name) ==> passed_on(fields, name).len() == 0,
        !single_connection_names().contains(name) ==> passed_on(fields, name) == values_of(
            fields,
            name,
        ),
{
    lemma_eight_names(name);
    assert(!connection_names(fields).contains(name));
}

/// A request asks for another protocol if and only if it has a field `upgrade`
/// and its field `connection` lists that word, in letters of either case.
pub proof fn law_upgrade_is_asked(fields: Seq<(Seq<char>, Seq<u8>)>, pieces: Seq<Seq<char>>)
    requires
        pieces.len() > 0,
        forall|i: int, k: int|
            0 <= i < pieces.len() && 0 <= k < pieces[i].len() ==> #[trigger] pieces[i][k] != ',',
    ensures
        text_of(fields, "connection"@) is None ==> !asks_upgrade(fields),
        text_of(fields, "connection"@) == Some(listed(pieces, ',')) ==> (asks_upgrade(fields) <==> (
        values_of(fields, "upgrade"@).len() > 0 && exists|i: int|
            0 <= i < pieces.len() && same_but_case(trimmed(#[trigger] pieces[i]), "upgrade"@))),
{
    lemma_split_listed(pieces, ',');
    let text = listed(pieces, ',');
    assert(split_on(text, ',') == pieces);
    if exists|i: int| 0 <= i < pieces.len() && same_but_case(trimmed(#[trigger] pieces[i]), "upgrade"@) {
        let i = choose|i: int|
            0 <= i < pieces.len() && same_but_case(trimmed(#[trigger] pieces[i]), "upgrade"@);
        assert(same_but_case(trimmed(split_on(text, ',')[i]), "upgrade"@));
    }
    if lists_word(text, "upgrade"@) {
        let i = choose|i: int|
            0 <= i < split_on(text, ',').len() && same_but_case(
                trimmed(#[trigger] split_on(text, ',')[i]),
                "upgrade"@,
            );
        assert(same_but_case(trimmed(pieces[i]), "upgrade"@));
    }
}

/// A request announces too much if and only if its field `content-length` is a
/// number above the limit. One that is no 64-bit number announces nothing.
pub proof fn law_announced_length(fields: Seq<(Seq<char>, Seq<u8>)>, text: Seq<char>, limit: nat)
    ensures
        text_of(fields, "content-length"@) is None ==> !announces_more(fields, limit),
        text_of(fields, "content-length"@) == Some(text) ==> (announces_more(fields, limit)
            <==> all_digits(unsigned(text)) && limit < worth(unsigned(text), 10) <= u64::MAX),
{
    if all_digits(unsigned(text)) {
        law_numeral_is_read(text, u64::MAX as nat);
    }
    if number_value(text, 10, u64::MAX as nat) is Ok {
        law_only_decimal_is_read(text, u64::MAX as nat);
    }
}

/// A length written in decimal is too much if and only if it is above the limit.
pub proof fn law_written_length(fields: Seq<(Seq<char>, Seq<u8>)>, length: u64, limit: nat)
    requires
        text_of(fields, "content-length"@) == Some(decimal_text(length as nat)),
    ensures
        announces_more(fields, limit) <==> length > limit,
{
    let text = decimal_text(length as nat);
    law_number_is_written(length as nat, 10);
    assert forall|i: int| 0 <= i < text.len() implies '0' <= #[trigger] text[i] <= '9' by {
        assert(number_char(text[i], 10));
    }
    assert('0' <= text[0] <= '9');
    law_announced_length(fields, text, limit);
}

} // verus!
