//! Handlers that speak FastCGI: records, parameters and scripts.

use vstd::prelude::*;
use vstd::slice::slice_subrange;
use vstd::utf8::encode_utf8;

use crate::error::SiteError;
use crate::headers::{field_name, field_views, header_fields, header_list, header_text, text_of, value_text,
    visible_text};
use crate::manifest::Serve;
use crate::number::{all_digits, decimal, decimal_text, law_number_is_written, number_char, worth};
use crate::path::{joined, law_join_stays_within, lemma_trimmed_is_relative, lossy_text, plain,
    within, FilePath};
use crate::reply::{response, Reply};
use crate::request::RequestHead;
use crate::resolver::ResolvedSite;
use crate::stdio::{cgi_outcome, cgi_reply, header_variable, header_variable_name};
use crate::text::{chars_of, ends_with, law_marks_are_taken_off, lower, same_but_case,
    same_ignoring_case, same_text, string_of, trim_leading, without_leading};

verus! {

// ---------------------------------------------------------------------------
// Records

/// The type of a record that begins a request.
pub const BEGIN_REQUEST: u8 = 1;

/// The type of a record that ends a request.
pub const END_REQUEST: u8 = 3;

/// The type of a record with parameters.
pub const PARAMS: u8 = 4;

/// The type of a record with a part of the request body.
pub const STDIN: u8 = 5;

/// The type of a record with a part of the output.
pub const STDOUT: u8 = 6;

/// The type of a record with messages.
pub const STDERR: u8 = 7;

/// The most bytes that one record holds.
pub const RECORD_ROOM: usize = 65535;

/// How many bytes fill a record of this length up to a multiple of eight.
pub open spec fn padding(length: nat) -> nat {
    ((8 - length % 8) % 8) as nat
}

/// A record of the one request on a connection.
pub open spec fn record(record_type: u8, content: Seq<u8>) -> Seq<u8> {
    let length = content.len() % 65536;
    seq![
        1u8,
        record_type,
        0u8,
        1u8,
        (length / 256) as u8,
        (length % 256) as u8,
        padding(content.len()) as u8,
        0u8,
    ] + content + Seq::new(padding(content.len()), |i: int| 0u8)
}

/// Adds a record to what is sent.
pub fn write_fastcgi_record(stream: &mut Vec<u8>, record_type: u8, content: &[u8])
    ensures
        final(stream)@ == old(stream)@ + record(record_type, content@),
{
    let ghost before = stream@;
    let size = content.len();
    let fill: usize = (8 - size % 8) % 8;
    let length: usize = size % 65536;
    stream.push(1);
    stream.push(record_type);
    stream.push(0);
    stream.push(1);
    stream.push((length / 256) as u8);
    stream.push((length % 256) as u8);
    stream.push(fill as u8);
    stream.push(0);
    stream.extend_from_slice(content);
    let ghost filled = stream@;
    let mut i: usize = 0;
    while i < fill
        invariant
            i <= fill,
            stream@ == filled + Seq::new(i as nat, |k: int| 0u8),
        decreases fill - i,
    {
        stream.push(0);
        i = i + 1;
        assert(stream@ =~= filled + Seq::new(i as nat, |k: int| 0u8));
    }
    assert(stream@ =~= before + record(record_type, content@));
}

/// Bytes in records of one type, and behind them the empty record that ends
/// them.
pub open spec fn records(record_type: u8, bytes: Seq<u8>) -> Seq<u8>
    decreases bytes.len(),
{
    if bytes.len() == 0 {
        record(record_type, bytes)
    } else if bytes.len() <= RECORD_ROOM {
        record(record_type, bytes) + record(record_type, Seq::empty())
    } else {
        record(record_type, bytes.take(RECORD_ROOM as int)) + records(
            record_type,
            bytes.skip(RECORD_ROOM as int),
        )
    }
}

fn write_records(stream: &mut Vec<u8>, record_type: u8, bytes: &[u8])
    ensures
        final(stream)@ == old(stream)@ + records(record_type, bytes@),
{
    let ghost before = stream@;
    let n = bytes.len();
    let mut at: usize = 0;
    assert(bytes@.skip(0) =~= bytes@);
    while n - at > RECORD_ROOM
        invariant
            n == bytes@.len(),
            at <= n,
            stream@ + records(record_type, bytes@.skip(at as int)) == before + records(
                record_type,
                bytes@,
            ),
        decreases n - at,
    {
        let ghost rest = bytes@.skip(at as int);
        let chunk = slice_subrange(bytes, at, at + RECORD_ROOM);
        let ghost sent = stream@;
        write_fastcgi_record(stream, record_type, chunk);
        proof {
            assert(chunk@ =~= rest.take(RECORD_ROOM as int));
            assert(bytes@.skip(at + RECORD_ROOM) =~= rest.skip(RECORD_ROOM as int));
            let head = record(record_type, chunk@);
            let tail = records(record_type, bytes@.skip(at + RECORD_ROOM));
            assert(records(record_type, rest) == head + tail);
            assert((sent + head) + tail =~= sent + (head + tail));
        }
        at = at + RECORD_ROOM;
    }
    let ghost rest = bytes@.skip(at as int);
    let ghost sent = stream@;
    if at < n {
        let chunk = slice_subrange(bytes, at, n);
        assert(chunk@ =~= rest);
        write_fastcgi_record(stream, record_type, chunk);
    }
    let nothing: Vec<u8> = Vec::new();
    let ghost middle = stream@;
    write_fastcgi_record(stream, record_type, nothing.as_slice());
    proof {
        assert(nothing@ =~= Seq::<u8>::empty());
        let end = record(record_type, Seq::empty());
        assert(stream@ == middle + end);
        if rest.len() > 0 {
            let head = record(record_type, rest);
            assert(middle == sent + head);
            assert(middle + end =~= sent + (head + end));
        } else {
            assert(rest =~= Seq::empty());
        }
        assert(stream@ == sent + records(record_type, rest));
    }
}

/// The content of the record that begins a request: the role of a responder.
pub open spec fn begin_content() -> Seq<u8> {
    seq![0, 1, 0, 0, 0, 0, 0, 0]
}

/// A whole request.
pub open spec fn request_stream(params: Seq<u8>, body: Seq<u8>) -> Seq<u8> {
    record(BEGIN_REQUEST, begin_content()) + records(PARAMS, params) + records(STDIN, body)
}

/// A whole request with these parameters and this body.
pub fn fastcgi_request(params: &[(String, String)], body: &[u8]) -> (stream: Vec<u8>)
    ensures
        stream@ == request_stream(encoded(param_views(params@)), body@),
{
    let mut stream: Vec<u8> = Vec::new();
    let begin: Vec<u8> = vec![0, 1, 0, 0, 0, 0, 0, 0];
    assert(begin@ =~= begin_content());
    write_fastcgi_record(&mut stream, BEGIN_REQUEST, begin.as_slice());
    assert(stream@ =~= record(BEGIN_REQUEST, begin_content()));
    let bytes = encode_fastcgi_params(params);
    write_records(&mut stream, PARAMS, bytes.as_slice());
    write_records(&mut stream, STDIN, body);
    stream
}

// ---------------------------------------------------------------------------
// Parameters

/// The bytes that tell a length: one for a short one, else four, with the
/// highest bit set.
pub open spec fn length_bytes(length: nat) -> Seq<u8> {
    if length < 128 {
        seq![length as u8]
    } else {
        seq![
            (128 + (length / 16777216) % 128) as u8,
            ((length / 65536) % 256) as u8,
            ((length / 256) % 256) as u8,
            (length % 256) as u8,
        ]
    }
}

/// Adds the bytes that tell a length.
pub fn encode_fastcgi_length(length: usize, output: &mut Vec<u8>)
    ensures
        final(output)@ == old(output)@ + length_bytes(length as nat),
{
    let ghost before = output@;
    if length < 128 {
        output.push(length as u8);
    } else {
        output.push((128 + (length / 16777216) % 128) as u8);
        output.push(((length / 65536) % 256) as u8);
        output.push(((length / 256) % 256) as u8);
        output.push((length % 256) as u8);
    }
    assert(output@ =~= before + length_bytes(length as nat));
}

/// The views of a list of parameters, as bytes.
pub open spec fn param_views(params: Seq<(String, String)>) -> Seq<(Seq<u8>, Seq<u8>)> {
    params.map_values(|param: (String, String)| (encode_utf8(param.0@), encode_utf8(param.1@)))
}

/// One parameter as it is sent.
pub open spec fn encoded_param(param: (Seq<u8>, Seq<u8>)) -> Seq<u8> {
    length_bytes(param.0.len()) + length_bytes(param.1.len()) + param.0 + param.1
}

/// Parameters as they are sent.
pub open spec fn encoded(params: Seq<(Seq<u8>, Seq<u8>)>) -> Seq<u8>
    decreases params.len(),
{
    if params.len() == 0 {
        Seq::empty()
    } else {
        encoded(params.drop_last()) + encoded_param(params.last())
    }
}

/// Parameters as they are sent: of each, the lengths of its name and its value,
/// the name and the value.
pub fn encode_fastcgi_params(params: &[(String, String)]) -> (bytes: Vec<u8>)
    ensures
        bytes@ == encoded(param_views(params@)),
{
    let mut bytes: Vec<u8> = Vec::new();
    let ghost all = param_views(params@);
    assert(all.take(0) =~= Seq::empty());
    let mut i: usize = 0;
    while i < params.len()
        invariant
            i <= params@.len(),
            all == param_views(params@),
            bytes@ == encoded(all.take(i as int)),
        decreases params@.len() - i,
    {
        let ghost before = bytes@;
        let name = params[i].0.as_str().as_bytes();
        let value = params[i].1.as_str().as_bytes();
        encode_fastcgi_length(name.len(), &mut bytes);
        encode_fastcgi_length(value.len(), &mut bytes);
        bytes.extend_from_slice(name);
        bytes.extend_from_slice(value);
        proof {
            assert(all[i as int] == (name@, value@));
            assert(all.take(i + 1).drop_last() =~= all.take(i as int));
            assert(all.take(i + 1).last() == all[i as int]);
            assert(bytes@ =~= before + encoded_param((name@, value@)));
        }
        i = i + 1;
    }
    assert(all.take(i as int) =~= all);
    bytes
}

// ---------------------------------------------------------------------------
// Scripts

/// What a path asks for, seen from the root.
pub open spec fn requested(path: Seq<char>) -> Seq<char> {
    without_leading(path, '/')
}

/// Whether a path names a script below the root.
pub open spec fn names_script(path: Seq<char>) -> bool {
    plain(encode_utf8(requested(path))) && ".php"@.is_suffix_of(requested(path))
}

/// The script that a request runs.
#[derive(Debug)]
pub struct Script {
    /// The directory of the scripts.
    pub root: FilePath,
    /// The file of the script.
    pub filename: FilePath,
    /// How a request names the script.
    pub name: String,
}

impl Script {
    /// Whether this is the script `relative` below `root`.
    pub open spec fn is_below(self, root: Seq<u8>, relative: Seq<char>) -> bool {
        &&& self.root@ == root
        &&& self.filename@ == joined(root, encode_utf8(relative))
        &&& self.name@ == "/"@ + relative
    }
}

/// The script that a path names, where it names one: the caller looks whether
/// it is a file.
pub fn script_candidate(site: &ResolvedSite, path: &str) -> (candidate: Result<
    Option<FilePath>,
    SiteError,
>)
    ensures
        match site.manifest.serve {
            Serve::Fastcgi { document_root, .. } => if names_script(path@) {
                candidate matches Ok(Some(file)) && file@ == joined(
                    joined(site.directory@, encode_utf8(document_root@)),
                    encode_utf8(requested(path@)),
                )
            } else {
                candidate matches Ok(None)
            },
            _ => candidate == Err::<Option<FilePath>, _>(SiteError::NotFastcgi),
        },
        candidate is Ok <==> site.manifest.serve is Fastcgi,
        candidate matches Ok(found) ==> (found is Some <==> names_script(path@)),
{
    match &site.manifest.serve {
        Serve::Fastcgi { document_root, .. } => {
            let chars = chars_of(path);
            let rest = trim_leading(chars.as_slice(), '/');
            let relative = string_of(rest);
            let suffix = chars_of(".php");
            if FilePath::from_text(relative.as_str()).is_plain() && ends_with(
                rest,
                suffix.as_slice(),
            ) {
                let root = site.directory.join(document_root.as_str());
                Ok(Some(root.join(relative.as_str())))
            } else {
                Ok(None)
            }
        },
        _ => Err(SiteError::NotFastcgi),
    }
}

/// The script that a request runs: the one that its path names, where that is
/// a file, and else the front controller.
pub fn select_script(site: &ResolvedSite, path: &str, is_file: bool) -> (script: Result<
    Script,
    SiteError,
>)
    ensures
        match site.manifest.serve {
            Serve::Fastcgi { document_root, front_controller, .. } => script matches Ok(selected)
                && selected.is_below(
                joined(site.directory@, encode_utf8(document_root@)),
                if names_script(path@) && is_file {
                    requested(path@)
                } else {
                    front_controller@
                },
            ),
            _ => script == Err::<Script, _>(SiteError::NotFastcgi),
        },
        script is Ok <==> site.manifest.serve is Fastcgi,
        script matches Ok(selected) ==> {
            &&& names_script(path@) && is_file ==> selected.name@ == "/"@ + requested(path@)
            &&& !names_script(path@) || !is_file ==> selected.name@ == "/"@
                + site.manifest.serve->front_controller@
        },
{
    match &site.manifest.serve {
        Serve::Fastcgi { document_root, front_controller, .. } => {
            let root = site.directory.join(document_root.as_str());
            let chars = chars_of(path);
            let rest = trim_leading(chars.as_slice(), '/');
            let relative = string_of(rest);
            let suffix = chars_of(".php");
            let direct = is_file && FilePath::from_text(relative.as_str()).is_plain() && ends_with(
                rest,
                suffix.as_slice(),
            );
            let chosen = if direct {
                relative.as_str()
            } else {
                front_controller.as_str()
            };
            let filename = root.join(chosen);
            Ok(Script { root, filename, name: "/".to_string().concat(chosen) })
        },
        _ => Err(SiteError::NotFastcgi),
    }
}

/// The reply to a request whose script does not exist.
fn script_missing() -> (reply: Reply)
    ensures
        reply.is_text(404, "FastCGI script not found\n"@),
{
    response(404, "FastCGI script not found\n")
}

// ---------------------------------------------------------------------------
// The parameters of a request

/// The parameters in header fields: each field whose value is text, but for the
/// length of the body.
pub open spec fn field_params(fields: Seq<(Seq<char>, Seq<u8>)>) -> Seq<(Seq<char>, Seq<char>)>
    decreases fields.len(),
{
    if fields.len() == 0 {
        Seq::empty()
    } else {
        let before = field_params(fields.drop_last());
        let name = fields.last().0;
        match value_text(fields.last().1) {
            Some(text) => if name == "content-type"@ {
                before.push(("CONTENT_TYPE"@, text))
            } else if name != "content-length"@ {
                before.push((header_variable(name), text))
            } else {
                before
            },
            None => before,
        }
    }
}

/// Whether a request came in over TLS before it was passed on.
pub open spec fn came_over_tls(fields: Seq<(Seq<char>, Seq<u8>)>) -> bool {
    text_of(fields, "x-forwarded-proto"@) matches Some(text) && same_but_case(text, "https"@)
}

/// The parameters that tell of TLS.
pub open spec fn tls_params(fields: Seq<(Seq<char>, Seq<u8>)>) -> Seq<(Seq<char>, Seq<char>)> {
    if came_over_tls(fields) {
        seq![("HTTPS"@, "on"@), ("SERVER_PORT"@, "443"@)]
    } else {
        Seq::empty()
    }
}

/// The parameters of a request, in their order.
pub open spec fn request_params(
    domain: Seq<char>,
    request: RequestHead,
    script: Script,
    body_length: nat,
) -> Seq<(Seq<char>, Seq<char>)> {
    seq![
        ("GATEWAY_INTERFACE"@, "CGI/1.1"@),
        ("SERVER_SOFTWARE"@, "multi-server"@),
        ("SERVER_PROTOCOL"@, request.version@),
        ("REQUEST_METHOD"@, request.method@),
        ("REQUEST_URI"@, request.uri@),
        ("DOCUMENT_URI"@, request.path@),
        ("QUERY_STRING"@, request.query_text()),
        ("SCRIPT_NAME"@, script.name@),
        ("SCRIPT_FILENAME"@, lossy_text(script.filename@)),
        ("DOCUMENT_ROOT"@, lossy_text(script.root@)),
        ("SERVER_NAME"@, domain),
        ("SERVER_PORT"@, "80"@),
        ("REMOTE_ADDR"@, "127.0.0.1"@),
        ("CONTENT_LENGTH"@, decimal_text(body_length)),
        ("REDIRECT_STATUS"@, "200"@),
    ] + field_params(header_fields(request.headers)) + tls_params(header_fields(request.headers))
}

/// The views of a list of parameters.
pub open spec fn pair_views(params: Seq<(String, String)>) -> Seq<(Seq<char>, Seq<char>)> {
    params.map_values(|param: (String, String)| (param.0@, param.1@))
}

fn add_param(params: &mut Vec<(String, String)>, name: &str, value: String)
    ensures
        pair_views(final(params)@) == pair_views(old(params)@).push((name@, value@)),
{
    let ghost before = pair_views(params@);
    params.push((name.to_string(), value));
    assert(pair_views(params@) =~= before.push((name@, value@)));
}

proof fn lemma_field_names_are_lower()
    ensures
        field_name("x-forwarded-proto"@),
        lower("x-forwarded-proto"@) == "x-forwarded-proto"@,
{
    reveal_strlit("x-forwarded-proto");
    assert(lower("x-forwarded-proto"@) =~= "x-forwarded-proto"@);
}

fn add_field_params(params: &mut Vec<(String, String)>, request: &RequestHead)
    ensures
        pair_views(final(params)@) == pair_views(old(params)@) + field_params(
            header_fields(request.headers),
        ),
{
    let ghost before = pair_views(params@);
    let fields = header_list(&request.headers);
    let ghost all = header_fields(request.headers);
    assert(all.take(0) =~= Seq::empty());
    assert(before =~= before + field_params(all.take(0)));
    let mut i: usize = 0;
    while i < fields.len()
        invariant
            i <= fields@.len(),
            field_views(fields@) == all,
            pair_views(params@) == before + field_params(all.take(i as int)),
        decreases fields@.len() - i,
    {
        let ghost known = field_params(all.take(i as int));
        proof {
            assert(field_views(fields@)[i as int] == (fields@[i as int].0@, fields@[i as int].1@));
            assert(all.take(i + 1).drop_last() =~= all.take(i as int));
            assert(all.take(i + 1).last() == all[i as int]);
        }
        let name = fields[i].0.as_str();
        if let Some(text) = visible_text(fields[i].1.as_slice()) {
            let ghost shown = text@;
            if same_text(name, "content-type") {
                add_param(params, "CONTENT_TYPE", text);
                assert(pair_views(params@) =~= before + known.push(("CONTENT_TYPE"@, shown)));
            } else if !same_text(name, "content-length") {
                let variable = header_variable_name(name);
                add_param(params, variable.as_str(), text);
                assert(pair_views(params@) =~= before + known.push((header_variable(name@), shown)));
            }
        }
        i = i + 1;
    }
    assert(all.take(i as int) =~= all);
}

/// The parameters of a request for a script of a site.
pub fn forward_fastcgi(
    domain: &str,
    request: &RequestHead,
    script: &Script,
    body_length: usize,
) -> (params: Vec<(String, String)>)
    ensures
        pair_views(params@) == request_params(domain@, *request, *script, body_length as nat),
{
    let mut params: Vec<(String, String)> = Vec::new();
    assert(pair_views(params@) =~= Seq::empty());
    add_param(&mut params, "GATEWAY_INTERFACE", "CGI/1.1".to_string());
    add_param(&mut params, "SERVER_SOFTWARE", "multi-server".to_string());
    add_param(&mut params, "SERVER_PROTOCOL", request.version.clone());
    add_param(&mut params, "REQUEST_METHOD", request.method.clone());
    add_param(&mut params, "REQUEST_URI", request.uri.clone());
    add_param(&mut params, "DOCUMENT_URI", request.path.clone());
    add_param(&mut params, "QUERY_STRING", request.query_or_empty());
    add_param(&mut params, "SCRIPT_NAME", script.name.clone());
    add_param(&mut params, "SCRIPT_FILENAME", script.filename.to_text());
    add_param(&mut params, "DOCUMENT_ROOT", script.root.to_text());
    add_param(&mut params, "SERVER_NAME", domain.to_string());
    add_param(&mut params, "SERVER_PORT", "80".to_string());
    add_param(&mut params, "REMOTE_ADDR", "127.0.0.1".to_string());
    add_param(&mut params, "CONTENT_LENGTH", decimal(body_length as u64));
    add_param(&mut params, "REDIRECT_STATUS", "200".to_string());
    let ghost fixed = pair_views(params@);
    add_field_params(&mut params, request);
    let ghost fields = header_fields(request.headers);
    let ghost known = pair_views(params@);
    proof {
        lemma_field_names_are_lower();
        assert(known == fixed + field_params(fields));
    }
    let over_tls = match header_text(&request.headers, "x-forwarded-proto") {
        Some(text) => {
            let chars = chars_of(text.as_str());
            let scheme = chars_of("https");
            same_ignoring_case(chars.as_slice(), scheme.as_slice())
        },
        None => false,
    };
    assert(over_tls == came_over_tls(fields));
    if over_tls {
        add_param(&mut params, "HTTPS", "on".to_string());
        add_param(&mut params, "SERVER_PORT", "443".to_string());
        assert(pair_views(params@) =~= known + tls_params(fields));
    } else {
        assert(pair_views(params@) =~= known + tls_params(fields));
    }
    proof {
        let expected = request_params(domain@, *request, *script, body_length as nat);
        assert(fixed.len() == 15);
        assert(fixed =~= expected.take(15));
        assert(pair_views(params@) =~= expected);
    }
    params
}

/// What is done with a request whose script is selected.
#[derive(Debug)]
pub enum FastcgiStep {
    /// It is answered without the process.
    Answer(Reply),
    /// These bytes are sent to the process.
    Send(Vec<u8>),
}

/// Parameters as bytes.
pub open spec fn param_bytes(params: Seq<(Seq<char>, Seq<char>)>) -> Seq<(Seq<u8>, Seq<u8>)> {
    params.map_values(
        |param: (Seq<char>, Seq<char>)| (encode_utf8(param.0), encode_utf8(param.1)),
    )
}

/// What is done with a request, once it is known whether its script exists: one
/// whose script does not is answered, and another is sent to the process.
pub fn begin_fastcgi(
    domain: &str,
    request: &RequestHead,
    script: &Script,
    is_there: bool,
    body: &[u8],
) -> (step: FastcgiStep)
    ensures
        if is_there {
            step matches FastcgiStep::Send(stream) && stream@ == request_stream(
                encoded(
                    param_bytes(request_params(domain@, *request, *script, body@.len())),
                ),
                body@,
            )
        } else {
            step matches FastcgiStep::Answer(reply) && reply.is_text(
                404,
                "FastCGI script not found\n"@,
            )
        },
        step is Send <==> is_there,
        step matches FastcgiStep::Answer(reply) ==> reply.status == 404,
{
    if !is_there {
        return FastcgiStep::Answer(script_missing());
    }
    let params = forward_fastcgi(domain, request, script, body.len());
    assert(param_views(params@) =~= param_bytes(pair_views(params@)));
    FastcgiStep::Send(fastcgi_request(params.as_slice(), body))
}

// ---------------------------------------------------------------------------
// The answer

/// The head of a record.
#[derive(Debug, PartialEq, Eq, Structural, Clone, Copy)]
pub struct RecordHead {
    /// The type of the record.
    pub record_type: u8,
    /// The length of its content.
    pub content_length: u16,
    /// The length of the padding behind its content.
    pub padding_length: u8,
}

/// The head of a record of the one request on a connection.
pub open spec fn record_head(bytes: Seq<u8>) -> Option<RecordHead> {
    if bytes.len() >= 8 && bytes[0] == 1 && bytes[2] == 0 && bytes[3] == 1 {
        Some(
            RecordHead {
                record_type: bytes[1],
                content_length: (bytes[4] * 256 + bytes[5]) as u16,
                padding_length: bytes[6],
            },
        )
    } else {
        None
    }
}

/// Reads the head of a record.
pub fn read_record_head(bytes: &[u8; 8]) -> (head: Result<RecordHead, SiteError>)
    ensures
        match record_head(bytes@) {
            Some(found) => head == Ok::<_, SiteError>(found),
            None => head == Err::<RecordHead, _>(SiteError::FastcgiRecord),
        },
{
    if bytes[0] != 1 || bytes[2] != 0 || bytes[3] != 1 {
        return Err(SiteError::FastcgiRecord);
    }
    Ok(
        RecordHead {
            record_type: bytes[1],
            content_length: bytes[4] as u16 * 256 + bytes[5] as u16,
            padding_length: bytes[6],
        },
    )
}

/// What a handler has answered so far.
#[derive(Debug)]
pub struct Answer {
    /// Its output.
    pub output: Vec<u8>,
    /// Its messages.
    pub messages: Vec<u8>,
}

/// How the reading of an answer goes on.
#[derive(Debug)]
pub enum AnswerStep {
    /// With the next record.
    Continue,
    /// It is over.
    Finished,
}

impl Answer {
    /// Nothing yet.
    pub fn new() -> (answer: Answer)
        ensures
            answer.output@ == Seq::<u8>::empty(),
            answer.messages@ == Seq::<u8>::empty(),
    {
        Answer { output: Vec::new(), messages: Vec::new() }
    }

    /// The output once one more record is there.
    pub open spec fn output_with(self, record_type: u8, content: Seq<u8>) -> Seq<u8> {
        if record_type == STDOUT {
            self.output@ + content
        } else {
            self.output@
        }
    }

    /// The messages once one more record is there.
    pub open spec fn messages_with(self, record_type: u8, content: Seq<u8>) -> Seq<u8> {
        if record_type == STDERR {
            self.messages@ + content
        } else {
            self.messages@
        }
    }

    /// Takes in one more record. A record of another type is passed over, and an
    /// output of more than `limit` bytes is refused.
    pub fn take_record(&mut self, record_type: u8, content: &[u8], limit: usize) -> (step: Result<
        AnswerStep,
        SiteError,
    >)
        ensures
            final(self).output@ == old(self).output_with(record_type, content@),
            final(self).messages@ == old(self).messages_with(record_type, content@),
            step == if record_type == END_REQUEST {
                Ok::<AnswerStep, SiteError>(AnswerStep::Finished)
            } else if final(self).output@.len() > limit {
                Err(SiteError::FastcgiOutput)
            } else {
                Ok(AnswerStep::Continue)
            },
            step matches Ok(AnswerStep::Finished) <==> record_type == 3,
            step is Err ==> final(self).output@.len() > limit,
            step matches Ok(AnswerStep::Continue) ==> final(self).output@.len() <= limit,
            final(self).output@.len() == old(self).output@.len() + if record_type == 6 {
                content@.len()
            } else {
                0
            },
            old(self).output@.is_prefix_of(final(self).output@),
            old(self).messages@.is_prefix_of(final(self).messages@),
    {
        let ghost output = self.output@;
        let ghost messages = self.messages@;
        assert(output.subrange(0, output.len() as int) =~= output);
        assert(messages.subrange(0, messages.len() as int) =~= messages);
        if record_type == END_REQUEST {
            return Ok(AnswerStep::Finished);
        }
        if record_type == STDOUT {
            let ghost before = self.output@;
            self.output.extend_from_slice(content);
            assert(self.output@ =~= before + content@);
            assert(self.output@.subrange(0, before.len() as int) =~= before);
        } else if record_type == STDERR {
            let ghost before = self.messages@;
            self.messages.extend_from_slice(content);
            assert(self.messages@ =~= before + content@);
            assert(self.messages@.subrange(0, before.len() as int) =~= before);
        }
        if self.output.len() > limit {
            return Err(SiteError::FastcgiOutput);
        }
        Ok(AnswerStep::Continue)
    }

    /// The reply in an answer that is over.
    pub fn into_reply(self) -> (reply: Result<Reply, SiteError>)
        ensures
            cgi_outcome(self.output@, reply),
    {
        cgi_reply(self.output.as_slice())
    }
}

// ---------------------------------------------------------------------------
// Laws

/// The record at the beginning of a stream: its type, its content and what
/// follows it.
pub open spec fn first_record(stream: Seq<u8>) -> Option<(u8, Seq<u8>, Seq<u8>)> {
    match record_head(stream) {
        Some(head) => {
            let end = 8 + head.content_length as int;
            if stream.len() >= end + head.padding_length {
                Some(
                    (
                        head.record_type,
                        stream.subrange(8, end),
                        stream.skip(end + head.padding_length),
                    ),
                )
            } else {
                None
            }
        },
        None => None,
    }
}

/// The bytes in the records of one type at the beginning of a stream, up to the
/// empty one, and what follows that.
pub open spec fn first_bytes(record_type: u8, stream: Seq<u8>) -> Option<(Seq<u8>, Seq<u8>)>
    decreases stream.len(),
{
    match first_record(stream) {
        Some((found, content, rest)) => if found != record_type || rest.len() >= stream.len() {
            None
        } else if content.len() == 0 {
            Some((content, rest))
        } else {
            match first_bytes(record_type, rest) {
                Some((more, behind)) => Some((content + more, behind)),
                None => None,
            }
        },
        None => None,
    }
}

/// A record is read back as it was written, whatever follows it, and its length
/// is a multiple of eight.
pub proof fn law_record_reads_back(record_type: u8, content: Seq<u8>, rest: Seq<u8>)
    requires
        content.len() <= RECORD_ROOM,
    ensures
        record(record_type, content).len() % 8 == 0,
        first_record(record(record_type, content) + rest) == Some((record_type, content, rest)),
{
    let length = content.len();
    let written = record(record_type, content);
    let stream = written + rest;
    assert(written.len() == 8 + length + padding(length));
    assert(stream[0] == 1 && stream[1] == record_type && stream[2] == 0 && stream[3] == 1);
    assert(stream[4] == (length / 256) as u8 && stream[5] == (length % 256) as u8);
    assert(stream[6] == padding(length) as u8);
    let head = record_head(stream)->Some_0;
    assert(head.content_length == length);
    assert(head.padding_length == padding(length));
    assert(stream.subrange(8, 8 + length as int) =~= content);
    assert(stream.skip((8 + length + padding(length)) as int) =~= rest);
}

/// Bytes that were sent in records are read back whole, whatever follows them.
pub proof fn law_bytes_read_back(record_type: u8, bytes: Seq<u8>, rest: Seq<u8>)
    ensures
        first_bytes(record_type, records(record_type, bytes) + rest) == Some((bytes, rest)),
    decreases bytes.len(),
{
    let empty = Seq::<u8>::empty();
    let end = record(record_type, empty);
    law_record_reads_back(record_type, empty, rest);
    assert(end.len() == 8);
    if bytes.len() == 0 {
        assert(bytes =~= empty);
    } else if bytes.len() <= RECORD_ROOM {
        let head = record(record_type, bytes);
        law_record_reads_back(record_type, bytes, end + rest);
        assert((head + end) + rest =~= head + (end + rest));
        assert(first_bytes(record_type, end + rest) == Some((empty, rest)));
        assert(bytes + empty =~= bytes);
    } else {
        let chunk = bytes.take(RECORD_ROOM as int);
        let more = bytes.skip(RECORD_ROOM as int);
        let head = record(record_type, chunk);
        let tail = records(record_type, more);
        law_bytes_read_back(record_type, more, rest);
        law_record_reads_back(record_type, chunk, tail + rest);
        assert((head + tail) + rest =~= head + (tail + rest));
        assert(chunk + more =~= bytes);
    }
}

/// A whole request is read back: the record that begins it, the parameters and
/// the body.
pub proof fn law_request_reads_back(params: Seq<u8>, body: Seq<u8>)
    ensures
        first_record(request_stream(params, body)) == Some(
            (BEGIN_REQUEST, begin_content(), records(PARAMS, params) + records(STDIN, body)),
        ),
        first_bytes(PARAMS, records(PARAMS, params) + records(STDIN, body)) == Some(
            (params, records(STDIN, body)),
        ),
        first_bytes(STDIN, records(STDIN, body)) == Some((body, Seq::<u8>::empty())),
{
    let begin = record(BEGIN_REQUEST, begin_content());
    let a = records(PARAMS, params);
    let b = records(STDIN, body);
    assert(begin + a + b =~= begin + (a + b));
    law_record_reads_back(BEGIN_REQUEST, begin_content(), a + b);
    law_bytes_read_back(PARAMS, params, b);
    law_bytes_read_back(STDIN, body, Seq::empty());
    assert(b + Seq::<u8>::empty() =~= b);
}

/// The length at the beginning of some bytes, and how many of them tell it.
pub open spec fn first_length(bytes: Seq<u8>) -> Option<(nat, nat)> {
    if bytes.len() == 0 {
        None
    } else if bytes[0] < 128 {
        Some((bytes[0] as nat, 1))
    } else if bytes.len() < 4 {
        None
    } else {
        Some(
            (
                ((bytes[0] - 128) * 16777216 + bytes[1] * 65536 + bytes[2] * 256
                    + bytes[3]) as nat,
                4,
            ),
        )
    }
}

/// The parameter at the beginning of some bytes, and what follows it.
pub open spec fn first_param(bytes: Seq<u8>) -> Option<((Seq<u8>, Seq<u8>), Seq<u8>)> {
    match first_length(bytes) {
        Some((name_length, a)) => match first_length(bytes.skip(a as int)) {
            Some((value_length, b)) => {
                let at = a + b;
                if bytes.len() >= at + name_length + value_length {
                    Some(
                        (
                            (
                                bytes.subrange(at as int, (at + name_length) as int),
                                bytes.subrange(
                                    (at + name_length) as int,
                                    (at + name_length + value_length) as int,
                                ),
                            ),
                            bytes.skip((at + name_length + value_length) as int),
                        ),
                    )
                } else {
                    None
                }
            },
            None => None,
        },
        None => None,
    }
}

/// A length is read back, whatever follows it.
pub proof fn law_length_reads_back(length: nat, rest: Seq<u8>)
    requires
        length < 0x8000_0000,
    ensures
        first_length(length_bytes(length) + rest) == Some((length, length_bytes(length).len())),
{
    let bytes = length_bytes(length) + rest;
    if length < 128 {
        assert(bytes[0] == length);
    } else {
        assert(bytes[0] == 128 + (length / 16777216) % 128);
        assert(bytes[1] == (length / 65536) % 256);
        assert(bytes[2] == (length / 256) % 256);
        assert(bytes[3] == length % 256);
    }
}

proof fn lemma_pieces(a: Seq<u8>, b: Seq<u8>, c: Seq<u8>, d: Seq<u8>, rest: Seq<u8>)
    ensures
        ({
            let whole = (a + b + c + d) + rest;
            let at = a.len() + b.len();
            &&& whole.len() == at + c.len() + d.len() + rest.len()
            &&& whole == a + (b + (c + d + rest))
            &&& whole.skip(a.len() as int) == b + (c + d + rest)
            &&& whole.subrange(at as int, (at + c.len()) as int) == c
            &&& whole.subrange((at + c.len()) as int, (at + c.len() + d.len()) as int) == d
            &&& whole.skip((at + c.len() + d.len()) as int) == rest
        }),
{
    let whole = (a + b + c + d) + rest;
    let at = a.len() + b.len();
    assert(whole =~= a + (b + (c + d + rest)));
    assert(whole.skip(a.len() as int) =~= b + (c + d + rest));
    assert(whole.subrange(at as int, (at + c.len()) as int) =~= c);
    assert(whole.subrange((at + c.len()) as int, (at + c.len() + d.len()) as int) =~= d);
    assert(whole.skip((at + c.len() + d.len()) as int) =~= rest);
}

/// A parameter is read back as it was written, whatever follows it.
pub proof fn law_param_reads_back(param: (Seq<u8>, Seq<u8>), rest: Seq<u8>)
    requires
        param.0.len() < 0x8000_0000,
        param.1.len() < 0x8000_0000,
    ensures
        first_param(encoded_param(param) + rest) == Some((param, rest)),
{
    let (name, value) = param;
    let a = length_bytes(name.len());
    let b = length_bytes(value.len());
    lemma_pieces(a, b, name, value, rest);
    law_length_reads_back(name.len(), b + (name + value + rest));
    law_length_reads_back(value.len(), name + value + rest);
}

/// The parameters in some bytes.
pub open spec fn decoded(bytes: Seq<u8>) -> Option<Seq<(Seq<u8>, Seq<u8>)>>
    decreases bytes.len(),
{
    if bytes.len() == 0 {
        Some(Seq::empty())
    } else {
        match first_param(bytes) {
            Some((param, rest)) => if rest.len() >= bytes.len() {
                None
            } else {
                match decoded(rest) {
                    Some(more) => Some(seq![param] + more),
                    None => None,
                }
            },
            None => None,
        }
    }
}

proof fn lemma_encoded_front(params: Seq<(Seq<u8>, Seq<u8>)>)
    requires
        params.len() > 0,
    ensures
        encoded(params) == encoded_param(params[0]) + encoded(params.drop_first()),
    decreases params.len(),
{
    if params.len() == 1 {
        assert(params.drop_last() =~= Seq::empty());
        assert(params.drop_first() =~= Seq::empty());
        assert(encoded(params) =~= encoded_param(params[0]) + encoded(params.drop_first()));
    } else {
        let front = params.drop_last();
        lemma_encoded_front(front);
        assert(front.drop_first() =~= params.drop_first().drop_last());
        assert(encoded(params) =~= encoded_param(params[0]) + (encoded(front.drop_first())
            + encoded_param(params.last())));
    }
}

/// Parameters are read back as they were written.
pub proof fn law_params_read_back(params: Seq<(Seq<u8>, Seq<u8>)>)
    requires
        forall|i: int|
            0 <= i < params.len() ==> (#[trigger] params[i]).0.len() < 0x8000_0000
                && params[i].1.len() < 0x8000_0000,
    ensures
        decoded(encoded(params)) == Some(params),
    decreases params.len(),
{
    if params.len() == 0 {
        assert(params =~= Seq::empty());
    } else {
        let rest = params.drop_first();
        lemma_encoded_front(params);
        law_param_reads_back(params[0], encoded(rest));
        assert forall|i: int| 0 <= i < rest.len() implies (#[trigger] rest[i]).0.len() < 0x8000_0000
            && rest[i].1.len() < 0x8000_0000 by {
            assert(rest[i] == params[i + 1]);
        }
        law_params_read_back(rest);
        assert(seq![params[0]] + rest =~= params);
    }
}

/// The script that a path names lies below the root.
pub proof fn law_named_script_is_below_root(root: Seq<u8>, path: Seq<char>)
    requires
        names_script(path),
    ensures
        within(joined(root, encode_utf8(requested(path))), root),
{
    lemma_trimmed_is_relative(path);
    law_join_stays_within(root, encode_utf8(requested(path)));
}

/// The types of records have their numbers from the protocol.
pub proof fn law_record_types()
    ensures
        BEGIN_REQUEST == 1,
        END_REQUEST == 3,
        PARAMS == 4,
        STDIN == 5,
        STDOUT == 6,
        STDERR == 7,
        begin_content() == seq![0u8, 1, 0, 0, 0, 0, 0, 0],
{
}

/// A record is a head of eight bytes, the content, and zeros up to a multiple of
/// eight. The head tells the version, the type, the one request, the length of
/// the content in 16 bits, high byte first, and how many zeros there are.
pub proof fn law_record_layout(record_type: u8, content: Seq<u8>)
    ensures
        ({
            let bytes = record(record_type, content);
            &&& bytes.len() >= 8 + content.len()
            &&& bytes.len() < 16 + content.len()
            &&& bytes.len() % 8 == 0
            &&& bytes[0] == 1 && bytes[1] == record_type && bytes[2] == 0 && bytes[3] == 1
            &&& bytes[4] * 256 + bytes[5] == content.len() % 65536
            &&& bytes[6] == bytes.len() - 8 - content.len()
            &&& bytes[7] == 0
            &&& bytes.subrange(8, 8 + content.len() as int) == content
            &&& forall|i: int| 8 + content.len() <= i < bytes.len() ==> #[trigger] bytes[i] == 0
        }),
{
    let length = content.len();
    let bytes = record(record_type, content);
    let fill = Seq::new(padding(length), |i: int| 0u8);
    assert(bytes.len() == 8 + length + padding(length));
    let short = length % 65536;
    assert(bytes[4] == (short / 256) as u8 && bytes[5] == (short % 256) as u8);
    assert(bytes[6] == padding(length) as u8);
    assert(bytes.subrange(8, 8 + length as int) =~= content);
    assert forall|i: int| 8 + length <= i < bytes.len() implies #[trigger] bytes[i] == 0 by {
        assert(bytes[i] == fill[i - 8 - length]);
    }
}

/// Bytes are cut into records that are as long as a record can be, but for the
/// last; an empty record follows.
pub proof fn law_records_are_full(record_type: u8, bytes: Seq<u8>)
    ensures
        bytes.len() > 65535 ==> records(record_type, bytes) == record(
            record_type,
            bytes.take(65535),
        ) + records(record_type, bytes.skip(65535)),
        0 < bytes.len() <= 65535 ==> records(record_type, bytes) == record(record_type, bytes)
            + record(record_type, Seq::empty()),
        bytes.len() == 0 ==> records(record_type, bytes) == record(record_type, Seq::empty()),
{
    if bytes.len() == 0 {
        assert(bytes =~= Seq::empty());
    }
}

/// The head of a record is read from its bytes: any record of version 1 for the
/// one request, of any type, length and padding, and no other.
pub proof fn law_record_head(bytes: Seq<u8>)
    requires
        bytes.len() == 8,
    ensures
        record_head(bytes) is Some <==> bytes[0] == 1 && bytes[2] == 0 && bytes[3] == 1,
        record_head(bytes) matches Some(head) ==> {
            &&& head.record_type == bytes[1]
            &&& head.content_length == 256 * bytes[4] + bytes[5]
            &&& head.padding_length == bytes[6]
        },
{
}

/// A length below 128 is told in one byte, and any other in four: 31 bits, high
/// byte first, behind a bit that is set.
pub proof fn law_length_of_length(length: nat)
    ensures
        length < 128 ==> length_bytes(length).len() == 1 && length_bytes(length)[0] == length,
        length >= 128 ==> ({
            let bytes = length_bytes(length);
            &&& bytes.len() == 4
            &&& bytes[0] >= 128
            &&& (bytes[0] - 128) * 16777216 + bytes[1] * 65536 + bytes[2] * 256 + bytes[3] == length
                % 0x8000_0000
        }),
{
    if length >= 128 {
        let bytes = length_bytes(length);
        assert(bytes[0] == 128 + (length / 16777216) % 128);
        assert(bytes[1] == (length / 65536) % 256);
        assert(bytes[2] == (length / 256) % 256);
        assert(bytes[3] == length % 256);
    }
}

/// Only an output record adds to the output, and only a message record to the
/// messages. Each adds its whole content at the end.
pub proof fn law_answer_grows(answer: Answer, record_type: u8, content: Seq<u8>)
    ensures
        record_type == 6 ==> answer.output_with(record_type, content) == answer.output@ + content,
        record_type != 6 ==> answer.output_with(record_type, content) == answer.output@,
        record_type == 7 ==> answer.messages_with(record_type, content) == answer.messages@
            + content,
        record_type != 7 ==> answer.messages_with(record_type, content) == answer.messages@,
{
}

/// A path names a script where, without the slashes in front of it, it ends in
/// `.php` and leads nowhere but below the root.
pub proof fn law_path_of_script(slashes: nat, relative: Seq<char>)
    requires
        relative.len() > 0 ==> relative[0] != '/',
    ensures
        requested(Seq::new(slashes, |i: int| '/') + relative) == relative,
        names_script(Seq::new(slashes, |i: int| '/') + relative) <==> {
            &&& relative.len() >= 4
            &&& relative.skip(relative.len() - 4) == seq!['.', 'p', 'h', 'p']
            &&& plain(encode_utf8(relative))
        },
{
    reveal_strlit(".php");
    law_marks_are_taken_off(relative, slashes, '/');
    if relative.len() >= 4 {
        assert(relative.subrange(relative.len() - 4, relative.len() as int) =~= relative.skip(
            relative.len() - 4,
        ));
    }
    assert(".php"@ =~= seq!['.', 'p', 'h', 'p']);
}

/// A script is a file below the root, and a request names it from there.
pub proof fn law_script_below(script: Script, root: Seq<u8>, relative: Seq<char>)
    requires
        script.is_below(root, relative),
    ensures
        script.root@ == root,
        script.filename@ == joined(root, encode_utf8(relative)),
        script.name@ == seq!['/'] + relative,
{
    reveal_strlit("/");
    assert("/"@ =~= seq!['/']);
}

/// What a field of a request adds to its parameters: the type of the body under
/// a name of its own, the length of the body nothing, and any other field its
/// variable. A field that holds no text adds nothing.
pub proof fn law_param_of_field(name: Seq<char>, value: Seq<u8>)
    ensures
        value_text(value) is None || name == "content-length"@ ==> field_params(
            seq![(name, value)],
        ).len() == 0,
        value_text(value) matches Some(text) ==> {
            &&& name == "content-type"@ ==> field_params(seq![(name, value)]) == seq![
                ("CONTENT_TYPE"@, text),
            ]
            &&& name != "content-type"@ && name != "content-length"@ ==> field_params(
                seq![(name, value)],
            ) == seq![(header_variable(name), text)]
        },
{
    reveal_strlit("content-type");
    reveal_strlit("content-length");
    assert("content-type"@.len() != "content-length"@.len());
    let one = seq![(name, value)];
    let nothing = Seq::<(Seq<char>, Seq<u8>)>::empty();
    assert(one.drop_last() =~= nothing);
    assert(one.last() == (name, value));
    assert(field_params(nothing) =~= Seq::empty());
    if let Some(text) = value_text(value) {
        if name == "content-type"@ {
            assert(field_params(one) =~= seq![("CONTENT_TYPE"@, text)]);
        } else if name != "content-length"@ {
            assert(field_params(one) =~= seq![(header_variable(name), text)]);
        }
    }
}

/// The fields of a request add their parameters one after the other.
pub proof fn law_params_add_up(a: Seq<(Seq<char>, Seq<u8>)>, b: Seq<(Seq<char>, Seq<u8>)>)
    ensures
        field_params(a + b) == field_params(a) + field_params(b),
    decreases b.len(),
{
    if b.len() == 0 {
        assert(a + b =~= a);
        assert(field_params(a) + field_params(b) =~= field_params(a));
    } else {
        let less = b.drop_last();
        law_params_add_up(a, less);
        assert((a + b).drop_last() =~= a + less);
        assert((a + b).last() == b.last());
        assert(field_params(a + b) =~= field_params(a) + field_params(b));
    }
}

/// A request is told of TLS, and that its port is then 443, if and only if the
/// field `x-forwarded-proto` says `https`, in letters of either case.
pub proof fn law_told_of_tls(fields: Seq<(Seq<char>, Seq<u8>)>)
    ensures
        text_of(fields, "x-forwarded-proto"@) matches Some(text) && same_but_case(text, "https"@)
            ==> tls_params(fields) == seq![("HTTPS"@, "on"@), ("SERVER_PORT"@, "443"@)],
        text_of(fields, "x-forwarded-proto"@) is None ==> tls_params(fields).len() == 0,
        text_of(fields, "x-forwarded-proto"@) matches Some(text) ==> !same_but_case(text, "https"@)
            ==> tls_params(fields).len() == 0,
{
}

/// The parameters that every request has, before those of its fields and those
/// that tell of TLS.
pub proof fn law_params_of_request(
    domain: Seq<char>,
    request: RequestHead,
    script: Script,
    body_length: nat,
)
    ensures
        ({
            let params = request_params(domain, request, script, body_length);
            let fields = header_fields(request.headers);
            &&& params.len() == 15 + field_params(fields).len() + tls_params(fields).len()
            &&& params[0] == ("GATEWAY_INTERFACE"@, "CGI/1.1"@)
            &&& params[1] == ("SERVER_SOFTWARE"@, "multi-server"@)
            &&& params[2] == ("SERVER_PROTOCOL"@, request.version@)
            &&& params[3] == ("REQUEST_METHOD"@, request.method@)
            &&& params[4] == ("REQUEST_URI"@, request.uri@)
            &&& params[5] == ("DOCUMENT_URI"@, request.path@)
            &&& params[6].0 == "QUERY_STRING"@
            &&& request.query matches Some(query) ==> params[6].1 == query@
            &&& request.query is None ==> params[6].1.len() == 0
            &&& params[7] == ("SCRIPT_NAME"@, script.name@)
            &&& params[8] == ("SCRIPT_FILENAME"@, lossy_text(script.filename@))
            &&& params[9] == ("DOCUMENT_ROOT"@, lossy_text(script.root@))
            &&& params[10] == ("SERVER_NAME"@, domain)
            &&& params[11] == ("SERVER_PORT"@, "80"@)
            &&& params[12] == ("REMOTE_ADDR"@, "127.0.0.1"@)
            &&& params[13].0 == "CONTENT_LENGTH"@
            &&& worth(params[13].1, 10) == body_length
            &&& params[14] == ("REDIRECT_STATUS"@, "200"@)
            &&& params.skip(15) == field_params(fields) + tls_params(fields)
        }),
{
    let params = request_params(domain, request, script, body_length);
    let fields = header_fields(request.headers);
    law_number_is_written(body_length, 10);
    assert(params.skip(15) =~= field_params(fields) + tls_params(fields));
}

proof fn lemma_no_field_tells_length(fields: Seq<(Seq<char>, Seq<u8>)>)
    ensures
        forall|i: int|
            0 <= i < field_params(fields).len() ==> (#[trigger] field_params(fields)[i]).0
                != "CONTENT_LENGTH"@,
    decreases fields.len(),
{
    reveal_strlit("CONTENT_LENGTH");
    reveal_strlit("CONTENT_TYPE");
    reveal_strlit("HTTP_");
    if fields.len() > 0 {
        lemma_no_field_tells_length(fields.drop_last());
        let variable = header_variable(fields.last().0);
        assert(variable[0] == "HTTP_"@[0]);
        assert("CONTENT_LENGTH"@[0] == 'C');
        assert("CONTENT_TYPE"@.len() == 12);
        let before = field_params(fields.drop_last());
        let all = field_params(fields);
        assert forall|i: int| 0 <= i < all.len() implies (#[trigger] all[i]).0
            != "CONTENT_LENGTH"@ by {
            if i < before.len() {
                assert(all[i] == before[i]);
            }
        }
    }
}

proof fn lemma_only_one_length(
    domain: Seq<char>,
    request: RequestHead,
    script: Script,
    body_length: nat,
)
    ensures
        forall|i: int|
            0 <= i < request_params(domain, request, script, body_length).len() && i != 13 ==> (
            #[trigger] request_params(domain, request, script, body_length)[i]).0
                != "CONTENT_LENGTH"@,
{
    let params = request_params(domain, request, script, body_length);
    let fields = header_fields(request.headers);
    let first = field_params(fields);
    let second = tls_params(fields);
    law_params_of_request(domain, request, script, body_length);
    lemma_no_field_tells_length(fields);
    reveal_strlit("CONTENT_LENGTH");
    reveal_strlit("GATEWAY_INTERFACE");
    reveal_strlit("SERVER_SOFTWARE");
    reveal_strlit("SERVER_PROTOCOL");
    reveal_strlit("REQUEST_METHOD");
    reveal_strlit("REQUEST_URI");
    reveal_strlit("DOCUMENT_URI");
    reveal_strlit("QUERY_STRING");
    reveal_strlit("SCRIPT_NAME");
    reveal_strlit("SCRIPT_FILENAME");
    reveal_strlit("DOCUMENT_ROOT");
    reveal_strlit("SERVER_NAME");
    reveal_strlit("SERVER_PORT");
    reveal_strlit("REMOTE_ADDR");
    reveal_strlit("REDIRECT_STATUS");
    reveal_strlit("HTTPS");
    assert("CONTENT_LENGTH"@[0] == 'C');
    assert forall|i: int| 0 <= i < params.len() && i != 13 implies (#[trigger] params[i]).0
        != "CONTENT_LENGTH"@ by {
        if i >= 15 {
            assert(params[i] == params.skip(15)[i - 15]);
            if i - 15 < first.len() {
                assert(params[i] == first[i - 15]);
            } else {
                let k = i - 15 - first.len();
                assert(params[i] == second[k]);
                assert(second[k].0[0] == 'H' || second[k].0[0] == 'S');
            }
        } else {
            assert(params[i].0[0] != 'C');
        }
    }
}

/// The length that a process is told of the body is the number of bytes that the
/// same request carries: read as a decimal number, every parameter
/// `CONTENT_LENGTH` of a request is the number of bytes in its body records, and
/// there is one.
pub proof fn law_told_length_is_sent(
    domain: Seq<char>,
    request: RequestHead,
    script: Script,
    body: Seq<u8>,
)
    ensures
        ({
            let params = request_params(domain, request, script, body.len());
            let stream = request_stream(encoded(param_bytes(params)), body);
            &&& first_record(stream) matches Some((begin, _, behind_begin))
            &&& begin == 1
            &&& first_bytes(4, behind_begin) matches Some((told, behind_params))
            &&& told == encoded(param_bytes(params))
            &&& first_bytes(5, behind_params) matches Some((sent, behind_body))
            &&& behind_body.len() == 0
            &&& sent == body
            &&& exists|i: int|
                0 <= i < params.len() && (#[trigger] params[i]).0 == "CONTENT_LENGTH"@
            &&& forall|i: int|
                0 <= i < params.len() && (#[trigger] params[i]).0 == "CONTENT_LENGTH"@
                    ==> all_digits(params[i].1) && worth(params[i].1, 10) == sent.len()
        }),
{
    let params = request_params(domain, request, script, body.len());
    law_request_reads_back(encoded(param_bytes(params)), body);
    law_params_of_request(domain, request, script, body.len());
    lemma_only_one_length(domain, request, script, body.len());
    assert(params[13].0 == "CONTENT_LENGTH"@);
    law_number_is_written(body.len(), 10);
    let text = decimal_text(body.len());
    assert forall|i: int| 0 <= i < text.len() implies '0' <= #[trigger] text[i] <= '9' by {
        assert(number_char(text[i], 10));
    }
    assert(params[13].1 == text);
}

/// Parameters are sent as the bytes of their names and values, in their order.
pub proof fn law_params_are_bytes(params: Seq<(Seq<char>, Seq<char>)>)
    ensures
        param_bytes(params).len() == params.len(),
        forall|i: int|
            0 <= i < params.len() ==> #[trigger] param_bytes(params)[i] == (
                encode_utf8(params[i].0),
                encode_utf8(params[i].1),
            ),
{
}

/// The views of a list of parameters are those of its items, one by one and in
/// their order.
pub proof fn law_param_views(params: Seq<(String, String)>)
    ensures
        pair_views(params).len() == params.len(),
        forall|i: int|
            0 <= i < params.len() ==> #[trigger] pair_views(params)[i] == (
                params[i].0@,
                params[i].1@,
            ),
        param_views(params) == param_bytes(pair_views(params)),
{
    assert(param_views(params) =~= param_bytes(pair_views(params)));
}

} // verus!
