//! Replies that the library makes itself.

use axum::http::HeaderMap;
use vstd::prelude::*;
use vstd::slice::slice_to_vec;
use vstd::utf8::encode_utf8;

use crate::headers::{header_fields, new_headers, values_of};
use crate::path::FilePath;

verus! {

/// The body of a reply.
#[derive(Debug)]
pub enum ReplyBody {
    /// These bytes.
    Bytes(Vec<u8>),
    /// A part of a file.
    File {
        /// The file.
        path: FilePath,
        /// Where the part begins.
        start: u64,
        /// How many bytes it has.
        length: u64,
    },
}

/// A reply to a request.
#[derive(Debug)]
pub struct Reply {
    /// The status code.
    pub status: u16,
    /// The header fields.
    pub headers: HeaderMap,
    /// The body.
    pub body: ReplyBody,
}

impl ReplyBody {
    /// Whether the body is made of these bytes.
    pub open spec fn holds(self, bytes: Seq<u8>) -> bool {
        self matches ReplyBody::Bytes(held) && held@ == bytes
    }
}

/// Whether two lists of fields have the same values under every name.
pub open spec fn same_fields(a: Seq<(Seq<char>, Seq<u8>)>, b: Seq<(Seq<char>, Seq<u8>)>) -> bool {
    forall|name: Seq<char>| #[trigger] values_of(a, name) == values_of(b, name)
}

impl Reply {
    /// Whether this is a reply with this status and these fields.
    pub open spec fn has(self, status: nat, fields: Seq<(Seq<char>, Seq<u8>)>) -> bool {
        self.status == status && same_fields(header_fields(self.headers), fields)
    }

    /// Whether this is the reply with this status, these fields and these bytes.
    pub open spec fn is_made_of(
        self,
        status: nat,
        fields: Seq<(Seq<char>, Seq<u8>)>,
        body: Seq<u8>,
    ) -> bool {
        self.has(status, fields) && self.body.holds(body)
    }

    /// Whether this is the reply with no header fields and this text.
    pub open spec fn is_text(self, status: u16, text: Seq<char>) -> bool {
        &&& self.status == status
        &&& header_fields(self.headers) == Seq::<(Seq<char>, Seq<u8>)>::empty()
        &&& self.body.holds(encode_utf8(text))
    }
}

/// A reply with no header fields and a text.
pub fn response(status: u16, text: &str) -> (reply: Reply)
    ensures
        reply.is_text(status, text@),
{
    Reply {
        status,
        headers: new_headers(),
        body: ReplyBody::Bytes(slice_to_vec(text.as_bytes())),
    }
}

// ---------------------------------------------------------------------------
// Laws

/// A reply that is made of a status, fields and bytes has that status, the
/// values of those fields under every name, and those bytes as its body.
pub proof fn law_reply_is_made_of(
    reply: Reply,
    status: nat,
    fields: Seq<(Seq<char>, Seq<u8>)>,
    body: Seq<u8>,
)
    requires
        reply.is_made_of(status, fields, body),
    ensures
        reply.status == status,
        forall|name: Seq<char>| #[trigger]
            values_of(header_fields(reply.headers), name) == values_of(fields, name),
        reply.body matches ReplyBody::Bytes(bytes) && bytes@ == body,
{
}

/// A reply that is a text has that status, no fields, and the bytes of the text
/// as its body.
pub proof fn law_reply_is_text(reply: Reply, status: u16, text: Seq<char>)
    requires
        reply.is_text(status, text),
    ensures
        reply.status == status,
        header_fields(reply.headers).len() == 0,
        reply.body matches ReplyBody::Bytes(bytes) && bytes@ == encode_utf8(text),
{
}

} // verus!
