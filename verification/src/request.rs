//! What the library reads of a request.

use axum::http::HeaderMap;
use vstd::prelude::*;

verus! {

/// A request without its body.
#[derive(Debug)]
pub struct RequestHead {
    /// The method.
    pub method: String,
    /// The target of the request.
    pub uri: String,
    /// The path of the target.
    pub path: String,
    /// The query of the target.
    pub query: Option<String>,
    /// The version of the protocol.
    pub version: String,
    /// The header fields.
    pub headers: HeaderMap,
}

impl RequestHead {
    /// The query of the target, empty where there is none.
    pub open spec fn query_text(self) -> Seq<char> {
        match self.query {
            Some(query) => query@,
            None => Seq::empty(),
        }
    }

    /// The query of the target, empty where there is none.
    pub fn query_or_empty(&self) -> (text: String)
        ensures
            text@ == self.query_text(),
    {
        match &self.query {
            Some(query) => query.clone(),
            None => String::new(),
        }
    }
}

/// The query is that of the target, or empty where the target has none.
pub proof fn law_query(request: RequestHead)
    ensures
        request.query matches Some(query) ==> request.query_text() == query@,
        request.query is None ==> request.query_text().len() == 0,
{
}

} // verus!
