//! Dates and media types as header fields hold them.

use std::time::{Duration, UNIX_EPOCH};

use vstd::prelude::*;

verus! {

/// The first second that a date in a header field cannot tell: that of the year
/// 10000.
pub const END_OF_DATES: u64 = 253_402_300_800;

/// How a date is written, from its seconds since the epoch.
pub uninterp spec fn http_date_text(seconds: u64) -> Seq<char>;

/// The date in a text, in seconds since the epoch.
pub uninterp spec fn http_date_seconds(text: Seq<char>) -> Option<u64>;

/// Whether a text is made of visible ASCII characters.
pub open spec fn visible_chars(text: Seq<char>) -> bool {
    forall|i: int| 0 <= i < text.len() ==> ' ' <= #[trigger] text[i] <= '~'
}

/// Trusted: `httpdate::fmt_http_date` writes a date in a form that depends on
/// its whole seconds since the epoch alone, that has 29 characters, all of them
/// visible ASCII ones, and that `httpdate::parse_http_date` reads back. It panics
/// on a date before the epoch or after the year 9999.
#[verifier::external_body]
pub(crate) fn fmt_http_date(seconds: u64) -> (text: String)
    requires
        seconds < END_OF_DATES,
    ensures
        text@ == http_date_text(seconds),
        text@.len() == 29,
        visible_chars(text@),
        http_date_seconds(text@) == Some(seconds),
{
    httpdate::fmt_http_date(UNIX_EPOCH + Duration::from_secs(seconds))
}

/// Trusted: `httpdate::parse_http_date` finds a date in whole seconds, none of
/// them before the epoch or after the year 9999, or nothing, and that depends on
/// the text alone.
#[verifier::external_body]
pub(crate) fn parse_http_date(text: &str) -> (seconds: Option<u64>)
    ensures
        seconds == http_date_seconds(text@),
        seconds matches Some(s) ==> s < END_OF_DATES,
{
    let date = httpdate::parse_http_date(text).ok();
    date.map(|date| date.duration_since(UNIX_EPOCH).unwrap().as_secs())
}

/// The media type of a file, from the text of its path.
pub uninterp spec fn media_type(path: Seq<char>) -> Seq<char>;

/// Trusted: `mime_guess::from_path` and `first_or_octet_stream` choose a media
/// type from a fixed table, by the extension in the path alone. Every entry of
/// the table is made of visible ASCII characters. A path without a dot has no
/// extension, and is taken for bytes.
#[verifier::external_body]
pub(crate) fn guess_media_type(path: &str) -> (text: String)
    ensures
        text@ == media_type(path@),
        visible_chars(text@),
        !path@.contains('.') ==> text@ == "application/octet-stream"@,
{
    mime_guess::from_path(path).first_or_octet_stream().to_string()
}

} // verus!
