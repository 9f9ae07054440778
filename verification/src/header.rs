//! HTTP header values, through the `http` types that `hyper` re-exports.
use hyper::header::HeaderValue;
use vstd::prelude::*;
use vstd::utf8::*;

verus! {

/// A byte that may stand in a header value: anything but controls and DEL,
/// except that a tab is fine.
pub open spec fn header_byte(b: u8) -> bool {
    (b >= 32 && b != 127) || b == 9
}

/// A header byte that is also text: visible ASCII, space or tab.
pub open spec fn visible_byte(b: u8) -> bool {
    (b >= 32 && b < 127) || b == 9
}

/// The text of a header value made of visible ASCII.
pub open spec fn text_of_header(bytes: Seq<u8>) -> Option<Seq<char>> {
    if forall|i: int| 0 <= i < bytes.len() ==> visible_byte(#[trigger] bytes[i]) {
        Some(bytes.map_values(|b: u8| b as char))
    } else {
        None
    }
}

/// Whether a text, as UTF-8, can be sent as a header value.
pub open spec fn sendable(s: Seq<char>) -> bool {
    let bytes = encode_utf8(s);
    forall|i: int| 0 <= i < bytes.len() ==> header_byte(#[trigger] bytes[i])
}

/// Makes a `HeaderValue` of a text by `HeaderValue::try_from` and hands its
/// bytes back. Claimed: it succeeds exactly when every byte of the text is
/// allowed in a header value, and the value's bytes are those of the text.
#[verifier::external_body]
pub(crate) fn header_value(s: &str) -> (r: Option<Vec<u8>>)
    ensures
        match r {
            Some(bytes) => sendable(s@) && bytes@ == encode_utf8(s@),
            None => !sendable(s@),
        },
{
    HeaderValue::try_from(s).ok().map(|v| v.as_bytes().to_vec())
}

/// Reads the bytes of a header value as text by `HeaderValue::to_str`.
/// Claimed: it succeeds exactly on visible ASCII, spaces and tabs, and gives
/// those characters.
#[verifier::external_body]
pub(crate) fn header_text(bytes: &[u8]) -> (r: Option<String>)
    ensures
        match r {
            Some(s) => text_of_header(bytes@) == Some(s@),
            None => text_of_header(bytes@) is None,
        },
{
    HeaderValue::from_bytes(bytes).ok()?.to_str().ok().map(String::from)
}

} // verus!
