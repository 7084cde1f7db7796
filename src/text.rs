//! Turning raw bytes into text.
use vstd::prelude::*;
use vstd::utf8::{valid_utf8, decode_utf8};

verus! {

/// The text of a byte string that holds UTF-8, and the empty text otherwise.
pub open spec fn text_of(b: Seq<u8>) -> Seq<char> {
    if valid_utf8(b) {
        decode_utf8(b)
    } else {
        Seq::empty()
    }
}

/// Relies on `std::str::from_utf8`: it succeeds exactly on valid UTF-8, and
/// then the string holds the decoded characters.
#[verifier::external_body]
fn utf8(b: &[u8]) -> (r: Option<String>)
    ensures
        r is Some <==> valid_utf8(b@),
        r matches Some(s) ==> s@ == decode_utf8(b@),
{
    match std::str::from_utf8(b) {
        Ok(s) => Some(String::from(s)),
        Err(_) => None,
    }
}

/// Decodes UTF-8 text; bytes that are not valid UTF-8 give the empty string.
pub fn text_or_empty(b: &[u8]) -> (r: String)
    ensures
        r@ == text_of(b@),
{
    match utf8(b) {
        Some(s) => s,
        None => String::new(),
    }
}

} // verus!
