//! Trusted boundary to the `base64` crate (standard alphabet, with padding).
//!
//! Encoding and decoding are functions of their input alone, so each result
//! is given a name that the library's contracts speak of; nothing else is
//! assumed of them beyond what the crate's source plainly shows.

use vstd::prelude::*;

verus! {

/// What `base64::encode` returns for the given bytes.
pub uninterp spec fn b64_encode_of(bytes: Seq<u8>) -> Seq<char>;

/// What `base64::decode` returns for the given text: the decoded bytes, or
/// nothing when the text is rejected.
pub uninterp spec fn b64_decode_of(text: Seq<char>) -> Option<Seq<u8>>;

/// Relies on `base64::encode`: standard alphabet with `=` padding, so the
/// result's length is a multiple of four, empty input encodes to the empty
/// string, and `base64::decode` inverts it.
#[verifier::external_body]
pub(crate) fn b64_encode(data: &Vec<u8>) -> (r: String)
    ensures
        r@ == b64_encode_of(data@),
        b64_decode_of(r@) == Some(data@),
        data@.len() == 0 ==> r@.len() == 0,
        r@.len() % 4 == 0,
{
    base64::encode(data)
}

/// Relies on `base64::decode`: whether it succeeds, and the bytes it yields,
/// depend on the text alone; the empty text decodes to no bytes.
#[verifier::external_body]
pub(crate) fn b64_decode(text: &str) -> (r: Option<Vec<u8>>)
    ensures
        r is Some <==> b64_decode_of(text@) is Some,
        r matches Some(v) ==> b64_decode_of(text@) == Some(v@),
        text@.len() == 0 ==> r is Some,
{
    match base64::decode(text) {
        Ok(v) => Some(v),
        Err(_) => None,
    }
}

} // verus!
