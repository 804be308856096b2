//! Text-safe transport encoding for persisted blobs.
//!
//! The binary image of the manager's state is carried through storage as
//! base64 text. The two calls into the base64 crate are the trusted boundary;
//! everything around them is verified against the names below.

use vstd::prelude::*;

verus! {

/// The base64 text of a byte sequence, as the standard alphabet with padding
/// renders it; a function of the bytes alone.
pub uninterp spec fn b64_of(b: Seq<u8>) -> Seq<char>;

/// What decoding a text yields: the bytes it denotes, or nothing when the
/// text is not valid base64; a function of the text alone.
pub uninterp spec fn b64_decode_of(s: Seq<char>) -> Option<Seq<u8>>;

/// Relies on the base64 crate's `Engine::encode` with the `STANDARD` engine:
/// the returned text depends on the input bytes alone, and `Engine::decode`
/// inverts it, so the returned text decodes to the very bytes encoded.
#[verifier::external_body]
pub fn b64_encode(b: &Vec<u8>) -> (r: String)
    ensures
        r@ == b64_of(b@),
        b64_decode_of(r@) == Some(b@),
{
    base64::Engine::encode(&base64::engine::general_purpose::STANDARD, b)
}

/// Relies on the base64 crate's `Engine::decode` with the `STANDARD` engine:
/// the result depends on the input text alone; invalid base64 is rejected.
#[verifier::external_body]
pub fn b64_decode(s: &str) -> (r: Option<Vec<u8>>)
    ensures
        (match r {
            Some(v) => b64_decode_of(s@) == Some(v@),
            None => b64_decode_of(s@) is None,
        }),
{
    base64::Engine::decode(&base64::engine::general_purpose::STANDARD, s).ok()
}

} // verus!
