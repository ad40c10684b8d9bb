//! What the engine takes from code that is not verified here: the SHA-1
//! digest and a few operations of the standard library on strings.

use sha1::{Digest, Sha1};
use vstd::prelude::*;
use vstd::utf8::*;

verus! {

/// The SHA-1 digest of a byte string.
pub uninterp spec fn sha1_digest(data: Seq<u8>) -> Seq<u8>;

/// Calls `Sha1::digest` of the `sha1` crate on `data` and copies the digest
/// out. The contract names the digest and claims its length: the crate's
/// output size is twenty bytes.
#[verifier::external_body]
pub(crate) fn sha1(data: &[u8]) -> (out: Vec<u8>)
    ensures
        out@ == sha1_digest(data@),
        out@.len() == 20,
{
    Sha1::digest(data).to_vec()
}

/// Calls `String::from_utf8`. The contract claims that the call succeeds
/// exactly on well-formed UTF-8, and that the string then holds the
/// characters that the bytes encode.
#[verifier::external_body]
pub(crate) fn string_from_utf8(bytes: Vec<u8>) -> (out: Option<String>)
    ensures
        out is Some <==> valid_utf8(bytes@),
        out matches Some(s) ==> s@ == decode_utf8(bytes@),
{
    match String::from_utf8(bytes) {
        Ok(s) => Some(s),
        Err(_) => None,
    }
}

/// `String::push` appends one character to the string.
pub assume_specification[ String::push ](s: &mut String, c: char)
    ensures
        final(s)@ == old(s)@.push(c),
;

/// `str`'s `eq` holds exactly when both slices hold the same characters.
pub assume_specification[ <str as PartialEq>::eq ](a: &str, b: &str) -> (same: bool)
    ensures
        same == (a@ == b@),
;

} // verus!
