//! Decoding byte strings back into text.
//!
//! Paths inside the staging index and names inside tree objects are stored
//! as UTF-8 bytes; reading them back must reject anything else.

use vstd::prelude::*;
use vstd::string::StrSliceExecFns;
use vstd::utf8::{encode_utf8, encode_utf8_decode_utf8, valid_utf8};
use crate::bytesutil::bytes_eq;
use crate::errors::UgitError;

verus! {

/// Whether two strings hold the same text, compared by their UTF-8 bytes.
pub fn str_eq(a: &str, b: &str) -> (r: bool)
    ensures
        r == (a@ == b@),
{
    let ab = a.as_bytes_vec();
    let bb = b.as_bytes_vec();
    let r = bytes_eq(&ab, &bb);
    proof {
        encode_utf8_decode_utf8(a@);
        encode_utf8_decode_utf8(b@);
    }
    r
}

/// Relies on `String::from_utf8`: it succeeds exactly on valid UTF-8 and
/// returns the text those bytes encode.
#[verifier::external_body]
pub(crate) fn bytes_to_string(b: &Vec<u8>) -> (r: Result<String, UgitError>)
    ensures
        match r {
            Ok(s) => valid_utf8(b@) && encode_utf8(s@) == b@,
            Err(e) => e == UgitError::Format && !valid_utf8(b@),
        },
{
    match String::from_utf8(b.clone()) {
        Ok(s) => Ok(s),
        Err(_) => Err(UgitError::Format),
    }
}

} // verus!
