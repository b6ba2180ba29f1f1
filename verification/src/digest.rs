//! SHA-1 digests, the addresses of the object store.

use vstd::prelude::*;

verus! {

/// What the SHA-1 algorithm yields on a byte string.  The digest is a
/// function of the input bytes alone, the same in every process and on every
/// machine.
pub uninterp spec fn sha1_of(data: Seq<u8>) -> Seq<u8>;

/// Relies on crypto_hash's `digest` with the SHA1 algorithm: a 20-byte
/// digest computed from the input bytes alone.
#[verifier::external_body]
pub(crate) fn sha1(data: &Vec<u8>) -> (r: Vec<u8>)
    ensures
        r@ == sha1_of(data@),
        r@.len() == 20,
{
    crypto_hash::digest(crypto_hash::Algorithm::SHA1, data.as_slice())
}

} // verus!
