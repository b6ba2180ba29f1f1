//! The compressor: a thin seam over flate2's zlib streams.
//!
//! Objects are stored zlib-compressed.  Nothing here knows anything about
//! object semantics; the two functions are pure byte transforms, and all the
//! library relies on is that decompression is a function of the input bytes
//! alone and undoes compression exactly.

use vstd::prelude::*;
use crate::errors::UgitError;

verus! {

/// What zlib decompression yields on a byte string: the decompressed bytes,
/// or nothing if the input is not a complete well-formed zlib stream.
pub uninterp spec fn zlib_inflate_of(data: Seq<u8>) -> Option<Seq<u8>>;

/// Relies on flate2's `write::ZlibEncoder`: compressing into an in-memory
/// buffer cannot fail, and the stream it produces decompresses back to
/// exactly the input (zlib compression is lossless).
#[verifier::external_body]
pub(crate) fn deflate(data: &Vec<u8>) -> (r: Vec<u8>)
    ensures
        zlib_inflate_of(r@) == Some(data@),
{
    let mut enc = flate2::write::ZlibEncoder::new(Vec::new(), flate2::Compression::default());
    std::io::Write::write_all(&mut enc, data.as_slice()).expect("writing to a Vec cannot fail");
    enc.finish().expect("finishing an in-memory zlib stream cannot fail")
}

/// Relies on flate2's `write::ZlibDecoder`: decompression is a function of
/// the input bytes alone; a malformed or truncated stream is reported as an
/// error by `write_all` or `finish`.
#[verifier::external_body]
pub(crate) fn inflate(data: &Vec<u8>) -> (r: Result<Vec<u8>, UgitError>)
    ensures
        match r {
            Ok(v) => zlib_inflate_of(data@) == Some(v@),
            Err(e) => e == UgitError::Format && zlib_inflate_of(data@) is None,
        },
{
    let mut dec = flate2::write::ZlibDecoder::new(Vec::new());
    if std::io::Write::write_all(&mut dec, data.as_slice()).is_err() {
        return Err(UgitError::Format);
    }
    match dec.finish() {
        Ok(v) => Ok(v),
        Err(_) => Err(UgitError::Format),
    }
}

} // verus!
