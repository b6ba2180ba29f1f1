//! The content-addressable object model.
//!
//! An object is a kind (blob, tree or commit) plus its content bytes.  Its
//! address is the SHA-1 digest of `"<kind-name> <content-length>\0"` followed
//! by the content, and what goes on disk is the zlib compression of those
//! same bytes, under `objects/<first-2-hex-chars>/<remaining-38>`.  This
//! module computes encodings, addresses and decodings; putting the bytes on
//! disk and fetching them back is the caller's.

use vstd::prelude::*;
use crate::bytesutil::{bytes_eq, bytes_starts_with, push_all, sub_vec};
use crate::codec::{
    decode_object_header, encode_object_header, header_bytes, parse_header_spec, ObjectKind,
    is_first_nul, HEADER_LIMIT,
};
use crate::compress::{deflate, inflate, zlib_inflate_of};
use crate::digest::{sha1, sha1_of};
use crate::errors::UgitError;
use crate::hexcodec::{hex_encode, hex_of};

verus! {

/// The raw (uncompressed) bytes of an object: its header, then its content.
pub open spec fn object_bytes(kind: ObjectKind, content: Seq<u8>) -> Seq<u8> {
    header_bytes(kind, content.len()) + content
}

/// The address of an object: the SHA-1 digest of its raw bytes.  A pure
/// function of kind and content, which is the whole point of the store.
pub open spec fn object_hash(kind: ObjectKind, content: Seq<u8>) -> Seq<u8> {
    sha1_of(object_bytes(kind, content))
}

/// What decoding stored (compressed) object bytes yields: decompress, parse
/// the header, and take exactly the declared number of content bytes.
pub open spec fn decode_stored_spec(data: Seq<u8>) -> Result<(ObjectKind, Seq<u8>), UgitError> {
    match zlib_inflate_of(data) {
        None => Err(UgitError::Format),
        Some(raw) => match parse_header_spec(raw) {
            None => Err(UgitError::Format),
            Some((k, n, off)) => if raw.len() - off == n {
                Ok((k, raw.skip(off)))
            } else {
                Err(UgitError::Format)
            },
        },
    }
}

/// One object, encoded and addressed, ready to be put on disk.
pub struct StoredObject {
    /// The 20-byte SHA-1 digest.
    pub hash: Vec<u8>,
    /// The digest as 40 lowercase hex characters: shard directory (first
    /// two) and file name (the rest).
    pub hash_hex: Vec<u8>,
    /// The zlib-compressed header and content: the file's bytes.
    pub data: Vec<u8>,
}

impl StoredObject {
    pub open spec fn wf(self) -> bool {
        &&& self.hash@.len() == 20
        &&& self.hash_hex@ == hex_of(self.hash@)
    }

    /// This stored object is the encoding of `(kind, content)`: it carries
    /// their address, and decoding its bytes gives them back.
    pub open spec fn encodes(self, kind: ObjectKind, content: Seq<u8>) -> bool {
        &&& self.hash@ == object_hash(kind, content)
        &&& decode_stored_spec(self.data@) == Ok::<(ObjectKind, Seq<u8>), UgitError>(
            (kind, content),
        )
    }
}

/// Encodes and addresses one object.  The returned bytes decode back to
/// exactly `(kind, content)`, so reading a written object returns what was
/// written; and the hash is a pure function of kind and content, so writing
/// twice yields the same address and identical bytes can stand in its place.
pub fn write_object(kind: ObjectKind, content: &Vec<u8>) -> (r: StoredObject)
    ensures
        r.wf(),
        r.encodes(kind, content@),
        zlib_inflate_of(r.data@) == Some(object_bytes(kind, content@)),
{
    let mut raw = encode_object_header(kind, content.len());
    push_all(&mut raw, content);
    proof {
        assert(raw@ == object_bytes(kind, content@));
    }
    let hash = sha1(&raw);
    let hash_hex = hex_encode(&hash);
    let data = deflate(&raw);
    proof {
        crate::codec::lemma_parse_header_of_encoding(kind, content@.len(), content@);
        let h = header_bytes(kind, content@.len());
        assert(raw@.len() - h.len() == content@.len());
        assert(raw@.skip(h.len() as int) =~= content@);
    }
    StoredObject { hash, hash_hex, data }
}

/// Bounds that hold of any successfully parsed header: the content offset
/// lies inside the bytes, and the declared length is not negative.
proof fn lemma_parse_header_some_bounds(raw: Seq<u8>)
    ensures
        parse_header_spec(raw) matches Some(t) ==> {
            &&& 1 <= t.2 <= raw.len()
            &&& 0 <= t.1
        },
{
    if parse_header_spec(raw) is Some {
        let z = choose|y: int| is_first_nul(raw, HEADER_LIMIT as int, y);
        match crate::codec::split_kind(raw.take(z)) {
            Some((k, digits)) => {
                if digits.len() >= 1 && crate::codec::all_dec_digits(digits) {
                    crate::codec::lemma_dec_value_bound(digits);
                }
            },
            None => {},
        }
    }
}

/// Decodes stored object bytes: decompresses, reads the header, and returns
/// the kind and exactly the declared content.  Malformed streams, malformed
/// headers and length mismatches are all `Format` errors.
pub fn read_object(data: &Vec<u8>) -> (r: Result<(ObjectKind, Vec<u8>), UgitError>)
    ensures
        match r {
            Ok(t) => decode_stored_spec(data@) == Ok::<(ObjectKind, Seq<u8>), UgitError>(
                (t.0, t.1@),
            ),
            Err(e) => decode_stored_spec(data@) == Err::<(ObjectKind, Seq<u8>), UgitError>(e),
        },
{
    let raw = match inflate(data) {
        Ok(v) => v,
        Err(e) => {
            return Err(e);
        },
    };
    let (kind, declared, off) = match decode_object_header(&raw) {
        Ok(t) => t,
        Err(e) => {
            proof {
                lemma_parse_header_some_bounds(raw@);
            }
            return Err(e);
        },
    };
    proof {
        lemma_parse_header_some_bounds(raw@);
    }
    if raw.len() - off != declared {
        return Err(UgitError::Format);
    }
    let content = sub_vec(&raw, off, raw.len());
    proof {
        assert(content@ =~= raw@.skip(off as int));
    }
    Ok((kind, content))
}

/// Recomputes the address of `(kind, content)`.
fn hash_of_object(kind: ObjectKind, content: &Vec<u8>) -> (r: Vec<u8>)
    ensures
        r@ == object_hash(kind, content@),
        r@.len() == 20,
{
    let mut raw = encode_object_header(kind, content.len());
    push_all(&mut raw, content);
    proof {
        assert(raw@ == object_bytes(kind, content@));
    }
    sha1(&raw)
}

/// Decodes stored object bytes as `read_object` does, and then checks them
/// against the hash they were requested under: a decoded object whose
/// recomputed address differs is reported as corruption.
pub fn read_object_checked(hash_hex: &Vec<u8>, data: &Vec<u8>) -> (r: Result<
    (ObjectKind, Vec<u8>),
    UgitError,
>)
    ensures
        match r {
            Ok(t) => {
                &&& decode_stored_spec(data@) == Ok::<(ObjectKind, Seq<u8>), UgitError>(
                    (t.0, t.1@),
                )
                &&& hex_of(object_hash(t.0, t.1@)) == hash_hex@
            },
            Err(e) => match decode_stored_spec(data@) {
                Ok(t) => e == UgitError::Corruption && hex_of(object_hash(t.0, t.1)) != hash_hex@,
                Err(e2) => e == e2,
            },
        },
{
    let (kind, content) = match read_object(data) {
        Ok(t) => t,
        Err(e) => {
            return Err(e);
        },
    };
    let rehashed = hash_of_object(kind, &content);
    let rehashed_hex = hex_encode(&rehashed);
    if !bytes_eq(&rehashed_hex, hash_hex) {
        return Err(UgitError::Corruption);
    }
    Ok((kind, content))
}

/// Two encodings of the same kind and content carry the same address and
/// decode alike: the store is deterministic, and writing the same object
/// twice is harmless.
pub proof fn lemma_store_deterministic(
    r1: StoredObject,
    r2: StoredObject,
    kind: ObjectKind,
    content: Seq<u8>,
)
    requires
        r1.encodes(kind, content),
        r2.encodes(kind, content),
    ensures
        r1.hash@ == r2.hash@,
        decode_stored_spec(r1.data@) == decode_stored_spec(r2.data@),
{
}

// ---------------------------------------------------------------------------
// Short-hash resolution
// ---------------------------------------------------------------------------

/// Whether file name `name` (inside a shard directory) matches the short
/// hash `short`: the short hash's first two characters named the shard, the
/// rest must be a prefix of the file name.
pub open spec fn prefix_matches(short: Seq<u8>, name: Seq<u8>) -> bool {
    short.skip(2).is_prefix_of(name)
}

/// The shard-directory file names that match the short hash, in order.
pub open spec fn matching_names(short: Seq<u8>, names: Seq<Seq<u8>>) -> Seq<Seq<u8>>
    decreases names.len(),
{
    if names.len() == 0 {
        Seq::empty()
    } else {
        let rest = matching_names(short, names.drop_last());
        if prefix_matches(short, names.last()) {
            rest.push(names.last())
        } else {
            rest
        }
    }
}

/// What resolving a short hash against a shard directory's listing yields:
/// the unique matching full hash, or `NotFound` on zero matches, or
/// `AmbiguousHash` on more than one.
pub open spec fn resolve_prefix_spec(short: Seq<u8>, names: Seq<Seq<u8>>) -> Result<
    Seq<u8>,
    UgitError,
> {
    let ms = matching_names(short, names);
    if ms.len() == 0 {
        Err(UgitError::NotFound)
    } else if ms.len() > 1 {
        Err(UgitError::AmbiguousHash)
    } else {
        Ok(short.take(2) + ms[0])
    }
}

/// Resolves a short hash against the listing of its shard directory.
/// Exactly one matching file name yields that object's full hash; zero
/// matches yield `NotFound`; two or more yield `AmbiguousHash`.
#[verifier::loop_isolation(false)]
pub fn resolve_prefix(short: &Vec<u8>, names: &Vec<Vec<u8>>) -> (r: Result<Vec<u8>, UgitError>)
    requires
        2 <= short@.len(),
    ensures
        match r {
            Ok(full) => resolve_prefix_spec(short@, names.deep_view()) == Ok::<Seq<u8>, UgitError>(
                full@,
            ),
            Err(e) => resolve_prefix_spec(short@, names.deep_view()) == Err::<Seq<u8>, UgitError>(
                e,
            ),
        },
{
    let suffix = sub_vec(short, 2, short.len());
    proof {
        assert(suffix@ =~= short@.skip(2));
    }
    let mut found: Option<usize> = None;
    let mut i: usize = 0;
    while i < names.len()
        invariant
            i <= names@.len(),
            match found {
                Some(j) => {
                    &&& j < i
                    &&& prefix_matches(short@, names@[j as int]@)
                    &&& matching_names(short@, names.deep_view().take(i as int)) =~= seq![
                        names@[j as int]@,
                    ]
                },
                None => matching_names(short@, names.deep_view().take(i as int)) =~= Seq::<
                    Seq<u8>,
                >::empty(),
            },
        decreases names@.len() - i,
    {
        proof {
            assert(names.deep_view().take(i + 1).drop_last() =~= names.deep_view().take(i as int));
            assert(names.deep_view().take(i + 1).last() == names@[i as int]@);
        }
        if bytes_starts_with(&names[i], &suffix) {
            if found.is_some() {
                proof {
                    let whole = names.deep_view();
                    assert(matching_names(short@, whole.take(i + 1)).len() >= 2);
                    lemma_matching_names_grows(short@, whole, i + 1);
                }
                return Err(UgitError::AmbiguousHash);
            }
            found = Some(i);
        }
        i = i + 1;
    }
    proof {
        assert(names.deep_view().take(names@.len() as int) =~= names.deep_view());
    }
    match found {
        Some(j) => {
            let mut full = sub_vec(short, 0, 2);
            push_all(&mut full, &names[j]);
            proof {
                assert(full@ =~= short@.take(2) + names@[j as int]@);
            }
            Ok(full)
        },
        None => Err(UgitError::NotFound),
    }
}

/// Matches only accumulate as more of the listing is considered.
proof fn lemma_matching_names_grows(short: Seq<u8>, names: Seq<Seq<u8>>, i: int)
    requires
        0 <= i <= names.len(),
    ensures
        matching_names(short, names.take(i)).len() <= matching_names(short, names).len(),
    decreases names.len() - i,
{
    if i < names.len() {
        assert(names.take(i + 1).drop_last() =~= names.take(i));
        lemma_matching_names_grows(short, names, i + 1);
    } else {
        assert(names.take(i) =~= names);
    }
}

} // verus!
