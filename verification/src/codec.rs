//! The object header codec.
//!
//! Every stored object begins, before compression, with the text header
//! `"<kind-name> <content-length>\0"`; the kind names are `blob`, `tree` and
//! `commit` and the length is written in decimal.  This module defines the
//! byte-exact encoding, a bounded parser for it, and the proof that parsing
//! undoes encoding.

use vstd::prelude::*;
use vstd::arithmetic::div_mod::lemma_fundamental_div_mod;
use crate::errors::UgitError;

verus! {

/// The kind of a stored object, decided once at decode time.
#[derive(Clone, Copy, Debug, PartialEq, Eq, Structural)]
pub enum ObjectKind {
    Blob,
    Tree,
    Commit,
}

/// A header is only looked for within this many leading bytes; a longer
/// prefix without a NUL terminator is malformed.
pub const HEADER_LIMIT: usize = 32;

// ---------------------------------------------------------------------------
// Decimal rendering of lengths
// ---------------------------------------------------------------------------

/// Whether `b` is the ASCII code of a decimal digit.
pub open spec fn is_dec_digit(b: u8) -> bool {
    0x30 <= b && b <= 0x39
}

pub open spec fn all_dec_digits(s: Seq<u8>) -> bool {
    forall|i: int| 0 <= i < s.len() ==> is_dec_digit(#[trigger] s[i])
}

/// The number denoted by a string of ASCII digits, most significant first.
pub open spec fn dec_value(s: Seq<u8>) -> int
    decreases s.len(),
{
    if s.len() == 0 {
        0
    } else {
        dec_value(s.drop_last()) * 10 + (s.last() - 0x30)
    }
}

/// The canonical decimal rendering of `n`: no sign, no leading zeros
/// (except for `n == 0` itself).
pub open spec fn dec_digits_of(n: nat) -> Seq<u8>
    decreases n,
{
    if n < 10 {
        seq![(0x30 + n) as u8]
    } else {
        dec_digits_of(n / 10).push((0x30 + n % 10) as u8)
    }
}

pub open spec fn pow10(k: nat) -> nat
    decreases k,
{
    if k == 0 {
        1
    } else {
        10 * pow10((k - 1) as nat)
    }
}

pub proof fn lemma_pow10_increases(a: nat, b: nat)
    requires
        a <= b,
    ensures
        pow10(a) <= pow10(b),
    decreases b,
{
    if a < b {
        lemma_pow10_increases(a, (b - 1) as nat);
    }
}

/// The canonical rendering of `n` consists of digits and denotes `n`.
pub proof fn lemma_dec_digits_of_ok(n: nat)
    ensures
        dec_digits_of(n).len() >= 1,
        all_dec_digits(dec_digits_of(n)),
        dec_value(dec_digits_of(n)) == n,
    decreases n,
{
    if n < 10 {
        assert(dec_value(dec_digits_of(n)) == n) by {
            assert(dec_value(Seq::<u8>::empty()) == 0);
            assert(dec_digits_of(n).drop_last() =~= Seq::<u8>::empty());
        }
    } else {
        lemma_dec_digits_of_ok(n / 10);
        let prefix = dec_digits_of(n / 10);
        let whole = prefix.push((0x30 + n % 10) as u8);
        assert(whole.drop_last() =~= prefix);
        lemma_fundamental_div_mod(n as int, 10);
    }
}

/// A digit string of length `k` denotes a value below `10^k`.
pub proof fn lemma_dec_value_bound(s: Seq<u8>)
    requires
        all_dec_digits(s),
    ensures
        0 <= dec_value(s) < pow10(s.len()),
    decreases s.len(),
{
    if s.len() > 0 {
        assert(all_dec_digits(s.drop_last())) by {
            assert(forall|i: int| 0 <= i < s.len() - 1 ==> s.drop_last()[i] == s[i]);
        }
        lemma_dec_value_bound(s.drop_last());
    }
}

/// A value below `10^k` is rendered with at most `k` digits.
pub proof fn lemma_dec_digits_of_len(n: nat, k: nat)
    requires
        k >= 1,
        n < pow10(k),
    ensures
        dec_digits_of(n).len() <= k,
    decreases n,
{
    if n >= 10 {
        assert(k >= 2) by {
            if k < 2 {
                assert(pow10(0) == 1);
                assert(pow10(1) == 10);
            }
        }
        assert(n / 10 < pow10((k - 1) as nat)) by {
            lemma_fundamental_div_mod(n as int, 10);
        }
        lemma_dec_digits_of_len(n / 10, (k - 1) as nat);
    }
}

/// Renders `n` in decimal, most significant digit first.
pub fn format_decimal(n: usize) -> (r: Vec<u8>)
    ensures
        r@ == dec_digits_of(n as nat),
    decreases n,
{
    if n < 10 {
        let mut r: Vec<u8> = Vec::new();
        r.push(0x30 + n as u8);
        proof {
            assert(r@ =~= dec_digits_of(n as nat));
        }
        r
    } else {
        let mut r = format_decimal(n / 10);
        r.push(0x30 + (n % 10) as u8);
        proof {
            assert(r@ =~= dec_digits_of(n as nat));
        }
        r
    }
}

// ---------------------------------------------------------------------------
// The header itself
// ---------------------------------------------------------------------------

/// The name under which each kind appears in a header.
pub open spec fn kind_bytes(k: ObjectKind) -> Seq<u8> {
    match k {
        ObjectKind::Blob => seq![98u8, 108u8, 111u8, 98u8],
        ObjectKind::Tree => seq![116u8, 114u8, 101u8, 101u8],
        ObjectKind::Commit => seq![99u8, 111u8, 109u8, 109u8, 105u8, 116u8],
    }
}

/// The exact bytes of the header of an object of kind `k` whose content is
/// `n` bytes long: `"<kind-name> <n>\0"`.
pub open spec fn header_bytes(k: ObjectKind, n: nat) -> Seq<u8> {
    kind_bytes(k) + seq![32u8] + dec_digits_of(n) + seq![0u8]
}

/// `z` is the position of the first NUL byte of `s`, and lies within the
/// first `limit` bytes.
pub open spec fn is_first_nul(s: Seq<u8>, limit: int, z: int) -> bool {
    &&& 0 <= z < limit
    &&& z < s.len()
    &&& s[z] == 0
    &&& forall|j: int| 0 <= j < z ==> s[j] != 0
}

/// Splits the header text (the bytes before the NUL) into a kind and its
/// decimal length field.
pub open spec fn split_kind(hdr: Seq<u8>) -> Option<(ObjectKind, Seq<u8>)> {
    if has_kind_prefix(hdr, ObjectKind::Blob) {
        Some((ObjectKind::Blob, hdr.skip(5)))
    } else if has_kind_prefix(hdr, ObjectKind::Tree) {
        Some((ObjectKind::Tree, hdr.skip(5)))
    } else if has_kind_prefix(hdr, ObjectKind::Commit) {
        Some((ObjectKind::Commit, hdr.skip(7)))
    } else {
        None
    }
}

pub open spec fn has_kind_prefix(hdr: Seq<u8>, k: ObjectKind) -> bool {
    let p = kind_bytes(k) + seq![32u8];
    hdr.len() >= p.len() && hdr.take(p.len() as int) == p
}

/// What parsing a decompressed object yields: its kind, its declared content
/// length, and the offset at which the content starts (just after the NUL).
/// `None` is a malformed header.
pub open spec fn parse_header_spec(raw: Seq<u8>) -> Option<(ObjectKind, int, int)> {
    if exists|z: int| is_first_nul(raw, HEADER_LIMIT as int, z) {
        let z = choose|z: int| is_first_nul(raw, HEADER_LIMIT as int, z);
        match split_kind(raw.take(z)) {
            Some((k, digits)) => if digits.len() >= 1 && all_dec_digits(digits) {
                Some((k, dec_value(digits), z + 1))
            } else {
                None
            },
            None => None,
        }
    } else {
        None
    }
}

pub proof fn lemma_first_nul_unique(s: Seq<u8>, limit: int, z1: int, z2: int)
    requires
        is_first_nul(s, limit, z1),
        is_first_nul(s, limit, z2),
    ensures
        z1 == z2,
{
}

/// Builds the header `"<kind-name> <content_len>\0"`.
pub fn encode_object_header(kind: ObjectKind, content_len: usize) -> (r: Vec<u8>)
    ensures
        r@ == header_bytes(kind, content_len as nat),
{
    let mut r: Vec<u8> = Vec::new();
    match kind {
        ObjectKind::Blob => {
            r.push(98);
            r.push(108);
            r.push(111);
            r.push(98);
        },
        ObjectKind::Tree => {
            r.push(116);
            r.push(114);
            r.push(101);
            r.push(101);
        },
        ObjectKind::Commit => {
            r.push(99);
            r.push(111);
            r.push(109);
            r.push(109);
            r.push(105);
            r.push(116);
        },
    }
    r.push(32);
    let mut digits = format_decimal(content_len);
    r.append(&mut digits);
    r.push(0);
    proof {
        assert(r@ =~= header_bytes(kind, content_len as nat));
    }
    r
}

proof fn lemma_pow10_28()
    ensures
        pow10(28) == 10000000000000000000000000000,
{
    reveal_with_fuel(pow10, 29);
}

proof fn lemma_pow10_20()
    ensures
        pow10(20) == 100000000000000000000,
{
    reveal_with_fuel(pow10, 21);
}

/// Parses the header of a decompressed object: its kind, its declared
/// content length, and the offset where the content starts.  Fails on a
/// missing terminator, an unknown kind, or a bad length field; a declared
/// length that cannot fit in memory is malformed as well.
#[verifier::loop_isolation(false)]
pub fn decode_object_header(raw: &Vec<u8>) -> (r: Result<(ObjectKind, usize, usize), UgitError>)
    ensures
        match r {
            Ok(t) => parse_header_spec(raw@) == Some((t.0, t.1 as int, t.2 as int)),
            Err(e) => {
                &&& e == UgitError::Format
                &&& match parse_header_spec(raw@) {
                    Some(t) => t.1 > usize::MAX as int,
                    None => true,
                }
            },
        },
{
    let limit = if raw.len() < HEADER_LIMIT {
        raw.len()
    } else {
        HEADER_LIMIT
    };
    let mut z: usize = 0;
    while z < limit && raw[z as usize] != 0
        invariant
            0 <= z <= limit,
            limit <= raw@.len(),
            limit <= HEADER_LIMIT,
            limit == HEADER_LIMIT || limit == raw@.len(),
            forall|j: int| 0 <= j < z ==> raw@[j] != 0,
        decreases limit - z,
    {
        z = z + 1;
    }
    if z == limit {
        proof {
            assert forall|y: int| !is_first_nul(raw@, HEADER_LIMIT as int, y) by {
                if 0 <= y < limit {
                    assert(raw@[y] != 0);
                }
            }
        }
        return Err(UgitError::Format);
    }
    proof {
        assert(is_first_nul(raw@, HEADER_LIMIT as int, z as int));
    }
    let ghost zc = choose|y: int| is_first_nul(raw@, HEADER_LIMIT as int, y);
    proof {
        lemma_first_nul_unique(raw@, HEADER_LIMIT as int, z as int, zc);
    }
    let ghost hdr = raw@.take(z as int);
    // Identify the kind by its name and the space after it.
    let (kstart, kind): (usize, ObjectKind) = if z >= 5 && raw[0] == 98 && raw[1] == 108
        && raw[2] == 111 && raw[3] == 98 && raw[4] == 32 {
        proof {
            assert(hdr.take(5) =~= kind_bytes(ObjectKind::Blob) + seq![32u8]);
        }
        (5, ObjectKind::Blob)
    } else if z >= 5 && raw[0] == 116 && raw[1] == 114 && raw[2] == 101 && raw[3] == 101
        && raw[4] == 32 {
        proof {
            assert(hdr.take(5) =~= kind_bytes(ObjectKind::Tree) + seq![32u8]);
        }
        (5, ObjectKind::Tree)
    } else if z >= 7 && raw[0] == 99 && raw[1] == 111 && raw[2] == 109 && raw[3] == 109
        && raw[4] == 105 && raw[5] == 116 && raw[6] == 32 {
        proof {
            assert(hdr.take(7) =~= kind_bytes(ObjectKind::Commit) + seq![32u8]);
        }
        (7, ObjectKind::Commit)
    } else {
        proof {
            assert(split_kind(hdr) is None) by {
                if has_kind_prefix(hdr, ObjectKind::Blob) {
                    assert(hdr.take(5)[0] == 98 && hdr.take(5)[1] == 108 && hdr.take(5)[2] == 111
                        && hdr.take(5)[3] == 98 && hdr.take(5)[4] == 32);
                }
                if has_kind_prefix(hdr, ObjectKind::Tree) {
                    assert(hdr.take(5)[0] == 116 && hdr.take(5)[1] == 114 && hdr.take(5)[2] == 101
                        && hdr.take(5)[3] == 101 && hdr.take(5)[4] == 32);
                }
                if has_kind_prefix(hdr, ObjectKind::Commit) {
                    assert(hdr.take(7)[0] == 99 && hdr.take(7)[1] == 111 && hdr.take(7)[2] == 109
                        && hdr.take(7)[3] == 109 && hdr.take(7)[4] == 105 && hdr.take(7)[5] == 116
                        && hdr.take(7)[6] == 32);
                }
            }
        }
        return Err(UgitError::Format);
    };
    proof {
        assert(split_kind(hdr) == Some((kind, hdr.skip(kstart as int))));
        assert(hdr.skip(kstart as int) =~= raw@.subrange(kstart as int, z as int));
    }
    let ghost digits = raw@.subrange(kstart as int, z as int);
    if z == kstart {
        proof {
            assert(digits.len() == 0);
            assert(parse_header_spec(raw@) is None);
        }
        return Err(UgitError::Format);
    }
    // Read the decimal length field.
    let mut acc: u128 = 0;
    let mut j: usize = kstart;
    while j < z
        invariant
            kstart <= j <= z,
            z < raw@.len(),
            z < HEADER_LIMIT,
            5 <= kstart,
            digits == raw@.subrange(kstart as int, z as int),
            all_dec_digits(raw@.subrange(kstart as int, j as int)),
            acc == dec_value(raw@.subrange(kstart as int, j as int)),
            acc < pow10((j - kstart) as nat),
        decreases z - j,
    {
        let b = raw[j];
        if b < 0x30 || b > 0x39 {
            proof {
                assert(digits[j - kstart] == b);
                assert(!all_dec_digits(digits));
            }
            return Err(UgitError::Format);
        }
        proof {
            lemma_pow10_28();
            lemma_pow10_increases(((j - kstart) + 1) as nat, 28);
            assert(raw@.subrange(kstart as int, j + 1).drop_last() =~= raw@.subrange(
                kstart as int, j as int));
            assert(raw@.subrange(kstart as int, j + 1).last() == raw@[j as int]);
        }
        acc = acc * 10 + (b - 0x30) as u128;
        j = j + 1;
        proof {
            assert forall|i: int| 0 <= i < j - kstart implies is_dec_digit(
                #[trigger] raw@.subrange(kstart as int, j as int)[i]) by {
                assert(raw@.subrange(kstart as int, j as int)[i] == raw@[kstart + i]);
            }
        }
    }
    proof {
        assert(raw@.subrange(kstart as int, j as int) == digits);
        assert(parse_header_spec(raw@) == Some((kind, acc as int, z as int + 1)));
    }
    if acc > usize::MAX as u128 {
        return Err(UgitError::Format);
    }
    Ok((kind, acc as usize, z + 1))
}

/// Parsing undoes encoding: a header built for `(k, n)`, followed by any
/// content at all, parses back to `(k, n)` with the content starting right
/// after the header.
pub proof fn lemma_parse_header_of_encoding(k: ObjectKind, n: nat, rest: Seq<u8>)
    requires
        n <= usize::MAX as nat,
    ensures
        parse_header_spec(header_bytes(k, n) + rest) == Some(
            (k, n as int, header_bytes(k, n).len() as int),
        ),
{
    lemma_dec_digits_of_ok(n);
    lemma_pow10_20();
    lemma_dec_digits_of_len(n, 20);
    let kb = kind_bytes(k);
    let digits = dec_digits_of(n);
    let h = header_bytes(k, n);
    let s = h + rest;
    let z: int = (kb.len() + 1 + digits.len()) as int;
    assert(h.len() == z + 1);
    assert(kb.len() <= 6);
    assert(z < HEADER_LIMIT as int);
    assert(s[z as int] == 0);
    assert forall|j: int| 0 <= j < z implies s[j] != 0 by {
        if j < kb.len() {
            assert(s[j] == kb[j]);
            match k {
                ObjectKind::Blob => {
                    assert(kb =~= seq![98u8, 108u8, 111u8, 98u8]);
                },
                ObjectKind::Tree => {
                    assert(kb =~= seq![116u8, 114u8, 101u8, 101u8]);
                },
                ObjectKind::Commit => {
                    assert(kb =~= seq![99u8, 111u8, 109u8, 109u8, 105u8, 116u8]);
                },
            }
        } else if j == kb.len() {
            assert(s[j] == 32);
        } else {
            assert(s[j] == digits[j - kb.len() - 1]);
            assert(is_dec_digit(digits[j - kb.len() - 1]));
        }
    }
    assert(is_first_nul(s, HEADER_LIMIT as int, z));
    let zc = choose|y: int| is_first_nul(s, HEADER_LIMIT as int, y);
    lemma_first_nul_unique(s, HEADER_LIMIT as int, z, zc);
    let hdr = s.take(z);
    assert(hdr =~= kb + seq![32u8] + digits);
    assert(has_kind_prefix(hdr, k)) by {
        assert(hdr.take((kb.len() + 1) as int) =~= kb + seq![32u8]);
    }
    match k {
        ObjectKind::Blob => {
            assert(split_kind(hdr) == Some((k, hdr.skip(5))));
            assert(hdr.skip(5) =~= digits);
        },
        ObjectKind::Tree => {
            assert(!has_kind_prefix(hdr, ObjectKind::Blob)) by {
                if has_kind_prefix(hdr, ObjectKind::Blob) {
                    assert(hdr.take(5)[0] == 98);
                    assert(hdr[0] == 116);
                }
            }
            assert(split_kind(hdr) == Some((k, hdr.skip(5))));
            assert(hdr.skip(5) =~= digits);
        },
        ObjectKind::Commit => {
            assert(!has_kind_prefix(hdr, ObjectKind::Blob)) by {
                if has_kind_prefix(hdr, ObjectKind::Blob) {
                    assert(hdr.take(5)[0] == 98);
                    assert(hdr[0] == 99);
                }
            }
            assert(!has_kind_prefix(hdr, ObjectKind::Tree)) by {
                if has_kind_prefix(hdr, ObjectKind::Tree) {
                    assert(hdr.take(5)[0] == 116);
                    assert(hdr[0] == 99);
                }
            }
            assert(split_kind(hdr) == Some((k, hdr.skip(7))));
            assert(hdr.skip(7) =~= digits);
        },
    }
}

} // verus!
