//! The staging index: the binary file listing what goes into the next
//! snapshot.
//!
//! On disk the index is the 4-byte signature `DIRC`, a 4-byte little-endian
//! version, a 4-byte little-endian entry count, and then one fixed-format
//! record per entry: mode (2 bytes), file size (4), modification time (4),
//! SHA-1 (20), and the path as NUL-terminated UTF-8.  This module owns the
//! in-memory value, its byte encoding, its parser, and the add/remove
//! bookkeeping; reading and writing the file itself is the caller's.

use vstd::prelude::*;
use vstd::bytes::{
    spec_u16_to_le_bytes, spec_u32_to_le_bytes, spec_u16_from_le_bytes, spec_u32_from_le_bytes,
    u16_to_le_bytes, u32_to_le_bytes, u16_from_le_bytes, u32_from_le_bytes,
    lemma_auto_spec_u16_to_from_le_bytes, lemma_auto_spec_u32_to_from_le_bytes,
};
use vstd::string::StrSliceExecFns;
use vstd::utf8::{
    encode_utf8, decode_utf8, valid_utf8, encode_utf8_valid_utf8, encode_utf8_decode_utf8,
    decode_utf8_encode_utf8,
};
use crate::bytesutil::{push_all, sub_vec};
use crate::errors::UgitError;
use crate::strutil::bytes_to_string;

verus! {

/// The index format version this build reads and writes.  The staging
/// record layout has no creation-time field in this version.
pub const INDEX_VERSION: u32 = 2;

/// One staged file.
pub struct IndexEntry {
    /// File mode: regular, executable, symlink (directories are never
    /// staged as entries themselves).
    pub mode: u16,
    /// Size of the staged file in bytes.
    pub file_size: u32,
    /// Last modification time, seconds since the epoch.
    pub mtime: u32,
    /// The 20-byte blob hash of the staged content.
    pub sha1: Vec<u8>,
    /// The repository-relative path, without a trailing NUL.
    pub path: String,
}

/// The mathematical value of one staged entry.
pub struct IndexEntryV {
    pub mode: u16,
    pub file_size: u32,
    pub mtime: u32,
    pub sha1: Seq<u8>,
    pub path: Seq<char>,
}

impl View for IndexEntry {
    type V = IndexEntryV;

    open spec fn view(&self) -> IndexEntryV {
        IndexEntryV {
            mode: self.mode,
            file_size: self.file_size,
            mtime: self.mtime,
            sha1: self.sha1@,
            path: self.path@,
        }
    }
}

/// A representable entry: a full-size digest, and a path whose encoding
/// contains no NUL byte (the record format could not hold one).
pub open spec fn entry_wf(v: IndexEntryV) -> bool {
    &&& v.sha1.len() == 20
    &&& !encode_utf8(v.path).contains(0)
}

/// The exact bytes of one staged-entry record.
pub open spec fn entry_bytes(v: IndexEntryV) -> Seq<u8> {
    spec_u16_to_le_bytes(v.mode) + spec_u32_to_le_bytes(v.file_size) + spec_u32_to_le_bytes(v.mtime)
        + v.sha1 + encode_utf8(v.path) + seq![0u8]
}

/// `k` is the position of the first NUL byte of `data` after the fixed
/// fields of the record starting at `pos`.
pub open spec fn is_path_nul(data: Seq<u8>, pos: int, k: int) -> bool {
    &&& pos + 30 <= k < data.len()
    &&& data[k] == 0
    &&& forall|j: int| pos + 30 <= j < k ==> data[j] != 0
}

/// What parsing one record at position `pos` yields: the entry and the
/// position just past its terminating NUL, or nothing if the record is
/// truncated or its path is not UTF-8.
pub open spec fn parse_entry_spec(data: Seq<u8>, pos: int) -> Option<(IndexEntryV, int)> {
    if pos + 30 > data.len() {
        None
    } else if exists|k: int| is_path_nul(data, pos, k) {
        let k = choose|k: int| is_path_nul(data, pos, k);
        let pb = data.subrange(pos + 30, k);
        if valid_utf8(pb) {
            Some(
                (
                    IndexEntryV {
                        mode: spec_u16_from_le_bytes(data.subrange(pos, pos + 2)),
                        file_size: spec_u32_from_le_bytes(data.subrange(pos + 2, pos + 6)),
                        mtime: spec_u32_from_le_bytes(data.subrange(pos + 6, pos + 10)),
                        sha1: data.subrange(pos + 10, pos + 30),
                        path: decode_utf8(pb),
                    },
                    k + 1,
                ),
            )
        } else {
            None
        }
    } else {
        None
    }
}

proof fn lemma_path_nul_unique(data: Seq<u8>, pos: int, k1: int, k2: int)
    requires
        is_path_nul(data, pos, k1),
        is_path_nul(data, pos, k2),
    ensures
        k1 == k2,
{
}

impl IndexEntry {
    /// The record bytes of this entry.
    pub fn to_bytes(&self) -> (r: Vec<u8>)
        ensures
            r@ == entry_bytes(self@),
    {
        let mut r = u16_to_le_bytes(self.mode);
        let size_bytes = u32_to_le_bytes(self.file_size);
        push_all(&mut r, &size_bytes);
        let mtime_bytes = u32_to_le_bytes(self.mtime);
        push_all(&mut r, &mtime_bytes);
        push_all(&mut r, &self.sha1);
        let path_bytes = self.path.as_str().as_bytes_vec();
        push_all(&mut r, &path_bytes);
        r.push(0);
        proof {
            assert(r@ =~= entry_bytes(self@));
        }
        r
    }

    /// Parses one record that fills `bytes` exactly: the fixed fields, then
    /// the path up to the terminating NUL, which must be the final byte.
    /// Anything shorter, longer, or not UTF-8 is malformed.
    pub fn from_bytes(bytes: &Vec<u8>) -> (r: Result<IndexEntry, UgitError>)
        ensures
            match r {
                Ok(e) => {
                    &&& parse_entry_spec(bytes@, 0) == Some((e@, bytes@.len() as int))
                    &&& entry_wf(e@)
                },
                Err(err) => {
                    &&& err == UgitError::Format
                    &&& match parse_entry_spec(bytes@, 0) {
                        Some(t) => t.1 != bytes@.len(),
                        None => true,
                    }
                },
            },
    {
        match parse_entry(bytes, 0) {
            Ok((e, next)) => {
                if next != bytes.len() {
                    return Err(UgitError::Format);
                }
                Ok(e)
            },
            Err(err) => Err(err),
        }
    }
}

/// Parses one staged-entry record starting at `pos`.
#[verifier::loop_isolation(false)]
pub(crate) fn parse_entry(data: &Vec<u8>, pos: usize) -> (r: Result<(IndexEntry, usize), UgitError>)
    ensures
        match r {
            Ok(t) => {
                &&& parse_entry_spec(data@, pos as int) == Some((t.0@, t.1 as int))
                &&& entry_wf(t.0@)
                &&& pos < t.1 <= data@.len()
            },
            Err(e) => {
                &&& e == UgitError::Format
                &&& parse_entry_spec(data@, pos as int) is None
            },
        },
{
    if data.len() < 30 || pos > data.len() - 30 {
        return Err(UgitError::Format);
    }
    // Find the NUL that terminates the path.
    let mut k: usize = pos + 30;
    while k < data.len() && data[k] != 0
        invariant
            pos + 30 <= k <= data@.len(),
            forall|j: int| pos + 30 <= j < k ==> data@[j] != 0,
        decreases data@.len() - k,
    {
        k = k + 1;
    }
    if k == data.len() {
        proof {
            assert forall|y: int| !is_path_nul(data@, pos as int, y) by {
                if pos + 30 <= y < data@.len() {
                    assert(data@[y] != 0);
                }
            }
        }
        return Err(UgitError::Format);
    }
    proof {
        assert(is_path_nul(data@, pos as int, k as int));
        let kc = choose|y: int| is_path_nul(data@, pos as int, y);
        lemma_path_nul_unique(data@, pos as int, k as int, kc);
    }
    let path_bytes = sub_vec(data, pos + 30, k);
    let path = match bytes_to_string(&path_bytes) {
        Ok(s) => s,
        Err(e) => {
            return Err(e);
        },
    };
    let mode_bytes = sub_vec(data, pos, pos + 2);
    let mode = u16_from_le_bytes(mode_bytes.as_slice());
    let size_bytes = sub_vec(data, pos + 2, pos + 6);
    let file_size = u32_from_le_bytes(size_bytes.as_slice());
    let mtime_bytes = sub_vec(data, pos + 6, pos + 10);
    let mtime = u32_from_le_bytes(mtime_bytes.as_slice());
    let sha1 = sub_vec(data, pos + 10, pos + 30);
    let e = IndexEntry { mode, file_size, mtime, sha1, path };
    proof {
        let pb = data@.subrange(pos + 30, k as int);
        assert(encode_utf8(e@.path) == pb);
        encode_utf8_decode_utf8(e@.path);
        assert(e@.path == decode_utf8(pb));
        assert forall|j: int| 0 <= j < pb.len() implies pb[j] != 0 by {
            assert(data@[pos + 30 + j] != 0);
        }
        assert(!pb.contains(0));
        assert(parse_entry_spec(data@, pos as int) == Some((e@, k as int + 1)));
    }
    Ok((e, k + 1))
}

/// No two entries name the same path.
pub open spec fn paths_unique(es: Seq<IndexEntryV>) -> bool {
    forall|i: int, j: int| 0 <= i < j < es.len() ==> es[i].path != es[j].path
}

/// The staging index: an ordered collection of entries plus its header
/// fields.  The signature is the constant `DIRC` and is not stored.
pub struct Index {
    /// The format version, always `INDEX_VERSION` in a well-formed value.
    pub version: u32,
    /// The entry count written in the header; equal to the number of
    /// entries actually present in a well-formed value.
    pub number_of_entries: u32,
    /// The staged entries.
    pub entries: Vec<IndexEntry>,
}

/// The 4-byte signature `DIRC` that begins every staging file.
pub open spec fn index_signature() -> Seq<u8> {
    seq![68u8, 73u8, 82u8, 67u8]
}

/// The records of all entries, in order.
pub open spec fn entries_bytes(es: Seq<IndexEntryV>) -> Seq<u8>
    decreases es.len(),
{
    if es.len() == 0 {
        Seq::empty()
    } else {
        entry_bytes(es.first()) + entries_bytes(es.drop_first())
    }
}

/// The exact bytes of a staging file holding `es`: signature, version,
/// count, then the records.
pub open spec fn index_bytes(es: Seq<IndexEntryV>) -> Seq<u8> {
    index_signature() + spec_u32_to_le_bytes(INDEX_VERSION) + spec_u32_to_le_bytes(es.len() as u32)
        + entries_bytes(es)
}

proof fn lemma_entries_bytes_snoc(es: Seq<IndexEntryV>, v: IndexEntryV)
    ensures
        entries_bytes(es.push(v)) == entries_bytes(es) + entry_bytes(v),
    decreases es.len(),
{
    if es.len() == 0 {
        assert(es.push(v).first() == v);
        assert(es.push(v).drop_first() =~= Seq::<IndexEntryV>::empty());
        assert(entries_bytes(Seq::<IndexEntryV>::empty()) == Seq::<u8>::empty());
        assert(entries_bytes(es.push(v)) =~= entries_bytes(es) + entry_bytes(v));
    } else {
        assert(es.push(v).first() == es.first());
        assert(es.push(v).drop_first() =~= es.drop_first().push(v));
        lemma_entries_bytes_snoc(es.drop_first(), v);
        assert(entries_bytes(es.push(v)) == entry_bytes(es.first()) + (entries_bytes(
            es.drop_first(),
        ) + entry_bytes(v)));
        assert(entry_bytes(es.first()) + (entries_bytes(es.drop_first()) + entry_bytes(v))
            =~= (entry_bytes(es.first()) + entries_bytes(es.drop_first())) + entry_bytes(v));
    }
}

/// What parsing `count` consecutive records starting at `pos` yields.
pub open spec fn parse_entries_spec(data: Seq<u8>, pos: int, count: nat) -> Option<Seq<IndexEntryV>>
    decreases count,
{
    if count == 0 {
        Some(Seq::empty())
    } else {
        match parse_entry_spec(data, pos) {
            None => None,
            Some((v, next)) => match parse_entries_spec(data, next, (count - 1) as nat) {
                None => None,
                Some(rest) => Some(seq![v] + rest),
            },
        }
    }
}

/// What parsing a whole staging file yields: its entries, or nothing on a
/// bad signature, a version other than this build's, or a truncated or
/// malformed record.  Exactly the declared number of records is read;
/// bytes after them are ignored.
pub open spec fn parse_index_spec(data: Seq<u8>) -> Option<Seq<IndexEntryV>> {
    if data.len() < 12 {
        None
    } else if data.subrange(0, 4) != index_signature() {
        None
    } else if spec_u32_from_le_bytes(data.subrange(4, 8)) != INDEX_VERSION {
        None
    } else {
        parse_entries_spec(data, 12, spec_u32_from_le_bytes(data.subrange(8, 12)) as nat)
    }
}

impl Index {
    /// The mathematical value of the entries, in order.
    pub open spec fn entry_views(self) -> Seq<IndexEntryV> {
        self.entries@.map_values(|e: IndexEntry| e@)
    }

    /// Structural well-formedness: right version, a count that equals the
    /// number of entries present, and representable entries.
    pub open spec fn wf_data(self) -> bool {
        &&& self.version == INDEX_VERSION
        &&& self.number_of_entries == self.entries@.len()
        &&& self.entries@.len() <= u32::MAX
        &&& forall|i: int| 0 <= i < self.entries@.len() ==> entry_wf(
            #[trigger] self.entry_views()[i],
        )
    }

    /// Full well-formedness: structurally sound, and no path staged twice.
    pub open spec fn wf(self) -> bool {
        &&& self.wf_data()
        &&& paths_unique(self.entry_views())
    }

    /// The exact bytes of the staging file for this index.
    pub fn to_bytes(&self) -> (r: Vec<u8>)
        requires
            self.wf_data(),
        ensures
            r@ == index_bytes(self.entry_views()),
    {
        let mut r: Vec<u8> = Vec::new();
        r.push(68);
        r.push(73);
        r.push(82);
        r.push(67);
        let version_bytes = u32_to_le_bytes(INDEX_VERSION);
        push_all(&mut r, &version_bytes);
        let count_bytes = u32_to_le_bytes(self.number_of_entries);
        push_all(&mut r, &count_bytes);
        proof {
            assert(self.number_of_entries == self.entry_views().len() as u32);
            assert(r@ =~= index_signature() + spec_u32_to_le_bytes(INDEX_VERSION)
                + spec_u32_to_le_bytes(self.entry_views().len() as u32));
        }
        let mut i: usize = 0;
        while i < self.entries.len()
            invariant
                i <= self.entries@.len(),
                self.wf_data(),
                r@ == index_signature() + spec_u32_to_le_bytes(INDEX_VERSION)
                    + spec_u32_to_le_bytes(self.entry_views().len() as u32) + entries_bytes(
                    self.entry_views().take(i as int),
                ),
            decreases self.entries@.len() - i,
        {
            let record = self.entries[i].to_bytes();
            push_all(&mut r, &record);
            i = i + 1;
            proof {
                assert(self.entry_views().take(i as int) =~= self.entry_views().take(
                    i - 1,
                ).push(self.entry_views()[i - 1]));
                lemma_entries_bytes_snoc(
                    self.entry_views().take(i - 1),
                    self.entry_views()[i - 1],
                );
                assert(r@ =~= index_signature() + spec_u32_to_le_bytes(INDEX_VERSION)
                    + spec_u32_to_le_bytes(self.entry_views().len() as u32) + entries_bytes(
                    self.entry_views().take(i as int),
                ));
            }
        }
        proof {
            assert(self.entry_views().take(self.entries@.len() as int) =~= self.entry_views());
        }
        r
    }

    /// Parses a staging file: validates the signature and the version, then
    /// reads exactly the declared number of records.  A short file, a bad
    /// record or a non-UTF-8 path is malformed; the declared count is never
    /// trusted beyond the bytes actually present.
    #[verifier::loop_isolation(false)]
    pub fn parse(data: &Vec<u8>) -> (r: Result<Index, UgitError>)
        ensures
            match r {
                Ok(idx) => {
                    &&& parse_index_spec(data@) == Some(idx.entry_views())
                    &&& idx.wf_data()
                },
                Err(e) => {
                    &&& e == UgitError::Format
                    &&& parse_index_spec(data@) is None
                },
            },
    {
        if data.len() < 12 {
            return Err(UgitError::Format);
        }
        if !(data[0] == 68 && data[1] == 73 && data[2] == 82 && data[3] == 67) {
            proof {
                assert(data@.subrange(0, 4) != index_signature()) by {
                    if data@.subrange(0, 4) == index_signature() {
                        assert(data@.subrange(0, 4)[0] == 68 && data@.subrange(0, 4)[1] == 73
                            && data@.subrange(0, 4)[2] == 82 && data@.subrange(0, 4)[3] == 67);
                    }
                }
            }
            return Err(UgitError::Format);
        }
        proof {
            assert(data@.subrange(0, 4) =~= index_signature());
        }
        let version_bytes = sub_vec(data, 4, 8);
        let version = u32_from_le_bytes(version_bytes.as_slice());
        if version != INDEX_VERSION {
            return Err(UgitError::Format);
        }
        let count_bytes = sub_vec(data, 8, 12);
        let count = u32_from_le_bytes(count_bytes.as_slice());
        let ghost total: nat = count as nat;
        let mut entries: Vec<IndexEntry> = Vec::new();
        let mut pos: usize = 12;
        let mut i: u32 = 0;
        while i < count
            invariant
                i <= count,
                12 <= pos <= data@.len(),
                entries@.len() == i,
                forall|m: int| 0 <= m < entries@.len() ==> entry_wf((#[trigger] entries@[m])@),
                match parse_entries_spec(data@, pos as int, (count - i) as nat) {
                    Some(rest) => parse_entries_spec(data@, 12, total) == Some(
                        entries@.map_values(|e: IndexEntry| e@) + rest,
                    ),
                    None => parse_entries_spec(data@, 12, total) is None,
                },
            decreases count - i,
        {
            match parse_entry(data, pos) {
                Ok(t) => {
                    let (e, next) = t;
                    proof {
                        let old_views = entries@.map_values(|ie: IndexEntry| ie@);
                        let new_views = entries@.push(e).map_values(|ie: IndexEntry| ie@);
                        assert(new_views =~= old_views.push(e@));
                        match parse_entries_spec(data@, next as int, (count - i - 1) as nat) {
                            Some(rest2) => {
                                assert(parse_entries_spec(data@, pos as int, (count - i) as nat)
                                    == Some(seq![e@] + rest2));
                                assert(old_views + (seq![e@] + rest2) =~= new_views + rest2);
                            },
                            None => {},
                        }
                    }
                    entries.push(e);
                    pos = next;
                    i = i + 1;
                },
                Err(_) => {
                    return Err(UgitError::Format);
                },
            }
        }
        proof {
            assert(entries@.map_values(|e: IndexEntry| e@) + Seq::<IndexEntryV>::empty()
                =~= entries@.map_values(|e: IndexEntry| e@));
        }
        let idx = Index { version, number_of_entries: count, entries };
        Ok(idx)
    }

    /// Whether no path is staged twice; a file that was not written by this
    /// library may declare duplicates, which `parse` alone does not reject.
    #[verifier::loop_isolation(false)]
    pub fn paths_are_unique(&self) -> (r: bool)
        ensures
            r == paths_unique(self.entry_views()),
    {
        let mut i: usize = 0;
        while i < self.entries.len()
            invariant
                i <= self.entries@.len(),
                forall|m: int, n: int| 0 <= m < n < i ==> self.entry_views()[m].path
                    != self.entry_views()[n].path,
            decreases self.entries@.len() - i,
        {
            let mut j: usize = 0;
            while j < i
                invariant
                    j <= i < self.entries@.len(),
                    forall|m: int, n: int| 0 <= m < n < i ==> self.entry_views()[m].path
                        != self.entry_views()[n].path,
                    forall|m: int| 0 <= m < j ==> self.entry_views()[m].path
                        != self.entry_views()[i as int].path,
                decreases i - j,
            {
                if crate::strutil::str_eq(self.entries[j].path.as_str(), self.entries[i].path.as_str()) {
                    proof {
                        assert(self.entry_views()[j as int].path
                            == self.entry_views()[i as int].path);
                    }
                    return false;
                }
                j = j + 1;
            }
            i = i + 1;
        }
        true
    }
}

/// Records laid end to end parse back one by one: wherever the bytes of a
/// sequence of representable entries stand, parsing that many records
/// yields exactly those entries.
proof fn lemma_parse_entries_of_encoding(data: Seq<u8>, pos: int, es: Seq<IndexEntryV>)
    requires
        0 <= pos,
        pos + entries_bytes(es).len() <= data.len(),
        data.subrange(pos, pos + entries_bytes(es).len() as int) == entries_bytes(es),
        forall|i: int| 0 <= i < es.len() ==> entry_wf(#[trigger] es[i]),
    ensures
        parse_entries_spec(data, pos, es.len()) == Some(es),
    decreases es.len(),
{
    if es.len() > 0 {
        let v = es.first();
        let eb = entry_bytes(v);
        let rest = es.drop_first();
        let rb = entries_bytes(rest);
        assert(entries_bytes(es) == eb + rb);
        assert(data.subrange(pos, pos + eb.len() as int) =~= eb) by {
            assert forall|j: int| 0 <= j < eb.len() implies data.subrange(
                pos,
                pos + eb.len() as int,
            )[j] == eb[j] by {
                assert(data.subrange(pos, pos + entries_bytes(es).len() as int)[j] == data[pos + j]);
                assert((eb + rb)[j] == eb[j]);
            }
        }
        lemma_parse_entry_of_encoding(data, pos, v);
        let pos2 = pos + eb.len() as int;
        assert(data.subrange(pos2, pos2 + rb.len() as int) =~= rb) by {
            assert forall|j: int| 0 <= j < rb.len() implies data.subrange(
                pos2,
                pos2 + rb.len() as int,
            )[j] == rb[j] by {
                assert(data.subrange(pos, pos + entries_bytes(es).len() as int)[eb.len() + j]
                    == data[pos2 + j]);
                assert((eb + rb)[eb.len() + j] == rb[j]);
            }
        }
        lemma_parse_entries_of_encoding(data, pos2, rest);
        assert(seq![v] + rest =~= es);
    }
}

/// The index round trip: parsing the bytes that `to_bytes` writes for a
/// sequence of representable entries yields exactly those entries again.
pub proof fn lemma_index_round_trip(es: Seq<IndexEntryV>)
    requires
        es.len() <= u32::MAX,
        forall|i: int| 0 <= i < es.len() ==> entry_wf(#[trigger] es[i]),
    ensures
        parse_index_spec(index_bytes(es)) == Some(es),
{
    lemma_auto_spec_u32_to_from_le_bytes();
    let data = index_bytes(es);
    assert(data.subrange(0, 4) =~= index_signature());
    assert(data.subrange(4, 8) =~= spec_u32_to_le_bytes(INDEX_VERSION));
    assert(data.subrange(8, 12) =~= spec_u32_to_le_bytes(es.len() as u32));
    assert(data.subrange(12, 12 + entries_bytes(es).len() as int) =~= entries_bytes(es));
    lemma_parse_entries_of_encoding(data, 12, es);
}

/// Some entry of `es` is staged at `path`.
pub open spec fn has_path(es: Seq<IndexEntryV>, path: Seq<char>) -> bool {
    exists|i: int| 0 <= i < es.len() && (#[trigger] es[i]).path == path
}

/// The entries of `es` whose path is not named by any entry of `new`, in
/// order.
pub open spec fn remove_paths(es: Seq<IndexEntryV>, new: Seq<IndexEntryV>) -> Seq<IndexEntryV>
    decreases es.len(),
{
    if es.len() == 0 {
        Seq::empty()
    } else {
        let rest = remove_paths(es.drop_last(), new);
        if has_path(new, es.last().path) {
            rest
        } else {
            rest.push(es.last())
        }
    }
}

/// What adding a batch of entries does: every existing entry whose path the
/// batch names is dropped, then the batch is appended.
pub open spec fn add_entries_spec(es: Seq<IndexEntryV>, new: Seq<IndexEntryV>) -> Seq<
    IndexEntryV,
> {
    remove_paths(es, new) + new
}

/// The entries of `es` not staged at `path`, in order.
pub open spec fn remove_path_spec(es: Seq<IndexEntryV>, path: Seq<char>) -> Seq<IndexEntryV>
    decreases es.len(),
{
    if es.len() == 0 {
        Seq::empty()
    } else {
        let rest = remove_path_spec(es.drop_last(), path);
        if es.last().path == path {
            rest
        } else {
            rest.push(es.last())
        }
    }
}

proof fn lemma_remove_paths_props(es: Seq<IndexEntryV>, new: Seq<IndexEntryV>)
    ensures
        remove_paths(es, new).len() <= es.len(),
        forall|i: int| 0 <= i < remove_paths(es, new).len() ==> {
            &&& es.contains(#[trigger] remove_paths(es, new)[i])
            &&& !has_path(new, remove_paths(es, new)[i].path)
        },
        forall|p: Seq<char>| #[trigger] has_path(remove_paths(es, new), p) ==> has_path(es, p),
        paths_unique(es) ==> paths_unique(remove_paths(es, new)),
    decreases es.len(),
{
    if es.len() > 0 {
        lemma_remove_paths_props(es.drop_last(), new);
        let rest = remove_paths(es.drop_last(), new);
        let whole = remove_paths(es, new);
        assert forall|i: int| 0 <= i < whole.len() implies {
            &&& es.contains(#[trigger] whole[i])
            &&& !has_path(new, whole[i].path)
        } by {
            if i < rest.len() {
                assert(es.drop_last().contains(rest[i]));
                let j = choose|j: int| 0 <= j < es.drop_last().len() && es.drop_last()[j]
                    == rest[i];
                assert(es[j] == rest[i]);
            } else {
                assert(whole[i] == es.last());
            }
        }
        assert forall|p: Seq<char>| #[trigger] has_path(whole, p) implies has_path(es, p) by {
            let i = choose|i: int| 0 <= i < whole.len() && (#[trigger] whole[i]).path == p;
            let j = choose|j: int| 0 <= j < es.len() && es[j] == whole[i];
            assert(es[j].path == p);
        }
        if paths_unique(es) {
            assert(paths_unique(es.drop_last())) by {
                assert(forall|i: int| 0 <= i < es.len() - 1 ==> es.drop_last()[i] == es[i]);
            }
            assert(paths_unique(whole)) by {
                if !has_path(new, es.last().path) {
                    assert forall|i: int, j: int| 0 <= i < j < whole.len() implies whole[i].path
                        != whole[j].path by {
                        if j == whole.len() - 1 {
                            assert(whole[j] == es.last());
                            assert(es.drop_last().contains(rest[i]));
                            let m = choose|m: int| 0 <= m < es.drop_last().len()
                                && es.drop_last()[m] == rest[i];
                            assert(es[m] == whole[i]);
                            assert(es[m].path != es.last().path);
                        }
                    }
                }
            }
        }
    }
}

proof fn lemma_remove_path_props(es: Seq<IndexEntryV>, path: Seq<char>)
    ensures
        remove_path_spec(es, path).len() <= es.len(),
        forall|i: int| 0 <= i < remove_path_spec(es, path).len() ==> {
            &&& es.contains(#[trigger] remove_path_spec(es, path)[i])
            &&& remove_path_spec(es, path)[i].path != path
        },
        paths_unique(es) ==> paths_unique(remove_path_spec(es, path)),
    decreases es.len(),
{
    if es.len() > 0 {
        lemma_remove_path_props(es.drop_last(), path);
        let rest = remove_path_spec(es.drop_last(), path);
        let whole = remove_path_spec(es, path);
        assert forall|i: int| 0 <= i < whole.len() implies {
            &&& es.contains(#[trigger] whole[i])
            &&& whole[i].path != path
        } by {
            if i < rest.len() {
                assert(es.drop_last().contains(rest[i]));
                let j = choose|j: int| 0 <= j < es.drop_last().len() && es.drop_last()[j]
                    == rest[i];
                assert(es[j] == rest[i]);
            } else {
                assert(whole[i] == es.last());
            }
        }
        if paths_unique(es) {
            assert(paths_unique(es.drop_last())) by {
                assert(forall|i: int| 0 <= i < es.len() - 1 ==> es.drop_last()[i] == es[i]);
            }
            assert forall|i: int, j: int| 0 <= i < j < whole.len() implies whole[i].path
                != whole[j].path by {
                if es.last().path != path && j == whole.len() - 1 {
                    assert(whole[j] == es.last());
                    assert(es.drop_last().contains(rest[i]));
                    let m = choose|m: int| 0 <= m < es.drop_last().len() && es.drop_last()[m]
                        == rest[i];
                    assert(es[m] == whole[i]);
                    assert(es[m].path != es.last().path);
                }
            }
        }
    }
}

/// Whether some entry of the batch is staged at `path`.
fn batch_has_path(entries: &Vec<IndexEntry>, path: &str) -> (r: bool)
    ensures
        r == has_path(entries@.map_values(|e: IndexEntry| e@), path@),
{
    let ghost views = entries@.map_values(|e: IndexEntry| e@);
    let mut j: usize = 0;
    while j < entries.len()
        invariant
            j <= entries@.len(),
            views == entries@.map_values(|e: IndexEntry| e@),
            forall|m: int| 0 <= m < j ==> (#[trigger] views[m]).path != path@,
        decreases entries@.len() - j,
    {
        if crate::strutil::str_eq(entries[j].path.as_str(), path) {
            proof {
                assert(views[j as int].path == path@);
            }
            return true;
        }
        j = j + 1;
    }
    false
}

impl IndexEntry {
    /// An owned copy holding the same value.
    pub fn duplicate(&self) -> (r: IndexEntry)
        ensures
            r@ == self@,
    {
        let sha1 = sub_vec(&self.sha1, 0, self.sha1.len());
        proof {
            assert(sha1@ =~= self.sha1@);
        }
        IndexEntry {
            mode: self.mode,
            file_size: self.file_size,
            mtime: self.mtime,
            sha1,
            path: String::from_str(self.path.as_str()),
        }
    }
}

impl Index {
    /// Drops every existing entry whose path the batch names, then appends
    /// the batch: staging a path again replaces its entry, never
    /// duplicates it.  A pure in-memory mutation; the count is recomputed.
    #[verifier::loop_isolation(false)]
    pub fn add_entries(&mut self, entries: Vec<IndexEntry>)
        requires
            old(self).wf(),
            forall|i: int| 0 <= i < entries@.len() ==> entry_wf((#[trigger] entries@[i])@),
            paths_unique(entries@.map_values(|e: IndexEntry| e@)),
            old(self).entries@.len() + entries@.len() <= u32::MAX,
        ensures
            final(self).wf(),
            final(self).version == old(self).version,
            final(self).entry_views() == add_entries_spec(
                old(self).entry_views(),
                entries@.map_values(|e: IndexEntry| e@),
            ),
    {
        let ghost old_views = old(self).entry_views();
        let ghost new_views = entries@.map_values(|e: IndexEntry| e@);
        let mut kept: Vec<IndexEntry> = Vec::new();
        let mut i: usize = 0;
        while i < self.entries.len()
            invariant
                i <= self.entries@.len(),
                self == old(self),
                kept@.map_values(|e: IndexEntry| e@) == remove_paths(
                    old_views.take(i as int),
                    new_views,
                ),
            decreases self.entries@.len() - i,
        {
            proof {
                assert(old_views.take(i + 1).drop_last() =~= old_views.take(i as int));
                assert(old_views.take(i + 1).last() == self.entries@[i as int]@);
            }
            if !batch_has_path(&entries, self.entries[i].path.as_str()) {
                let copy = self.entries[i].duplicate();
                kept.push(copy);
                proof {
                    assert(kept@.map_values(|e: IndexEntry| e@) =~= kept@.drop_last().map_values(
                        |e: IndexEntry| e@,
                    ).push(self.entries@[i as int]@));
                }
            }
            i = i + 1;
        }
        proof {
            assert(old_views.take(old_views.len() as int) =~= old_views);
        }
        let mut j: usize = 0;
        while j < entries.len()
            invariant
                j <= entries@.len(),
                kept@.map_values(|e: IndexEntry| e@) == remove_paths(old_views, new_views)
                    + new_views.take(j as int),
            decreases entries@.len() - j,
        {
            let copy = entries[j].duplicate();
            kept.push(copy);
            j = j + 1;
            proof {
                assert(kept@.map_values(|e: IndexEntry| e@) =~= kept@.drop_last().map_values(
                    |e: IndexEntry| e@,
                ).push(entries@[j - 1]@));
                assert(new_views.take(j as int) =~= new_views.take(j - 1).push(
                    entries@[j - 1]@,
                ));
                assert(remove_paths(old_views, new_views) + new_views.take(j - 1).push(
                    entries@[j - 1]@,
                ) =~= (remove_paths(old_views, new_views) + new_views.take(j - 1)).push(
                    entries@[j - 1]@,
                ));
            }
        }
        proof {
            assert(new_views.take(new_views.len() as int) =~= new_views);
        }
        let count = kept.len();
        self.entries = kept;
        self.number_of_entries = count as u32;
        proof {
            lemma_remove_paths_props(old_views, new_views);
            let result = self.entry_views();
            assert(result == add_entries_spec(old_views, new_views));
            assert forall|m: int| 0 <= m < result.len() implies entry_wf(
                #[trigger] result[m],
            ) by {
                if m < remove_paths(old_views, new_views).len() {
                    let n = choose|n: int| 0 <= n < old_views.len() && old_views[n] == result[m];
                    assert(entry_wf(old_views[n]));
                } else {
                    assert(result[m] == new_views[m - remove_paths(old_views, new_views).len()]);
                }
            }
            assert forall|m: int, n: int| 0 <= m < n < result.len() implies result[m].path
                != result[n].path by {
                let cut = remove_paths(old_views, new_views).len() as int;
                if n < cut {
                } else if m >= cut {
                    assert(result[m] == new_views[m - cut] && result[n] == new_views[n - cut]);
                } else {
                    assert(!has_path(new_views, result[m].path));
                    assert(result[n] == new_views[n - cut]);
                    if result[m].path == result[n].path {
                        assert(has_path(new_views, result[m].path));
                    }
                }
            }
        }
    }

    /// Removes the entry staged at `path`, if any; a no-op otherwise.  The
    /// count is recomputed.
    #[verifier::loop_isolation(false)]
    pub fn remove_entry(&mut self, path: &str)
        requires
            old(self).wf(),
        ensures
            final(self).wf(),
            final(self).version == old(self).version,
            final(self).entry_views() == remove_path_spec(old(self).entry_views(), path@),
    {
        let ghost old_views = old(self).entry_views();
        let mut kept: Vec<IndexEntry> = Vec::new();
        let mut i: usize = 0;
        while i < self.entries.len()
            invariant
                i <= self.entries@.len(),
                self == old(self),
                kept@.map_values(|e: IndexEntry| e@) == remove_path_spec(
                    old_views.take(i as int),
                    path@,
                ),
            decreases self.entries@.len() - i,
        {
            proof {
                assert(old_views.take(i + 1).drop_last() =~= old_views.take(i as int));
                assert(old_views.take(i + 1).last() == self.entries@[i as int]@);
            }
            if !crate::strutil::str_eq(self.entries[i].path.as_str(), path) {
                let copy = self.entries[i].duplicate();
                kept.push(copy);
                proof {
                    assert(kept@.map_values(|e: IndexEntry| e@) =~= kept@.drop_last().map_values(
                        |e: IndexEntry| e@,
                    ).push(self.entries@[i as int]@));
                }
            }
            i = i + 1;
        }
        proof {
            assert(old_views.take(old_views.len() as int) =~= old_views);
        }
        let count = kept.len();
        self.entries = kept;
        self.number_of_entries = count as u32;
        proof {
            lemma_remove_path_props(old_views, path@);
            let result = self.entry_views();
            assert forall|m: int| 0 <= m < result.len() implies entry_wf(
                #[trigger] result[m],
            ) by {
                let n = choose|n: int| 0 <= n < old_views.len() && old_views[n] == result[m];
                assert(entry_wf(old_views[n]));
            }
        }
    }
}

/// The numeric index mode derived from filesystem metadata: directory,
/// symbolic link, executable (any execute bit set), or regular file.
pub open spec fn mode_for(is_dir: bool, is_symlink: bool, permissions: u32) -> u16 {
    if is_dir {
        0o040000 as u16
    } else if is_symlink {
        0o120000 as u16
    } else if permissions & 0o111 != 0 {
        0o100755 as u16
    } else {
        0o100644 as u16
    }
}

/// Derives the index mode of a filesystem object from its metadata.
pub fn entry_mode(is_dir: bool, is_symlink: bool, permissions: u32) -> (m: u16)
    ensures
        m == mode_for(is_dir, is_symlink, permissions),
{
    if is_dir {
        0o040000
    } else if is_symlink {
        0o120000
    } else if permissions & 0o111 != 0 {
        0o100755
    } else {
        0o100644
    }
}

/// Whether `path` can stand in a staged record: its encoding holds no NUL.
fn path_ok(path: &str) -> (r: bool)
    ensures
        r == !encode_utf8(path@).contains(0),
{
    let b = path.as_bytes_vec();
    let mut i: usize = 0;
    while i < b.len()
        invariant
            i <= b@.len(),
            b@ == encode_utf8(path@),
            forall|m: int| 0 <= m < i ==> b@[m] != 0,
        decreases b@.len() - i,
    {
        if b[i] == 0 {
            proof {
                assert(b@.contains(b@[i as int]));
            }
            return false;
        }
        i = i + 1;
    }
    proof {
        if b@.contains(0) {
            let m = choose|m: int| 0 <= m < b@.len() && b@[m] == 0;
        }
    }
    true
}

impl IndexEntry {
    /// Builds the staged entry for one file from its metadata and content.
    /// Staging always materializes the file's blob object, which is
    /// returned alongside; the entry's hash is that object's.  A directory
    /// cannot be staged; a path whose encoding holds a NUL byte cannot be
    /// recorded.
    pub fn stage(
        path: String,
        is_dir: bool,
        is_symlink: bool,
        permissions: u32,
        file_size: u32,
        mtime: u32,
        content: &Vec<u8>,
    ) -> (r: Result<(IndexEntry, crate::objects::StoredObject), UgitError>)
        ensures
            match r {
                Ok(t) => {
                    &&& !is_dir
                    &&& entry_wf(t.0@)
                    &&& t.0@.mode == mode_for(is_dir, is_symlink, permissions)
                    &&& t.0@.file_size == file_size
                    &&& t.0@.mtime == mtime
                    &&& t.0@.sha1 == crate::objects::object_hash(
                        crate::codec::ObjectKind::Blob,
                        content@,
                    )
                    &&& t.0@.path == path@
                    &&& t.1.wf()
                    &&& t.1.encodes(crate::codec::ObjectKind::Blob, content@)
                },
                Err(e) => {
                    &&& (is_dir ==> e == UgitError::Io)
                    &&& (!is_dir ==> e == UgitError::Format && encode_utf8(path@).contains(0))
                },
            },
    {
        if is_dir {
            return Err(UgitError::Io);
        }
        if !path_ok(path.as_str()) {
            return Err(UgitError::Format);
        }
        let obj = crate::objects::write_object(crate::codec::ObjectKind::Blob, content);
        let sha1 = sub_vec(&obj.hash, 0, obj.hash.len());
        proof {
            assert(sha1@ =~= obj.hash@);
        }
        let entry = IndexEntry {
            mode: entry_mode(is_dir, is_symlink, permissions),
            file_size,
            mtime,
            sha1,
            path,
        };
        Ok((entry, obj))
    }
}

impl Default for Index {
    /// The empty index: the right version, no entries, a count of zero.
    fn default() -> (r: Index)
        ensures
            r.wf(),
            r.version == INDEX_VERSION,
            r.number_of_entries == 0,
            r.entry_views() == Seq::<IndexEntryV>::empty(),
    {
        let r = Index { version: INDEX_VERSION, number_of_entries: 0, entries: Vec::new() };
        proof {
            assert(r.entry_views() =~= Seq::<IndexEntryV>::empty());
        }
        r
    }
}

proof fn lemma_remove_paths_concat(
    a: Seq<IndexEntryV>,
    b: Seq<IndexEntryV>,
    new: Seq<IndexEntryV>,
)
    ensures
        remove_paths(a + b, new) == remove_paths(a, new) + remove_paths(b, new),
    decreases b.len(),
{
    if b.len() == 0 {
        assert(a + b =~= a);
        assert(remove_paths(b, new) =~= Seq::<IndexEntryV>::empty());
        assert(remove_paths(a, new) + remove_paths(b, new) =~= remove_paths(a, new));
    } else {
        assert((a + b).drop_last() =~= a + b.drop_last());
        assert((a + b).last() == b.last());
        lemma_remove_paths_concat(a, b.drop_last(), new);
        if !has_path(new, b.last().path) {
            assert((remove_paths(a, new) + remove_paths(b.drop_last(), new)).push(b.last())
                =~= remove_paths(a, new) + remove_paths(b.drop_last(), new).push(b.last()));
        }
    }
}

proof fn lemma_remove_paths_noop(s: Seq<IndexEntryV>, new: Seq<IndexEntryV>)
    requires
        forall|i: int| 0 <= i < s.len() ==> !has_path(new, (#[trigger] s[i]).path),
    ensures
        remove_paths(s, new) == s,
    decreases s.len(),
{
    if s.len() > 0 {
        assert(forall|i: int| 0 <= i < s.len() - 1 ==> s.drop_last()[i] == s[i]);
        lemma_remove_paths_noop(s.drop_last(), new);
        assert(s[s.len() - 1] == s.last());
        assert(remove_paths(s, new) =~= s);
    }
}

proof fn lemma_remove_paths_same(
    es: Seq<IndexEntryV>,
    n1: Seq<IndexEntryV>,
    n2: Seq<IndexEntryV>,
)
    requires
        forall|p: Seq<char>| #[trigger] has_path(n1, p) == has_path(n2, p),
    ensures
        remove_paths(es, n1) == remove_paths(es, n2),
    decreases es.len(),
{
    if es.len() > 0 {
        lemma_remove_paths_same(es.drop_last(), n1, n2);
        assert(has_path(n1, es.last().path) == has_path(n2, es.last().path));
    }
}

/// Staging the same path twice leaves the index exactly as staging it once
/// with the second entry would have: the earlier entry is gone without a
/// trace.
pub proof fn lemma_add_twice_equals_add_once(
    es: Seq<IndexEntryV>,
    e1: IndexEntryV,
    e2: IndexEntryV,
)
    requires
        e1.path == e2.path,
    ensures
        add_entries_spec(add_entries_spec(es, seq![e1]), seq![e2]) == add_entries_spec(
            es,
            seq![e2],
        ),
{
    let s1 = seq![e1];
    let s2 = seq![e2];
    assert(s1[0] == e1 && s2[0] == e2);
    assert forall|p: Seq<char>| #[trigger] has_path(s1, p) == has_path(s2, p) by {
        if has_path(s1, p) {
            let i = choose|i: int| 0 <= i < s1.len() && s1[i].path == p;
            assert(s2[0].path == p);
        }
        if has_path(s2, p) {
            let i = choose|i: int| 0 <= i < s2.len() && s2[i].path == p;
            assert(s1[0].path == p);
        }
    }
    let r1 = remove_paths(es, s1);
    lemma_remove_paths_props(es, s1);
    lemma_remove_paths_concat(r1, s1, s2);
    assert(has_path(s2, e1.path)) by {
        assert(s2[0].path == e1.path);
    }
    assert(remove_paths(s1, s2) =~= Seq::<IndexEntryV>::empty()) by {
        assert(s1.drop_last() =~= Seq::<IndexEntryV>::empty());
        assert(remove_paths(s1.drop_last(), s2) =~= Seq::<IndexEntryV>::empty());
        assert(s1.last() == e1);
    }
    lemma_remove_paths_same(r1, s2, s1);
    lemma_remove_paths_noop(r1, s1);
    lemma_remove_paths_same(es, s1, s2);
    assert(add_entries_spec(add_entries_spec(es, s1), s2) =~= add_entries_spec(es, s2));
}

/// Staging a path that is already staged replaces its entry and never
/// duplicates it: after adding an entry at a path and then another at the
/// same path, exactly one entry carries that path, namely the one added
/// last.
pub proof fn lemma_add_replaces_never_duplicates(
    es: Seq<IndexEntryV>,
    e1: IndexEntryV,
    e2: IndexEntryV,
)
    requires
        e1.path == e2.path,
    ensures
        ({
            let r = add_entries_spec(add_entries_spec(es, seq![e1]), seq![e2]);
            &&& r.len() >= 1
            &&& r.last() == e2
            &&& forall|i: int| 0 <= i < r.len() ==> ((r[i].path == e2.path) <==> i == r.len()
                - 1)
        }),
{
    let q = add_entries_spec(es, seq![e1]);
    let dropped = remove_paths(q, seq![e2]);
    let r = add_entries_spec(q, seq![e2]);
    lemma_remove_paths_props(q, seq![e2]);
    assert(r.last() == e2) by {
        assert(r[r.len() - 1] == seq![e2][0]);
    }
    assert forall|i: int| 0 <= i < r.len() implies ((r[i].path == e2.path) <==> i == r.len()
        - 1) by {
        if i < dropped.len() {
            assert(!has_path(seq![e2], dropped[i].path));
            if dropped[i].path == e2.path {
                assert(seq![e2][0].path == dropped[i].path);
                assert(has_path(seq![e2], dropped[i].path));
            }
            assert(r[i] == dropped[i]);
        } else {
            assert(r[i] == seq![e2][i - dropped.len()]);
        }
    }
}

/// Parsing a record undoes encoding it: wherever the bytes of a
/// representable entry stand in a larger byte string, parsing at their
/// start yields that entry back and stops right after it.
pub proof fn lemma_parse_entry_of_encoding(data: Seq<u8>, pos: int, v: IndexEntryV)
    requires
        entry_wf(v),
        0 <= pos,
        pos + entry_bytes(v).len() <= data.len(),
        data.subrange(pos, pos + entry_bytes(v).len() as int) == entry_bytes(v),
    ensures
        parse_entry_spec(data, pos) == Some((v, pos + entry_bytes(v).len() as int)),
{
    lemma_auto_spec_u16_to_from_le_bytes();
    lemma_auto_spec_u32_to_from_le_bytes();
    encode_utf8_valid_utf8(v.path);
    encode_utf8_decode_utf8(v.path);
    let eb = entry_bytes(v);
    let pb = encode_utf8(v.path);
    let plen = pb.len() as int;
    assert(eb.len() == 30 + plen + 1);
    let nul = pos + 30 + plen;
    assert(data[nul] == 0) by {
        assert(eb[30 + plen] == 0);
        assert(data.subrange(pos, pos + eb.len() as int)[30 + plen] == data[nul]);
    }
    assert forall|j: int| pos + 30 <= j < nul implies data[j] != 0 by {
        assert(data.subrange(pos, pos + eb.len() as int)[j - pos] == data[j]);
        assert(eb[j - pos] == pb[j - pos - 30]);
        assert(pb.contains(pb[j - pos - 30])) by {
            assert(pb[j - pos - 30] == pb[j - pos - 30]);
        }
    }
    assert(is_path_nul(data, pos, nul));
    let kc = choose|y: int| is_path_nul(data, pos, y);
    lemma_path_nul_unique(data, pos, nul, kc);
    assert(data.subrange(pos + 30, nul) =~= pb) by {
        assert forall|j: int| 0 <= j < plen implies data.subrange(pos + 30, nul)[j] == pb[j] by {
            assert(data.subrange(pos, pos + eb.len() as int)[30 + j] == data[pos + 30 + j]);
            assert(eb[30 + j] == pb[j]);
        }
    }
    assert(data.subrange(pos, pos + 2) =~= spec_u16_to_le_bytes(v.mode)) by {
        assert forall|j: int| 0 <= j < 2 implies data.subrange(pos, pos + 2)[j]
            == spec_u16_to_le_bytes(v.mode)[j] by {
            assert(data.subrange(pos, pos + eb.len() as int)[j] == data[pos + j]);
            assert(eb[j] == spec_u16_to_le_bytes(v.mode)[j]);
        }
    }
    assert(data.subrange(pos + 2, pos + 6) =~= spec_u32_to_le_bytes(v.file_size)) by {
        assert forall|j: int| 0 <= j < 4 implies data.subrange(pos + 2, pos + 6)[j]
            == spec_u32_to_le_bytes(v.file_size)[j] by {
            assert(data.subrange(pos, pos + eb.len() as int)[2 + j] == data[pos + 2 + j]);
            assert(eb[2 + j] == spec_u32_to_le_bytes(v.file_size)[j]);
        }
    }
    assert(data.subrange(pos + 6, pos + 10) =~= spec_u32_to_le_bytes(v.mtime)) by {
        assert forall|j: int| 0 <= j < 4 implies data.subrange(pos + 6, pos + 10)[j]
            == spec_u32_to_le_bytes(v.mtime)[j] by {
            assert(data.subrange(pos, pos + eb.len() as int)[6 + j] == data[pos + 6 + j]);
            assert(eb[6 + j] == spec_u32_to_le_bytes(v.mtime)[j]);
        }
    }
    assert(data.subrange(pos + 10, pos + 30) =~= v.sha1) by {
        assert forall|j: int| 0 <= j < 20 implies data.subrange(pos + 10, pos + 30)[j]
            == v.sha1[j] by {
            assert(data.subrange(pos, pos + eb.len() as int)[10 + j] == data[pos + 10 + j]);
            assert(eb[10 + j] == v.sha1[j]);
        }
    }
}

} // verus!
