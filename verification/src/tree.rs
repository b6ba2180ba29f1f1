//! Tree objects and the recursive tree builder.
//!
//! A tree object records one directory level: one line per child, sorted by
//! name, each line `"<6-digit-octal-mode> <kind> <40-hex-hash> <name>"`,
//! lines joined by newlines.  The builder turns a directory's contents into
//! blob and tree objects bottom-up and returns the root tree's hash; the
//! sort makes the hash a pure function of what the directory holds, not of
//! the order a filesystem walk happened to yield.

use vstd::prelude::*;
use vstd::utf8::{encode_utf8, encode_utf8_decode_utf8};
use crate::errors::UgitError;

verus! {

/// The mode of one tree entry, written as a 6-digit octal string.
#[derive(Clone, Copy, Debug, PartialEq, Eq, Structural)]
pub enum EntryMode {
    Regular,
    Executable,
    Symlink,
    Directory,
}

/// The six octal digits of a mode.
pub open spec fn mode_bytes(m: EntryMode) -> Seq<u8> {
    match m {
        EntryMode::Regular => seq![49u8, 48u8, 48u8, 54u8, 52u8, 52u8],
        EntryMode::Executable => seq![49u8, 48u8, 48u8, 55u8, 53u8, 53u8],
        EntryMode::Symlink => seq![49u8, 50u8, 48u8, 48u8, 48u8, 48u8],
        EntryMode::Directory => seq![48u8, 52u8, 48u8, 48u8, 48u8, 48u8],
    }
}

/// The kind token of a line: directories point at trees, everything else
/// at blobs.
pub open spec fn entry_kind_bytes(m: EntryMode) -> Seq<u8> {
    match m {
        EntryMode::Directory => seq![116u8, 114u8, 101u8, 101u8],
        _ => seq![98u8, 108u8, 111u8, 98u8],
    }
}

/// One line of a tree object.
pub struct TreeEntry {
    /// The child's mode; also decides the kind token of the line.
    pub mode: EntryMode,
    /// The child's object hash, 40 lowercase hex characters.
    pub hash_hex: Vec<u8>,
    /// The child's name: one path segment.
    pub name: String,
}

/// The mathematical value of one tree entry.
pub struct TreeEntryV {
    pub mode: EntryMode,
    pub hash_hex: Seq<u8>,
    pub name: Seq<char>,
}

impl View for TreeEntry {
    type V = TreeEntryV;

    open spec fn view(&self) -> TreeEntryV {
        TreeEntryV { mode: self.mode, hash_hex: self.hash_hex@, name: self.name@ }
    }
}

/// A representable tree entry: a full-length hex hash, and a name that is a
/// single non-empty path segment whose bytes keep the line format intact
/// (no NUL, no newline, no slash).
pub open spec fn tree_entry_wf(v: TreeEntryV) -> bool {
    &&& v.hash_hex.len() == 40
    &&& all_hex_lower(v.hash_hex)
    &&& encode_utf8(v.name).len() > 0
    &&& !encode_utf8(v.name).contains(0)
    &&& !encode_utf8(v.name).contains(10)
    &&& !encode_utf8(v.name).contains(47)
}

/// The exact bytes of one line.
pub open spec fn tree_line_bytes(v: TreeEntryV) -> Seq<u8> {
    mode_bytes(v.mode) + seq![32u8] + entry_kind_bytes(v.mode) + seq![32u8] + v.hash_hex
        + seq![32u8] + encode_utf8(v.name)
}

/// The content of a tree object: the lines of its entries, in order,
/// joined by newlines.
pub open spec fn tree_content_bytes(es: Seq<TreeEntryV>) -> Seq<u8>
    decreases es.len(),
{
    if es.len() == 0 {
        Seq::empty()
    } else if es.len() == 1 {
        tree_line_bytes(es[0])
    } else {
        tree_content_bytes(es.drop_last()) + seq![10u8] + tree_line_bytes(es.last())
    }
}

/// One child of a directory, as the walking collaborator hands it to the
/// builder: a file with its content, or a subdirectory with its own
/// children, in no particular order.
pub enum DirChild {
    File { name: String, mode: EntryMode, content: Vec<u8> },
    Dir { name: String, children: Vec<DirChild> },
}

/// The mathematical value of one child.
pub enum DirChildV {
    File { name: Seq<char>, mode: EntryMode, content: Seq<u8> },
    Dir { name: Seq<char>, children: Seq<DirChildV> },
}

pub open spec fn child_view(c: DirChild) -> DirChildV
    decreases c, 0nat,
{
    match c {
        DirChild::File { name, mode, content } => DirChildV::File {
            name: name@,
            mode,
            content: content@,
        },
        DirChild::Dir { name, children } => DirChildV::Dir {
            name: name@,
            children: children_views(children@),
        },
    }
}

pub open spec fn children_views(s: Seq<DirChild>) -> Seq<DirChildV>
    decreases s, 1nat,
{
    if s.len() == 0 {
        Seq::empty()
    } else {
        children_views(s.drop_last()).push(child_view(s.last()))
    }
}

pub open spec fn name_of(c: DirChildV) -> Seq<char> {
    match c {
        DirChildV::File { name, .. } => name,
        DirChildV::Dir { name, .. } => name,
    }
}

/// The mode a child's line carries: a file's own mode, or the directory
/// mode.
pub open spec fn mode_of(c: DirChildV) -> EntryMode {
    match c {
        DirChildV::File { mode, .. } => mode,
        DirChildV::Dir { .. } => EntryMode::Directory,
    }
}

/// A usable name: one non-empty path segment that keeps the line format
/// intact.
pub open spec fn name_valid(n: Seq<char>) -> bool {
    let b = encode_utf8(n);
    &&& b.len() > 0
    &&& !b.contains(0)
    &&& !b.contains(10)
    &&& !b.contains(47)
}

/// A buildable child: its name is usable, a file's mode is a file mode,
/// and a directory's children are buildable in turn, with distinct names.
pub open spec fn child_wf(c: DirChildV) -> bool
    decreases c, 0nat,
{
    &&& name_valid(name_of(c))
    &&& match c {
        DirChildV::File { mode, .. } => mode != EntryMode::Directory,
        DirChildV::Dir { children, .. } => children_wf(children),
    }
}

/// A buildable directory level: every child buildable, no name used twice.
pub open spec fn children_wf(cs: Seq<DirChildV>) -> bool
    decreases cs, 1nat,
{
    &&& forall|i: int| 0 <= i < cs.len() ==> child_wf(#[trigger] cs[i])
    &&& forall|i: int, j: int| 0 <= i < j < cs.len() ==> name_of(cs[i]) != name_of(cs[j])
}

pub proof fn lemma_children_views_index(s: Seq<DirChild>)
    ensures
        children_views(s).len() == s.len(),
        forall|i: int| 0 <= i < s.len() ==> children_views(s)[i] == child_view(#[trigger] s[i]),
    decreases s.len(),
{
    if s.len() > 0 {
        lemma_children_views_index(s.drop_last());
        assert(forall|i: int| 0 <= i < s.len() - 1 ==> s.drop_last()[i] == s[i]);
    }
}

// ---------------------------------------------------------------------------
// The hash of a directory
// ---------------------------------------------------------------------------

/// The tree line a child contributes: its mode, its object's hash in hex,
/// its name.
pub open spec fn child_entry(c: DirChildV) -> TreeEntryV
    decreases c, 2nat,
{
    TreeEntryV {
        mode: mode_of(c),
        hash_hex: crate::hexcodec::hex_of(child_hash(c)),
        name: name_of(c),
    }
}

/// The address of the object a child stands for: a file's blob hash, or a
/// subdirectory's tree hash.
pub open spec fn child_hash(c: DirChildV) -> Seq<u8>
    decreases c, 1nat,
{
    match c {
        DirChildV::File { content, .. } => crate::objects::object_hash(
            crate::codec::ObjectKind::Blob,
            content,
        ),
        DirChildV::Dir { children, .. } => dir_hash(children),
    }
}

/// The lines of one directory level, one per child, in input order;
/// `dir_content` sorts them.
pub open spec fn entries_of(cs: Seq<DirChildV>) -> Seq<TreeEntryV>
    decreases cs, 2nat,
{
    if cs.len() == 0 {
        Seq::empty()
    } else {
        entries_of(cs.drop_last()).push(child_entry(cs.last()))
    }
}

pub proof fn lemma_entries_of_index(cs: Seq<DirChildV>)
    ensures
        entries_of(cs).len() == cs.len(),
        forall|i: int| 0 <= i < cs.len() ==> entries_of(cs)[i] == child_entry(#[trigger] cs[i]),
    decreases cs.len(),
{
    if cs.len() > 0 {
        lemma_entries_of_index(cs.drop_last());
        assert(forall|i: int| 0 <= i < cs.len() - 1 ==> cs.drop_last()[i] == cs[i]);
    }
}

/// Pairwise-distinct names survive reordering: any sequence holding the
/// same entries as one with distinct names has distinct names itself.
pub proof fn lemma_names_distinct_preserved(s: Seq<TreeEntryV>, t: Seq<TreeEntryV>)
    requires
        forall|i: int, j: int| 0 <= i < j < s.len() ==> s[i].name != s[j].name,
        t.to_multiset() == s.to_multiset(),
    ensures
        forall|i: int, j: int| 0 <= i < j < t.len() ==> t[i].name != t[j].name,
    decreases t.len(),
{
    broadcast use vstd::seq_lib::group_to_multiset_ensures;
    broadcast use vstd::multiset::group_multiset_axioms;

    s.to_multiset_ensures();
    t.to_multiset_ensures();
    if t.len() > 0 {
        assert(t.to_multiset().contains(t[0]));
        assert(s.contains(t[0]));
        let m = choose|m: int| 0 <= m < s.len() && s[m] == t[0];
        let s2 = s.remove(m);
        assert(s2.to_multiset() == s.to_multiset().remove(s[m]));
        assert(t.drop_first() =~= t.remove(0));
        assert(t.remove(0).to_multiset() == t.to_multiset().remove(t[0]));
        assert(forall|i: int, j: int| 0 <= i < j < s2.len() ==> s2[i].name != s2[j].name) by {
            assert(forall|i: int| 0 <= i < s2.len() ==> s2[i] == (if i < m {
                s[i]
            } else {
                s[i + 1]
            }));
        }
        lemma_names_distinct_preserved(s2, t.drop_first());
        assert forall|i: int, j: int| 0 <= i < j < t.len() implies t[i].name != t[j].name by {
            if i == 0 {
                assert(t[j] == t.drop_first()[j - 1]);
                assert(t.drop_first().to_multiset().contains(t[j]));
                assert(s2.to_multiset().contains(t[j]));
                assert(s2.contains(t[j]));
                let n = choose|n: int| 0 <= n < s2.len() && s2[n] == t[j];
                assert(s2[n] == (if n < m {
                    s[n]
                } else {
                    s[n + 1]
                }));
                if n < m {
                    assert(s[n].name != s[m].name);
                } else {
                    assert(s[m].name != s[n + 1].name);
                }
            } else {
                assert(t[i] == t.drop_first()[i - 1] && t[j] == t.drop_first()[j - 1]);
            }
        }
    }
}

/// The content of the tree object for one directory level: the children's
/// lines in sorted order.  A pure function of what the directory holds.
pub open spec fn dir_content(cs: Seq<DirChildV>) -> Seq<u8>
    decreases cs, 3nat,
{
    tree_content_bytes(sort_entries_spec(entries_of(cs)))
}

/// The address of the tree object for one directory level.
pub open spec fn dir_hash(cs: Seq<DirChildV>) -> Seq<u8>
    decreases cs, 4nat,
{
    crate::objects::object_hash(crate::codec::ObjectKind::Tree, dir_content(cs))
}

// ---------------------------------------------------------------------------
// The order of entries
// ---------------------------------------------------------------------------

/// Byte-wise lexicographic order.
pub open spec fn bytes_le(a: Seq<u8>, b: Seq<u8>) -> bool
    decreases a.len(),
{
    if a.len() == 0 {
        true
    } else if b.len() == 0 {
        false
    } else if a.first() < b.first() {
        true
    } else if a.first() > b.first() {
        false
    } else {
        bytes_le(a.drop_first(), b.drop_first())
    }
}

pub proof fn lemma_bytes_le_total(a: Seq<u8>, b: Seq<u8>)
    ensures
        bytes_le(a, b) || bytes_le(b, a),
    decreases a.len(),
{
    if a.len() > 0 && b.len() > 0 && a.first() == b.first() {
        lemma_bytes_le_total(a.drop_first(), b.drop_first());
    }
}

pub proof fn lemma_bytes_le_antisym(a: Seq<u8>, b: Seq<u8>)
    requires
        bytes_le(a, b),
        bytes_le(b, a),
    ensures
        a == b,
    decreases a.len(),
{
    if a.len() == 0 {
        assert(b.len() == 0);
        assert(a =~= b);
    } else {
        lemma_bytes_le_antisym(a.drop_first(), b.drop_first());
        assert(a =~= seq![a.first()] + a.drop_first());
        assert(b =~= seq![b.first()] + b.drop_first());
    }
}

pub proof fn lemma_bytes_le_trans(a: Seq<u8>, b: Seq<u8>, c: Seq<u8>)
    requires
        bytes_le(a, b),
        bytes_le(b, c),
    ensures
        bytes_le(a, c),
    decreases a.len(),
{
    if a.len() > 0 && b.len() > 0 && c.len() > 0 && a.first() == b.first() && b.first()
        == c.first() {
        lemma_bytes_le_trans(a.drop_first(), b.drop_first(), c.drop_first());
    }
}

/// A rank to break remaining ties between modes.
pub open spec fn mode_rank(m: EntryMode) -> int {
    match m {
        EntryMode::Regular => 0,
        EntryMode::Executable => 1,
        EntryMode::Symlink => 2,
        EntryMode::Directory => 3,
    }
}

/// The total order entries are sorted by: name bytes first; the hash and
/// the mode only break ties, so that the order is antisymmetric on whole
/// entries (a well-formed tree never needs the tie-breakers: its names are
/// distinct).
pub open spec fn entry_le(a: TreeEntryV, b: TreeEntryV) -> bool {
    let an = encode_utf8(a.name);
    let bn = encode_utf8(b.name);
    if an != bn {
        bytes_le(an, bn)
    } else if a.hash_hex != b.hash_hex {
        bytes_le(a.hash_hex, b.hash_hex)
    } else {
        mode_rank(a.mode) <= mode_rank(b.mode)
    }
}

pub proof fn lemma_entry_le_total(a: TreeEntryV, b: TreeEntryV)
    ensures
        entry_le(a, b) || entry_le(b, a),
{
    lemma_bytes_le_total(encode_utf8(a.name), encode_utf8(b.name));
    lemma_bytes_le_total(a.hash_hex, b.hash_hex);
}

pub proof fn lemma_entry_le_antisym(a: TreeEntryV, b: TreeEntryV)
    requires
        entry_le(a, b),
        entry_le(b, a),
    ensures
        a == b,
{
    let an = encode_utf8(a.name);
    let bn = encode_utf8(b.name);
    if an != bn {
        lemma_bytes_le_antisym(an, bn);
    } else {
        encode_utf8_decode_utf8(a.name);
        encode_utf8_decode_utf8(b.name);
        assert(a.name == b.name);
        if a.hash_hex != b.hash_hex {
            lemma_bytes_le_antisym(a.hash_hex, b.hash_hex);
        } else {
            assert(mode_rank(a.mode) == mode_rank(b.mode));
            assert(a.mode == b.mode);
        }
    }
}

pub proof fn lemma_entry_le_trans(a: TreeEntryV, b: TreeEntryV, c: TreeEntryV)
    requires
        entry_le(a, b),
        entry_le(b, c),
    ensures
        entry_le(a, c),
{
    let an = encode_utf8(a.name);
    let bn = encode_utf8(b.name);
    let cn = encode_utf8(c.name);
    if an == bn && bn == cn {
        if a.hash_hex == b.hash_hex && b.hash_hex == c.hash_hex {
        } else if a.hash_hex == b.hash_hex {
        } else if b.hash_hex == c.hash_hex {
        } else {
            lemma_bytes_le_trans(a.hash_hex, b.hash_hex, c.hash_hex);
            if a.hash_hex == c.hash_hex {
                lemma_bytes_le_antisym(a.hash_hex, b.hash_hex)
            }
        }
    } else if an == bn {
        assert(bytes_le(bn, cn));
        assert(bytes_le(an, cn));
        if an == cn {
            lemma_bytes_le_antisym(bn, cn);
        }
    } else if bn == cn {
        if an == cn {
            lemma_bytes_le_antisym(an, bn);
        }
    } else {
        lemma_bytes_le_trans(an, bn, cn);
        if an == cn {
            lemma_bytes_le_trans(bn, cn, an);
            lemma_bytes_le_antisym(an, bn);
        }
    }
}

/// The entries stand in order: every earlier entry is `entry_le` every
/// later one.
pub open spec fn entries_sorted(es: Seq<TreeEntryV>) -> bool {
    forall|i: int, j: int| 0 <= i < j < es.len() ==> entry_le(#[trigger] es[i], #[trigger] es[j])
}

/// Sorting at the specification level: plain insertion sort.
pub open spec fn insert_sorted(e: TreeEntryV, s: Seq<TreeEntryV>) -> Seq<TreeEntryV>
    decreases s.len(),
{
    if s.len() == 0 {
        seq![e]
    } else if entry_le(e, s.first()) {
        seq![e] + s
    } else {
        seq![s.first()] + insert_sorted(e, s.drop_first())
    }
}

/// The entries of `s`, in sorted order.
pub open spec fn sort_entries_spec(s: Seq<TreeEntryV>) -> Seq<TreeEntryV>
    decreases s.len(),
{
    if s.len() == 0 {
        Seq::empty()
    } else {
        insert_sorted(s.first(), sort_entries_spec(s.drop_first()))
    }
}

pub proof fn lemma_insert_sorted_ensures(e: TreeEntryV, s: Seq<TreeEntryV>)
    requires
        entries_sorted(s),
    ensures
        entries_sorted(insert_sorted(e, s)),
        insert_sorted(e, s).to_multiset() == s.to_multiset().insert(e),
    decreases s.len(),
{
    broadcast use vstd::seq_lib::group_to_multiset_ensures;

    let r = insert_sorted(e, s);
    if s.len() == 0 {
        assert(seq![e] =~= Seq::<TreeEntryV>::empty().push(e));
        assert(r.to_multiset() =~= s.to_multiset().insert(e));
    } else if entry_le(e, s.first()) {
        assert forall|i: int, j: int| 0 <= i < j < r.len() implies entry_le(r[i], r[j]) by {
            if i == 0 {
                assert(r[j] == s[j - 1]);
                if j == 1 {
                    assert(r[j] == s.first());
                } else {
                    assert(entry_le(s[0], s[j - 1]));
                    lemma_entry_le_trans(e, s[0], s[j - 1]);
                }
            } else {
                assert(r[i] == s[i - 1] && r[j] == s[j - 1]);
            }
        }
        assert(seq![e] + s =~= s.insert(0, e));
        assert(r.to_multiset() =~= s.to_multiset().insert(e));
    } else {
        lemma_entry_le_total(e, s.first());
        assert(entry_le(s.first(), e));
        assert(entries_sorted(s.drop_first())) by {
            assert(forall|m: int| 0 <= m < s.len() - 1 ==> s.drop_first()[m] == s[m + 1]);
        }
        lemma_insert_sorted_ensures(e, s.drop_first());
        let rest = insert_sorted(e, s.drop_first());
        assert forall|i: int, j: int| 0 <= i < j < r.len() implies entry_le(r[i], r[j]) by {
            if i == 0 {
                assert(r[j] == rest[j - 1]);
                assert(rest.to_multiset().contains(rest[j - 1]));
                if rest[j - 1] == e {
                    assert(entry_le(s.first(), rest[j - 1]));
                } else {
                    assert(s.drop_first().to_multiset().insert(e).contains(rest[j - 1]));
                    assert(s.drop_first().to_multiset().contains(rest[j - 1]));
                    assert(s.drop_first().contains(rest[j - 1]));
                    let m = choose|m: int| 0 <= m < s.drop_first().len() && s.drop_first()[m]
                        == rest[j - 1];
                    assert(s[m + 1] == rest[j - 1]);
                    assert(entry_le(s[0], s[m + 1]));
                }
            } else {
                assert(r[i] == rest[i - 1] && r[j] == rest[j - 1]);
            }
        }
        assert(r =~= rest.insert(0, s.first()));
        assert(r.to_multiset() == rest.to_multiset().insert(s.first()));
        assert(s.drop_first() =~= s.remove(0));
        assert(s.remove(0).to_multiset() == s.to_multiset().remove(s[0]));
        assert(s.to_multiset().contains(s[0]));
        assert(r.to_multiset() =~= s.to_multiset().insert(e)) by {
            broadcast use vstd::multiset::group_multiset_axioms;

            assert(rest.to_multiset() == s.to_multiset().remove(s[0]).insert(e));
            assert(s.to_multiset().count(s[0]) >= 1);
            assert(s.to_multiset().remove(s[0]).insert(e).insert(s[0]) =~= s.to_multiset().insert(
                e,
            ));
        }
    }
}

pub proof fn lemma_sort_entries_spec_ensures(s: Seq<TreeEntryV>)
    ensures
        entries_sorted(sort_entries_spec(s)),
        sort_entries_spec(s).to_multiset() == s.to_multiset(),
    decreases s.len(),
{
    broadcast use vstd::seq_lib::group_to_multiset_ensures;

    if s.len() > 0 {
        lemma_sort_entries_spec_ensures(s.drop_first());
        lemma_insert_sorted_ensures(s.first(), sort_entries_spec(s.drop_first()));
        assert(s.drop_first() =~= s.remove(0));
        assert(s.remove(0).to_multiset() == s.to_multiset().remove(s[0]));
        assert(s.to_multiset().contains(s[0]));
        assert(s.to_multiset().remove(s[0]).insert(s[0]) =~= s.to_multiset()) by {
            broadcast use vstd::multiset::group_multiset_axioms;

            assert(s.to_multiset().count(s[0]) >= 1);
        }
    }
}

/// Two sequences sorted by the entry order and holding the same entries
/// are the same sequence: the sorted form is canonical.
pub proof fn lemma_sorted_entries_unique(a: Seq<TreeEntryV>, b: Seq<TreeEntryV>)
    requires
        entries_sorted(a),
        entries_sorted(b),
        a.to_multiset() == b.to_multiset(),
    ensures
        a == b,
    decreases a.len(),
{
    broadcast use vstd::seq_lib::group_to_multiset_ensures;

    a.to_multiset_ensures();
    b.to_multiset_ensures();
    if a.len() == 0 {
        assert(b.to_multiset().len() == 0);
        assert(a =~= b);
    } else {
        assert(a.to_multiset().contains(a[0]));
        assert(b.to_multiset().contains(a[0]));
        assert(b.contains(a[0]));
        let j = choose|j: int| 0 <= j < b.len() && b[j] == a[0];
        assert(j == 0 || entry_le(b[0], b[j]));
        assert(b.to_multiset().contains(b[0]));
        assert(a.contains(b[0]));
        let i = choose|i: int| 0 <= i < a.len() && a[i] == b[0];
        assert(i == 0 || entry_le(a[0], a[i]));
        if i == 0 || j == 0 {
            assert(a[0] == b[0]);
        } else {
            lemma_entry_le_antisym(a[0], b[0]);
        }
        assert(a.drop_first() =~= a.remove(0));
        assert(b.drop_first() =~= b.remove(0));
        assert(a.drop_first().to_multiset() == b.drop_first().to_multiset()) by {
            assert(a.remove(0).to_multiset() == a.to_multiset().remove(a[0]));
            assert(b.remove(0).to_multiset() == b.to_multiset().remove(b[0]));
        }
        assert(entries_sorted(a.drop_first())) by {
            assert(forall|m: int| 0 <= m < a.len() - 1 ==> a.drop_first()[m] == a[m + 1]);
        }
        assert(entries_sorted(b.drop_first())) by {
            assert(forall|m: int| 0 <= m < b.len() - 1 ==> b.drop_first()[m] == b[m + 1]);
        }
        lemma_sorted_entries_unique(a.drop_first(), b.drop_first());
        assert(a.len() == b.len());
        assert forall|m: int| 0 <= m < a.len() implies a[m] == b[m] by {
            if m > 0 {
                assert(a.drop_first()[m - 1] == b.drop_first()[m - 1]);
            }
        }
        assert(a =~= b);
    }
}

// ---------------------------------------------------------------------------
// Parsing tree content back
// ---------------------------------------------------------------------------

/// Whether `b` is a lowercase hexadecimal digit.
pub open spec fn is_hex_lower(b: u8) -> bool {
    (48 <= b && b <= 57) || (97 <= b && b <= 102)
}

pub open spec fn all_hex_lower(s: Seq<u8>) -> bool {
    forall|i: int| 0 <= i < s.len() ==> is_hex_lower(#[trigger] s[i])
}

/// The mode whose octal rendering `b` is, if any.
pub open spec fn mode_from_bytes(b: Seq<u8>) -> Option<EntryMode> {
    if b == mode_bytes(EntryMode::Regular) {
        Some(EntryMode::Regular)
    } else if b == mode_bytes(EntryMode::Executable) {
        Some(EntryMode::Executable)
    } else if b == mode_bytes(EntryMode::Symlink) {
        Some(EntryMode::Symlink)
    } else if b == mode_bytes(EntryMode::Directory) {
        Some(EntryMode::Directory)
    } else {
        None
    }
}

/// What parsing one line of tree content yields: mode, kind token
/// (which must agree with the mode), hash, name.
pub open spec fn parse_tree_line_spec(line: Seq<u8>) -> Option<TreeEntryV> {
    if line.len() < 54 {
        None
    } else {
        match mode_from_bytes(line.take(6)) {
            None => None,
            Some(m) => {
                if line[6] != 32 {
                    None
                } else if line.subrange(7, 11) != entry_kind_bytes(m) {
                    None
                } else if line[11] != 32 {
                    None
                } else if !all_hex_lower(line.subrange(12, 52)) {
                    None
                } else if line[52] != 32 {
                    None
                } else {
                    let nb = line.skip(53);
                    if vstd::utf8::valid_utf8(nb) && !nb.contains(0) && !nb.contains(10)
                        && !nb.contains(47) {
                        Some(
                            TreeEntryV {
                                mode: m,
                                hash_hex: line.subrange(12, 52),
                                name: vstd::utf8::decode_utf8(nb),
                            },
                        )
                    } else {
                        None
                    }
                }
            },
        }
    }
}

/// `e` is the position of the first newline of `s`.
pub open spec fn is_first_newline(s: Seq<u8>, e: int) -> bool {
    &&& 0 <= e < s.len()
    &&& s[e] == 10
    &&& forall|j: int| 0 <= j < e ==> s[j] != 10
}

/// What parsing whole tree content yields: one entry per newline-separated
/// line, or nothing if any line is malformed.  Empty content is the empty
/// tree.
pub open spec fn parse_tree_spec(content: Seq<u8>) -> Option<Seq<TreeEntryV>>
    decreases content.len(),
{
    if content.len() == 0 {
        Some(Seq::empty())
    } else if exists|e: int| is_first_newline(content, e) {
        let e = choose|e: int| is_first_newline(content, e);
        match parse_tree_line_spec(content.take(e)) {
            None => None,
            Some(v) => match parse_tree_spec(content.skip(e + 1)) {
                None => None,
                Some(rest) => Some(seq![v] + rest),
            },
        }
    } else {
        match parse_tree_line_spec(content) {
            None => None,
            Some(v) => Some(seq![v]),
        }
    }
}

proof fn lemma_first_newline_unique(s: Seq<u8>, e1: int, e2: int)
    requires
        is_first_newline(s, e1),
        is_first_newline(s, e2),
    ensures
        e1 == e2,
{
}

/// Parses one line of tree content.
#[verifier::loop_isolation(false)]
fn parse_tree_line(line: &Vec<u8>) -> (r: Result<TreeEntry, UgitError>)
    ensures
        match r {
            Ok(e) => parse_tree_line_spec(line@) == Some(e@) && tree_entry_wf(e@),
            Err(e) => e == UgitError::Format && parse_tree_line_spec(line@) is None,
        },
{
    if line.len() < 54 {
        return Err(UgitError::Format);
    }
    let mode6 = crate::bytesutil::sub_vec(line, 0, 6);
    proof {
        assert(mode6@ =~= line@.take(6));
    }
    let regular = mode_octal(EntryMode::Regular);
    let executable = mode_octal(EntryMode::Executable);
    let symlink = mode_octal(EntryMode::Symlink);
    let directory = mode_octal(EntryMode::Directory);
    let mode: EntryMode = if crate::bytesutil::bytes_eq(&mode6, &regular) {
        EntryMode::Regular
    } else if crate::bytesutil::bytes_eq(&mode6, &executable) {
        EntryMode::Executable
    } else if crate::bytesutil::bytes_eq(&mode6, &symlink) {
        EntryMode::Symlink
    } else if crate::bytesutil::bytes_eq(&mode6, &directory) {
        EntryMode::Directory
    } else {
        return Err(UgitError::Format);
    };
    if line[6] != 32 {
        return Err(UgitError::Format);
    }
    let kind4 = crate::bytesutil::sub_vec(line, 7, 11);
    let kind_expected = kind_token(mode);
    if !crate::bytesutil::bytes_eq(&kind4, &kind_expected) {
        return Err(UgitError::Format);
    }
    if line[11] != 32 {
        return Err(UgitError::Format);
    }
    let hash_hex = crate::bytesutil::sub_vec(line, 12, 52);
    let mut i: usize = 0;
    while i < hash_hex.len()
        invariant
            i <= hash_hex@.len(),
            hash_hex@ == line@.subrange(12, 52),
            forall|m: int| 0 <= m < i ==> is_hex_lower(#[trigger] hash_hex@[m]),
        decreases hash_hex@.len() - i,
    {
        let c = hash_hex[i];
        if !((48 <= c && c <= 57) || (97 <= c && c <= 102)) {
            return Err(UgitError::Format);
        }
        i = i + 1;
    }
    if line[52] != 32 {
        return Err(UgitError::Format);
    }
    let name_bytes = crate::bytesutil::sub_vec(line, 53, line.len());
    proof {
        assert(name_bytes@ =~= line@.skip(53));
        assert(name_bytes@.len() > 0);
    }
    let mut i: usize = 0;
    while i < name_bytes.len()
        invariant
            i <= name_bytes@.len(),
            name_bytes@ == line@.skip(53),
            forall|m: int| 0 <= m < i ==> name_bytes@[m] != 0 && name_bytes@[m] != 10
                && name_bytes@[m] != 47,
        decreases name_bytes@.len() - i,
    {
        let c = name_bytes[i];
        if c == 0 || c == 10 || c == 47 {
            proof {
                assert(name_bytes@.contains(c));
            }
            return Err(UgitError::Format);
        }
        i = i + 1;
    }
    proof {
        if name_bytes@.contains(0) {
            let m = choose|m: int| 0 <= m < name_bytes@.len() && name_bytes@[m] == 0;
        }
        if name_bytes@.contains(10) {
            let m = choose|m: int| 0 <= m < name_bytes@.len() && name_bytes@[m] == 10;
        }
        if name_bytes@.contains(47) {
            let m = choose|m: int| 0 <= m < name_bytes@.len() && name_bytes@[m] == 47;
        }
    }
    let name = match crate::strutil::bytes_to_string(&name_bytes) {
        Ok(s) => s,
        Err(e) => {
            return Err(e);
        },
    };
    proof {
        vstd::utf8::encode_utf8_decode_utf8(name@);
    }
    Ok(TreeEntry { mode, hash_hex, name })
}

/// Parses the content of a tree object into its entries: one per line.
/// Any malformed line is a `Format` error.
#[verifier::loop_isolation(false)]
pub fn parse_tree(content: &Vec<u8>) -> (r: Result<Vec<TreeEntry>, UgitError>)
    ensures
        match r {
            Ok(es) => parse_tree_spec(content@) == Some(es@.map_values(|e: TreeEntry| e@)),
            Err(e) => e == UgitError::Format && parse_tree_spec(content@) is None,
        },
{
    let mut entries: Vec<TreeEntry> = Vec::new();
    let mut pos: usize = 0;
    if content.len() == 0 {
        proof {
            assert(entries@.map_values(|e: TreeEntry| e@) =~= Seq::<TreeEntryV>::empty());
        }
        return Ok(entries);
    }
    proof {
        assert(content@.skip(0) =~= content@);
        assert(entries@.map_values(|e: TreeEntry| e@) =~= Seq::<TreeEntryV>::empty());
        match parse_tree_spec(content@) {
            Some(rest) => {
                assert(Seq::<TreeEntryV>::empty() + rest =~= rest);
            },
            None => {},
        }
    }
    loop
        invariant
            pos < content@.len(),
            content@.len() > 0,
            match parse_tree_spec(content@.skip(pos as int)) {
                Some(rest) => parse_tree_spec(content@) == Some(
                    entries@.map_values(|e: TreeEntry| e@) + rest,
                ),
                None => parse_tree_spec(content@) is None,
            },
        decreases content@.len() - pos,
    {
        let ghost suffix = content@.skip(pos as int);
        // Find the end of this line.
        let mut e: usize = pos;
        while e < content.len() && content[e] != 10
            invariant
                pos <= e <= content@.len(),
                forall|j: int| pos <= j < e ==> content@[j] != 10,
            decreases content@.len() - e,
        {
            e = e + 1;
        }
        let line = crate::bytesutil::sub_vec(content, pos, e);
        proof {
            assert(suffix.len() > 0);
            if e < content.len() {
                assert(is_first_newline(suffix, e - pos)) by {
                    assert forall|j: int| 0 <= j < e - pos implies suffix[j] != 10 by {
                        assert(suffix[j] == content@[pos + j]);
                    }
                }
                let ec = choose|y: int| is_first_newline(suffix, y);
                lemma_first_newline_unique(suffix, e - pos, ec);
                assert(line@ =~= suffix.take(e - pos));
            } else {
                assert forall|y: int| !is_first_newline(suffix, y) by {
                    if 0 <= y < suffix.len() {
                        assert(suffix[y] == content@[pos + y]);
                    }
                }
                assert(line@ =~= suffix);
            }
        }
        let entry = match parse_tree_line(&line) {
            Ok(t) => t,
            Err(err) => {
                return Err(err);
            },
        };
        proof {
            let old_views = entries@.map_values(|t: TreeEntry| t@);
            let new_views = entries@.push(entry).map_values(|t: TreeEntry| t@);
            assert(new_views =~= old_views.push(entry@));
            if e < content.len() {
                assert(suffix.skip((e - pos) + 1) =~= content@.skip(e + 1));
                match parse_tree_spec(content@.skip(e + 1)) {
                    Some(rest2) => {
                        assert(parse_tree_spec(suffix) == Some(seq![entry@] + rest2));
                        assert(old_views + (seq![entry@] + rest2) =~= new_views + rest2);
                    },
                    None => {},
                }
            } else {
                assert(parse_tree_spec(suffix) == Some(seq![entry@]));
                assert(old_views + seq![entry@] =~= new_views);
                assert(new_views + Seq::<TreeEntryV>::empty() =~= new_views);
            }
        }
        entries.push(entry);
        if e == content.len() {
            proof {
                assert(parse_tree_spec(content@) == Some(
                    entries@.map_values(|t: TreeEntry| t@),
                ));
            }
            return Ok(entries);
        }
        pos = e + 1;
        if pos == content.len() {
            // Content ended in a newline: there is no further line.
            proof {
                assert(content@.skip(pos as int).len() == 0);
                assert(parse_tree_spec(content@.skip(pos as int)) == Some(Seq::<
                    TreeEntryV,
                >::empty()));
                assert(entries@.map_values(|t: TreeEntry| t@) + Seq::<TreeEntryV>::empty()
                    =~= entries@.map_values(|t: TreeEntry| t@));
            }
            return Ok(entries);
        }
    }
}

/// The hex rendering of any byte string consists of lowercase hex digits.
pub proof fn lemma_hex_of_hex_lower(bytes: Seq<u8>)
    ensures
        all_hex_lower(crate::hexcodec::hex_of(bytes)),
        crate::hexcodec::hex_of(bytes).len() == 2 * bytes.len(),
{
    assert forall|i: int| 0 <= i < crate::hexcodec::hex_of(bytes).len() implies is_hex_lower(
        #[trigger] crate::hexcodec::hex_of(bytes)[i],
    ) by {
        if i % 2 == 0 {
            assert(bytes[i / 2] / 16 < 16);
        } else {
            assert(bytes[i / 2] % 16 < 16);
        }
    }
}

/// No byte of a well-formed entry's line is a newline.
proof fn lemma_line_no_newline(v: TreeEntryV)
    requires
        tree_entry_wf(v),
    ensures
        forall|k: int| 0 <= k < tree_line_bytes(v).len() ==> #[trigger] tree_line_bytes(v)[k]
            != 10,
{
    let line = tree_line_bytes(v);
    let nb = encode_utf8(v.name);
    assert forall|k: int| 0 <= k < line.len() implies #[trigger] line[k] != 10 by {
        if k < 6 {
            assert(line[k] == mode_bytes(v.mode)[k]);
            match v.mode {
                EntryMode::Regular => {
                    assert(mode_bytes(v.mode) =~= seq![49u8, 48u8, 48u8, 54u8, 52u8, 52u8]);
                },
                EntryMode::Executable => {
                    assert(mode_bytes(v.mode) =~= seq![49u8, 48u8, 48u8, 55u8, 53u8, 53u8]);
                },
                EntryMode::Symlink => {
                    assert(mode_bytes(v.mode) =~= seq![49u8, 50u8, 48u8, 48u8, 48u8, 48u8]);
                },
                EntryMode::Directory => {
                    assert(mode_bytes(v.mode) =~= seq![48u8, 52u8, 48u8, 48u8, 48u8, 48u8]);
                },
            }
        } else if k == 6 {
            assert(line[k] == 32);
        } else if k < 11 {
            assert(line[k] == entry_kind_bytes(v.mode)[k - 7]);
            match v.mode {
                EntryMode::Directory => {
                    assert(entry_kind_bytes(v.mode) =~= seq![116u8, 114u8, 101u8, 101u8]);
                },
                _ => {
                    assert(entry_kind_bytes(v.mode) =~= seq![98u8, 108u8, 111u8, 98u8]);
                },
            }
        } else if k == 11 {
            assert(line[k] == 32);
        } else if k < 52 {
            assert(line[k] == v.hash_hex[k - 12]);
            assert(is_hex_lower(v.hash_hex[k - 12]));
        } else if k == 52 {
            assert(line[k] == 32);
        } else {
            assert(line[k] == nb[k - 53]);
            if nb[k - 53] == 10 {
                assert(nb.contains(nb[k - 53]));
            }
        }
    }
}

/// Parsing one line undoes building it.
proof fn lemma_parse_tree_line_of_encoding(v: TreeEntryV)
    requires
        tree_entry_wf(v),
    ensures
        parse_tree_line_spec(tree_line_bytes(v)) == Some(v),
{
    let line = tree_line_bytes(v);
    let nb = encode_utf8(v.name);
    assert(line.len() == 53 + nb.len());
    assert(line.take(6) =~= mode_bytes(v.mode));
    assert(mode_bytes(EntryMode::Regular)[1] == 48 && mode_bytes(EntryMode::Regular)[3] == 54);
    assert(mode_bytes(EntryMode::Executable)[1] == 48 && mode_bytes(EntryMode::Executable)[3]
        == 55);
    assert(mode_bytes(EntryMode::Symlink)[1] == 50);
    assert(mode_bytes(EntryMode::Directory)[1] == 52);
    assert(mode_from_bytes(line.take(6)) == Some(v.mode));
    assert(line[6] == 32);
    assert(line.subrange(7, 11) =~= entry_kind_bytes(v.mode));
    assert(line[11] == 32);
    assert(line.subrange(12, 52) =~= v.hash_hex);
    assert(line[52] == 32);
    assert(line.skip(53) =~= nb);
    vstd::utf8::encode_utf8_valid_utf8(v.name);
    vstd::utf8::encode_utf8_decode_utf8(v.name);
}

/// Splitting tree content at its first line: with two or more entries, the
/// content is the first entry's line, a newline, and the rest's content.
proof fn lemma_tree_content_front(es: Seq<TreeEntryV>)
    requires
        es.len() >= 2,
    ensures
        tree_content_bytes(es) == tree_line_bytes(es[0]) + seq![10u8] + tree_content_bytes(
            es.drop_first(),
        ),
    decreases es.len(),
{
    if es.len() == 2 {
        assert(es.drop_last() =~= seq![es[0]]);
        assert(es.drop_first() =~= seq![es[1]]);
        assert(tree_content_bytes(seq![es[0]]) == tree_line_bytes(seq![es[0]][0]));
        assert(tree_content_bytes(seq![es[1]]) == tree_line_bytes(seq![es[1]][0]));
        assert(tree_content_bytes(es) =~= tree_line_bytes(es[0]) + seq![10u8]
            + tree_content_bytes(es.drop_first()));
    } else {
        lemma_tree_content_front(es.drop_last());
        assert(es.drop_last()[0] == es[0]);
        assert(es.drop_last().drop_first() =~= es.drop_first().drop_last());
        assert(es.drop_first().len() >= 2);
        assert(es.drop_first().last() == es.last());
        assert(tree_content_bytes(es.drop_first()) == tree_content_bytes(
            es.drop_first().drop_last(),
        ) + seq![10u8] + tree_line_bytes(es.last()));
        assert(tree_content_bytes(es) == tree_content_bytes(es.drop_last()) + seq![10u8]
            + tree_line_bytes(es.last()));
        assert(tree_content_bytes(es) =~= tree_line_bytes(es[0]) + seq![10u8]
            + tree_content_bytes(es.drop_first()));
    }
}

/// The tree round trip: parsing the content built for well-formed entries
/// yields exactly those entries again.
#[verifier::rlimit(100)]
pub proof fn lemma_parse_tree_of_encoding(es: Seq<TreeEntryV>)
    requires
        forall|i: int| 0 <= i < es.len() ==> tree_entry_wf(#[trigger] es[i]),
    ensures
        parse_tree_spec(tree_content_bytes(es)) == Some(es),
    decreases es.len(),
{
    let content = tree_content_bytes(es);
    if es.len() == 0 {
        assert(content.len() == 0);
        assert(Some(Seq::<TreeEntryV>::empty()) == Some(es)) by {
            assert(es =~= Seq::<TreeEntryV>::empty());
        }
    } else if es.len() == 1 {
        lemma_line_no_newline(es[0]);
        assert(content == tree_line_bytes(es[0]));
        assert(content.len() >= 54) by {
            assert(encode_utf8(es[0].name).len() > 0);
        }
        assert forall|e: int| !is_first_newline(content, e) by {
            if 0 <= e < content.len() {
                assert(content[e] != 10);
            }
        }
        lemma_parse_tree_line_of_encoding(es[0]);
        assert(seq![es[0]] =~= es);
    } else {
        lemma_tree_content_front(es);
        let line0 = tree_line_bytes(es[0]);
        let rest = tree_content_bytes(es.drop_first());
        lemma_line_no_newline(es[0]);
        let e = line0.len() as int;
        assert(is_first_newline(content, e)) by {
            assert(content[e] == 10);
            assert forall|j: int| 0 <= j < e implies content[j] != 10 by {
                assert(content[j] == line0[j]);
            }
        }
        let ec = choose|y: int| is_first_newline(content, y);
        lemma_first_newline_unique(content, e, ec);
        assert(content.take(e) =~= line0);
        lemma_parse_tree_line_of_encoding(es[0]);
        assert(content.skip(e + 1) =~= rest);
        assert(forall|i: int| 0 <= i < es.drop_first().len() ==> es.drop_first()[i] == es[i + 1]);
        lemma_parse_tree_of_encoding(es.drop_first());
        assert(seq![es[0]] + es.drop_first() =~= es);
    }
}

proof fn lemma_entries_of_remove(s: Seq<DirChildV>, j: int)
    requires
        0 <= j < s.len(),
    ensures
        entries_of(s).to_multiset() == entries_of(s.remove(j)).to_multiset().insert(
            child_entry(s[j]),
        ),
    decreases s.len(),
{
    broadcast use vstd::seq_lib::group_to_multiset_ensures;
    broadcast use vstd::multiset::group_multiset_axioms;

    if j == s.len() - 1 {
        assert(s.remove(j) =~= s.drop_last());
        assert(entries_of(s) == entries_of(s.drop_last()).push(child_entry(s.last())));
        assert(entries_of(s.drop_last()).push(child_entry(s.last())).to_multiset()
            == entries_of(s.drop_last()).to_multiset().insert(child_entry(s.last())));
    } else {
        assert(s.remove(j).drop_last() =~= s.drop_last().remove(j));
        assert(s.remove(j).last() == s.last());
        lemma_entries_of_remove(s.drop_last(), j);
        assert(s.drop_last()[j] == s[j]);
        let base = entries_of(s.drop_last().remove(j)).to_multiset();
        assert(entries_of(s.drop_last()).to_multiset() == base.insert(child_entry(s[j])));
        assert(entries_of(s).to_multiset() == entries_of(s.drop_last()).to_multiset().insert(
            child_entry(s.last()),
        ));
        assert(entries_of(s.remove(j)).to_multiset() == base.insert(child_entry(s.last())));
        assert(base.insert(child_entry(s[j])).insert(child_entry(s.last())) =~= base.insert(
            child_entry(s.last()),
        ).insert(child_entry(s[j])));
    }
}

proof fn lemma_entries_of_multiset(c1: Seq<DirChildV>, c2: Seq<DirChildV>)
    requires
        c1.to_multiset() == c2.to_multiset(),
    ensures
        entries_of(c1).to_multiset() == entries_of(c2).to_multiset(),
    decreases c1.len(),
{
    broadcast use vstd::seq_lib::group_to_multiset_ensures;
    broadcast use vstd::multiset::group_multiset_axioms;

    c1.to_multiset_ensures();
    c2.to_multiset_ensures();
    if c1.len() == 0 {
        assert(c2.to_multiset().len() == 0);
        assert(c2 =~= Seq::<DirChildV>::empty());
    } else {
        let x = c1.last();
        assert(c1.to_multiset().contains(x));
        assert(c2.contains(x));
        let j = choose|j: int| 0 <= j < c2.len() && c2[j] == x;
        assert(c1.drop_last() =~= c1.remove(c1.len() - 1));
        assert(c1.remove(c1.len() - 1).to_multiset() == c1.to_multiset().remove(x));
        assert(c2.remove(j).to_multiset() == c2.to_multiset().remove(x));
        lemma_entries_of_multiset(c1.drop_last(), c2.remove(j));
        lemma_entries_of_remove(c2, j);
        assert(entries_of(c1).to_multiset() == entries_of(c1.drop_last()).to_multiset().insert(
            child_entry(x),
        ));
    }
}

/// The tree hash of one directory level is a pure function of the set of
/// children it holds: handing the builder the same children in another
/// order yields the same content and the same hash.
pub proof fn lemma_dir_hash_reorder(c1: Seq<DirChildV>, c2: Seq<DirChildV>)
    requires
        c1.to_multiset() == c2.to_multiset(),
    ensures
        dir_content(c1) == dir_content(c2),
        dir_hash(c1) == dir_hash(c2),
{
    lemma_entries_of_multiset(c1, c2);
    lemma_sort_entries_spec_ensures(entries_of(c1));
    lemma_sort_entries_spec_ensures(entries_of(c2));
    lemma_sorted_entries_unique(
        sort_entries_spec(entries_of(c1)),
        sort_entries_spec(entries_of(c2)),
    );
}

// ---------------------------------------------------------------------------
// The builder
// ---------------------------------------------------------------------------

/// One directory level as a value: its entries, sorted by name.
pub struct Tree {
    /// The entries, sorted by name, one per child.
    pub entries: Vec<TreeEntry>,
}

impl Tree {
    pub open spec fn entry_views(self) -> Seq<TreeEntryV> {
        self.entries@.map_values(|e: TreeEntry| e@)
    }

    /// A well-formed tree: representable entries, in order, no name twice.
    pub open spec fn wf(self) -> bool {
        &&& forall|i: int| 0 <= i < self.entry_views().len() ==> tree_entry_wf(
            #[trigger] self.entry_views()[i],
        )
        &&& entries_sorted(self.entry_views())
        &&& forall|i: int, j: int| 0 <= i < j < self.entry_views().len() ==> self.entry_views()[i].name
            != self.entry_views()[j].name
    }
}

/// Byte-wise lexicographic comparison.
#[verifier::loop_isolation(false)]
pub fn bytes_le_exec(a: &Vec<u8>, b: &Vec<u8>) -> (r: bool)
    ensures
        r == bytes_le(a@, b@),
{
    let mut i: usize = 0;
    proof {
        assert(a@.skip(0) =~= a@);
        assert(b@.skip(0) =~= b@);
    }
    while i < a.len() && i < b.len() && a[i] == b[i]
        invariant
            i <= a@.len(),
            i <= b@.len(),
            bytes_le(a@, b@) == bytes_le(a@.skip(i as int), b@.skip(i as int)),
        decreases a@.len() - i,
    {
        proof {
            assert(a@.skip(i as int).drop_first() =~= a@.skip(i + 1));
            assert(b@.skip(i as int).drop_first() =~= b@.skip(i + 1));
            assert(a@.skip(i as int).first() == a@[i as int]);
            assert(b@.skip(i as int).first() == b@[i as int]);
        }
        i = i + 1;
    }
    proof {
        if i < a.len() && i < b.len() {
            assert(a@.skip(i as int).first() == a@[i as int]);
            assert(b@.skip(i as int).first() == b@[i as int]);
        }
    }
    if i == a.len() {
        true
    } else if i == b.len() {
        false
    } else {
        a[i] < b[i]
    }
}

/// The entry order, executably.
pub fn entry_le_exec(a: &TreeEntry, b: &TreeEntry) -> (r: bool)
    ensures
        r == entry_le(a@, b@),
{
    let an = a.name.as_str().as_bytes_vec();
    let bn = b.name.as_str().as_bytes_vec();
    if !crate::bytesutil::bytes_eq(&an, &bn) {
        bytes_le_exec(&an, &bn)
    } else if !crate::bytesutil::bytes_eq(&a.hash_hex, &b.hash_hex) {
        bytes_le_exec(&a.hash_hex, &b.hash_hex)
    } else {
        let ar = match a.mode {
            EntryMode::Regular => 0u8,
            EntryMode::Executable => 1u8,
            EntryMode::Symlink => 2u8,
            EntryMode::Directory => 3u8,
        };
        let br = match b.mode {
            EntryMode::Regular => 0u8,
            EntryMode::Executable => 1u8,
            EntryMode::Symlink => 2u8,
            EntryMode::Directory => 3u8,
        };
        ar <= br
    }
}

impl TreeEntry {
    /// An owned copy holding the same value.
    pub fn duplicate(&self) -> (r: TreeEntry)
        ensures
            r@ == self@,
    {
        let hash_hex = crate::bytesutil::sub_vec(&self.hash_hex, 0, self.hash_hex.len());
        proof {
            assert(hash_hex@ =~= self.hash_hex@);
        }
        TreeEntry { mode: self.mode, hash_hex, name: String::from_str(self.name.as_str()) }
    }
}

/// Sorts entries by the entry order: insertion sort.
#[verifier::loop_isolation(false)]
pub fn sort_entries(entries: Vec<TreeEntry>) -> (r: Vec<TreeEntry>)
    ensures
        entries_sorted(r@.map_values(|e: TreeEntry| e@)),
        r@.map_values(|e: TreeEntry| e@).to_multiset() == entries@.map_values(
            |e: TreeEntry| e@,
        ).to_multiset(),
{
    broadcast use vstd::seq_lib::group_to_multiset_ensures;
    broadcast use vstd::multiset::group_multiset_axioms;

    let ghost input = entries@.map_values(|e: TreeEntry| e@);
    let mut out: Vec<TreeEntry> = Vec::new();
    let mut i: usize = 0;
    while i < entries.len()
        invariant
            i <= entries@.len(),
            input == entries@.map_values(|e: TreeEntry| e@),
            entries_sorted(out@.map_values(|e: TreeEntry| e@)),
            out@.map_values(|e: TreeEntry| e@).to_multiset() == input.take(i as int).to_multiset(),
        decreases entries@.len() - i,
    {
        let ghost before = out@.map_values(|e: TreeEntry| e@);
        let e = entries[i].duplicate();
        let mut j: usize = 0;
        while j < out.len() && entry_le_exec(&out[j], &e)
            invariant
                j <= out@.len(),
                e@ == input[i as int],
                before == out@.map_values(|ent: TreeEntry| ent@),
                forall|m: int| 0 <= m < j ==> entry_le(#[trigger] before[m], e@),
            decreases out@.len() - j,
        {
            j = j + 1;
        }
        proof {
            if j < out.len() {
                lemma_entry_le_total(e@, before[j as int]);
            }
        }
        out.insert(j, e);
        i = i + 1;
        proof {
            let after = out@.map_values(|ent: TreeEntry| ent@);
            assert(after =~= before.insert(j as int, input[i - 1]));
            assert forall|m: int, n: int| 0 <= m < n < after.len() implies entry_le(
                after[m],
                after[n],
            ) by {
                let x = after[m];
                let y = after[n];
                if m == j {
                    assert(x == input[i - 1]);
                    assert(y == before[n - 1]);
                    if n - 1 > j - 1 && j < before.len() {
                        if n - 1 == j {
                            assert(y == before[j as int]);
                        } else {
                            assert(entry_le(before[j as int], before[n - 1]));
                            lemma_entry_le_trans(x, before[j as int], before[n - 1]);
                        }
                    }
                } else if n == j {
                    assert(y == input[i - 1]);
                    assert(x == before[m]);
                    assert(entry_le(before[m], y));
                } else if m < j && n < j {
                    assert(x == before[m] && y == before[n]);
                } else if m < j {
                    assert(x == before[m] && y == before[n - 1]);
                    if n - 1 == m {
                        lemma_entry_le_total(x, y);
                        if !entry_le(x, y) {
                            lemma_entry_le_antisym(x, y);
                        }
                    }
                } else {
                    assert(x == before[m - 1] && y == before[n - 1]);
                }
            }
            assert(input.take(i as int) =~= input.take(i - 1).push(input[i - 1]));
            assert(input.take(i - 1).push(input[i - 1]).to_multiset() == input.take(
                i - 1,
            ).to_multiset().insert(input[i - 1]));
            assert(before.insert(j as int, input[i - 1]).to_multiset() == before.to_multiset().insert(
                input[i - 1],
            ));
        }
    }
    proof {
        assert(input.take(input.len() as int) =~= input);
    }
    out
}

/// Whether `name` can stand in a tree line.
#[verifier::loop_isolation(false)]
pub fn name_ok(name: &str) -> (r: bool)
    ensures
        r == name_valid(name@),
{
    let b = name.as_bytes_vec();
    if b.len() == 0 {
        return false;
    }
    let mut i: usize = 0;
    while i < b.len()
        invariant
            i <= b@.len(),
            b@ == encode_utf8(name@),
            forall|m: int| 0 <= m < i ==> b@[m] != 0 && b@[m] != 10 && b@[m] != 47,
        decreases b@.len() - i,
    {
        let c = b[i];
        if c == 0 || c == 10 || c == 47 {
            proof {
                assert(b@.contains(c));
            }
            return false;
        }
        i = i + 1;
    }
    proof {
        if b@.contains(0) {
            let m = choose|m: int| 0 <= m < b@.len() && b@[m] == 0;
        }
        if b@.contains(10) {
            let m = choose|m: int| 0 <= m < b@.len() && b@[m] == 10;
        }
        if b@.contains(47) {
            let m = choose|m: int| 0 <= m < b@.len() && b@[m] == 47;
        }
    }
    true
}

fn child_name_string(c: &DirChild) -> (r: &String)
    ensures
        r@ == name_of(child_view(*c)),
{
    match c {
        DirChild::File { name, .. } => name,
        DirChild::Dir { name, .. } => name,
    }
}

/// The six octal digits of a mode.
fn mode_octal(m: EntryMode) -> (r: Vec<u8>)
    ensures
        r@ == mode_bytes(m),
{
    let mut r: Vec<u8> = Vec::new();
    match m {
        EntryMode::Regular => {
            r.push(49);
            r.push(48);
            r.push(48);
            r.push(54);
            r.push(52);
            r.push(52);
        },
        EntryMode::Executable => {
            r.push(49);
            r.push(48);
            r.push(48);
            r.push(55);
            r.push(53);
            r.push(53);
        },
        EntryMode::Symlink => {
            r.push(49);
            r.push(50);
            r.push(48);
            r.push(48);
            r.push(48);
            r.push(48);
        },
        EntryMode::Directory => {
            r.push(48);
            r.push(52);
            r.push(48);
            r.push(48);
            r.push(48);
            r.push(48);
        },
    }
    proof {
        assert(r@ =~= mode_bytes(m));
    }
    r
}

/// The kind token of a line.
fn kind_token(m: EntryMode) -> (r: Vec<u8>)
    ensures
        r@ == entry_kind_bytes(m),
{
    let mut r: Vec<u8> = Vec::new();
    match m {
        EntryMode::Directory => {
            r.push(116);
            r.push(114);
            r.push(101);
            r.push(101);
        },
        _ => {
            r.push(98);
            r.push(108);
            r.push(111);
            r.push(98);
        },
    }
    proof {
        assert(r@ =~= entry_kind_bytes(m));
    }
    r
}

/// One line of a tree object.
fn tree_line(e: &TreeEntry) -> (r: Vec<u8>)
    ensures
        r@ == tree_line_bytes(e@),
{
    let mut r = mode_octal(e.mode);
    r.push(32);
    let kind = kind_token(e.mode);
    crate::bytesutil::push_all(&mut r, &kind);
    r.push(32);
    crate::bytesutil::push_all(&mut r, &e.hash_hex);
    r.push(32);
    let name_bytes = e.name.as_str().as_bytes_vec();
    crate::bytesutil::push_all(&mut r, &name_bytes);
    proof {
        assert(r@ =~= tree_line_bytes(e@));
    }
    r
}

/// Assembles the content of a tree object: the entries' lines joined by
/// newlines.
#[verifier::loop_isolation(false)]
pub fn tree_content(entries: &Vec<TreeEntry>) -> (r: Vec<u8>)
    ensures
        r@ == tree_content_bytes(entries@.map_values(|e: TreeEntry| e@)),
{
    let ghost views = entries@.map_values(|e: TreeEntry| e@);
    let mut r: Vec<u8> = Vec::new();
    let mut i: usize = 0;
    while i < entries.len()
        invariant
            i <= entries@.len(),
            views == entries@.map_values(|e: TreeEntry| e@),
            r@ == tree_content_bytes(views.take(i as int)),
        decreases entries@.len() - i,
    {
        if i > 0 {
            r.push(10);
        }
        let line = tree_line(&entries[i]);
        crate::bytesutil::push_all(&mut r, &line);
        i = i + 1;
        proof {
            assert(views.take(i as int).drop_last() =~= views.take(i - 1));
            assert(views.take(i as int).last() == views[i - 1]);
            if i == 1 {
                assert(tree_content_bytes(views.take(1)) == tree_line_bytes(views.take(1)[0]));
                assert(r@ =~= tree_line_bytes(views[0]));
            } else {
                assert(r@ =~= tree_content_bytes(views.take(i - 1)) + seq![10u8]
                    + tree_line_bytes(views[i - 1]));
            }
        }
    }
    proof {
        assert(views.take(views.len() as int) =~= views);
    }
    r
}

/// An object carrying the given hex hash stands somewhere in `objects`.
pub open spec fn object_present(objects: Seq<crate::objects::StoredObject>, hash_hex: Seq<u8>) -> bool {
    exists|j: int| 0 <= j < objects.len() && (#[trigger] objects[j]).hash_hex@ == hash_hex
}

/// What building a directory yields: the root tree value, its address, and
/// every object that has to be persisted (the root tree's last).
pub struct TreeBuild {
    /// The root tree, entries sorted.
    pub tree: Tree,
    /// The root tree's 20-byte hash.
    pub hash: Vec<u8>,
    /// The root tree's hash as 40 hex characters.
    pub hash_hex: Vec<u8>,
    /// The blob and tree objects of the whole build, the root tree last.
    pub objects: Vec<crate::objects::StoredObject>,
}

/// Builds the tree of one directory level, bottom-up: a blob object per
/// file, a tree object per subdirectory, and the level's own tree object
/// over the sorted entries.  The hash is a pure function of the children's
/// names, modes and contents; the order they were handed over in does not
/// matter.  An unusable name, a duplicated name, or a directory mode on a
/// file is reported as `Format`, and nothing else fails.
#[verifier::loop_isolation(false)]
#[verifier::rlimit(100)]
pub fn build_tree(children: &Vec<DirChild>) -> (r: Result<TreeBuild, UgitError>)
    ensures
        match r {
            Ok(b) => {
                &&& children_wf(children_views(children@))
                &&& b.tree.wf()
                &&& b.tree.entry_views() == sort_entries_spec(entries_of(children_views(children@)))
                &&& b.hash@ == dir_hash(children_views(children@))
                &&& b.hash@.len() == 20
                &&& b.hash_hex@ == crate::hexcodec::hex_of(b.hash@)
                &&& b.objects@.len() >= 1
                &&& b.objects@.last().encodes(
                    crate::codec::ObjectKind::Tree,
                    dir_content(children_views(children@)),
                )
                &&& b.objects@.last().hash@ == b.hash@
                &&& forall|i: int| 0 <= i < b.objects@.len() ==> (#[trigger] b.objects@[i]).wf()
                &&& forall|i: int| 0 <= i < b.tree.entry_views().len() ==> object_present(
                    b.objects@,
                    (#[trigger] b.tree.entry_views()[i]).hash_hex,
                )
            },
            Err(e) => {
                &&& e == UgitError::Format
                &&& !children_wf(children_views(children@))
            },
        },
    decreases children@,
{
    let ghost cv = children_views(children@);
    proof {
        lemma_children_views_index(children@);
    }
    // Reject unusable or duplicated names up front.
    let mut i: usize = 0;
    while i < children.len()
        invariant
            i <= children@.len(),
            forall|m: int| 0 <= m < i ==> name_valid(name_of(#[trigger] cv[m])),
            forall|m: int, n: int| 0 <= m < n < i ==> name_of(cv[m]) != name_of(cv[n]),
        decreases children@.len() - i,
    {
        let name = child_name_string(&children[i]);
        if !name_ok(name.as_str()) {
            proof {
                assert(!child_wf(cv[i as int]));
            }
            return Err(UgitError::Format);
        }
        let mut j: usize = 0;
        while j < i
            invariant
                j <= i < children@.len(),
                name@ == name_of(cv[i as int]),
                forall|m: int| 0 <= m < j ==> name_of(#[trigger] cv[m]) != name_of(cv[i as int]),
            decreases i - j,
        {
            if crate::strutil::str_eq(child_name_string(&children[j]).as_str(), name.as_str()) {
                proof {
                    assert(name_of(cv[j as int]) == name_of(cv[i as int]));
                }
                return Err(UgitError::Format);
            }
            j = j + 1;
        }
        i = i + 1;
    }
    // One object and one entry per child.
    let mut entries: Vec<TreeEntry> = Vec::new();
    let mut objects: Vec<crate::objects::StoredObject> = Vec::new();
    let mut i: usize = 0;
    while i < children.len()
        invariant
            i <= children@.len(),
            forall|m: int| 0 <= m < children@.len() ==> name_valid(name_of(#[trigger] cv[m])),
            forall|m: int, n: int| 0 <= m < n < children@.len() ==> name_of(cv[m]) != name_of(
                cv[n],
            ),
            forall|m: int| 0 <= m < i ==> child_wf(#[trigger] cv[m]),
            entries@.map_values(|e: TreeEntry| e@) == entries_of(cv.take(i as int)),
            forall|m: int| 0 <= m < entries@.len() ==> tree_entry_wf(
                (#[trigger] entries@[m])@,
            ),
            forall|m: int| 0 <= m < objects@.len() ==> (#[trigger] objects@[m]).wf(),
            forall|m: int| 0 <= m < entries@.len() ==> object_present(
                objects@,
                (#[trigger] entries@[m])@.hash_hex,
            ),
        decreases children@.len() - i,
    {
        let ghost before = entries@.map_values(|e: TreeEntry| e@);
        match &children[i] {
            DirChild::File { name, mode, content } => {
                if matches!(mode, EntryMode::Directory) {
                    proof {
                        assert(!child_wf(cv[i as int]));
                    }
                    return Err(UgitError::Format);
                }
                let obj = crate::objects::write_object(crate::codec::ObjectKind::Blob, content);
                let hash_hex = crate::bytesutil::sub_vec(&obj.hash_hex, 0, obj.hash_hex.len());
                proof {
                    assert(hash_hex@ =~= obj.hash_hex@);
                    lemma_hex_of_hex_lower(obj.hash@);
                }
                entries.push(
                    TreeEntry { mode: *mode, hash_hex, name: String::from_str(name.as_str()) },
                );
                let ghost objects_before = objects@;
                objects.push(obj);
                proof {
                    assert(child_wf(cv[i as int]));
                    assert(entries@.last()@ == child_entry(cv[i as int]));
                    assert(objects@.last().hash_hex@ == entries@.last()@.hash_hex);
                    assert forall|m: int| 0 <= m < entries@.len() implies object_present(
                        objects@,
                        (#[trigger] entries@[m])@.hash_hex,
                    ) by {
                        if m < entries@.len() - 1 {
                            let j = choose|j: int| 0 <= j < objects_before.len() && (
                            #[trigger] objects_before[j]).hash_hex@ == entries@[m]@.hash_hex;
                            assert(objects@[j].hash_hex@ == entries@[m]@.hash_hex);
                        } else {
                            assert(objects@[objects@.len() - 1].hash_hex@
                                == entries@[m]@.hash_hex);
                        }
                    }
                }
            },
            DirChild::Dir { name, children: sub } => {
                proof {
                    assert(children@[i as int] == children[i as int]);
                }
                let built = match build_tree(sub) {
                    Ok(b) => b,
                    Err(e) => {
                        proof {
                            assert(!child_wf(cv[i as int]));
                        }
                        return Err(e);
                    },
                };
                let mut built_objects = built.objects;
                let hash_hex = crate::bytesutil::sub_vec(&built.hash_hex, 0, built.hash_hex.len());
                proof {
                    assert(hash_hex@ =~= built.hash_hex@);
                    assert(child_hash(cv[i as int]) == dir_hash(children_views(sub@)));
                    lemma_hex_of_hex_lower(built.hash@);
                }
                entries.push(
                    TreeEntry {
                        mode: EntryMode::Directory,
                        hash_hex,
                        name: String::from_str(name.as_str()),
                    },
                );
                let ghost objects_before = objects@;
                let ghost appended = built_objects@;
                objects.append(&mut built_objects);
                proof {
                    assert(child_wf(cv[i as int]));
                    assert(entries@.last()@ == child_entry(cv[i as int]));
                    assert(objects@ == objects_before + appended);
                    let last_j = objects@.len() - 1;
                    assert(objects@[last_j] == appended.last());
                    assert(appended.last().wf());
                    assert(objects@[last_j].hash_hex@ == entries@.last()@.hash_hex);
                    assert forall|m: int| 0 <= m < entries@.len() implies object_present(
                        objects@,
                        (#[trigger] entries@[m])@.hash_hex,
                    ) by {
                        if m < entries@.len() - 1 {
                            let j = choose|j: int| 0 <= j < objects_before.len() && (
                            #[trigger] objects_before[j]).hash_hex@ == entries@[m]@.hash_hex;
                            assert(objects@[j].hash_hex@ == entries@[m]@.hash_hex);
                        } else {
                            assert(objects@[last_j].hash_hex@ == entries@[m]@.hash_hex);
                        }
                    }
                }
            },
        }
        i = i + 1;
        proof {
            assert(cv.take(i as int).drop_last() =~= cv.take(i - 1));
            assert(cv.take(i as int).last() == cv[i - 1]);
            assert(entries@.map_values(|e: TreeEntry| e@) =~= before.push(
                child_entry(cv[i - 1]),
            ));
        }
    }
    proof {
        assert(cv.take(cv.len() as int) =~= cv);
        assert(children_wf(cv));
    }
    // Sort, then hash the level itself.
    let ghost unsorted_views = entries@.map_values(|e: TreeEntry| e@);
    let sorted = sort_entries(entries);
    let ghost sorted_views = sorted@.map_values(|e: TreeEntry| e@);
    proof {
        lemma_sort_entries_spec_ensures(entries_of(cv));
        lemma_sorted_entries_unique(sorted_views, sort_entries_spec(entries_of(cv)));
        lemma_entries_of_index(cv);
        assert forall|m: int, n: int| 0 <= m < n < cv.len() implies entries_of(cv)[m].name
            != entries_of(cv)[n].name by {
            assert(entries_of(cv)[m] == child_entry(cv[m]));
            assert(entries_of(cv)[n] == child_entry(cv[n]));
        }
        lemma_names_distinct_preserved(entries_of(cv), sorted_views);
        broadcast use vstd::seq_lib::group_to_multiset_ensures;

        entries_of(cv).to_multiset_ensures();
        sorted_views.to_multiset_ensures();
        unsorted_views.to_multiset_ensures();
        assert forall|m: int| 0 <= m < sorted_views.len() implies tree_entry_wf(
            #[trigger] sorted_views[m],
        ) && object_present(objects@, sorted_views[m].hash_hex) by {
            assert(sorted_views.to_multiset().contains(sorted_views[m]));
            assert(unsorted_views.contains(sorted_views[m]));
            let n = choose|n: int| 0 <= n < unsorted_views.len() && unsorted_views[n]
                == sorted_views[m];
        }
    }
    let content = tree_content(&sorted);
    let root = crate::objects::write_object(crate::codec::ObjectKind::Tree, &content);
    let hash = crate::bytesutil::sub_vec(&root.hash, 0, root.hash.len());
    let hash_hex = crate::bytesutil::sub_vec(&root.hash_hex, 0, root.hash_hex.len());
    proof {
        assert(hash@ =~= root.hash@);
        assert(hash_hex@ =~= root.hash_hex@);
        assert(content@ == dir_content(cv));
    }
    let ghost objects_before_root = objects@;
    objects.push(root);
    proof {
        assert forall|m: int| 0 <= m < sorted_views.len() implies object_present(
            objects@,
            (#[trigger] sorted_views[m]).hash_hex,
        ) by {
            let j = choose|j: int| 0 <= j < objects_before_root.len() && (
            #[trigger] objects_before_root[j]).hash_hex@ == sorted_views[m].hash_hex;
            assert(objects@[j].hash_hex@ == sorted_views[m].hash_hex);
        }
    }
    Ok(TreeBuild { tree: Tree { entries: sorted }, hash, hash_hex, objects })
}

} // verus!
