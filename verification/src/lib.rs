//! A minimal content-addressable object store and staging index, in the style
//! of a version-control system's plumbing layer.
//!
//! Objects (blobs, trees, commits) are addressed by the SHA-1 digest of a
//! small text header followed by their content, and stored zlib-compressed.
//! The staging index is a binary file listing the paths and blob hashes
//! intended for the next snapshot.  All encoding, decoding, hashing glue and
//! index bookkeeping is verified; reading and writing the actual files is left
//! to the binary around this library.

mod bytesutil;
mod codec;
mod commit;
mod compress;
mod digest;
mod errors;
mod hexcodec;
mod index;
mod objects;
mod strutil;
mod tree;

pub use codec::{decode_object_header, encode_object_header, header_bytes, parse_header_spec, ObjectKind};
pub use commit::Commit;
pub use compress::zlib_inflate_of;
pub use digest::sha1_of;
pub use errors::UgitError;
pub use hexcodec::{hex_of, hex_encode};
pub use index::{
    add_entries_spec, entries_bytes, entry_bytes, entry_wf, has_path, index_bytes,
    lemma_add_replaces_never_duplicates, lemma_add_twice_equals_add_once, lemma_index_round_trip, parse_entry_spec,
    parse_index_spec, paths_unique, remove_path_spec, remove_paths, Index, IndexEntry,
    IndexEntryV, INDEX_VERSION, entry_mode, mode_for,
};
pub use objects::{
    decode_stored_spec, object_bytes, object_hash, read_object, read_object_checked,
    resolve_prefix, resolve_prefix_spec, write_object, StoredObject,
};
pub use tree::{
    all_hex_lower, build_tree, child_entry, child_hash, child_view, child_wf, children_views,
    children_wf, dir_content, dir_hash, entries_of, entries_sorted, entry_le,
    lemma_dir_hash_reorder, lemma_hex_of_hex_lower, lemma_parse_tree_of_encoding, name_of,
    name_valid, parse_tree, parse_tree_spec, sort_entries_spec, tree_content, tree_content_bytes,
    tree_entry_wf, tree_line_bytes, DirChild, DirChildV, EntryMode, Tree, TreeBuild, TreeEntry,
    TreeEntryV,
};
