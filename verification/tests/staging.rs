//! The staging index: binary layout, load/persist round trip, add/remove.

use ugit::{entry_mode, Index, IndexEntry, UgitError};

fn sample_entry(path: &str, mtime: u32) -> IndexEntry {
    IndexEntry {
        mode: 0o100644,
        file_size: 5,
        mtime,
        sha1: (0u8..20).collect::<Vec<u8>>(),
        path: String::from(path),
    }
}

#[test]
fn entry_record_layout_is_exact() {
    let e = IndexEntry {
        mode: 0o100644,
        file_size: 5,
        mtime: 1000,
        sha1: (0u8..20).collect::<Vec<u8>>(),
        path: String::from("a.txt"),
    };
    let bytes = e.to_bytes();
    let mut expected: Vec<u8> = Vec::new();
    expected.extend_from_slice(&[0xa4, 0x81]); // 0o100644 little-endian
    expected.extend_from_slice(&[5, 0, 0, 0]); // file size
    expected.extend_from_slice(&[0xe8, 3, 0, 0]); // mtime 1000
    expected.extend_from_slice(&(0u8..20).collect::<Vec<u8>>());
    expected.extend_from_slice(b"a.txt\0");
    assert_eq!(bytes, expected);
}

#[test]
fn entry_bytes_round_trip() {
    let e = sample_entry("dir-name.txt", 123456);
    let back = IndexEntry::from_bytes(&e.to_bytes()).unwrap();
    assert_eq!(back.mode, e.mode);
    assert_eq!(back.file_size, e.file_size);
    assert_eq!(back.mtime, e.mtime);
    assert_eq!(back.sha1, e.sha1);
    assert_eq!(back.path, e.path);
}

#[test]
fn entry_round_trip_non_ascii_path() {
    let e = sample_entry("caf\u{e9}.txt", 7);
    let back = IndexEntry::from_bytes(&e.to_bytes()).unwrap();
    assert_eq!(back.path, e.path);
}

#[test]
fn truncated_entry_is_a_format_error() {
    let e = sample_entry("a.txt", 7);
    let mut bytes = e.to_bytes();
    bytes.pop();
    assert!(matches!(IndexEntry::from_bytes(&bytes), Err(UgitError::Format)));
}

#[test]
fn index_persist_load_round_trip() {
    let mut index = Index::default();
    index.add_entries(vec![sample_entry("a.txt", 1), sample_entry("b/c.txt", 2)]);
    let bytes = index.to_bytes();
    let loaded = Index::parse(&bytes).unwrap();
    assert_eq!(loaded.entries.len(), 2);
    assert_eq!(loaded.entries[0].path, "a.txt");
    assert_eq!(loaded.entries[1].path, "b/c.txt");
    assert_eq!(loaded.entries[1].mtime, 2);
}

#[test]
fn empty_index_is_twelve_bytes_and_reloads_empty() {
    // A fresh staging file holds signature, version and a zero count.
    let index = Index::default();
    let bytes = index.to_bytes();
    assert_eq!(bytes.len(), 12);
    assert_eq!(&bytes[0..4], b"DIRC");
    let loaded = Index::parse(&bytes).unwrap();
    assert_eq!(loaded.entries.len(), 0);
    // Loading what the loaded value persists gives the same empty index.
    let again = Index::parse(&loaded.to_bytes()).unwrap();
    assert_eq!(again.entries.len(), 0);
}

#[test]
fn add_entries_replaces_same_path() {
    let mut index = Index::default();
    index.add_entries(vec![sample_entry("a.txt", 1)]);
    index.add_entries(vec![sample_entry("a.txt", 99)]);
    assert_eq!(index.entries.len(), 1);
    assert_eq!(index.entries[0].path, "a.txt");
    assert_eq!(index.entries[0].mtime, 99);
}

#[test]
fn add_entries_keeps_other_paths() {
    let mut index = Index::default();
    index.add_entries(vec![sample_entry("a.txt", 1), sample_entry("b.txt", 2)]);
    index.add_entries(vec![sample_entry("a.txt", 9)]);
    assert_eq!(index.entries.len(), 2);
    assert_eq!(index.entries[0].path, "b.txt");
    assert_eq!(index.entries[1].path, "a.txt");
    assert_eq!(index.entries[1].mtime, 9);
}

#[test]
fn remove_entry_then_persist_leaves_no_trace() {
    let mut index = Index::default();
    let staged = IndexEntry::stage(
        String::from("f.txt"),
        false,
        false,
        0o644,
        6,
        1000,
        &b"hello\n".to_vec(),
    )
    .unwrap();
    index.add_entries(vec![staged.0]);
    assert_eq!(index.entries.len(), 1);
    index.remove_entry("f.txt");
    assert_eq!(index.entries.len(), 0);
    let bytes = index.to_bytes();
    assert_eq!(bytes.len(), 12);
    let loaded = Index::parse(&bytes).unwrap();
    assert_eq!(loaded.entries.len(), 0);
}

#[test]
fn remove_entry_absent_path_is_a_no_op() {
    let mut index = Index::default();
    index.add_entries(vec![sample_entry("a.txt", 1)]);
    index.remove_entry("other.txt");
    assert_eq!(index.entries.len(), 1);
}

#[test]
fn staged_entry_carries_blob_hash_and_mode() {
    let (entry, obj) = IndexEntry::stage(
        String::from("f.txt"),
        false,
        false,
        0o755,
        6,
        42,
        &b"hello\n".to_vec(),
    )
    .unwrap();
    assert_eq!(entry.mode, 0o100755);
    assert_eq!(entry.file_size, 6);
    assert_eq!(entry.mtime, 42);
    assert_eq!(obj.hash, entry.sha1);
    assert_eq!(obj.hash_hex, b"ce013625030ba8dba906f756967f9e9ca394464a".to_vec());
}

#[test]
fn staging_a_directory_is_an_io_error() {
    let r = IndexEntry::stage(String::from("d"), true, false, 0o755, 0, 0, &Vec::new());
    assert!(matches!(r, Err(UgitError::Io)));
}

#[test]
fn mode_derivation() {
    assert_eq!(entry_mode(true, false, 0o755), 0o040000);
    assert_eq!(entry_mode(false, true, 0o777), 0o120000);
    assert_eq!(entry_mode(false, false, 0o744), 0o100755);
    assert_eq!(entry_mode(false, false, 0o644), 0o100644);
}

#[test]
fn bad_signature_is_a_format_error() {
    let mut bytes = Index::default().to_bytes();
    bytes[0] = b'X';
    assert!(matches!(Index::parse(&bytes), Err(UgitError::Format)));
}

#[test]
fn wrong_version_is_a_format_error() {
    let mut bytes = Index::default().to_bytes();
    bytes[4] = 9;
    assert!(matches!(Index::parse(&bytes), Err(UgitError::Format)));
}

#[test]
fn truncated_index_is_a_format_error() {
    let mut index = Index::default();
    index.add_entries(vec![sample_entry("a.txt", 1)]);
    let mut bytes = index.to_bytes();
    bytes.truncate(bytes.len() - 3);
    assert!(matches!(Index::parse(&bytes), Err(UgitError::Format)));
}

#[test]
fn invalid_utf8_path_is_a_format_error() {
    let mut index = Index::default();
    index.add_entries(vec![sample_entry("ab", 1)]);
    let mut bytes = index.to_bytes();
    // The path bytes sit just before the final NUL.
    let n = bytes.len();
    bytes[n - 2] = 0xff;
    assert!(matches!(Index::parse(&bytes), Err(UgitError::Format)));
}
