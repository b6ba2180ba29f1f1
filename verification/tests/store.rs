//! The object store: encoding, addressing, decoding, prefix resolution.

use ugit::{
    decode_object_header, encode_object_header, hex_encode, read_object, read_object_checked,
    resolve_prefix, write_object, ObjectKind, UgitError,
};

#[test]
fn blob_hello_has_known_hash() {
    // The address of a blob is the SHA-1 of "blob 6\0hello\n".
    let obj = write_object(ObjectKind::Blob, &b"hello\n".to_vec());
    assert_eq!(obj.hash_hex, b"ce013625030ba8dba906f756967f9e9ca394464a".to_vec());
    assert_eq!(obj.hash.len(), 20);
    assert_eq!(hex_encode(&obj.hash), obj.hash_hex);
}

#[test]
fn blob_round_trip() {
    let content = b"hello\n".to_vec();
    let obj = write_object(ObjectKind::Blob, &content);
    let (kind, decoded) = read_object(&obj.data).unwrap();
    assert_eq!(kind, ObjectKind::Blob);
    assert_eq!(decoded, content);
}

#[test]
fn empty_blob_round_trip() {
    let obj = write_object(ObjectKind::Blob, &Vec::new());
    let (kind, decoded) = read_object(&obj.data).unwrap();
    assert_eq!(kind, ObjectKind::Blob);
    assert_eq!(decoded, Vec::<u8>::new());
}

#[test]
fn commit_round_trip() {
    let content = b"tree 13b7316b3efa0150fb9f65cbd82e7f07f2316ccf\n".to_vec();
    let obj = write_object(ObjectKind::Commit, &content);
    let (kind, decoded) = read_object(&obj.data).unwrap();
    assert_eq!(kind, ObjectKind::Commit);
    assert_eq!(decoded, content);
}

#[test]
fn write_twice_is_deterministic() {
    let content = b"same content".to_vec();
    let first = write_object(ObjectKind::Blob, &content);
    let second = write_object(ObjectKind::Blob, &content);
    assert_eq!(first.hash, second.hash);
    assert_eq!(first.hash_hex, second.hash_hex);
    assert_eq!(first.data, second.data);
}

#[test]
fn stored_bytes_are_compressed() {
    // The file bytes are a zlib stream, not the raw header and content.
    let content = b"hello\n".to_vec();
    let obj = write_object(ObjectKind::Blob, &content);
    assert_ne!(obj.data, b"blob 6\0hello\n".to_vec());
    assert_eq!(obj.data[0], 0x78);
}

#[test]
fn garbage_is_a_format_error() {
    assert_eq!(read_object(&b"not a zlib stream".to_vec()), Err(UgitError::Format));
}

#[test]
fn checked_read_detects_corruption() {
    let obj = write_object(ObjectKind::Blob, &b"hello\n".to_vec());
    let ok = read_object_checked(&obj.hash_hex, &obj.data);
    assert_eq!(ok, Ok((ObjectKind::Blob, b"hello\n".to_vec())));
    let wrong = b"0000000000000000000000000000000000000000".to_vec();
    assert_eq!(read_object_checked(&wrong, &obj.data), Err(UgitError::Corruption));
}

#[test]
fn hex_encode_concrete() {
    assert_eq!(hex_encode(&vec![0x00u8, 0xff, 0x1a]), b"00ff1a".to_vec());
}

#[test]
fn resolve_prefix_unique_match() {
    let short = b"ce0136".to_vec();
    let names = vec![
        b"013625030ba8dba906f756967f9e9ca394464a".to_vec(),
        b"99999999999999999999999999999999999999".to_vec(),
    ];
    let full = resolve_prefix(&short, &names).unwrap();
    assert_eq!(full, b"ce013625030ba8dba906f756967f9e9ca394464a".to_vec());
}

#[test]
fn resolve_prefix_no_match_is_not_found() {
    let short = b"ab0000".to_vec();
    let names = vec![b"11111111111111111111111111111111111111".to_vec()];
    assert_eq!(resolve_prefix(&short, &names), Err(UgitError::NotFound));
}

#[test]
fn resolve_prefix_two_matches_is_ambiguous() {
    let short = b"ab12".to_vec();
    let names = vec![
        b"12aaaaaaaaaaaaaaaaaaaaaaaaaaaaaaaaaaaa".to_vec(),
        b"12bbbbbbbbbbbbbbbbbbbbbbbbbbbbbbbbbbbb".to_vec(),
    ];
    assert_eq!(resolve_prefix(&short, &names), Err(UgitError::AmbiguousHash));
}

#[test]
fn header_encoding_is_exact() {
    assert_eq!(encode_object_header(ObjectKind::Blob, 6), b"blob 6\0".to_vec());
    assert_eq!(encode_object_header(ObjectKind::Tree, 0), b"tree 0\0".to_vec());
    assert_eq!(encode_object_header(ObjectKind::Commit, 12345), b"commit 12345\0".to_vec());
}

#[test]
fn header_decoding_round_trip() {
    let mut raw = encode_object_header(ObjectKind::Blob, 6);
    raw.extend_from_slice(b"hello\n");
    let (kind, len, off) = decode_object_header(&raw).unwrap();
    assert_eq!(kind, ObjectKind::Blob);
    assert_eq!(len, 6);
    assert_eq!(off, 7);
}

#[test]
fn header_decoding_rejects_bad_input() {
    assert_eq!(decode_object_header(&b"blob 6hello".to_vec()), Err(UgitError::Format));
    assert_eq!(decode_object_header(&b"blub 6\0hello\n".to_vec()), Err(UgitError::Format));
    assert_eq!(decode_object_header(&b"blob x\0hello\n".to_vec()), Err(UgitError::Format));
    assert_eq!(decode_object_header(&b"blob \0hello\n".to_vec()), Err(UgitError::Format));
}
