//! The tree builder: determinism, ordering, nesting, parsing back.

use ugit::{build_tree, parse_tree, read_object, DirChild, EntryMode, ObjectKind, UgitError};

fn file(name: &str, content: &[u8]) -> DirChild {
    DirChild::File {
        name: String::from(name),
        mode: EntryMode::Regular,
        content: content.to_vec(),
    }
}

#[test]
fn two_files_sorted_regardless_of_input_order() {
    // a.txt before b.txt in the tree, whichever order the walk yields.
    let forward = vec![file("a.txt", b"x"), file("b.txt", b"y")];
    let backward = vec![file("b.txt", b"y"), file("a.txt", b"x")];
    let built_fwd = build_tree(&forward).unwrap();
    let built_bwd = build_tree(&backward).unwrap();
    assert_eq!(built_fwd.hash_hex, built_bwd.hash_hex);
    assert_eq!(built_fwd.hash_hex, b"13b7316b3efa0150fb9f65cbd82e7f07f2316ccf".to_vec());
    assert_eq!(built_bwd.tree.entries[0].name, "a.txt");
    assert_eq!(built_bwd.tree.entries[1].name, "b.txt");
    assert_eq!(
        built_bwd.tree.entries[0].hash_hex,
        b"c1b0730e0133447badcfd47fd144e254807b06e1".to_vec()
    );
}

#[test]
fn root_tree_object_decodes_to_sorted_lines() {
    let children = vec![file("b.txt", b"y"), file("a.txt", b"x")];
    let built = build_tree(&children).unwrap();
    let root = built.objects.last().unwrap();
    let (kind, content) = read_object(&root.data).unwrap();
    assert_eq!(kind, ObjectKind::Tree);
    let expected = b"100644 blob c1b0730e0133447badcfd47fd144e254807b06e1 a.txt\n\
100644 blob e25f1814e51579d5f55c0f1fe0135ddb28a47f4a b.txt"
        .to_vec();
    assert_eq!(content, expected);
}

#[test]
fn empty_directory_has_the_empty_tree_hash() {
    let built = build_tree(&Vec::new()).unwrap();
    assert_eq!(built.hash_hex, b"4b825dc642cb6eb9a060e54bf8d69288fbee4904".to_vec());
    assert_eq!(built.tree.entries.len(), 0);
    assert_eq!(built.objects.len(), 1);
}

#[test]
fn nested_directory_hash() {
    let sub = DirChild::Dir {
        name: String::from("sub"),
        children: vec![file("a.txt", b"x")],
    };
    let children = vec![sub, file("b.txt", b"y")];
    let built = build_tree(&children).unwrap();
    assert_eq!(built.hash_hex, b"40d6e468e15d418b18e4ee1f96e55b724797515a".to_vec());
    // blob a, sub tree, blob b, root tree
    assert_eq!(built.objects.len(), 4);
    // The subdirectory's entry points at the subtree's hash.
    assert_eq!(built.tree.entries[1].name, "sub");
    assert_eq!(built.tree.entries[1].mode, EntryMode::Directory);
    assert_eq!(
        built.tree.entries[1].hash_hex,
        b"b96bfe813549675befb517f71a78f32c954fe06d".to_vec()
    );
}

#[test]
fn content_change_changes_the_hash() {
    let one = build_tree(&vec![file("a.txt", b"x")]).unwrap();
    let two = build_tree(&vec![file("a.txt", b"z")]).unwrap();
    assert_ne!(one.hash_hex, two.hash_hex);
}

#[test]
fn duplicate_names_are_rejected() {
    let children = vec![file("a.txt", b"x"), file("a.txt", b"y")];
    assert!(matches!(build_tree(&children), Err(UgitError::Format)));
}

#[test]
fn name_with_slash_is_rejected() {
    let children = vec![file("a/b.txt", b"x")];
    assert!(matches!(build_tree(&children), Err(UgitError::Format)));
}

#[test]
fn empty_name_is_rejected() {
    let children = vec![file("", b"x")];
    assert!(matches!(build_tree(&children), Err(UgitError::Format)));
}

#[test]
fn executable_and_symlink_modes_appear_in_lines() {
    let children = vec![
        DirChild::File {
            name: String::from("run.sh"),
            mode: EntryMode::Executable,
            content: b"#!/bin/sh\n".to_vec(),
        },
        DirChild::File {
            name: String::from("link"),
            mode: EntryMode::Symlink,
            content: b"target".to_vec(),
        },
    ];
    let built = build_tree(&children).unwrap();
    let root = built.objects.last().unwrap();
    let (_, content) = read_object(&root.data).unwrap();
    let text = String::from_utf8(content).unwrap();
    let lines: Vec<&str> = text.split('\n').collect();
    assert!(lines[0].starts_with("120000 blob "));
    assert!(lines[0].ends_with(" link"));
    assert!(lines[1].starts_with("100755 blob "));
    assert!(lines[1].ends_with(" run.sh"));
}

#[test]
fn parse_tree_round_trip() {
    let children = vec![file("b.txt", b"y"), file("a.txt", b"x")];
    let built = build_tree(&children).unwrap();
    let root = built.objects.last().unwrap();
    let (_, content) = read_object(&root.data).unwrap();
    let parsed = parse_tree(&content).unwrap();
    assert_eq!(parsed.len(), 2);
    assert_eq!(parsed[0].name, built.tree.entries[0].name);
    assert_eq!(parsed[0].hash_hex, built.tree.entries[0].hash_hex);
    assert_eq!(parsed[1].name, built.tree.entries[1].name);
    assert_eq!(parsed[0].mode, EntryMode::Regular);
}

#[test]
fn parse_tree_rejects_malformed_lines() {
    assert!(matches!(parse_tree(&b"junk".to_vec()), Err(UgitError::Format)));
    assert!(matches!(
        parse_tree(&b"999999 blob c1b0730e0133447badcfd47fd144e254807b06e1 a.txt".to_vec()),
        Err(UgitError::Format)
    ));
    // Kind token disagreeing with the mode is malformed.
    assert!(matches!(
        parse_tree(&b"100644 tree c1b0730e0133447badcfd47fd144e254807b06e1 a.txt".to_vec()),
        Err(UgitError::Format)
    ));
}

#[test]
fn parse_tree_of_empty_content_is_empty() {
    assert_eq!(parse_tree(&Vec::new()).unwrap().len(), 0);
}

#[test]
fn reordering_inside_a_subdirectory_keeps_the_root_hash() {
    let root = |sub_children: Vec<DirChild>| {
        vec![
            DirChild::Dir { name: String::from("sub"), children: sub_children },
            file("top.txt", b"t"),
        ]
    };
    let one = build_tree(&root(vec![file("a.txt", b"x"), file("b.txt", b"y")])).unwrap();
    let two = build_tree(&root(vec![file("b.txt", b"y"), file("a.txt", b"x")])).unwrap();
    assert_eq!(one.hash_hex, two.hash_hex);
}
