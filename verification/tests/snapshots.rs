use minigit::{
    build_commit_payload, commit_tree, digest_to_hex, parse_tree, store_node, write_tree_root,
    DirEntry, Kind, Mode, Node, Store, StoreError,
};

fn bytes(s: &str) -> Vec<u8> {
    s.as_bytes().to_vec()
}

fn file(name: &str, content: &str) -> DirEntry {
    DirEntry {
        name: bytes(name),
        node: Node::File { executable: false, content: bytes(content) },
    }
}

fn dir(name: &str, children: Vec<DirEntry>) -> DirEntry {
    DirEntry { name: bytes(name), node: Node::Dir { children } }
}

#[test]
fn single_file_tree_digest() {
    let mut store = Store::new();
    let root = Node::Dir { children: vec![file("a", "hi\n")] };
    let d = store_node(&mut store, &root).unwrap();
    assert_eq!(digest_to_hex(&d), bytes("c49897f29f9819a0ab6850d7e22443508a1a29d5"));
}

#[test]
fn rebuilding_reproduces_digests() {
    let snapshot = || Node::Dir {
        children: vec![
            file("beta", "2\n"),
            dir("sub", vec![file("inner", "3\n")]),
            file("alpha", "1\n"),
        ],
    };
    let mut s1 = Store::new();
    let mut s2 = Store::new();
    let d1 = store_node(&mut s1, &snapshot()).unwrap();
    let d2 = store_node(&mut s2, &snapshot()).unwrap();
    assert_eq!(d1, d2);
    let d3 = store_node(&mut s1, &snapshot()).unwrap();
    assert_eq!(d1, d3);
}

#[test]
fn empty_directory_yields_nothing() {
    let mut store = Store::new();
    let root = Node::Dir { children: vec![] };
    assert_eq!(store_node(&mut store, &root), None);
    let root = Node::Dir { children: vec![dir("sub", vec![])] };
    assert_eq!(store_node(&mut store, &root), None);
}

#[test]
fn empty_snapshot_is_an_error_at_the_root() {
    let mut store = Store::new();
    let root = Node::Dir { children: vec![dir(".git", vec![file("config", "x")])] };
    assert_eq!(write_tree_root(&mut store, &root), Err(StoreError::EmptySnapshot));
    let root = Node::Dir { children: vec![file("a", "hi\n")] };
    assert!(write_tree_root(&mut store, &root).is_ok());
}

#[test]
fn empty_subdirectory_is_elided() {
    let mut store = Store::new();
    let root = Node::Dir { children: vec![file("a", "hi\n"), dir("sub", vec![])] };
    let d = store_node(&mut store, &root).unwrap();
    // The empty subdirectory does not appear at all: the tree is
    // byte-identical to one never holding it.
    assert_eq!(digest_to_hex(&d), bytes("c49897f29f9819a0ab6850d7e22443508a1a29d5"));
    let o = store.get(&d).unwrap();
    let entries = parse_tree(&o.payload).unwrap();
    assert_eq!(entries.len(), 1);
    assert_eq!(entries[0].name, bytes("a"));
}

#[test]
fn metadata_directory_is_excluded() {
    let mut store = Store::new();
    let root = Node::Dir {
        children: vec![dir(".git", vec![file("config", "stuff")]), file("a", "hi\n")],
    };
    let d = store_node(&mut store, &root).unwrap();
    assert_eq!(digest_to_hex(&d), bytes("c49897f29f9819a0ab6850d7e22443508a1a29d5"));
}

#[test]
fn modes_recorded_in_tree() {
    let mut store = Store::new();
    let root = Node::Dir {
        children: vec![
            DirEntry {
                name: bytes("tool"),
                node: Node::File { executable: true, content: bytes("#!x\n") },
            },
            DirEntry { name: bytes("ln"), node: Node::Symlink { target: bytes("tool") } },
            dir("d", vec![file("f", "y")]),
        ],
    };
    let d = store_node(&mut store, &root).unwrap();
    let o = store.get(&d).unwrap();
    assert_eq!(o.kind, Kind::Tree);
    let entries = parse_tree(&o.payload).unwrap();
    assert_eq!(entries.len(), 3);
    assert_eq!(entries[0].name, bytes("d"));
    assert_eq!(entries[0].mode, Mode::Directory);
    assert_eq!(entries[1].name, bytes("ln"));
    assert_eq!(entries[1].mode, Mode::SymbolicLink);
    assert_eq!(entries[2].name, bytes("tool"));
    assert_eq!(entries[2].mode, Mode::Executable);
    // The symbolic link's target is stored as blob content.
    assert_eq!(store.read_blob(&entries[1].digest), Ok(bytes("tool")));
}

#[test]
fn commit_payload_layout() {
    let p = build_commit_payload(
        &bytes("1111111111111111111111111111111111111111"),
        Some(&bytes("2222222222222222222222222222222222222222")),
        &bytes("A U Thor <a@example.com> 1700000000 +0000"),
        &bytes("A U Thor <a@example.com> 1700000000 +0000"),
        &bytes("subject"),
    );
    let expected = "tree 1111111111111111111111111111111111111111\n\
                    parent 2222222222222222222222222222222222222222\n\
                    author A U Thor <a@example.com> 1700000000 +0000\n\
                    committer A U Thor <a@example.com> 1700000000 +0000\n\
                    \n\
                    subject\n";
    assert_eq!(p, bytes(expected));
    let no_parent = build_commit_payload(
        &bytes("1111111111111111111111111111111111111111"),
        None,
        &bytes("a"),
        &bytes("c"),
        &bytes("m"),
    );
    let expected =
        "tree 1111111111111111111111111111111111111111\nauthor a\ncommitter c\n\nm\n";
    assert_eq!(no_parent, bytes(expected));
}

#[test]
fn commit_chain_records_parent() {
    let mut store = Store::new();
    let ident = bytes("A U Thor <a@example.com> 1700000000 +0000");

    let t1 = store_node(&mut store, &Node::Dir { children: vec![file("f1", "one\n")] })
        .unwrap();
    let c1 = commit_tree(
        &mut store,
        &digest_to_hex(&t1),
        None,
        &ident,
        &ident,
        &bytes("first"),
    );

    let t2 = store_node(
        &mut store,
        &Node::Dir { children: vec![file("f1", "one\n"), file("f2", "two\n")] },
    )
    .unwrap();
    let c2 = commit_tree(
        &mut store,
        &digest_to_hex(&t2),
        Some(&digest_to_hex(&c1)),
        &ident,
        &ident,
        &bytes("second"),
    );

    // The first commit is still stored, unchanged, and the second names it
    // as parent, hex for hex.
    let o1 = store.get(&c1).unwrap();
    assert_eq!(o1.kind, Kind::Commit);
    let o2 = store.get(&c2).unwrap();
    let text = String::from_utf8(o2.payload.clone()).unwrap();
    let parent_line = format!("parent {}\n", String::from_utf8(digest_to_hex(&c1)).unwrap());
    assert!(text.contains(&parent_line));
    let tree_line = format!("tree {}\n", String::from_utf8(digest_to_hex(&t2)).unwrap());
    assert!(text.starts_with(&tree_line));
    assert!(text.ends_with("\n\nsecond\n"));
}
