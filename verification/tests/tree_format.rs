use minigit::{parse_tree, serialize_tree, sort_entries, Mode, TreeEntry};

fn entry(mode: Mode, name: &str, fill: u8) -> TreeEntry {
    TreeEntry { mode, name: name.as_bytes().to_vec(), digest: [fill; 20] }
}

fn names(entries: &[TreeEntry]) -> Vec<String> {
    entries.iter().map(|e| String::from_utf8(e.name.clone()).unwrap()).collect()
}

#[test]
fn file_before_longer_name() {
    // A file `foo` sorts before a directory `foo.bar`: foo's absent next
    // byte loses to `.`.
    let v = vec![entry(Mode::Directory, "foo.bar", 2), entry(Mode::File, "foo", 1)];
    let sorted = sort_entries(v);
    assert_eq!(names(&sorted), vec!["foo".to_string(), "foo.bar".to_string()]);
}

#[test]
fn directory_sorts_with_implied_separator() {
    // A directory `foo` orders as if spelled `foo/`; `.` (0x2E) comes
    // before `/` (0x2F), so the file `foo.txt` sorts first.
    let v = vec![entry(Mode::Directory, "foo", 2), entry(Mode::File, "foo.txt", 1)];
    let sorted = sort_entries(v);
    assert_eq!(names(&sorted), vec!["foo.txt".to_string(), "foo".to_string()]);
}

#[test]
fn plain_byte_order_otherwise() {
    let v = vec![
        entry(Mode::File, "b", 1),
        entry(Mode::Directory, "a", 2),
        entry(Mode::File, "B", 3),
    ];
    let sorted = sort_entries(v);
    assert_eq!(names(&sorted), vec!["B".to_string(), "a".to_string(), "b".to_string()]);
}

#[test]
fn sorting_is_order_independent() {
    let mk = |order: [usize; 3]| {
        let all = ["alpha", "beta.txt", "beta"];
        let modes = [Mode::File, Mode::File, Mode::Directory];
        let v: Vec<TreeEntry> =
            order.iter().map(|&i| entry(modes[i], all[i], i as u8)).collect();
        serialize_tree(&sort_entries(v))
    };
    let a = mk([0, 1, 2]);
    let b = mk([2, 0, 1]);
    let c = mk([1, 2, 0]);
    assert_eq!(a, b);
    assert_eq!(a, c);
}

#[test]
fn serialized_entry_layout() {
    let e = entry(Mode::File, "a", 7);
    let payload = serialize_tree(&vec![e]);
    let mut expected = b"100644 a\0".to_vec();
    expected.extend([7u8; 20]);
    assert_eq!(payload, expected);
}

#[test]
fn parse_inverts_serialization() {
    let v = vec![
        entry(Mode::File, "hello world.txt", 1),
        entry(Mode::Directory, "sub", 2),
        entry(Mode::SymbolicLink, "link", 3),
        entry(Mode::Executable, "run", 4),
    ];
    let sorted = sort_entries(v);
    let payload = serialize_tree(&sorted);
    let parsed = parse_tree(&payload).unwrap();
    assert_eq!(parsed.len(), sorted.len());
    for (p, s) in parsed.iter().zip(sorted.iter()) {
        assert_eq!(p.mode, s.mode);
        assert_eq!(p.name, s.name);
        assert_eq!(p.digest, s.digest);
    }
}

#[test]
fn parse_rejects_malformed_payloads() {
    assert!(parse_tree(&b"100645 a\0aaaaaaaaaaaaaaaaaaaa".to_vec()).is_err());
    assert!(parse_tree(&b"100644 a".to_vec()).is_err());
    assert!(parse_tree(&b"100644 \0aaaaaaaaaaaaaaaaaaaa".to_vec()).is_err());
    assert!(parse_tree(&b"100644 a\0aaaa".to_vec()).is_err());
    let good = serialize_tree(&vec![entry(Mode::File, "a", 7)]);
    let mut bad = good.clone();
    bad.pop();
    assert!(parse_tree(&bad).is_err());
    assert!(parse_tree(&good).is_ok());
    assert!(parse_tree(&Vec::new()).is_ok());
}
