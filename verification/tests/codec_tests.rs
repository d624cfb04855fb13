use continue_sync::builder::{compute_tree_for_dir, walk_entries_wellformed, WalkEntry, EntryKind};
use continue_sync::merkle::{Tree, Object};
use continue_sync::hashing::hash_string;

fn dir_entry(path: &str, depth: usize) -> WalkEntry {
    WalkEntry { path: path.to_string(), depth, kind: EntryKind::Dir }
}

fn file_entry(path: &str, depth: usize, content: &str) -> WalkEntry {
    WalkEntry { path: path.to_string(), depth, kind: EntryKind::File { content: content.to_string() } }
}

fn build(entries: &Vec<WalkEntry>) -> Tree {
    assert!(walk_entries_wellformed(entries));
    compute_tree_for_dir(entries)
}

fn objects_equal(a: &Object, b: &Object) -> bool {
    match (a, b) {
        (Object::Tree(x), Object::Tree(y)) => trees_equal(x, y),
        (Object::Blob(x), Object::Blob(y)) => {
            x.hash == y.hash && x.path == y.path && opt_equal(&x.parent, &y.parent)
        }
        _ => false,
    }
}

fn opt_equal(
    a: &Option<continue_sync::hashing::ObjectHash>,
    b: &Option<continue_sync::hashing::ObjectHash>,
) -> bool {
    match (a, b) {
        (Some(x), Some(y)) => x == y,
        (None, None) => true,
        _ => false,
    }
}

fn trees_equal(a: &Tree, b: &Tree) -> bool {
    if !(a.hash == b.hash && a.path == b.path && opt_equal(&a.parent, &b.parent)) {
        return false;
    }
    if a.children.len() != b.children.len() {
        return false;
    }
    for i in 0..a.children.len() {
        if !objects_equal(&a.children[i], &b.children[i]) {
            return false;
        }
    }
    true
}

#[test]
fn test_round_trip() {
    let tree = build(&vec![
        dir_entry("ws", 0),
        dir_entry("ws/dir1", 1),
        file_entry("ws/dir1/file1.txt", 2, "Hello, world!\n"),
        file_entry("ws/dir1/file2.txt", 2, "other\n"),
        file_entry("ws/__init__.py", 1, "a = 5\n"),
    ]);
    let dump = tree.json_for_obj();
    let back = match Tree::obj_from_jsonl(dump.as_str()) {
        Ok(t) => t,
        Err(_) => panic!("round trip failed to load"),
    };
    assert!(trees_equal(&tree, &back));
    assert_eq!(hash_string(&back.hash), hash_string(&tree.hash));
}

#[test]
fn test_round_trip_with_awkward_paths() {
    // Paths that need JSON escaping: quotes, backslashes, a newline, a tab.
    let tree = build(&vec![
        dir_entry("w\"s\\x", 0),
        file_entry("w\"s\\x/a\nb.txt", 1, "line one\nline \"two\"\\\n"),
        file_entry("w\"s\\x/t\tab.py", 1, "x = 1\n"),
    ]);
    let dump = tree.json_for_obj();
    let back = match Tree::obj_from_jsonl(dump.as_str()) {
        Ok(t) => t,
        Err(_) => panic!("round trip failed to load"),
    };
    assert!(trees_equal(&tree, &back));
}

#[test]
fn test_record_shape() {
    let tree = build(&vec![dir_entry("ws", 0), file_entry("ws/a.txt", 1, "hi\n")]);
    let dump = tree.json_for_obj();
    // One line per node, root first.
    let lines: Vec<&str> = dump.lines().collect();
    assert_eq!(lines.len(), 2);
    assert!(lines[0].starts_with("{\"parent\":null,\"children\":[["));
    assert!(lines[0].ends_with("\"path\":\"ws\"}"));
    assert!(lines[1].starts_with("{\"parent\":["));
    assert!(lines[1].contains("\"children\":null"));
    assert!(lines[1].ends_with("\"path\":\"ws/a.txt\"}"));
}

#[test]
fn test_malformed_streams_fail() {
    assert!(Tree::obj_from_jsonl("").is_err());
    assert!(Tree::obj_from_jsonl("not json").is_err());
    // A blob record cannot stand as the root.
    let tree = build(&vec![dir_entry("ws", 0), file_entry("ws/a.txt", 1, "hi\n")]);
    let dump = tree.json_for_obj();
    let lines: Vec<&str> = dump.lines().collect();
    let mut blob_only = lines[1].to_string();
    blob_only.push('\n');
    assert!(Tree::obj_from_jsonl(blob_only.as_str()).is_err());
    // A truncated stream fails: the root announces a child that never comes.
    let mut root_only = lines[0].to_string();
    root_only.push('\n');
    assert!(Tree::obj_from_jsonl(root_only.as_str()).is_err());
}

#[test]
fn test_load_ignores_trailing_input() {
    let tree = build(&vec![dir_entry("ws", 0), file_entry("ws/a.txt", 1, "hi\n")]);
    let mut dump = tree.json_for_obj();
    dump.push_str("trailing garbage\n");
    let back = match Tree::obj_from_jsonl(dump.as_str()) {
        Ok(t) => t,
        Err(_) => panic!("trailing input must be ignored"),
    };
    assert!(trees_equal(&tree, &back));
}

#[test]
fn test_hex_rendering() {
    let h = continue_sync::hashing::ObjectHash::from_bytes(vec![
        0x00, 0x01, 0x0a, 0x10, 0xff, 0xcb, 0x6b, 0xf3, 0x83, 0x4f, 0xdc, 0x9c, 0x35, 0x6a, 0x23,
        0xfc, 0xa2, 0xcb, 0x6f, 0x6d,
    ]);
    assert_eq!(
        hash_string(&h),
        "00010a10ffcb6bf3834fdc9c356a23fca2cb6f6d"
    );
}
