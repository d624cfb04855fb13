use continue_sync::builder::{compute_tree_for_dir, walk_entries_wellformed, WalkEntry, EntryKind,
    extract_ext, create_blob};
use continue_sync::merkle::{Tree, Object};
use continue_sync::hashing::hash_string;
use continue_sync::tree_diff::diff;

fn dir_entry(path: &str, depth: usize) -> WalkEntry {
    WalkEntry { path: path.to_string(), depth, kind: EntryKind::Dir }
}

fn file_entry(path: &str, depth: usize, content: &str) -> WalkEntry {
    WalkEntry { path: path.to_string(), depth, kind: EntryKind::File { content: content.to_string() } }
}

fn scenario_entries() -> Vec<WalkEntry> {
    vec![
        dir_entry("ws", 0),
        dir_entry("ws/dir2", 1),
        file_entry("ws/dir2/file3.txt", 2, "Hello, world!\n"),
        dir_entry("ws/dir2/subdir", 2),
        file_entry("ws/dir2/subdir/continue.py", 3, "[continue for i in range(10)]\n"),
        file_entry("ws/__init__.py", 1, "a = 5\n"),
        dir_entry("ws/dir1", 1),
        file_entry("ws/dir1/file1.txt", 2, "Hello, world!\n"),
        file_entry("ws/dir1/file2.txt", 2, "Hello, world!\n"),
    ]
}

fn build(entries: &Vec<WalkEntry>) -> Tree {
    assert!(walk_entries_wellformed(entries));
    compute_tree_for_dir(entries)
}

fn check_parents(tree: &Tree) {
    for child in &tree.children {
        match child {
            Object::Tree(t) => {
                match &t.parent {
                    Some(p) => assert!(*p == tree.hash),
                    None => panic!("child tree without parent"),
                }
                check_parents(t);
            }
            Object::Blob(b) => match &b.parent {
                Some(p) => assert!(*p == tree.hash),
                None => panic!("child blob without parent"),
            },
        }
    }
}

fn run_compute_tree_scenario() {
    let tree = build(&scenario_entries());

    // Check that every node but the root has a parent, matching that parent's hash
    check_parents(&tree);

    // Make sure hash was calculated in same way as always
    assert_eq!(
        hash_string(&tree.hash),
        "cb6bf3834fdc9c356a23fca2cb6f6d7a571474c4"
    );

    let mut entries2 = scenario_entries();
    entries2[4] = file_entry("ws/dir2/subdir/continue.py", 3, "[continue for i in range(11)]\n");
    let tree2 = build(&entries2);

    // Check that certain nodes have different hashes
    assert!(tree.hash != tree2.hash);
    assert!(tree.children[0].hash() != tree2.children[0].hash());
    assert!(tree.children[1].hash() == tree2.children[1].hash());
    assert!(tree.children[2].hash() == tree2.children[2].hash());

    // Make a small change and recompute the tree
    let mut entries_prime = scenario_entries();
    entries_prime[4] = file_entry("ws/dir2/subdir/continue.py", 3, "[continue for i in range(11)]");
    let tree_prime = build(&entries_prime);

    // All nodes up the tree from dir2/subdir/continue.py should be marked as changed
    let (add, remove) = diff(&tree, &tree_prime);
    assert_eq!(add.len(), 4);
    assert_eq!(remove.len(), 4);

    // Try adding a file at the root level
    let mut entries_pp = clone_entries(&entries_prime);
    entries_pp.push(file_entry("ws/new_file.txt", 1, "42"));
    let tree_prime_prime = build(&entries_pp);

    // Compare original and ''
    let (add, remove) = diff(&tree, &tree_prime_prime);
    assert_eq!(add.len(), 5);
    assert_eq!(remove.len(), 4);

    // Compare ' and ''
    let (add, remove) = diff(&tree_prime, &tree_prime_prime);
    assert_eq!(add.len(), 2);
    assert_eq!(remove.len(), 1);
}

fn clone_entries(entries: &Vec<WalkEntry>) -> Vec<WalkEntry> {
    entries
        .iter()
        .map(|e| WalkEntry {
            path: e.path.clone(),
            depth: e.depth,
            kind: match &e.kind {
                EntryKind::Dir => EntryKind::Dir,
                EntryKind::File { content } => EntryKind::File { content: content.clone() },
                EntryKind::Binary => EntryKind::Binary,
            },
        })
        .collect()
}

#[test]
fn test_compute_tree_for_temp_dir() {
    run_compute_tree_scenario();
}

#[test]
fn merkle_test_compute_tree_for_temp_dir() {
    run_compute_tree_scenario();
}

#[test]
fn test_binary_entries_are_skipped() {
    let mut entries = scenario_entries();
    entries.push(WalkEntry { path: "ws/logo.png".to_string(), depth: 1, kind: EntryKind::Binary });
    let tree = build(&entries);
    // The binary file is omitted entirely, so the tree is unchanged.
    assert_eq!(
        hash_string(&tree.hash),
        "cb6bf3834fdc9c356a23fca2cb6f6d7a571474c4"
    );
}

#[test]
fn test_blob_to_tree_change() {
    // A path that turns from a file into a directory is fully replaced.
    let entries_a = vec![
        dir_entry("ws", 0),
        file_entry("ws/thing", 1, "plain file\n"),
    ];
    let entries_b = vec![
        dir_entry("ws", 0),
        dir_entry("ws/thing", 1),
        file_entry("ws/thing/inner.txt", 2, "inner\n"),
    ];
    let a = build(&entries_a);
    let b = build(&entries_b);
    let (add, remove) = diff(&a, &b);
    // add: new root, the new tree at "thing", and its one blob
    assert_eq!(add.len(), 3);
    // remove: old root and the old blob at "thing"
    assert_eq!(remove.len(), 2);
}

#[test]
fn test_diff_equal_trees_is_empty() {
    let a = build(&scenario_entries());
    let b = build(&scenario_entries());
    let (add, remove) = diff(&a, &b);
    assert_eq!(add.len(), 0);
    assert_eq!(remove.len(), 0);
}

#[test]
fn test_malformed_walks_are_rejected() {
    // Empty walk
    assert!(!walk_entries_wellformed(&vec![]));
    // First entry is a file
    assert!(!walk_entries_wellformed(&vec![file_entry("ws", 0, "x")]));
    // Depth jumps two levels down
    assert!(!walk_entries_wellformed(&vec![
        dir_entry("ws", 0),
        file_entry("ws/a/b.txt", 2, "x"),
    ]));
    // A valid walk passes
    assert!(walk_entries_wellformed(&scenario_entries()));
}

#[test]
fn test_extract_ext() {
    assert_eq!(extract_ext("ws/dir1/file1.txt"), "txt");
    assert_eq!(extract_ext("ws/.gitignore"), "");
    assert_eq!(extract_ext("archive.tar.gz"), "gz");
    assert_eq!(extract_ext("dir.d/file"), "");
    assert_eq!(extract_ext("noext"), "");
}

#[test]
fn test_create_blob_uses_extension_and_content() {
    let b1 = create_blob("ws/a.py", "a = 5\n");
    let b2 = create_blob("other/b.py", "a = 5\n");
    let b3 = create_blob("ws/a.txt", "a = 5\n");
    let b4 = create_blob("ws/a.py", "a = 6\n");
    // Same extension and content: same hash, whatever the path.
    assert!(b1.hash == b2.hash);
    // Different extension or content: different hash.
    assert!(b1.hash != b3.hash);
    assert!(b1.hash != b4.hash);
}

#[test]
fn test_empty_tree_hash() {
    let t = continue_sync::merkle::Tree::empty();
    // SHA-1 of the four ASCII bytes of "tree".
    assert_eq!(hash_string(&t.hash), "80655da8d80aaaf92ce5357e7828dc09adb00993");
}
