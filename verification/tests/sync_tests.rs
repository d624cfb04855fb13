use continue_sync::builder::{compute_tree_for_dir, walk_entries_wellformed, WalkEntry, EntryKind};
use continue_sync::merkle::Tree;
use continue_sync::tree_diff::diff;
use continue_sync::disk_set::DiskSet;
use continue_sync::rev_tags::RevTags;
use continue_sync::sync::{Tag, classify, sync_db, get_modified_files, remove_seps_from_path,
    DbAction};
use continue_sync::shard::{shard_to_json, shard_from_json};

fn dir_entry(path: &str, depth: usize) -> WalkEntry {
    WalkEntry { path: path.to_string(), depth, kind: EntryKind::Dir }
}

fn file_entry(path: &str, depth: usize, content: &str) -> WalkEntry {
    WalkEntry { path: path.to_string(), depth, kind: EntryKind::File { content: content.to_string() } }
}

fn workspace_entries(with_file2: bool) -> Vec<WalkEntry> {
    let mut es = vec![
        dir_entry("d", 0),
        dir_entry("d/dir1", 1),
        file_entry("d/dir1/file1.txt", 2, "File 1\n"),
    ];
    if with_file2 {
        es.push(file_entry("d/dir1/file2.txt", 2, "File 2\n"));
    }
    es.push(dir_entry("d/dir2", 1));
    es.push(file_entry("d/dir2/file3.txt", 2, "File 3\n"));
    es.push(dir_entry("d/dir2/subdir", 2));
    es.push(file_entry("d/dir2/subdir/continue.py", 3, "[continue for i in range(10)]\n"));
    es.push(file_entry("d/__init__.py", 1, "a = 5\n"));
    es
}

fn build(entries: &Vec<WalkEntry>) -> Tree {
    assert!(walk_entries_wellformed(entries));
    compute_tree_for_dir(entries)
}

#[test]
fn test_two_tags_cross_labeling() {
    let tree_a = build(&workspace_entries(true));
    let empty = Tree::empty();

    let tag1 = Tag {
        dir: "d".to_string(),
        branch: "branch1".to_string(),
        provider_id: "p".to_string(),
    };
    let tag2 = Tag {
        dir: "d".to_string(),
        branch: "branch2".to_string(),
        provider_id: "p".to_string(),
    };
    let tag1s = tag1.to_string();
    let tag2s = tag2.to_string();

    let mut global = DiskSet::new();
    let mut cache1 = DiskSet::new();
    let mut cache2 = DiskSet::new();
    let mut rev = RevTags::new();

    // First sync of branch1: all five files must be computed.
    let (add, remove) = diff(&empty, &tree_a);
    let r1 = classify(&tag1s, &add, &remove, &mut global, &mut cache1, &mut rev);
    assert_eq!(r1.0.len(), 5);
    assert_eq!(r1.1.len(), 0);
    assert_eq!(r1.2.len(), 0);
    assert_eq!(r1.3.len(), 0);

    // branch2 over the same directory: everything is already indexed.
    let tree_a2 = build(&workspace_entries(true));
    let (add, remove) = diff(&empty, &tree_a2);
    let r2 = classify(&tag2s, &add, &remove, &mut global, &mut cache2, &mut rev);
    assert_eq!(r2.0.len(), 0);
    assert_eq!(r2.1.len(), 0);
    assert_eq!(r2.2.len(), 5);
    assert_eq!(r2.3.len(), 0);

    // branch2 drops dir1/file2.txt: branch1 still holds the hash, so it is
    // only unlabelled.
    let tree_b = build(&workspace_entries(false));
    let (add, remove) = diff(&tree_a2, &tree_b);
    let r3 = classify(&tag2s, &add, &remove, &mut global, &mut cache2, &mut rev);
    assert_eq!(r3.0.len(), 0);
    assert_eq!(r3.1.len(), 0);
    assert_eq!(r3.2.len(), 0);
    assert_eq!(r3.3.len(), 1);

    // branch1 drops it too: no holder remains, so it is deleted.
    let tree_b1 = build(&workspace_entries(false));
    let (add, remove) = diff(&tree_a, &tree_b1);
    let r4 = classify(&tag1s, &add, &remove, &mut global, &mut cache1, &mut rev);
    assert_eq!(r4.0.len(), 0);
    assert_eq!(r4.1.len(), 1);
    assert_eq!(r4.2.len(), 0);
    assert_eq!(r4.3.len(), 0);

    // A second sync with no change yields nothing at all.
    let tree_b2 = build(&workspace_entries(false));
    let (add, remove) = diff(&tree_b1, &tree_b2);
    let r5 = classify(&tag1s, &add, &remove, &mut global, &mut cache1, &mut rev);
    assert_eq!(r5.0.len(), 0);
    assert_eq!(r5.1.len(), 0);
    assert_eq!(r5.2.len(), 0);
    assert_eq!(r5.3.len(), 0);
}

#[test]
fn test_rev_tags_conservation_on_example() {
    // add(x); get(x) lists the tag; dropping the last holder drops the entry.
    let mut rev = RevTags::new();
    let h = continue_sync::hashing::ObjectHash::from_bytes(vec![9; 20]);
    rev.add(&h, &"t1".to_string());
    rev.add(&h, &"t2".to_string());
    rev.add(&h, &"t1".to_string());
    let tags = rev.get(&h);
    assert_eq!(tags.len(), 2);
    assert_eq!(tags[0], "t1");
    assert_eq!(tags[1], "t2");
    rev.remove_local(&h, &"t1".to_string());
    let tags = rev.get(&h);
    assert_eq!(tags.len(), 1);
    assert_eq!(tags[0], "t2");
    rev.remove_local(&h, &"t2".to_string());
    assert_eq!(rev.get(&h).len(), 0);
    rev.add(&h, &"t3".to_string());
    rev.remove_global(&h);
    assert_eq!(rev.get(&h).len(), 0);
}

#[test]
fn test_rev_tags_to_pairs() {
    let mut rev = RevTags::new();
    let h = continue_sync::hashing::ObjectHash::from_bytes(vec![0xab; 20]);
    rev.add(&h, &"tag-one".to_string());
    let pairs = rev.to_pairs();
    assert_eq!(pairs.len(), 1);
    assert_eq!(pairs[0].0, "abababababababababababababababababababab");
    assert_eq!(pairs[0].1.len(), 1);
    assert_eq!(pairs[0].1[0], "tag-one");
}

#[test]
fn test_tag_to_string() {
    let tag = Tag {
        dir: "/home/user/repo".to_string(),
        branch: "main".to_string(),
        provider_id: "default".to_string(),
    };
    assert_eq!(tag.to_string(), "/home/user/repo::main::default");
}

#[test]
fn test_remove_seps_from_path() {
    assert_eq!(remove_seps_from_path("/home/user/repo"), "homeuserrepo");
    assert_eq!(remove_seps_from_path("rel/path"), "relpath");
    assert_eq!(remove_seps_from_path("c:\\work\\repo"), "c:workrepo");
}

#[test]
fn test_get_modified_files() {
    let entries = vec![
        ("a.txt".to_string(), 100u64),
        ("b.txt".to_string(), 300u64),
        ("c.txt".to_string(), 200u64),
    ];
    let modified = get_modified_files(&entries, 150);
    assert_eq!(modified.len(), 2);
    assert_eq!(modified[0], "b.txt");
    assert_eq!(modified[1], "c.txt");
}

#[test]
fn test_nothing_fails() {
    let tag = Tag {
        dir: "../extensions/vscode".to_string(),
        branch: "main".to_string(),
        provider_id: "test".to_string(),
    };
    let tag_s = tag.to_string();
    let empty: Vec<(String, String)> = vec![];
    let (compute, actions) = sync_db(&empty, &empty, &empty, &empty, &tag_s);
    assert_eq!(compute.len(), 0);
    assert_eq!(actions.len(), 0);
}

#[test]
fn test_sync_db_actions() {
    let compute = vec![("p1".to_string(), "h1".to_string())];
    let delete = vec![("p2".to_string(), "h2".to_string())];
    let add_label = vec![("p3".to_string(), "h3".to_string())];
    let remove_label = vec![("p4".to_string(), "h4".to_string())];
    let tag = "d::b::p".to_string();
    let (out, actions) = sync_db(&compute, &delete, &add_label, &remove_label, &tag);
    assert_eq!(out.len(), 1);
    assert_eq!(out[0].0, "p1");
    assert_eq!(out[0].1, "h1");
    assert_eq!(actions.len(), 3);
    match &actions[0] {
        DbAction::RemoveChunks { hash } => assert_eq!(hash, "h2"),
        _ => panic!("expected chunk removal first"),
    }
    match &actions[1] {
        DbAction::AddTag { hash, tag } => {
            assert_eq!(hash, "h3");
            assert_eq!(tag, "d::b::p");
        }
        _ => panic!("expected tag insertion second"),
    }
    match &actions[2] {
        DbAction::RemoveTag { hash, tag } => {
            assert_eq!(hash, "h4");
            assert_eq!(tag, "d::b::p");
        }
        _ => panic!("expected tag removal third"),
    }
}

#[test]
fn test_shard_round_trip() {
    let mut rev = RevTags::new();
    let h1 = continue_sync::hashing::ObjectHash::from_bytes(vec![0xab; 20]);
    let h2 = continue_sync::hashing::ObjectHash::from_bytes(vec![0xcd; 20]);
    rev.add(&h1, &"d::b1::p".to_string());
    rev.add(&h1, &"d::b2::p".to_string());
    rev.add(&h2, &"with \"quotes\" and \\slashes\\".to_string());
    let shard_ab = shard_to_json(&rev, 0xab);
    assert_eq!(
        shard_ab,
        "{\"abababababababababababababababababababab\":[\"d::b1::p\",\"d::b2::p\"]}"
    );
    // An empty shard is the empty object.
    assert_eq!(shard_to_json(&rev, 0x00), "{}");
    // Loading back yields the same hash and tags.
    let entries = match shard_from_json(&shard_ab) {
        Ok(es) => es,
        Err(_) => panic!("shard must load"),
    };
    assert_eq!(entries.len(), 1);
    assert!(entries[0].0 == h1);
    assert_eq!(entries[0].1.len(), 2);
    assert_eq!(entries[0].1[0], "d::b1::p");
    assert_eq!(entries[0].1[1], "d::b2::p");
    // The escaped shard loads back too.
    let shard_cd = shard_to_json(&rev, 0xcd);
    let entries = match shard_from_json(&shard_cd) {
        Ok(es) => es,
        Err(_) => panic!("shard must load"),
    };
    assert_eq!(entries[0].1[0], "with \"quotes\" and \\slashes\\");
    // Malformed shards are rejected.
    assert!(shard_from_json("").is_err());
    assert!(shard_from_json("{\"xy\":[\"t\"]}").is_err());
    assert!(shard_from_json("{} trailing").is_err());
}
