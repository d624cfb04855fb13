use continue_sync::utils::{TempDirBuilder, global_ignore_patterns};
use continue_sync::hashing::blob_hash;

#[test]
fn test_temp_dir_builder_collects_files() {
    let builder = TempDirBuilder::new()
        .add("dir1/file1.txt", "Hello, world!")
        .add("__init__.py", "a = 5");
    let files = builder.files();
    assert_eq!(files.len(), 2);
    assert_eq!(files[0].0, "dir1/file1.txt");
    assert_eq!(files[0].1, "Hello, world!");
    assert_eq!(files[1].0, "__init__.py");
    assert_eq!(files[1].1, "a = 5");
}

#[test]
fn test_global_ignore_patterns() {
    let pats = global_ignore_patterns();
    assert_eq!(pats.len(), 70);
    assert_eq!(pats[0], "**/.DS_Store");
    assert_eq!(pats[69], "*.parquet");
    let mut found_git = false;
    let mut found_node_modules = false;
    for p in &pats {
        if p == "**/.git" {
            found_git = true;
        }
        if p == "**/node_modules/" {
            found_node_modules = true;
        }
    }
    assert!(found_git);
    assert!(found_node_modules);
}

#[test]
fn test_blob_hash_known_value() {
    // SHA-1 of the exact preimage "blob txt Hello, world!\n".
    let h = blob_hash("Hello, world!\n", "txt");
    assert_eq!(
        continue_sync::hashing::hash_string(&h),
        "140cc53a8ab2b249bf10bce285948124b234b7f0"
    );
}
