//! Incremental workspace indexer core: a content-addressed Merkle tree over a
//! filtered directory walk, a tree-to-tree differ, a line-delimited tree codec,
//! an append-only on-disk hash set, a reverse-tag index, and the sync
//! classification that turns a diff into `compute` / `delete` / `add_label` /
//! `remove_label` action streams.

pub mod builder;
pub mod codec;
pub mod disk_set;
pub mod hashing;
pub mod locality;
pub mod merkle;
pub mod rev_tags;
pub mod shard;
pub mod sync;
pub mod tree_diff;
pub mod utils;
