//! An index of bare Git repositories in an embedded key-value store,
//! and the read surface a web front end serves from it.
//!
//! A host process discovers repositories under a scan root, walks their
//! references, history and trees, and hands the results in as plain
//! values; everything that decides and writes — the key codec, the
//! record codec, the schema gate, the per-reference update with its
//! forced reindex, content-addressed tree deduplication, and tag
//! reconciliation — stands in this crate and is verified against a map
//! model of the store.

pub mod commit_tree;
pub mod indexer;
pub mod keys;
pub mod records;
pub mod repo_table;
pub mod sorted_tree;
pub mod store;
pub mod tag_tree;
pub mod theme;
pub mod tree_index;
pub mod web;
pub mod wire;

use vstd::prelude::*;

verus! {

/// Version string stored under the schema key of the default family; when the
/// persisted value differs, the store is cleared and rebuilt.
pub const SCHEMA_VERSION: &'static str = "2";

} // verus!
