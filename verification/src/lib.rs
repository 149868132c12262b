//! Kelvin, a Merkle-tree toolkit: annotated tree collections (a hash array
//! mapped trie, a 2-3 tree, a B-tree and a radix trie), the annotations that
//! summarise their subtrees, and a content-addressed store for their nodes.
pub mod annotations;
pub mod branch;
pub mod btree;
pub mod content;
pub mod hamt;
pub mod handle;
pub mod hashing;
pub mod laws;
pub mod map;
pub mod nibbles;
pub mod radix;
pub mod search;
pub mod store;
pub mod two3;
pub mod walk;
