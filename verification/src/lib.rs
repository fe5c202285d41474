//! A Merkle (binary hash) tree over an ordered sequence of text records,
//! with inclusion proofs.
//!
//! `build_merkle_tree` turns a sequence of records into a binary tree of
//! digests: each leaf holds the digest of one record, each internal node
//! holds the digest of the concatenation of its children's digests.
//! `generate_merkle_proof` walks a built tree and collects, for a target
//! record found in a leaf, the sibling digest at each level from the leaf
//! up to the root.

pub mod hashing;
pub mod inclusion;
pub mod tree;
