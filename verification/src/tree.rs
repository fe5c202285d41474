//! The Merkle tree: records, nodes, and deterministic construction.
//!
//! A tree over `n` records is built by splitting the record sequence at
//! index `n / 2` (integer division), building each half recursively, and
//! hashing the concatenation of the two child digests once — child digests
//! are never re-encoded before combination.

use vstd::prelude::*;
use vstd::slice::slice_index_get;
use vstd::slice::slice_subrange;
use vstd::string::StringExecFns;
use crate::hashing::hash;
use crate::hashing::hash_of;

verus! {

/// An ordered collection of text records, identified for tree purposes by
/// their digests.
pub struct Database {
    pub data: Vec<String>,
}

impl Database {
    pub fn new(data: Vec<String>) -> (db: Database)
        ensures
            db.data@ == data@,
    {
        Database { data }
    }
}

/// A tree vertex: a leaf holds the digest of one record; an internal node
/// holds the digest of its children's concatenated digests and owns exactly
/// two children.
pub enum MerkleNode {
    Leaf { hash: String },
    Internal { hash: String, left: Box<MerkleNode>, right: Box<MerkleNode> },
}

/// A tree: a single optional root, absent exactly when the record sequence
/// was empty.
pub struct MerkleTree {
    pub root: Option<Box<MerkleNode>>,
}

/// The digests of a record sequence, in record order.
pub open spec fn digests_of(records: Seq<Seq<char>>) -> Seq<Seq<char>> {
    records.map_values(|r: Seq<char>| hash_of(r))
}

impl MerkleNode {
    /// The digest stored at this node.
    pub open spec fn digest(self) -> Seq<char> {
        match self {
            MerkleNode::Leaf { hash } => hash@,
            MerkleNode::Internal { hash, .. } => hash@,
        }
    }

    /// The structural digest invariant: every internal node's digest is the
    /// digest of the plain concatenation of its children's digests, hashed
    /// exactly once.
    pub open spec fn well_formed(self) -> bool
        decreases self,
    {
        match self {
            MerkleNode::Leaf { .. } => true,
            MerkleNode::Internal { hash, left, right } => {
                &&& left.well_formed()
                &&& right.well_formed()
                &&& hash@ == hash_of(left.digest() + right.digest())
            },
        }
    }

    /// The digests of this subtree's leaves, left to right.
    pub open spec fn leaf_digests(self) -> Seq<Seq<char>>
        decreases self,
    {
        match self {
            MerkleNode::Leaf { hash } => seq![hash@],
            MerkleNode::Internal { left, right, .. } => left.leaf_digests() + right.leaf_digests(),
        }
    }

    /// This node is exactly the tree that construction yields for `records`:
    /// a single record gives a leaf with that record's digest; two or more
    /// give an internal node over the halves split at `len / 2`, with the
    /// combined digest.
    pub open spec fn is_build_of(self, records: Seq<Seq<char>>) -> bool
        decreases records.len(),
    {
        if records.len() == 1 {
            &&& self matches MerkleNode::Leaf { hash }
            &&& hash@ == hash_of(records[0])
        } else if records.len() >= 2 {
            &&& self matches MerkleNode::Internal { hash, left, right }
            &&& left.is_build_of(records.subrange(0, records.len() as int / 2))
            &&& right.is_build_of(
                records.subrange(records.len() as int / 2, records.len() as int),
            )
            &&& hash@ == hash_of(left.digest() + right.digest())
        } else {
            false
        }
    }

    /// The digest stored at this node, as the stored string.
    pub fn node_hash(&self) -> (h: &String)
        ensures
            h@ == self.digest(),
    {
        match self {
            MerkleNode::Leaf { hash } => hash,
            MerkleNode::Internal { hash, .. } => hash,
        }
    }

    /// Construction establishes the digest invariant everywhere in the tree.
    pub proof fn lemma_build_well_formed(self, records: Seq<Seq<char>>)
        requires
            self.is_build_of(records),
        ensures
            self.well_formed(),
        decreases records.len(),
    {
        if records.len() >= 2 {
            match self {
                MerkleNode::Internal { left, right, .. } => {
                    left.lemma_build_well_formed(
                        records.subrange(0, records.len() as int / 2),
                    );
                    right.lemma_build_well_formed(
                        records.subrange(records.len() as int / 2, records.len() as int),
                    );
                },
                _ => {},
            }
        }
    }

    /// Determinism: any two trees built from the same record sequence carry
    /// the same root digest.
    pub proof fn lemma_build_deterministic(self, other: MerkleNode, records: Seq<Seq<char>>)
        requires
            self.is_build_of(records),
            other.is_build_of(records),
        ensures
            self.digest() == other.digest(),
        decreases records.len(),
    {
        if records.len() >= 2 {
            match self {
                MerkleNode::Internal { left, right, .. } => {
                    match other {
                        MerkleNode::Internal { left: oleft, right: oright, .. } => {
                            left.lemma_build_deterministic(
                                *oleft,
                                records.subrange(0, records.len() as int / 2),
                            );
                            right.lemma_build_deterministic(
                                *oright,
                                records.subrange(records.len() as int / 2, records.len() as int),
                            );
                        },
                        _ => {},
                    }
                },
                _ => {},
            }
        }
    }

    /// Single-leaf identity: the tree over exactly one record is a leaf
    /// whose digest is that record's digest.
    pub proof fn lemma_single_leaf_identity(self, records: Seq<Seq<char>>)
        requires
            self.is_build_of(records),
            records.len() == 1,
        ensures
            self is Leaf,
            self.digest() == hash_of(records[0]),
    {
    }

    /// Split determinism: the tree over two or more records is an internal
    /// node whose left child covers exactly the records before index
    /// `len / 2` and whose right child covers the rest, so an odd count
    /// leaves the extra record on the right.
    pub proof fn lemma_split_determinism(self, records: Seq<Seq<char>>)
        requires
            self.is_build_of(records),
            records.len() >= 2,
        ensures
            self matches MerkleNode::Internal { left, right, .. } ==> {
                &&& left.is_build_of(records.subrange(0, records.len() as int / 2))
                &&& right.is_build_of(
                    records.subrange(records.len() as int / 2, records.len() as int),
                )
            },
            self is Internal,
    {
    }

    /// The leaves of a built tree are the records' digests, in record order.
    pub proof fn lemma_build_leaf_digests(self, records: Seq<Seq<char>>)
        requires
            self.is_build_of(records),
        ensures
            self.leaf_digests() == digests_of(records),
        decreases records.len(),
    {
        let mid = records.len() as int / 2;
        if records.len() == 1 {
            assert(self.leaf_digests() =~= digests_of(records));
        } else if records.len() >= 2 {
            match self {
                MerkleNode::Internal { left, right, .. } => {
                    left.lemma_build_leaf_digests(records.subrange(0, mid));
                    right.lemma_build_leaf_digests(
                        records.subrange(mid, records.len() as int),
                    );
                    assert(self.leaf_digests() =~= digests_of(records));
                },
                _ => {},
            }
        }
    }
}

/// Builds the subtree for a record slice: empty gives no node, one record a
/// leaf, more an internal node over the halves split at `len / 2`.
pub fn build_tree(data: &[String]) -> (r: Option<Box<MerkleNode>>)
    ensures
        r is Some <==> data@.len() > 0,
        r matches Some(n) ==> n.is_build_of(data.deep_view()),
    decreases data@.len(),
{
    if data.len() == 0 {
        return None;
    }

    if data.len() == 1 {
        let h = hash(slice_index_get(data, 0).as_str());
        assert(data.deep_view() =~= seq![data@[0]@]);
        return Some(Box::new(MerkleNode::Leaf { hash: h }));
    }

    let mid: usize = data.len() / 2;
    let left_slice = slice_subrange(data, 0, mid);
    let right_slice = slice_subrange(data, mid, data.len());
    assert(left_slice.deep_view() =~= data.deep_view().subrange(0, mid as int));
    assert(right_slice.deep_view() =~= data.deep_view().subrange(mid as int, data@.len() as int));
    let left_child = build_tree(left_slice);
    let right_child = build_tree(right_slice);
    let left_node = left_child.unwrap();
    let right_node = right_child.unwrap();

    let combined = left_node.node_hash().clone().concat(right_node.node_hash().as_str());
    let combined_hash = hash(combined.as_str());

    Some(Box::new(MerkleNode::Internal {
        hash: combined_hash,
        left: left_node,
        right: right_node,
    }))
}

/// Builds the Merkle tree for an ordered record sequence.
pub fn build_merkle_tree(data: &Vec<String>) -> (t: MerkleTree)
    ensures
        t.root is Some <==> data@.len() > 0,
        t.root matches Some(n) ==> n.is_build_of(data.deep_view()),
{
    let s = data.as_slice();
    assert(s.deep_view() =~= data.deep_view());
    let root = build_tree(s);
    MerkleTree { root }
}

} // verus!
