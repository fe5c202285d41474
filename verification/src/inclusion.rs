//! Inclusion proofs: a depth-first walk of a built tree that collects, for
//! a target found in a leaf, the sibling digest at each level from the
//! leaf's immediate sibling up to the sibling at the root's level.
//!
//! Matching is by leaf identity only: a leaf matches the target when its
//! digest equals the target's digest. Internal nodes are never matched
//! against the target, so a walk can never stop early at an internal node
//! whose combined digest happens to equal the target's digest.

use vstd::prelude::*;
use crate::hashing::hash;
use crate::hashing::hash_of;
use crate::tree::MerkleNode;
use crate::tree::MerkleTree;

verus! {

impl MerkleNode {
    /// Some leaf of this subtree carries the digest `d`.
    pub open spec fn contains_leaf(self, d: Seq<char>) -> bool
        decreases self,
    {
        match self {
            MerkleNode::Leaf { hash } => hash@ == d,
            MerkleNode::Internal { left, right, .. } => {
                left.contains_leaf(d) || right.contains_leaf(d)
            },
        }
    }

    /// The proof sequence for a leaf digest `d`: the left subtree is tried
    /// first; the sibling of the subtree that holds `d` is appended after
    /// the recursion, so siblings accumulate from the leaf's level upward.
    pub open spec fn proof_path(self, d: Seq<char>) -> Seq<Seq<char>>
        recommends
            self.contains_leaf(d),
        decreases self,
    {
        match self {
            MerkleNode::Leaf { .. } => Seq::empty(),
            MerkleNode::Internal { left, right, .. } => {
                if left.contains_leaf(d) {
                    left.proof_path(d).push(right.digest())
                } else {
                    right.proof_path(d).push(left.digest())
                }
            },
        }
    }

    /// The depth-first walk: reports whether a leaf with the target digest
    /// lies in this subtree, and if so appends the proof sequence to `path`.
    fn find_path(&self, target_hash: &String, path: &mut Vec<String>) -> (found: bool)
        ensures
            found == self.contains_leaf(target_hash@),
            found ==> final(path).deep_view() == old(path).deep_view() + self.proof_path(
                target_hash@,
            ),
            !found ==> final(path)@ == old(path)@,
        decreases *self,
    {
        match self {
            MerkleNode::Leaf { hash } => hash.eq(target_hash),
            MerkleNode::Internal { left, right, .. } => {
                if left.find_path(target_hash, path) {
                    let sibling = right.node_hash().clone();
                    let ghost before = path.deep_view();
                    path.push(sibling);
                    proof {
                        let d = target_hash@;
                        assert(self.proof_path(d) == left.proof_path(d).push(right.digest()));
                        assert(path.deep_view() =~= before.push(right.digest()));
                        assert(path.deep_view() =~= old(path).deep_view() + self.proof_path(d));
                    }
                    true
                } else if right.find_path(target_hash, path) {
                    let sibling = left.node_hash().clone();
                    let ghost before = path.deep_view();
                    path.push(sibling);
                    proof {
                        let d = target_hash@;
                        assert(self.proof_path(d) == right.proof_path(d).push(left.digest()));
                        assert(path.deep_view() =~= before.push(left.digest()));
                        assert(path.deep_view() =~= old(path).deep_view() + self.proof_path(d));
                    }
                    true
                } else {
                    false
                }
            },
        }
    }
}

/// One level of root recomputation: the running digest is combined with the
/// next sibling, on the side the tree shape fixes (`true` puts the running
/// digest on the left), and the pair is hashed once; the siblings are
/// consumed nearest-first.
pub open spec fn recombine(start: Seq<char>, siblings: Seq<Seq<char>>, sides: Seq<bool>) -> Seq<
    char,
>
    recommends
        siblings.len() == sides.len(),
    decreases siblings.len(),
{
    if siblings.len() == 0 {
        start
    } else {
        let next = if sides[0] {
            hash_of(start + siblings[0])
        } else {
            hash_of(siblings[0] + start)
        };
        recombine(next, siblings.skip(1), sides.skip(1))
    }
}

/// Appending one sibling to a proof sequence appends one combination step
/// to the recomputation.
proof fn lemma_recombine_push(
    start: Seq<char>,
    siblings: Seq<Seq<char>>,
    sides: Seq<bool>,
    x: Seq<char>,
    b: bool,
)
    requires
        siblings.len() == sides.len(),
    ensures
        recombine(start, siblings.push(x), sides.push(b)) == if b {
            hash_of(recombine(start, siblings, sides) + x)
        } else {
            hash_of(x + recombine(start, siblings, sides))
        },
    decreases siblings.len(),
{
    if siblings.len() == 0 {
        assert(siblings.push(x).skip(1) =~= Seq::<Seq<char>>::empty());
        assert(sides.push(b).skip(1) =~= Seq::<bool>::empty());
        assert(siblings.push(x)[0] == x);
        assert(sides.push(b)[0] == b);
        let next1 = if b {
            hash_of(start + x)
        } else {
            hash_of(x + start)
        };
        assert(recombine(next1, Seq::<Seq<char>>::empty(), Seq::<bool>::empty()) == next1);
        assert(recombine(start, siblings.push(x), sides.push(b)) == next1);
        assert(recombine(start, siblings, sides) == start);
    } else {
        assert(siblings.push(x).skip(1) =~= siblings.skip(1).push(x));
        assert(sides.push(b).skip(1) =~= sides.skip(1).push(b));
        assert(siblings.push(x)[0] == siblings[0]);
        assert(sides.push(b)[0] == sides[0]);
        let next = if sides[0] {
            hash_of(start + siblings[0])
        } else {
            hash_of(siblings[0] + start)
        };
        lemma_recombine_push(next, siblings.skip(1), sides.skip(1), x, b);
        assert(recombine(start, siblings.push(x), sides.push(b)) == recombine(
            next,
            siblings.skip(1).push(x),
            sides.skip(1).push(b),
        ));
        assert(recombine(start, siblings, sides) == recombine(
            next,
            siblings.skip(1),
            sides.skip(1),
        ));
    }
}

impl MerkleNode {
    /// Root recomputation: for a target digest held by some leaf of a
    /// well-formed tree, combining the target digest with the proof's
    /// siblings level by level — each on the side the tree shape fixes —
    /// reproduces the root digest. The proof sequence itself records no
    /// sides, so they are stated here as existing rather than computed.
    pub proof fn lemma_proof_recombines_root(self, d: Seq<char>)
        requires
            self.well_formed(),
            self.contains_leaf(d),
        ensures
            exists|sides: Seq<bool>|
                sides.len() == self.proof_path(d).len() && recombine(
                    d,
                    self.proof_path(d),
                    sides,
                ) == self.digest(),
        decreases self,
    {
        match self {
            MerkleNode::Leaf { .. } => {
                let sides = Seq::<bool>::empty();
                assert(sides.len() == self.proof_path(d).len() && recombine(
                    d,
                    self.proof_path(d),
                    sides,
                ) == self.digest());
            },
            MerkleNode::Internal { left, right, .. } => {
                if left.contains_leaf(d) {
                    left.lemma_proof_recombines_root(d);
                    let s0 = choose|s0: Seq<bool>|
                        s0.len() == left.proof_path(d).len() && recombine(
                            d,
                            left.proof_path(d),
                            s0,
                        ) == left.digest();
                    lemma_recombine_push(d, left.proof_path(d), s0, right.digest(), true);
                    let sides = s0.push(true);
                    assert(sides.len() == self.proof_path(d).len() && recombine(
                        d,
                        self.proof_path(d),
                        sides,
                    ) == self.digest());
                } else {
                    right.lemma_proof_recombines_root(d);
                    let s0 = choose|s0: Seq<bool>|
                        s0.len() == right.proof_path(d).len() && recombine(
                            d,
                            right.proof_path(d),
                            s0,
                        ) == right.digest();
                    lemma_recombine_push(d, right.proof_path(d), s0, left.digest(), false);
                    let sides = s0.push(false);
                    assert(sides.len() == self.proof_path(d).len() && recombine(
                        d,
                        self.proof_path(d),
                        sides,
                    ) == self.digest());
                }
            },
        }
    }

    /// Proof existence: every record of the built sequence has a leaf with
    /// its digest in the tree, and where the tree holds two or more leaves
    /// the record's proof sequence is non-empty.
    pub proof fn lemma_present_record_found(self, records: Seq<Seq<char>>, i: int)
        requires
            self.is_build_of(records),
            0 <= i < records.len(),
        ensures
            self.contains_leaf(hash_of(records[i])),
            records.len() >= 2 ==> self.proof_path(hash_of(records[i])).len() >= 1,
        decreases records.len(),
    {
        let mid = records.len() as int / 2;
        if records.len() >= 2 {
            match self {
                MerkleNode::Internal { left, right, .. } => {
                    if i < mid {
                        left.lemma_present_record_found(records.subrange(0, mid), i);
                    } else {
                        right.lemma_present_record_found(
                            records.subrange(mid, records.len() as int),
                            i - mid,
                        );
                    }
                },
                _ => {},
            }
        }
    }

    /// A proof drawn from a tree of two or more leaves is never empty: the
    /// walk appends one sibling at the root's level on its way out.
    pub proof fn lemma_proof_nonempty(self, d: Seq<char>)
        requires
            self is Internal,
            self.contains_leaf(d),
        ensures
            self.proof_path(d).len() >= 1,
    {
    }

    /// Idempotence: the proof sequence is a function of the tree and the
    /// target digest alone, so any two walks with the same tree and target
    /// yield the same proof.
    pub proof fn lemma_proof_idempotent(
        self,
        d: Seq<char>,
        p1: Seq<Seq<char>>,
        p2: Seq<Seq<char>>,
    )
        requires
            p1 == self.proof_path(d),
            p2 == self.proof_path(d),
        ensures
            p1 == p2,
    {
    }
}

/// Derives the inclusion proof for `item` from a built tree: the ordered
/// sibling digests from the leaf's sibling up to the root's level, absent
/// exactly when no leaf carries `item`'s digest (in particular, always
/// absent on an empty tree).
pub fn generate_merkle_proof(tree: &MerkleTree, item: &str) -> (r: Option<Vec<String>>)
    ensures
        tree.root is None ==> r is None,
        tree.root matches Some(root) ==> {
            &&& r is Some <==> root.contains_leaf(hash_of(item@))
            &&& (r matches Some(p) ==> p.deep_view() == root.proof_path(hash_of(item@)))
        },
{
    match &tree.root {
        None => None,
        Some(root) => {
            let target = hash(item);
            let mut path: Vec<String> = Vec::new();
            if root.find_path(&target, &mut path) {
                proof {
                    assert(path.deep_view() =~= root.proof_path(hash_of(item@)));
                }
                Some(path)
            } else {
                None
            }
        },
    }
}

} // verus!
