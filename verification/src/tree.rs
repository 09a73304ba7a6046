//! The tree that a committed root stands for, and why its leaves verify.

use vstd::prelude::*;
use vstd::arithmetic::power2::lemma2_to64;
use vstd::arithmetic::power2::lemma2_to64_rest;
use vstd::arithmetic::power2::lemma_pow2_strictly_increases;
use vstd::arithmetic::power2::lemma_pow2_unfold;
use vstd::arithmetic::power2::pow2;
use crate::binding::collide_at;
use crate::binding::lemma_opening_is_binding;
use crate::error::WhitelistError;
use crate::hash::digest;
use crate::index::lemma_low_bits_unchanged;
use crate::index::lemma_top_bit;
use crate::index::path_bit;
use crate::merkle::climb;
use crate::merkle::computed_root;
use crate::merkle::depth;
use crate::merkle::lemma_climb_is_local;
use crate::merkle::sibling;
use crate::merkle::verification_result;
use crate::registry::admission;

verus! {

/// A binary hash tree as the committed root summarises it: a leaf is a
/// 32-byte value, and an inner node stands for the digest of its left
/// child's value followed by its right child's value.
pub enum MerkleTree {
    Leaf { value: [u8; 32] },
    Node { left: Box<MerkleTree>, right: Box<MerkleTree> },
}

/// The index of the leaf that a route leads to. A route lists the turns from
/// the root down, `true` for right; a right turn at height `h` above the
/// leaf passes over `2^h` leaf positions.
pub open spec fn index_of(route: Seq<bool>) -> nat
    decreases route.len(),
{
    if route.len() == 0 {
        0
    } else {
        index_of(route.skip(1)) + if route[0] {
            pow2((route.len() - 1) as nat)
        } else {
            0
        }
    }
}

impl MerkleTree {
    /// The value of the tree's topmost node.
    pub open spec fn root(self) -> Seq<u8>
        decreases self,
    {
        match self {
            MerkleTree::Leaf { value } => value@,
            MerkleTree::Node { left, right } => digest(left.root() + right.root()),
        }
    }

    /// Whether `route` leads from the root to a leaf.
    pub open spec fn has_leaf(self, route: Seq<bool>) -> bool
        decreases self,
    {
        match self {
            MerkleTree::Leaf { value } => route.len() == 0,
            MerkleTree::Node { left, right } => route.len() > 0 && if route[0] {
                right.has_leaf(route.skip(1))
            } else {
                left.has_leaf(route.skip(1))
            },
        }
    }

    /// The leaf that `route` leads to.
    pub open spec fn leaf(self, route: Seq<bool>) -> Seq<u8>
        decreases self,
    {
        match self {
            MerkleTree::Leaf { value } => value@,
            MerkleTree::Node { left, right } => if route.len() > 0 && route[0] {
                right.leaf(route.skip(1))
            } else {
                left.leaf(route.skip(1))
            },
        }
    }

    /// The proof path of the leaf that `route` leads to: the values of the
    /// nodes passed by on the way, lowest first, one after the other.
    pub open spec fn siblings(self, route: Seq<bool>) -> Seq<u8>
        decreases self,
    {
        match self {
            MerkleTree::Leaf { value } => Seq::<u8>::empty(),
            MerkleTree::Node { left, right } => if route.len() > 0 && route[0] {
                right.siblings(route.skip(1)) + left.root()
            } else {
                left.siblings(route.skip(1)) + right.root()
            },
        }
    }

    /// Every node value has 32 bytes.
    pub proof fn lemma_root_len(self)
        ensures
            self.root().len() == 32,
    {
    }

    /// Every leaf of every tree verifies against the tree's root. The leaf
    /// that a route leads to, with the siblings along the route as its proof
    /// path and the route's index as its path index, leads back to the root
    /// and is accepted.
    pub proof fn lemma_opening_verifies(self, route: Seq<bool>)
        requires
            self.has_leaf(route),
        ensures
            self.siblings(route).len() == 32 * route.len(),
            index_of(route) < pow2(route.len()),
            route.len() <= 64 ==> index_of(route) <= u64::MAX,
            computed_root(self.leaf(route), self.siblings(route), index_of(route)) == self.root(),
            verification_result(
                self.leaf(route),
                self.siblings(route),
                index_of(route),
                self.root(),
            ) == Ok::<bool, WhitelistError>(true),
        decreases self,
    {
        lemma2_to64();
        lemma2_to64_rest();
        if route.len() < 64 {
            lemma_pow2_strictly_increases(route.len(), 64);
        }
        match self {
            MerkleTree::Leaf { value } => {},
            MerkleTree::Node { left, right } => {
                let rest = route.skip(1);
                let below = rest.len();
                let turn = route[0];
                let taken = if turn {
                    *right
                } else {
                    *left
                };
                let passed = if turn {
                    *left
                } else {
                    *right
                };
                taken.lemma_opening_verifies(rest);
                passed.lemma_root_len();
                let leaf = self.leaf(route);
                let lower = taken.siblings(rest);
                let path = self.siblings(route);
                let lower_index = index_of(rest);
                let index = index_of(route);
                assert(path == lower + passed.root());
                assert(leaf == taken.leaf(rest));
                lemma_pow2_unfold(route.len());
                assert forall|j: nat| j < below implies #[trigger] sibling(path, j) == sibling(
                    lower,
                    j,
                ) by {
                    assert(sibling(path, j) =~= sibling(lower, j));
                }
                assert forall|j: nat| j < below implies #[trigger] path_bit(index, j) == path_bit(
                    lower_index,
                    j,
                ) by {
                    lemma_low_bits_unchanged(
                        lower_index,
                        if turn {
                            1
                        } else {
                            0
                        },
                        below,
                        j,
                    );
                }
                lemma_climb_is_local(leaf, path, index, lower, lower_index, below);
                lemma_top_bit(lower_index, below);
                assert(sibling(path, below) =~= passed.root());
                assert(depth(path) == below + 1);
                assert(climb(leaf, path, index, below) == taken.root());
                assert(path_bit(index, below) == turn);
            },
        }
    }

    /// A member is admitted: a registry whose committed root is the root of
    /// this tree admits every leaf of the tree that comes with its own proof
    /// path and index.
    pub proof fn lemma_member_is_admitted(self, route: Seq<bool>, committed_root: Seq<u8>)
        requires
            self.has_leaf(route),
            committed_root == self.root(),
        ensures
            admission(self.leaf(route), self.siblings(route), index_of(route), committed_root)
                == Ok::<(), WhitelistError>(()),
    {
        self.lemma_opening_verifies(route);
    }

    /// Only the leaf opens its position. Where the tree has a leaf, a proof
    /// of that depth at that index is accepted for the leaf itself with its
    /// own proof path, and for nothing else, unless at some level it hashes
    /// other bytes than the tree does to the same digest.
    pub proof fn lemma_position_is_bound(self, route: Seq<bool>, leaf: Seq<u8>, hashes: Seq<u8>)
        requires
            self.has_leaf(route),
            leaf.len() == 32,
            hashes.len() == 32 * route.len(),
            verification_result(leaf, hashes, index_of(route), self.root()) == Ok::<
                bool,
                WhitelistError,
            >(true),
        ensures
            (leaf == self.leaf(route) && hashes == self.siblings(route)) || exists|j: nat|
                j < route.len() && #[trigger] collide_at(
                    leaf,
                    hashes,
                    index_of(route),
                    self.leaf(route),
                    self.siblings(route),
                    index_of(route),
                    j,
                ),
    {
        self.lemma_opening_verifies(route);
        self.lemma_leaf_len(route);
        if leaf != self.leaf(route) || hashes != self.siblings(route) {
            lemma_opening_is_binding(
                leaf,
                hashes,
                self.leaf(route),
                self.siblings(route),
                index_of(route),
                self.root(),
            );
        }
    }

    /// Every leaf has 32 bytes.
    pub proof fn lemma_leaf_len(self, route: Seq<bool>)
        ensures
            self.leaf(route).len() == 32,
        decreases self,
    {
        match self {
            MerkleTree::Leaf { value } => {},
            MerkleTree::Node { left, right } => {
                left.lemma_leaf_len(route.skip(1));
                right.lemma_leaf_len(route.skip(1));
            },
        }
    }
}

} // verus!
