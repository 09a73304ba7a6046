//! Recomputing a root from a leaf and a proof path.

use vstd::prelude::*;
use vstd::arithmetic::power2::lemma2_to64;
use vstd::arithmetic::power2::pow2;
use crate::error::WhitelistError;
use crate::hash::digest;
use crate::hash::hash_pair;
use crate::index::lemma_bits_of_remainder;
use crate::index::path_bit;
use crate::index::sibling_on_left;

verus! {

/// A proof path is well formed when it is a whole number of 32-byte siblings.
pub open spec fn well_formed(hashes: Seq<u8>) -> bool {
    hashes.len() % 32 == 0
}

/// Number of whole siblings in a proof path: the depth of the claimed leaf.
pub open spec fn depth(hashes: Seq<u8>) -> nat {
    hashes.len() / 32
}

/// The sibling at `level`, counted from the leaf upwards.
pub open spec fn sibling(hashes: Seq<u8>, level: nat) -> Seq<u8> {
    hashes.subrange(32 * level as int, 32 * level as int + 32)
}

/// The 64 bytes hashed at one level: accumulator first when the sibling is
/// the right child, sibling first when it is the left child.
pub open spec fn preimage(acc: Seq<u8>, sib: Seq<u8>, sibling_on_left: bool) -> Seq<u8> {
    if sibling_on_left {
        sib + acc
    } else {
        acc + sib
    }
}

/// The accumulator after the lowest `levels` siblings have been folded in,
/// starting from the leaf itself.
pub open spec fn climb(leaf: Seq<u8>, hashes: Seq<u8>, index: nat, levels: nat) -> Seq<u8>
    decreases levels,
{
    if levels == 0 {
        leaf
    } else {
        let below = (levels - 1) as nat;
        digest(
            preimage(
                climb(leaf, hashes, index, below),
                sibling(hashes, below),
                path_bit(index, below),
            ),
        )
    }
}

/// The root that a leaf and a well-formed proof path lead to.
pub open spec fn computed_root(leaf: Seq<u8>, hashes: Seq<u8>, index: nat) -> Seq<u8> {
    climb(leaf, hashes, index, depth(hashes))
}

/// What verification answers: a malformed path is an error, any other path
/// is accepted exactly when it leads to the committed root.
pub open spec fn verification_result(
    address: Seq<u8>,
    hashes: Seq<u8>,
    index: nat,
    merkle_root: Seq<u8>,
) -> Result<bool, WhitelistError> {
    if well_formed(hashes) {
        Ok(computed_root(address, hashes, index) == merkle_root)
    } else {
        Err(WhitelistError::InvalidProof)
    }
}

/// The accumulator after `levels` steps depends on the lowest `levels`
/// siblings and index bits only.
pub proof fn lemma_climb_is_local(
    leaf: Seq<u8>,
    hashes1: Seq<u8>,
    index1: nat,
    hashes2: Seq<u8>,
    index2: nat,
    levels: nat,
)
    requires
        forall|j: nat| j < levels ==> #[trigger] sibling(hashes1, j) == sibling(hashes2, j),
        forall|j: nat| j < levels ==> #[trigger] path_bit(index1, j) == path_bit(index2, j),
    ensures
        climb(leaf, hashes1, index1, levels) == climb(leaf, hashes2, index2, levels),
    decreases levels,
{
    if levels > 0 {
        let below = (levels - 1) as nat;
        lemma_climb_is_local(leaf, hashes1, index1, hashes2, index2, below);
        assert(sibling(hashes1, below) == sibling(hashes2, below));
        assert(path_bit(index1, below) == path_bit(index2, below));
    }
}

/// Bits of the path index at or above the depth of the path are ignored:
/// two indices with the same remainder modulo `2^depth` get the same answer.
pub proof fn lemma_high_bits_ignored(
    address: Seq<u8>,
    hashes: Seq<u8>,
    index1: nat,
    index2: nat,
    merkle_root: Seq<u8>,
)
    requires
        index1 % pow2(depth(hashes)) == index2 % pow2(depth(hashes)),
    ensures
        verification_result(address, hashes, index1, merkle_root) == verification_result(
            address,
            hashes,
            index2,
            merkle_root,
        ),
{
    let n = depth(hashes);
    assert forall|j: nat| j < n implies #[trigger] path_bit(index1, j) == path_bit(index2, j) by {
        lemma_bits_of_remainder(index1, n, j);
        lemma_bits_of_remainder(index2, n, j);
    }
    lemma_climb_is_local(address, hashes, index1, hashes, index2, n);
}

/// Verification has no hidden state: equal arguments get equal answers.
pub proof fn lemma_verification_is_deterministic(
    address1: Seq<u8>,
    hashes1: Seq<u8>,
    index1: nat,
    merkle_root1: Seq<u8>,
    address2: Seq<u8>,
    hashes2: Seq<u8>,
    index2: nat,
    merkle_root2: Seq<u8>,
)
    requires
        address1 == address2,
        hashes1 == hashes2,
        index1 == index2,
        merkle_root1 == merkle_root2,
    ensures
        verification_result(address1, hashes1, index1, merkle_root1) == verification_result(
            address2,
            hashes2,
            index2,
            merkle_root2,
        ),
{
}

/// A tree of one leaf: with an empty path the leaf is its own root, whatever
/// the index.
pub proof fn lemma_single_leaf(leaf: Seq<u8>, index: nat)
    ensures
        computed_root(leaf, Seq::<u8>::empty(), index) == leaf,
        verification_result(leaf, Seq::<u8>::empty(), index, leaf) == Ok::<bool, WhitelistError>(
            true,
        ),
{
}

/// One level: an even index hashes the leaf before the sibling, an odd
/// index hashes the sibling before the leaf.
pub proof fn lemma_one_level(leaf: Seq<u8>, sib: Seq<u8>, index: nat)
    requires
        sib.len() == 32,
    ensures
        computed_root(leaf, sib, index) == (if index % 2 == 1 {
            digest(sib + leaf)
        } else {
            digest(leaf + sib)
        }),
{
    lemma2_to64();
    assert(sibling(sib, 0) =~= sib);
    assert(climb(leaf, sib, index, 1) == digest(
        preimage(climb(leaf, sib, index, 0), sibling(sib, 0), path_bit(index, 0)),
    ));
}

/// Copies the sibling at `level` out of a flattened proof path.
pub fn read_sibling(hashes: &[u8], level: usize) -> (out: [u8; 32])
    requires
        level < depth(hashes@),
    ensures
        out@ == sibling(hashes@, level as nat),
{
    let len: usize = hashes.len();
    assert(32 * level + 32 <= len);
    let start: usize = level * 32;
    let mut out: [u8; 32] = [0u8; 32];
    let mut i: usize = 0;
    while i < 32
        invariant
            i <= 32,
            start == level * 32,
            start + 32 <= hashes@.len(),
            forall|k: int| 0 <= k < i ==> out@[k] == hashes@[start + k],
        decreases 32 - i,
    {
        out[i] = hashes[start + i];
        i += 1;
    }
    assert(out@ =~= sibling(hashes@, level as nat));
    out
}

/// Recomputes the root from a leaf and a flattened proof path.
///
/// The leaf enters the first step as it is, without being hashed first. A
/// path that is not a whole number of siblings is rejected before anything
/// is hashed.
pub fn compute_root(leaf: &[u8; 32], hashes: &[u8], index: u64) -> (r: Result<
    [u8; 32],
    WhitelistError,
>)
    ensures
        well_formed(hashes@) ==> r is Ok && r->Ok_0@ == computed_root(leaf@, hashes@, index as nat),
        !well_formed(hashes@) ==> r == Err::<[u8; 32], WhitelistError>(
            WhitelistError::InvalidProof,
        ),
{
    let len: usize = hashes.len();
    if len % 32 != 0 {
        return Err(WhitelistError::InvalidProof);
    }
    let levels: usize = len / 32;
    let mut acc: [u8; 32] = *leaf;
    let mut level: usize = 0;
    while level < levels
        invariant
            level <= levels,
            levels == depth(hashes@),
            acc@ == climb(leaf@, hashes@, index as nat, level as nat),
        decreases levels - level,
    {
        let sib: [u8; 32] = read_sibling(hashes, level);
        acc =
        if sibling_on_left(index, level) {
            hash_pair(&sib, &acc)
        } else {
            hash_pair(&acc, &sib)
        };
        level += 1;
    }
    Ok(acc)
}

/// Compares two 32-byte values.
pub fn same_bytes(a: &[u8; 32], b: &[u8; 32]) -> (same: bool)
    ensures
        same == (a@ == b@),
{
    let mut i: usize = 0;
    while i < 32
        invariant
            i <= 32,
            forall|k: int| 0 <= k < i ==> a@[k] == b@[k],
        decreases 32 - i,
    {
        if a[i] != b[i] {
            return false;
        }
        i += 1;
    }
    assert(a@ =~= b@);
    true
}

/// Decides whether `address` is a leaf of the tree committed to by
/// `merkle_root`, given the siblings on the way up and the path index.
///
/// The answer depends on the four arguments and on nothing else.
pub fn verify_address(address: [u8; 32], hashes: Vec<u8>, index: u64, merkle_root: [u8; 32]) -> (r:
    Result<bool, WhitelistError>)
    ensures
        r == verification_result(address@, hashes@, index as nat, merkle_root@),
{
    match compute_root(&address, hashes.as_slice(), index) {
        Ok(root) => Ok(same_bytes(&root, &merkle_root)),
        Err(e) => Err(e),
    }
}

} // verus!
