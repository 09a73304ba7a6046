//! What an accepted proof commits to.
//!
//! An opening is a leaf together with a proof path and a path index. The
//! laws here say that an accepted opening cannot be altered and stay
//! accepted, unless Keccak-256 maps two different inputs met on the way to
//! the same digest.

use vstd::prelude::*;
use crate::error::WhitelistError;
use crate::hash::digest;
use crate::index::path_bit;
use crate::merkle::climb;
use crate::merkle::depth;
use crate::merkle::preimage;
use crate::merkle::sibling;
use crate::merkle::verification_result;
use crate::merkle::well_formed;

verus! {

/// The bytes that are hashed at `level` on the way from the leaf to the root.
pub open spec fn hashed_at(leaf: Seq<u8>, hashes: Seq<u8>, index: nat, level: nat) -> Seq<u8> {
    preimage(climb(leaf, hashes, index, level), sibling(hashes, level), path_bit(index, level))
}

/// Two different byte strings with the same digest.
pub open spec fn collision(a: Seq<u8>, b: Seq<u8>) -> bool {
    a != b && digest(a) == digest(b)
}

/// The two openings hash different bytes at `level` and get the same digest.
pub open spec fn collide_at(
    leaf1: Seq<u8>,
    hashes1: Seq<u8>,
    index1: nat,
    leaf2: Seq<u8>,
    hashes2: Seq<u8>,
    index2: nat,
    level: nat,
) -> bool {
    collision(hashed_at(leaf1, hashes1, index1, level), hashed_at(leaf2, hashes2, index2, level))
}

/// At `level` the two openings put the sibling on the same side, or use the
/// same sibling.
pub open spec fn aligned_at(
    hashes1: Seq<u8>,
    index1: nat,
    hashes2: Seq<u8>,
    index2: nat,
    level: nat,
) -> bool {
    path_bit(index1, level) == path_bit(index2, level) || sibling(hashes1, level) == sibling(
        hashes2,
        level,
    )
}

/// Every accumulator on the way up from a 32-byte leaf has 32 bytes.
pub proof fn lemma_climb_len(leaf: Seq<u8>, hashes: Seq<u8>, index: nat, levels: nat)
    requires
        leaf.len() == 32,
    ensures
        climb(leaf, hashes, index, levels).len() == 32,
{
}

/// Every sibling of a proof path below its depth has 32 bytes.
pub proof fn lemma_sibling_len(hashes: Seq<u8>, level: nat)
    requires
        level < depth(hashes),
    ensures
        sibling(hashes, level).len() == 32,
{
}

/// With the sibling on the same side, equal preimages have equal halves.
proof fn lemma_preimage_halves(a1: Seq<u8>, s1: Seq<u8>, a2: Seq<u8>, s2: Seq<u8>, side: bool)
    requires
        a1.len() == 32,
        s1.len() == 32,
        a2.len() == 32,
        s2.len() == 32,
        preimage(a1, s1, side) == preimage(a2, s2, side),
    ensures
        a1 == a2,
        s1 == s2,
{
    let p = preimage(a1, s1, side);
    if side {
        assert(s1 =~= p.subrange(0, 32));
        assert(s2 =~= p.subrange(0, 32));
        assert(a1 =~= p.subrange(32, 64));
        assert(a2 =~= p.subrange(32, 64));
    } else {
        assert(a1 =~= p.subrange(0, 32));
        assert(a2 =~= p.subrange(0, 32));
        assert(s1 =~= p.subrange(32, 64));
        assert(s2 =~= p.subrange(32, 64));
    }
}

/// With one sibling on opposite sides, equal preimages mean that both
/// accumulators equal the sibling.
proof fn lemma_preimage_mirrored(a1: Seq<u8>, a2: Seq<u8>, s: Seq<u8>, side: bool)
    requires
        a1.len() == 32,
        a2.len() == 32,
        s.len() == 32,
        preimage(a1, s, side) == preimage(a2, s, !side),
    ensures
        a1 == s,
        a2 == s,
{
    let p = preimage(a1, s, side);
    if side {
        assert(s =~= p.subrange(0, 32));
        assert(a2 =~= p.subrange(0, 32));
        assert(a1 =~= p.subrange(32, 64));
        assert(s =~= p.subrange(32, 64));
    } else {
        assert(a1 =~= p.subrange(0, 32));
        assert(s =~= p.subrange(0, 32));
        assert(s =~= p.subrange(32, 64));
        assert(a2 =~= p.subrange(32, 64));
    }
}

/// Once two openings of one depth hash different bytes at a level, and stay
/// aligned above it, they reach different accumulators at every higher
/// level, unless one of the levels in between is a collision.
pub proof fn lemma_divergence_persists(
    leaf1: Seq<u8>,
    hashes1: Seq<u8>,
    index1: nat,
    leaf2: Seq<u8>,
    hashes2: Seq<u8>,
    index2: nat,
    from: nat,
    upto: nat,
)
    requires
        leaf1.len() == 32,
        leaf2.len() == 32,
        hashes1.len() == hashes2.len(),
        from < upto <= depth(hashes1),
        hashed_at(leaf1, hashes1, index1, from) != hashed_at(leaf2, hashes2, index2, from),
        forall|j: nat|
            from < j < upto ==> #[trigger] aligned_at(hashes1, index1, hashes2, index2, j),
    ensures
        climb(leaf1, hashes1, index1, upto) != climb(leaf2, hashes2, index2, upto) || exists|
            j: nat,
        |
            from <= j < upto && #[trigger] collide_at(
                leaf1,
                hashes1,
                index1,
                leaf2,
                hashes2,
                index2,
                j,
            ),
    decreases upto - from,
{
    let top = (upto - 1) as nat;
    if top > from {
        lemma_divergence_persists(leaf1, hashes1, index1, leaf2, hashes2, index2, from, top);
        let acc1 = climb(leaf1, hashes1, index1, top);
        let acc2 = climb(leaf2, hashes2, index2, top);
        if acc1 != acc2 {
            lemma_climb_len(leaf1, hashes1, index1, top);
            lemma_climb_len(leaf2, hashes2, index2, top);
            lemma_sibling_len(hashes1, top);
            lemma_sibling_len(hashes2, top);
            assert(aligned_at(hashes1, index1, hashes2, index2, top));
            let hashed1 = hashed_at(leaf1, hashes1, index1, top);
            let hashed2 = hashed_at(leaf2, hashes2, index2, top);
            if hashed1 == hashed2 {
                if path_bit(index1, top) == path_bit(index2, top) {
                    lemma_preimage_halves(
                        acc1,
                        sibling(hashes1, top),
                        acc2,
                        sibling(hashes2, top),
                        path_bit(index1, top),
                    );
                } else {
                    lemma_preimage_mirrored(
                        acc1,
                        acc2,
                        sibling(hashes1, top),
                        path_bit(index1, top),
                    );
                }
            }
            assert(hashed1 != hashed2);
        }
    }
    if climb(leaf1, hashes1, index1, upto) == climb(leaf2, hashes2, index2, upto) {
        if !exists|j: nat|
            from <= j < top && #[trigger] collide_at(
                leaf1,
                hashes1,
                index1,
                leaf2,
                hashes2,
                index2,
                j,
            ) {
            assert(collide_at(leaf1, hashes1, index1, leaf2, hashes2, index2, top));
        }
    }
}

/// Two proof paths of one well-formed length with the same sibling at every
/// level are the same path.
proof fn lemma_same_siblings_same_path(hashes1: Seq<u8>, hashes2: Seq<u8>)
    requires
        hashes1.len() == hashes2.len(),
        well_formed(hashes1),
        forall|j: nat| j < depth(hashes1) ==> #[trigger] sibling(hashes1, j) == sibling(hashes2, j),
    ensures
        hashes1 == hashes2,
{
    assert forall|t: int| 0 <= t < hashes1.len() implies hashes1[t] == hashes2[t] by {
        let level = (t / 32) as nat;
        let offset = t % 32;
        assert(level < depth(hashes1));
        assert(sibling(hashes1, level) == sibling(hashes2, level));
        assert(hashes1[t] == sibling(hashes1, level)[offset]);
        assert(hashes2[t] == sibling(hashes2, level)[offset]);
    }
    assert(hashes1 =~= hashes2);
}

/// An accepted opening is binding. If a leaf and a path are accepted for a
/// root at some index, then another leaf or another path of the same length
/// is rejected at that index, unless at some level the two verifications
/// hash different bytes to the same digest.
pub proof fn lemma_opening_is_binding(
    leaf1: Seq<u8>,
    hashes1: Seq<u8>,
    leaf2: Seq<u8>,
    hashes2: Seq<u8>,
    index: nat,
    merkle_root: Seq<u8>,
)
    requires
        leaf1.len() == 32,
        leaf2.len() == 32,
        hashes1.len() == hashes2.len(),
        leaf1 != leaf2 || hashes1 != hashes2,
        verification_result(leaf1, hashes1, index, merkle_root) == Ok::<bool, WhitelistError>(
            true,
        ),
    ensures
        verification_result(leaf2, hashes2, index, merkle_root) == Ok::<bool, WhitelistError>(
            false,
        ) || exists|j: nat|
            j < depth(hashes1) && #[trigger] collide_at(
                leaf1,
                hashes1,
                index,
                leaf2,
                hashes2,
                index,
                j,
            ),
{
    let n = depth(hashes1);
    if n == 0 {
        assert(hashes1 =~= hashes2);
    } else {
        let from: nat = if leaf1 != leaf2 {
            0
        } else {
            if forall|j: nat| j < n ==> #[trigger] sibling(hashes1, j) == sibling(hashes2, j) {
                lemma_same_siblings_same_path(hashes1, hashes2);
            }
            choose|j: nat| j < n && #[trigger] sibling(hashes1, j) != sibling(hashes2, j)
        };
        lemma_climb_len(leaf1, hashes1, index, from);
        lemma_climb_len(leaf2, hashes2, index, from);
        lemma_sibling_len(hashes1, from);
        lemma_sibling_len(hashes2, from);
        if hashed_at(leaf1, hashes1, index, from) == hashed_at(leaf2, hashes2, index, from) {
            lemma_preimage_halves(
                climb(leaf1, hashes1, index, from),
                sibling(hashes1, from),
                climb(leaf2, hashes2, index, from),
                sibling(hashes2, from),
                path_bit(index, from),
            );
        }
        lemma_divergence_persists(leaf1, hashes1, index, leaf2, hashes2, index, from, n);
    }
}

/// The index bit at `level` matters to an opening: the two indices differ
/// there, and the accumulator at that level is not equal to its sibling.
pub open spec fn swap_matters(
    leaf: Seq<u8>,
    hashes: Seq<u8>,
    index1: nat,
    index2: nat,
    level: nat,
) -> bool {
    path_bit(index1, level) != path_bit(index2, level) && climb(leaf, hashes, index1, level)
        != sibling(hashes, level)
}

/// While no index bit that differs matters, both indices lead to the same
/// accumulator.
proof fn lemma_idle_swaps(leaf: Seq<u8>, hashes: Seq<u8>, index1: nat, index2: nat, levels: nat)
    requires
        forall|j: nat| j < levels ==> !#[trigger] swap_matters(leaf, hashes, index1, index2, j),
    ensures
        climb(leaf, hashes, index1, levels) == climb(leaf, hashes, index2, levels),
    decreases levels,
{
    if levels > 0 {
        let below = (levels - 1) as nat;
        lemma_idle_swaps(leaf, hashes, index1, index2, below);
        assert(!swap_matters(leaf, hashes, index1, index2, below));
    }
}

/// An index that differs from another one only where the accumulator equals
/// its sibling gets the same answer: there the order of the two halves makes
/// no difference to what is hashed.
pub proof fn lemma_idle_index_change(
    leaf: Seq<u8>,
    hashes: Seq<u8>,
    index1: nat,
    index2: nat,
    merkle_root: Seq<u8>,
)
    requires
        forall|j: nat|
            j < depth(hashes) ==> !#[trigger] swap_matters(leaf, hashes, index1, index2, j),
    ensures
        verification_result(leaf, hashes, index1, merkle_root) == verification_result(
            leaf,
            hashes,
            index2,
            merkle_root,
        ),
{
    lemma_idle_swaps(leaf, hashes, index1, index2, depth(hashes));
}

/// The lowest level at or below `level` where a differing index bit matters.
proof fn lemma_lowest_swap(
    leaf: Seq<u8>,
    hashes: Seq<u8>,
    index1: nat,
    index2: nat,
    level: nat,
) -> (lowest: nat)
    requires
        swap_matters(leaf, hashes, index1, index2, level),
    ensures
        lowest <= level,
        swap_matters(leaf, hashes, index1, index2, lowest),
        forall|j: nat| j < lowest ==> !#[trigger] swap_matters(leaf, hashes, index1, index2, j),
    decreases level,
{
    if exists|j: nat| j < level && #[trigger] swap_matters(leaf, hashes, index1, index2, j) {
        let lower = choose|j: nat|
            j < level && #[trigger] swap_matters(leaf, hashes, index1, index2, j);
        lemma_lowest_swap(leaf, hashes, index1, index2, lower)
    } else {
        level
    }
}

/// A wrong index is rejected. Take an accepted opening and another index
/// that differs from the accepted one at some level of the path where the
/// accumulator is not equal to its sibling. The same leaf and path are
/// rejected at the other index, unless at some level the two verifications
/// hash different bytes to the same digest.
pub proof fn lemma_wrong_index_is_rejected(
    leaf: Seq<u8>,
    hashes: Seq<u8>,
    index1: nat,
    index2: nat,
    level: nat,
    merkle_root: Seq<u8>,
)
    requires
        leaf.len() == 32,
        level < depth(hashes),
        swap_matters(leaf, hashes, index1, index2, level),
        verification_result(leaf, hashes, index1, merkle_root) == Ok::<bool, WhitelistError>(true),
    ensures
        verification_result(leaf, hashes, index2, merkle_root) == Ok::<bool, WhitelistError>(
            false,
        ) || exists|j: nat|
            j < depth(hashes) && #[trigger] collide_at(
                leaf,
                hashes,
                index1,
                leaf,
                hashes,
                index2,
                j,
            ),
{
    let lowest = lemma_lowest_swap(leaf, hashes, index1, index2, level);
    lemma_idle_swaps(leaf, hashes, index1, index2, lowest);
    lemma_climb_len(leaf, hashes, index1, lowest);
    lemma_sibling_len(hashes, lowest);
    if hashed_at(leaf, hashes, index1, lowest) == hashed_at(leaf, hashes, index2, lowest) {
        lemma_preimage_mirrored(
            climb(leaf, hashes, index1, lowest),
            climb(leaf, hashes, index2, lowest),
            sibling(hashes, lowest),
            path_bit(index1, lowest),
        );
    }
    lemma_divergence_persists(leaf, hashes, index1, leaf, hashes, index2, lowest, depth(hashes));
}

} // verus!
