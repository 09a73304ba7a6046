//! Keccak-256, the hash that the committed tree is built with.

use vstd::prelude::*;

verus! {

/// The Keccak-256 digest of `data`.
///
/// The function is left abstract: nothing is known of it beyond what its type
/// says, that every digest has 32 bytes.
pub uninterp spec fn keccak256(data: Seq<u8>) -> [u8; 32];

/// The digest of `data` as a sequence of bytes.
pub open spec fn digest(data: Seq<u8>) -> Seq<u8> {
    keccak256(data)@
}

/// Calls `solana_nostd_keccak::hash`, which computes the Keccak-256 digest of
/// one byte slice. The digest is a function of the bytes alone; the contract
/// claims only that the value returned is that digest.
#[verifier::external_body]
fn keccak256_of(data: &[u8]) -> (out: [u8; 32])
    ensures
        out == keccak256(data@),
{
    solana_nostd_keccak::hash(data)
}

/// Hashes the 64 bytes made of `left` followed by `right`.
pub fn hash_pair(left: &[u8; 32], right: &[u8; 32]) -> (out: [u8; 32])
    ensures
        out@ == digest(left@ + right@),
{
    let mut joined: [u8; 64] = [0u8; 64];
    let mut i: usize = 0;
    while i < 32
        invariant
            i <= 32,
            forall|k: int| 0 <= k < i ==> joined@[k] == left@[k],
            forall|k: int| 0 <= k < i ==> joined@[32 + k] == right@[k],
        decreases 32 - i,
    {
        joined[i] = left[i];
        joined[i + 32] = right[i];
        i += 1;
    }
    assert(joined@ =~= left@ + right@);
    keccak256_of(&joined)
}

} // verus!
