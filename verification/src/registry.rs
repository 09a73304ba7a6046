//! The record that holds the committed root, and the requests made of it.

use vstd::prelude::*;
use crate::error::WhitelistError;
use crate::merkle::same_bytes;
use crate::merkle::verification_result;
use crate::merkle::verify_address;

verus! {

/// The one record of a deployment: the committed root, the identity that may
/// replace it, and the tag by which the host locates the record.
#[derive(Clone, Copy, Debug, PartialEq, Eq)]
pub struct WhitelistState {
    pub merkle_root: [u8; 32],
    pub authority: [u8; 32],
    pub bump: u8,
}

/// What creating the record works on: the slot where the record lives, empty
/// until it is created, the identity that creates it and the tag that the
/// host derived for it.
#[derive(Clone, Copy, Debug, PartialEq, Eq)]
pub struct Initialize {
    pub whitelist_state: Option<WhitelistState>,
    pub authority: [u8; 32],
    pub bump: u8,
}

/// What replacing the root works on: the caller and the record.
#[derive(Clone, Copy, Debug, PartialEq, Eq)]
pub struct Update {
    pub authority: [u8; 32],
    pub whitelist_state: WhitelistState,
}

/// What an admission check works on: the caller and the record.
#[derive(Clone, Copy, Debug, PartialEq, Eq)]
pub struct Action {
    pub signer: [u8; 32],
    pub whitelist_state: WhitelistState,
}

/// The mathematical content of a record.
pub struct RegistryView {
    pub root: Seq<u8>,
    pub authority: Seq<u8>,
    pub bump: u8,
}

impl View for WhitelistState {
    type V = RegistryView;

    open spec fn view(&self) -> RegistryView {
        RegistryView { root: self.merkle_root@, authority: self.authority@, bump: self.bump }
    }
}

impl WhitelistState {
    /// The root that proofs are currently checked against.
    pub fn current_root(&self) -> (root: [u8; 32])
        ensures
            root == self.merkle_root,
            root@ == self@.root,
    {
        self.merkle_root
    }
}

impl Initialize {
    /// The record that creation writes into an empty slot.
    pub open spec fn created(self, merkle_root: [u8; 32]) -> WhitelistState {
        WhitelistState { merkle_root, authority: self.authority, bump: self.bump }
    }
}

impl Update {
    /// Whether the caller is the authority of the record.
    pub open spec fn authorized(self) -> bool {
        self.authority@ == self.whitelist_state@.authority
    }

    /// The record with its root replaced and nothing else changed.
    pub open spec fn replaced(self, new_root: [u8; 32]) -> WhitelistState {
        WhitelistState {
            merkle_root: new_root,
            authority: self.whitelist_state.authority,
            bump: self.whitelist_state.bump,
        }
    }
}

/// The answer to an admission request: granted exactly when verification
/// answers `Ok(true)`, and `InvalidProof` otherwise.
pub open spec fn admission(signer: Seq<u8>, hashes: Seq<u8>, index: nat, root: Seq<u8>) -> Result<
    (),
    WhitelistError,
> {
    if verification_result(signer, hashes, index, root) == Ok::<bool, WhitelistError>(true) {
        Ok(())
    } else {
        Err(WhitelistError::InvalidProof)
    }
}

/// Creates the record with `merkle_root` as its first committed root and the
/// caller as its authority. A slot that already holds a record is left as it
/// is and the request fails.
pub fn initialize_merkle_tree(ctx: &mut Initialize, merkle_root: [u8; 32]) -> (r: Result<
    (),
    WhitelistError,
>)
    ensures
        final(ctx).authority == old(ctx).authority,
        final(ctx).bump == old(ctx).bump,
        old(ctx).whitelist_state is None ==> r == Ok::<(), WhitelistError>(())
            && final(ctx).whitelist_state == Some(old(ctx).created(merkle_root)),
        old(ctx).whitelist_state is Some ==> r == Err::<(), WhitelistError>(
            WhitelistError::AlreadyInitialized,
        ) && final(ctx).whitelist_state == old(ctx).whitelist_state,
{
    if ctx.whitelist_state.is_some() {
        return Err(WhitelistError::AlreadyInitialized);
    }
    ctx.whitelist_state = Some(
        WhitelistState { merkle_root, authority: ctx.authority, bump: ctx.bump },
    );
    Ok(())
}

/// Replaces the committed root when the caller is the authority of the
/// record. Any other caller is refused and the record stays as it is. The
/// old root is not kept, and the authority never changes.
pub fn update_merkle_tree(ctx: &mut Update, new_root: [u8; 32]) -> (r: Result<(), WhitelistError>)
    ensures
        final(ctx).authority == old(ctx).authority,
        old(ctx).authorized() ==> r == Ok::<(), WhitelistError>(()) && final(ctx).whitelist_state
            == old(ctx).replaced(new_root),
        !old(ctx).authorized() ==> r == Err::<(), WhitelistError>(WhitelistError::Unauthorized)
            && final(ctx).whitelist_state == old(ctx).whitelist_state,
{
    if !same_bytes(&ctx.authority, &ctx.whitelist_state.authority) {
        return Err(WhitelistError::Unauthorized);
    }
    ctx.whitelist_state.merkle_root = new_root;
    Ok(())
}

/// Admits the caller exactly when the proof shows that the caller's identity
/// is a leaf of the committed tree.
pub fn action(ctx: Action, hashes: Vec<u8>, index: u64) -> (r: Result<(), WhitelistError>)
    ensures
        r == admission(ctx.signer@, hashes@, index as nat, ctx.whitelist_state@.root),
{
    match verify_address(ctx.signer, hashes, index, ctx.whitelist_state.merkle_root) {
        Ok(true) => Ok(()),
        _ => Err(WhitelistError::InvalidProof),
    }
}

/// A replaced root turns old proofs away: an opening that was accepted
/// against one root is rejected against any other root.
pub proof fn lemma_other_root_rejects(
    signer: Seq<u8>,
    hashes: Seq<u8>,
    index: nat,
    old_root: Seq<u8>,
    new_root: Seq<u8>,
)
    requires
        verification_result(signer, hashes, index, old_root) == Ok::<bool, WhitelistError>(true),
        new_root != old_root,
    ensures
        verification_result(signer, hashes, index, new_root) == Ok::<bool, WhitelistError>(false),
        admission(signer, hashes, index, new_root) == Err::<(), WhitelistError>(
            WhitelistError::InvalidProof,
        ),
{
}

} // verus!
