//! Merkle-tree whitelist: a registry that holds one committed root, and the
//! verification of membership proofs against that root.
//!
//! A caller is admitted when the caller's 32-byte identity, combined level by
//! level with the siblings of a proof path, leads to the committed root. The
//! hash is Keccak-256, and the leaf is the identity itself.

pub mod binding;
pub mod error;
pub mod hash;
pub mod index;
pub mod merkle;
pub mod registry;
pub mod tree;

pub use crate::error::WhitelistError;
pub use crate::merkle::verify_address;
pub use crate::registry::action;
pub use crate::registry::initialize_merkle_tree;
pub use crate::registry::update_merkle_tree;
pub use crate::registry::Action;
pub use crate::registry::Initialize;
pub use crate::registry::Update;
pub use crate::registry::WhitelistState;
