//! The ways in which a request is turned down.

use vstd::prelude::*;

verus! {

/// Why a request was turned down. Every failure is a rejected request:
/// nothing is retried and nothing else changes.
#[derive(Clone, Copy, Debug, PartialEq, Eq, Structural)]
pub enum WhitelistError {
    /// The proof path is malformed, or it does not lead to the committed root.
    InvalidProof,
    /// The caller is not the authority of the registry.
    Unauthorized,
    /// The registry already holds a record.
    AlreadyInitialized,
}

impl WhitelistError {
    /// The text shown for the error.
    pub open spec fn text(self) -> Seq<char> {
        match self {
            WhitelistError::InvalidProof => "Invalid Merkle proof"@,
            WhitelistError::Unauthorized => "Caller is not the authority"@,
            WhitelistError::AlreadyInitialized => "Whitelist is already initialized"@,
        }
    }

    /// The text shown for the error.
    pub fn message(&self) -> (text: &'static str)
        ensures
            text@ == self.text(),
    {
        match self {
            WhitelistError::InvalidProof => "Invalid Merkle proof",
            WhitelistError::Unauthorized => "Caller is not the authority",
            WhitelistError::AlreadyInitialized => "Whitelist is already initialized",
        }
    }
}

} // verus!
