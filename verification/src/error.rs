//! Error kinds reported by the escrow operations.

use vstd::prelude::*;

verus! {

/// Why an escrow operation was rejected.  Every rejection leaves the ledger
/// exactly as it was: there is no partial application of any operation.
#[derive(Clone, Copy, Debug, PartialEq, Eq, Structural)]
pub enum EscrowError {
    /// A zero amount was supplied when opening an offer, or creating an
    /// account would push a mint's total supply past what a balance can hold.
    InvalidAmount,
    /// The address derived for a new offer or vault, or requested for a new
    /// account, is already occupied.
    AlreadyExists,
    /// No offer or account lives at the given address.
    NotFound,
    /// The signer is not the party the operation requires.
    Unauthorized,
    /// A source account holds less than the amount to be moved.
    InsufficientBalance,
    /// An account holds a different asset than the transfer requires.
    MintMismatch,
}

} // verus!
