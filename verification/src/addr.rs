//! Ledger addresses, authorities, and deterministic address derivation.
//!
//! Offers and their vaults are not referenced through arbitrary pointers:
//! their addresses are computed by a pure function of the maker's identity
//! and the maker-chosen offer id, so any party can re-derive them.  The
//! derivation is injective by construction, and program-derived addresses
//! can never collide with a user-chosen address.

use vstd::prelude::*;

verus! {

/// The canonical derivation salt.  Recorded in each offer so later
/// operations can re-derive and authorize the vault deterministically.
pub const CANONICAL_BUMP: u8 = 255;

/// An address on the ledger.  User token accounts live at `User` addresses;
/// the storage address of an offer opened by maker `m` with id `i` is
/// `Offer(m, i)`, and its custody vault lives at `Vault(m, i)`.
#[derive(Clone, Copy, Debug, PartialEq, Eq, Structural)]
pub enum Addr {
    /// An address chosen by a user for one of their own token accounts.
    User(u64),
    /// The program-derived storage address of an offer: maker identity, id.
    Offer(u64, u64),
    /// The program-derived address of an offer's custody vault.
    Vault(u64, u64),
}

/// The authority that may move funds out of a token account.  A user account
/// is gated by its holder's signature; a vault is gated by a capability
/// derived from the offer's address and recorded salt, which only the
/// protocol logic can present.
#[derive(Clone, Copy, Debug, PartialEq, Eq, Structural)]
pub enum Authority {
    /// The signature of the user with the given identity.
    Signer(u64),
    /// The program-derived authority over a vault: the offer's storage
    /// address and the salt recorded when the offer was opened.
    Derived(Addr, u8),
}

/// The storage address of the offer opened by `maker` with `id`.
pub open spec fn offer_address(maker: u64, id: u64) -> Addr {
    Addr::Offer(maker, id)
}

/// The custody vault address paired with the offer opened by `maker` with `id`.
pub open spec fn vault_address(maker: u64, id: u64) -> Addr {
    Addr::Vault(maker, id)
}

/// Derives the storage address for the offer of `(maker, id)`, with its salt.
/// Distinct `(maker, id)` pairs yield distinct addresses.
pub fn derive_offer_address(maker: u64, id: u64) -> (r: (Addr, u8))
    ensures
        r.0 == offer_address(maker, id),
        r.1 == CANONICAL_BUMP,
{
    (Addr::Offer(maker, id), CANONICAL_BUMP)
}

/// Derives the vault address paired with an offer address, with the salt that
/// authorizes the vault.  Only offer storage addresses have a paired vault.
pub fn derive_vault_address(offer_addr: Addr) -> (r: (Addr, u8))
    requires
        offer_addr is Offer,
    ensures
        r.0 == vault_address(offer_addr->Offer_0, offer_addr->Offer_1),
        r.1 == CANONICAL_BUMP,
{
    match offer_addr {
        Addr::Offer(maker, id) => (Addr::Vault(maker, id), CANONICAL_BUMP),
        _ => (offer_addr, CANONICAL_BUMP),
    }
}

} // verus!
