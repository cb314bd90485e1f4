//! A peer-to-peer token-swap escrow core, modelled over an explicit ledger.
//!
//! A maker deposits a quantity of one asset into a custody vault and records
//! an offer naming the quantity of another asset wanted in return.  Any taker
//! may settle the offer, atomically exchanging the wanted amount for the
//! vaulted deposit, or the maker may cancel and reclaim the deposit.  Every
//! operation is all-or-nothing: on any error the ledger is left untouched.

pub mod addr;
pub mod error;
pub mod ledger;
pub mod escrow;
