use swap::addr::{derive_offer_address, derive_vault_address, Addr, CANONICAL_BUMP};
use swap::error::EscrowError;
use swap::ledger::Ledger;

const MINT_A: u64 = 10;
const MINT_B: u64 = 20;
const MAKER: u64 = 1;
const TAKER: u64 = 2;
const MAKER_A: Addr = Addr::User(11);
const MAKER_B: Addr = Addr::User(12);
const TAKER_B: Addr = Addr::User(21);
const TAKER_A: Addr = Addr::User(22);

/// A ledger with the maker holding 200 of mint A and the taker 80 of mint B,
/// plus empty receiving accounts on both sides.
fn setup() -> Ledger {
    let mut l = Ledger::new();
    l.create_token_account(MAKER_A, MINT_A, MAKER, 200).unwrap();
    l.create_token_account(MAKER_B, MINT_B, MAKER, 0).unwrap();
    l.create_token_account(TAKER_B, MINT_B, TAKER, 80).unwrap();
    l.create_token_account(TAKER_A, MINT_A, TAKER, 0).unwrap();
    l
}

fn balances(l: &Ledger) -> (u64, u64, u64, u64) {
    (
        l.balance_of(MAKER_A).unwrap(),
        l.balance_of(MAKER_B).unwrap(),
        l.balance_of(TAKER_B).unwrap(),
        l.balance_of(TAKER_A).unwrap(),
    )
}

#[test]
fn derivation_is_deterministic() {
    let (o1, s1) = derive_offer_address(MAKER, 7);
    let (o2, s2) = derive_offer_address(MAKER, 7);
    assert_eq!(o1, o2);
    assert_eq!(s1, s2);
    assert_eq!(s1, CANONICAL_BUMP);
    let (v1, b1) = derive_vault_address(o1);
    let (v2, b2) = derive_vault_address(o2);
    assert_eq!(v1, v2);
    assert_eq!(b1, b2);
    assert_ne!(o1, v1);
    let (other, _) = derive_offer_address(MAKER, 8);
    assert_ne!(o1, other);
}

#[test]
fn open_deposits_into_vault() {
    let mut l = setup();
    let offer_addr = l.make_offer(MAKER, 7, MINT_A, MINT_B, 100, 50, MAKER_A).unwrap();
    let (expected, _) = derive_offer_address(MAKER, 7);
    assert_eq!(offer_addr, expected);
    let (vault, _) = derive_vault_address(offer_addr);
    assert_eq!(l.balance_of(MAKER_A), Some(100));
    assert_eq!(l.balance_of(vault), Some(100));
    let offer = l.read_offer(offer_addr).unwrap();
    assert_eq!(offer.maker, MAKER);
    assert_eq!(offer.id, 7);
    assert_eq!(offer.offered_mint, MINT_A);
    assert_eq!(offer.wanted_mint, MINT_B);
    assert_eq!(offer.wanted_amount, 50);
    assert_eq!(offer.vault, vault);
    assert_eq!(offer.bump, CANONICAL_BUMP);
}

#[test]
fn settle_swaps_exactly_the_stated_amounts() {
    let mut l = setup();
    let offer_addr = l.make_offer(MAKER, 7, MINT_A, MINT_B, 100, 50, MAKER_A).unwrap();
    let (vault, _) = derive_vault_address(offer_addr);
    l.settle(TAKER, offer_addr, TAKER_B, MAKER_B, TAKER_A).unwrap();
    assert_eq!(balances(&l), (100, 50, 30, 100));
    assert_eq!(l.balance_of(vault), None);
    assert_eq!(l.read_offer(offer_addr), Err(EscrowError::NotFound));
}

#[test]
fn settle_conserves_total_supply() {
    let mut l = setup();
    let offer_addr = l.make_offer(MAKER, 7, MINT_A, MINT_B, 100, 50, MAKER_A).unwrap();
    let (vault, _) = derive_vault_address(offer_addr);
    let supply_a = l.balance_of(MAKER_A).unwrap() + l.balance_of(TAKER_A).unwrap()
        + l.balance_of(vault).unwrap();
    let supply_b = l.balance_of(MAKER_B).unwrap() + l.balance_of(TAKER_B).unwrap();
    l.settle(TAKER, offer_addr, TAKER_B, MAKER_B, TAKER_A).unwrap();
    let supply_a_after = l.balance_of(MAKER_A).unwrap() + l.balance_of(TAKER_A).unwrap();
    let supply_b_after = l.balance_of(MAKER_B).unwrap() + l.balance_of(TAKER_B).unwrap();
    assert_eq!(supply_a, supply_a_after);
    assert_eq!(supply_b, supply_b_after);
}

#[test]
fn cancel_returns_the_deposit() {
    let mut l = setup();
    let offer_addr = l.make_offer(MAKER, 7, MINT_A, MINT_B, 100, 50, MAKER_A).unwrap();
    let (vault, _) = derive_vault_address(offer_addr);
    l.cancel(MAKER, offer_addr, MAKER_A).unwrap();
    assert_eq!(balances(&l), (200, 0, 80, 0));
    assert_eq!(l.balance_of(vault), None);
    assert_eq!(l.read_offer(offer_addr), Err(EscrowError::NotFound));
}

#[test]
fn second_settlement_attempt_reports_not_found() {
    let mut l = setup();
    let offer_addr = l.make_offer(MAKER, 7, MINT_A, MINT_B, 100, 50, MAKER_A).unwrap();
    l.settle(TAKER, offer_addr, TAKER_B, MAKER_B, TAKER_A).unwrap();
    assert_eq!(
        l.settle(TAKER, offer_addr, TAKER_B, MAKER_B, TAKER_A),
        Err(EscrowError::NotFound)
    );
    assert_eq!(l.cancel(MAKER, offer_addr, MAKER_A), Err(EscrowError::NotFound));
    assert_eq!(balances(&l), (100, 50, 30, 100));
}

#[test]
fn cancel_then_settle_reports_not_found() {
    let mut l = setup();
    let offer_addr = l.make_offer(MAKER, 7, MINT_A, MINT_B, 100, 50, MAKER_A).unwrap();
    l.cancel(MAKER, offer_addr, MAKER_A).unwrap();
    assert_eq!(
        l.settle(TAKER, offer_addr, TAKER_B, MAKER_B, TAKER_A),
        Err(EscrowError::NotFound)
    );
    assert_eq!(l.cancel(MAKER, offer_addr, MAKER_A), Err(EscrowError::NotFound));
    assert_eq!(balances(&l), (200, 0, 80, 0));
}

#[test]
fn id_reuse_is_rejected_with_already_exists() {
    let mut l = setup();
    l.make_offer(MAKER, 7, MINT_A, MINT_B, 50, 25, MAKER_A).unwrap();
    assert_eq!(
        l.make_offer(MAKER, 7, MINT_A, MINT_B, 50, 25, MAKER_A),
        Err(EscrowError::AlreadyExists)
    );
    assert_eq!(l.balance_of(MAKER_A), Some(150));
    // A fresh id works, and the same id is free again for another maker.
    l.make_offer(MAKER, 8, MINT_A, MINT_B, 50, 25, MAKER_A).unwrap();
    l.create_token_account(Addr::User(31), MINT_A, 3, 10).unwrap();
    l.make_offer(3, 7, MINT_A, MINT_B, 10, 5, Addr::User(31)).unwrap();
}

#[test]
fn cancel_by_anyone_but_the_maker_is_unauthorized() {
    let mut l = setup();
    let offer_addr = l.make_offer(MAKER, 7, MINT_A, MINT_B, 100, 50, MAKER_A).unwrap();
    let (vault, _) = derive_vault_address(offer_addr);
    assert_eq!(l.cancel(TAKER, offer_addr, TAKER_A), Err(EscrowError::Unauthorized));
    assert_eq!(balances(&l), (100, 0, 80, 0));
    assert_eq!(l.balance_of(vault), Some(100));
    assert!(l.read_offer(offer_addr).is_ok());
}

#[test]
fn failed_settle_changes_nothing() {
    let mut l = setup();
    let offer_addr = l.make_offer(MAKER, 7, MINT_A, MINT_B, 100, 90, MAKER_A).unwrap();
    let (vault, _) = derive_vault_address(offer_addr);
    // The taker holds 80 of mint B, less than the 90 demanded: the late
    // transfer step would fail, so nothing at all may change.
    assert_eq!(
        l.settle(TAKER, offer_addr, TAKER_B, MAKER_B, TAKER_A),
        Err(EscrowError::InsufficientBalance)
    );
    assert_eq!(balances(&l), (100, 0, 80, 0));
    assert_eq!(l.balance_of(vault), Some(100));
    assert!(l.read_offer(offer_addr).is_ok());
}

#[test]
fn failed_open_changes_nothing() {
    let mut l = setup();
    assert_eq!(
        l.make_offer(MAKER, 7, MINT_A, MINT_B, 300, 50, MAKER_A),
        Err(EscrowError::InsufficientBalance)
    );
    let (offer_addr, _) = derive_offer_address(MAKER, 7);
    assert_eq!(balances(&l), (200, 0, 80, 0));
    assert_eq!(l.read_offer(offer_addr), Err(EscrowError::NotFound));
}

#[test]
fn zero_amounts_are_rejected() {
    let mut l = setup();
    assert_eq!(
        l.make_offer(MAKER, 7, MINT_A, MINT_B, 0, 50, MAKER_A),
        Err(EscrowError::InvalidAmount)
    );
    assert_eq!(
        l.make_offer(MAKER, 7, MINT_A, MINT_B, 100, 0, MAKER_A),
        Err(EscrowError::InvalidAmount)
    );
    assert_eq!(balances(&l), (200, 0, 80, 0));
}

#[test]
fn open_validates_the_funding_account() {
    let mut l = setup();
    // Missing account.
    assert_eq!(
        l.make_offer(MAKER, 7, MINT_A, MINT_B, 100, 50, Addr::User(99)),
        Err(EscrowError::NotFound)
    );
    // An account the maker's signature does not control.
    assert_eq!(
        l.make_offer(MAKER, 7, MINT_A, MINT_B, 100, 50, TAKER_A),
        Err(EscrowError::Unauthorized)
    );
    // An account of the wrong asset.
    assert_eq!(
        l.make_offer(MAKER, 7, MINT_A, MINT_B, 100, 50, MAKER_B),
        Err(EscrowError::MintMismatch)
    );
    assert_eq!(balances(&l), (200, 0, 80, 0));
}

#[test]
fn settle_validates_every_named_account() {
    let mut l = setup();
    let offer_addr = l.make_offer(MAKER, 7, MINT_A, MINT_B, 100, 50, MAKER_A).unwrap();
    // Settling a nonexistent offer.
    let (ghost_addr, _) = derive_offer_address(MAKER, 99);
    assert_eq!(
        l.settle(TAKER, ghost_addr, TAKER_B, MAKER_B, TAKER_A),
        Err(EscrowError::NotFound)
    );
    // Paying from a missing account.
    assert_eq!(
        l.settle(TAKER, offer_addr, Addr::User(99), MAKER_B, TAKER_A),
        Err(EscrowError::NotFound)
    );
    // Paying from an account the taker's signature does not control.
    assert_eq!(
        l.settle(TAKER, offer_addr, MAKER_B, MAKER_B, TAKER_A),
        Err(EscrowError::Unauthorized)
    );
    // Paying with the wrong asset.
    assert_eq!(
        l.settle(TAKER, offer_addr, TAKER_A, MAKER_B, TAKER_A),
        Err(EscrowError::MintMismatch)
    );
    // The maker's receiving account must take the wanted asset.
    assert_eq!(
        l.settle(TAKER, offer_addr, TAKER_B, MAKER_A, TAKER_A),
        Err(EscrowError::MintMismatch)
    );
    // The taker's receiving account must take the offered asset.
    assert_eq!(
        l.settle(TAKER, offer_addr, TAKER_B, MAKER_B, TAKER_B),
        Err(EscrowError::MintMismatch)
    );
    assert_eq!(balances(&l), (100, 0, 80, 0));
}

#[test]
fn cancel_validates_the_refund_account() {
    let mut l = setup();
    let offer_addr = l.make_offer(MAKER, 7, MINT_A, MINT_B, 100, 50, MAKER_A).unwrap();
    assert_eq!(l.cancel(MAKER, offer_addr, Addr::User(99)), Err(EscrowError::NotFound));
    // The refund must land in an account the maker's signature controls.
    assert_eq!(l.cancel(MAKER, offer_addr, TAKER_A), Err(EscrowError::Unauthorized));
    // ...and one of the offered asset.
    assert_eq!(l.cancel(MAKER, offer_addr, MAKER_B), Err(EscrowError::MintMismatch));
    assert_eq!(balances(&l), (100, 0, 80, 0));
}

#[test]
fn account_creation_rejects_collisions_and_oversupply() {
    let mut l = Ledger::new();
    l.create_token_account(MAKER_A, MINT_A, MAKER, u64::MAX).unwrap();
    assert_eq!(
        l.create_token_account(MAKER_A, MINT_A, MAKER, 1),
        Err(EscrowError::AlreadyExists)
    );
    // A second account would push mint A's total supply past u64::MAX.
    assert_eq!(
        l.create_token_account(TAKER_A, MINT_A, TAKER, 1),
        Err(EscrowError::InvalidAmount)
    );
    // The full supply can still move through an offer in one piece.
    l.create_token_account(TAKER_B, MINT_B, TAKER, 5).unwrap();
    l.create_token_account(TAKER_A, MINT_A, TAKER, 0).unwrap();
    l.create_token_account(MAKER_B, MINT_B, MAKER, 0).unwrap();
    let offer_addr = l.make_offer(MAKER, 1, MINT_A, MINT_B, u64::MAX, 5, MAKER_A).unwrap();
    l.settle(TAKER, offer_addr, TAKER_B, MAKER_B, TAKER_A).unwrap();
    assert_eq!(l.balance_of(TAKER_A), Some(u64::MAX));
    assert_eq!(l.balance_of(MAKER_B), Some(5));
}

#[test]
fn maker_may_take_their_own_offer() {
    let mut l = setup();
    l.create_token_account(Addr::User(13), MINT_B, MAKER, 60).unwrap();
    let offer_addr = l.make_offer(MAKER, 7, MINT_A, MINT_B, 100, 50, MAKER_A).unwrap();
    l.settle(MAKER, offer_addr, Addr::User(13), MAKER_B, MAKER_A).unwrap();
    assert_eq!(l.balance_of(MAKER_A), Some(200));
    assert_eq!(l.balance_of(MAKER_B), Some(50));
    assert_eq!(l.balance_of(Addr::User(13)), Some(10));
}

#[test]
fn same_asset_on_both_sides_settles_cleanly() {
    let mut l = Ledger::new();
    l.create_token_account(MAKER_A, MINT_A, MAKER, 100).unwrap();
    l.create_token_account(TAKER_A, MINT_A, TAKER, 40).unwrap();
    let offer_addr = l.make_offer(MAKER, 7, MINT_A, MINT_A, 100, 40, MAKER_A).unwrap();
    // The taker pays 40 of mint A out of the very account that receives the
    // 100-deposit.
    l.settle(TAKER, offer_addr, TAKER_A, MAKER_A, TAKER_A).unwrap();
    assert_eq!(l.balance_of(MAKER_A), Some(40));
    assert_eq!(l.balance_of(TAKER_A), Some(100));
}

#[test]
fn vault_address_collision_rejects_the_offer() {
    let mut l = setup();
    let (offer_addr, _) = derive_offer_address(MAKER, 7);
    let (vault, _) = derive_vault_address(offer_addr);
    // Someone parked an ordinary account at the derived vault address.
    l.create_token_account(vault, MINT_A, TAKER, 1).unwrap();
    assert_eq!(
        l.make_offer(MAKER, 7, MINT_A, MINT_B, 100, 50, MAKER_A),
        Err(EscrowError::AlreadyExists)
    );
    assert_eq!(l.balance_of(MAKER_A), Some(200));
}
