//! The escrow protocol: the three state transitions over the ledger.
//!
//! `make_offer` opens an offer and deposits the offered asset into a fresh
//! custody vault; `settle` exchanges a taker's wanted-asset payment for the
//! whole deposit; `cancel` returns the deposit to the maker.  Each operation
//! is a single atomic unit: every precondition is checked before anything is
//! written, so a rejected operation leaves the ledger exactly as it was, and
//! an accepted one applies every step.

use vstd::prelude::*;

use crate::addr::{
    derive_offer_address, derive_vault_address, offer_address, vault_address, Addr, Authority,
    CANONICAL_BUMP,
};
use crate::error::EscrowError;
use crate::ledger::{
    find_offer, holding, supply, with_balance, Ledger, Offer, OfferRecord, TokenAccount,
};

verus! {

impl Ledger {
    /// The first reason `make_offer` would reject these inputs, or `None`
    /// where it must succeed.  Checked in this order: amounts, address
    /// collisions, then the maker's funding account.
    pub open spec fn open_checks(
        self,
        maker: u64,
        id: u64,
        offered_mint: u64,
        wanted_mint: u64,
        offered_amount: u64,
        wanted_amount: u64,
        source: Addr,
    ) -> Option<EscrowError> {
        if offered_amount == 0 || wanted_amount == 0 {
            Some(EscrowError::InvalidAmount)
        } else if self.offer_at(offer_address(maker, id)) is Some || self.account_at(
            vault_address(maker, id),
        ) is Some {
            Some(EscrowError::AlreadyExists)
        } else {
            match self.account_at(source) {
                Option::None => Some(EscrowError::NotFound),
                Option::Some(src) => if src.owner != Authority::Signer(maker) {
                    Some(EscrowError::Unauthorized)
                } else if src.mint != offered_mint {
                    Some(EscrowError::MintMismatch)
                } else if src.balance < offered_amount {
                    Some(EscrowError::InsufficientBalance)
                } else {
                    None
                },
            }
        }
    }

    /// Opens an offer.  Derives the offer and vault addresses from
    /// `(maker, id)`, records the offer, creates the vault under the
    /// program-derived authority, and moves `offered_amount` of
    /// `offered_mint` from the maker's `source` account into the vault,
    /// authorized by the maker's signature.  On any rejection nothing at all
    /// changes; on success exactly the source account, the new vault and the
    /// new offer record change, and no mint's total supply moves.
    pub fn make_offer(
        &mut self,
        maker: u64,
        id: u64,
        offered_mint: u64,
        wanted_mint: u64,
        offered_amount: u64,
        wanted_amount: u64,
        source: Addr,
    ) -> (r: Result<Addr, EscrowError>)
        requires
            old(self).wf(),
        ensures
            final(self).wf(),
            (r is Err) <==> old(self).open_checks(
                maker,
                id,
                offered_mint,
                wanted_mint,
                offered_amount,
                wanted_amount,
                source,
            ) is Some,
            r matches Err(e) ==> {
                &&& Some(e) == old(self).open_checks(
                    maker,
                    id,
                    offered_mint,
                    wanted_mint,
                    offered_amount,
                    wanted_amount,
                    source,
                )
                &&& final(self).accounts@ == old(self).accounts@
                &&& final(self).offers@ == old(self).offers@
            },
            r is Ok ==> {
                &&& r == Ok::<Addr, EscrowError>(offer_address(maker, id))
                &&& final(self).offer_at(offer_address(maker, id)) == Some(
                    (Offer {
                        id,
                        maker,
                        offered_mint,
                        wanted_mint,
                        wanted_amount,
                        vault: vault_address(maker, id),
                        bump: CANONICAL_BUMP,
                    }),
                )
                &&& forall|a: Addr|
                    a != offer_address(maker, id) ==> #[trigger] final(self).offer_at(a)
                        == old(self).offer_at(a)
                &&& final(self).account_at(vault_address(maker, id)) == Some(
                    (TokenAccount {
                        addr: vault_address(maker, id),
                        mint: offered_mint,
                        owner: Authority::Derived(offer_address(maker, id), CANONICAL_BUMP),
                        balance: offered_amount,
                    }),
                )
                &&& match old(self).account_at(source) {
                    Option::Some(src) => final(self).account_at(source) == Some(
                        with_balance(src, (src.balance - offered_amount) as u64),
                    ),
                    Option::None => false,
                }
                &&& forall|a: Addr|
                    a != vault_address(maker, id) && a != source ==> #[trigger] final(self)
                        .account_at(a) == old(self).account_at(a)
                &&& forall|m: u64| #[trigger] final(self).supply_of(m) == old(self).supply_of(m)
            },
    {
        if offered_amount == 0 || wanted_amount == 0 {
            return Err(EscrowError::InvalidAmount);
        }
        let (oaddr, _) = derive_offer_address(maker, id);
        let (vaddr, bump) = derive_vault_address(oaddr);
        if self.offer_index(oaddr).is_some() {
            return Err(EscrowError::AlreadyExists);
        }
        if self.account_index(vaddr).is_some() {
            return Err(EscrowError::AlreadyExists);
        }
        let si = match self.account_index(source) {
            Some(i) => i,
            None => {
                return Err(EscrowError::NotFound);
            },
        };
        let src = self.accounts[si];
        if src.owner != Authority::Signer(maker) {
            return Err(EscrowError::Unauthorized);
        }
        if src.mint != offered_mint {
            return Err(EscrowError::MintMismatch);
        }
        if src.balance < offered_amount {
            return Err(EscrowError::InsufficientBalance);
        }
        let ghost pre = *self;
        proof {
            assert(source != vaddr);
        }
        self.set_balance(si, src.balance - offered_amount);
        let ghost mid = *self;
        let vault = TokenAccount {
            addr: vaddr,
            mint: offered_mint,
            owner: Authority::Derived(oaddr, bump),
            balance: offered_amount,
        };
        self.push_account(vault);
        let ghost mid2 = *self;
        let offer = Offer {
            id,
            maker,
            offered_mint,
            wanted_mint,
            wanted_amount,
            vault: vaddr,
            bump,
        };
        self.push_offer(OfferRecord { addr: oaddr, offer });
        proof {
            // Per-address account view: only `source` and the vault changed.
            assert forall|a: Addr| a != vaddr && a != source implies #[trigger] self.account_at(a)
                == pre.account_at(a) by {
                assert(mid.account_at(a) == pre.account_at(a));
                assert(mid2.account_at(a) == mid.account_at(a));
                assert(self.account_at(a) == mid2.account_at(a));
            }
            assert(self.account_at(vaddr) == Some(vault));
            assert(pre.accounts@[si as int].addr == source);
            assert(mid.account_at(source) == Some(
                with_balance(src, (src.balance - offered_amount) as u64),
            ));
            assert(mid2.account_at(source) == mid.account_at(source));
            assert(self.account_at(source) == Some(
                with_balance(src, (src.balance - offered_amount) as u64),
            ));
            // Per-address offer view: only the new record appeared.
            assert forall|a: Addr| a != oaddr implies #[trigger] self.offer_at(a) == pre.offer_at(
                a,
            ) by {
                assert(mid2.offer_at(a) == pre.offer_at(a));
            }
            // No mint's supply moved: the debit equals the vault's deposit.
            assert forall|m: u64| #[trigger] self.supply_of(m) == pre.supply_of(m) by {
                assert(mid.supply_of(m) == pre.supply_of(m) - holding(src, m) + holding(
                    with_balance(src, (src.balance - offered_amount) as u64),
                    m,
                ));
                assert(mid2.supply_of(m) == mid.supply_of(m) + holding(vault, m));
                assert(self.supply_of(m) == mid2.supply_of(m));
            }
            // Well-formedness: every previously live offer kept its vault.
            assert forall|j: int| 0 <= j < self.offers@.len() implies self.offer_record_wf(
                #[trigger] self.offers@[j],
            ) by {
                if j < self.offers@.len() - 1 {
                    let rec = pre.offers@[j];
                    assert(self.offers@[j] == rec);
                    assert(pre.offer_record_wf(rec));
                    assert(pre.account_at(rec.offer.vault) is Some);
                    assert(rec.offer.vault != vaddr);
                    if rec.offer.vault == source {
                        assert(pre.account_at(source) == Some(src));
                        assert(src.owner == Authority::Signer(maker));
                        assert(false);
                    }
                    assert(self.account_at(rec.offer.vault) == pre.account_at(rec.offer.vault));
                } else {
                    assert(self.offers@[j] == OfferRecord { addr: oaddr, offer });
                    assert(self.account_at(vaddr) == Some(vault));
                }
            }
            assert forall|m: u64| #[trigger] supply(self.accounts@, m) <= u64::MAX by {
                assert(self.supply_of(m) == pre.supply_of(m));
                assert(supply(pre.accounts@, m) <= u64::MAX);
            }
        }
        Ok(oaddr)
    }

    /// The first reason `settle` would reject these inputs, or `None` where
    /// it must succeed.  Checked in this order: the offer, the taker's
    /// paying account, the maker's receiving account, the taker's receiving
    /// account.
    pub open spec fn settle_checks(
        self,
        taker: u64,
        offer_addr: Addr,
        taker_source: Addr,
        maker_dest: Addr,
        taker_dest: Addr,
    ) -> Option<EscrowError> {
        match self.offer_at(offer_addr) {
            Option::None => Some(EscrowError::NotFound),
            Option::Some(off) => match self.account_at(taker_source) {
                Option::None => Some(EscrowError::NotFound),
                Option::Some(ts) => if ts.owner != Authority::Signer(taker) {
                    Some(EscrowError::Unauthorized)
                } else if ts.mint != off.wanted_mint {
                    Some(EscrowError::MintMismatch)
                } else if ts.balance < off.wanted_amount {
                    Some(EscrowError::InsufficientBalance)
                } else {
                    match self.account_at(maker_dest) {
                        Option::None => Some(EscrowError::NotFound),
                        Option::Some(md) => if md.owner != Authority::Signer(off.maker) {
                            Some(EscrowError::Unauthorized)
                        } else if md.mint != off.wanted_mint {
                            Some(EscrowError::MintMismatch)
                        } else {
                            match self.account_at(taker_dest) {
                                Option::None => Some(EscrowError::NotFound),
                                Option::Some(td) => if td.owner != Authority::Signer(taker) {
                                    Some(EscrowError::Unauthorized)
                                } else if td.mint != off.offered_mint {
                                    Some(EscrowError::MintMismatch)
                                } else {
                                    None
                                },
                            }
                        },
                    }
                },
            },
        }
    }

    /// Settles the offer at `offer_addr`: moves `wanted_amount` of the
    /// wanted asset from the taker's paying account to the maker's receiving
    /// account, authorized by the taker's signature, then moves the vault's
    /// entire deposit to the taker's receiving account under the
    /// program-derived vault authority, and closes both the vault and the
    /// offer record.  The whole exchange happens, or none of it: a rejected
    /// settle changes nothing.  On success the taker gains exactly the
    /// deposit, the maker gains exactly `wanted_amount`, no other balance
    /// moves, and no mint's total supply changes.
    pub fn settle(
        &mut self,
        taker: u64,
        offer_addr: Addr,
        taker_source: Addr,
        maker_dest: Addr,
        taker_dest: Addr,
    ) -> (r: Result<(), EscrowError>)
        requires
            old(self).wf(),
        ensures
            final(self).wf(),
            (r is Err) <==> old(self).settle_checks(
                taker,
                offer_addr,
                taker_source,
                maker_dest,
                taker_dest,
            ) is Some,
            r matches Err(e) ==> {
                &&& Some(e) == old(self).settle_checks(
                    taker,
                    offer_addr,
                    taker_source,
                    maker_dest,
                    taker_dest,
                )
                &&& final(self).accounts@ == old(self).accounts@
                &&& final(self).offers@ == old(self).offers@
            },
            r is Ok ==> ({
                let off = old(self).offer_at(offer_addr)->Some_0;
                let dep = old(self).balance_at(off.vault);
                &&& final(self).offer_at(offer_addr) is None
                &&& forall|a: Addr|
                    a != offer_addr ==> #[trigger] final(self).offer_at(a) == old(self).offer_at(a)
                &&& final(self).account_at(off.vault) is None
                &&& forall|a: Addr|
                    a != off.vault ==> crate::ledger::same_account_shape(
                        old(self).account_at(a),
                        #[trigger] final(self).account_at(a),
                    )
                &&& forall|a: Addr|
                    a != off.vault ==> #[trigger] final(self).balance_at(a) == old(self).balance_at(
                        a,
                    ) + (if a == maker_dest {
                        off.wanted_amount as int
                    } else {
                        0
                    }) + (if a == taker_dest {
                        dep
                    } else {
                        0
                    }) - (if a == taker_source {
                        off.wanted_amount as int
                    } else {
                        0
                    })
                &&& forall|m: u64| #[trigger] final(self).supply_of(m) == old(self).supply_of(m)
            }),
    {
        let oi = match self.offer_index(offer_addr) {
            Some(i) => i,
            None => {
                return Err(EscrowError::NotFound);
            },
        };
        let off = self.offers[oi].offer;
        proof {
            assert(self.offer_record_wf(self.offers@[oi as int]));
            assert(self.offer_at(offer_addr) == Some(off));
            assert(self.account_at(off.vault) is Some);
        }
        let vi = self.account_index(off.vault).unwrap();
        let vault = self.accounts[vi];
        let ti = match self.account_index(taker_source) {
            Some(i) => i,
            None => {
                return Err(EscrowError::NotFound);
            },
        };
        let ts = self.accounts[ti];
        if ts.owner != Authority::Signer(taker) {
            return Err(EscrowError::Unauthorized);
        }
        if ts.mint != off.wanted_mint {
            return Err(EscrowError::MintMismatch);
        }
        if ts.balance < off.wanted_amount {
            return Err(EscrowError::InsufficientBalance);
        }
        let mi = match self.account_index(maker_dest) {
            Some(i) => i,
            None => {
                return Err(EscrowError::NotFound);
            },
        };
        let md = self.accounts[mi];
        if md.owner != Authority::Signer(off.maker) {
            return Err(EscrowError::Unauthorized);
        }
        if md.mint != off.wanted_mint {
            return Err(EscrowError::MintMismatch);
        }
        let di = match self.account_index(taker_dest) {
            Some(i) => i,
            None => {
                return Err(EscrowError::NotFound);
            },
        };
        let td = self.accounts[di];
        if td.owner != Authority::Signer(taker) {
            return Err(EscrowError::Unauthorized);
        }
        if td.mint != off.offered_mint {
            return Err(EscrowError::MintMismatch);
        }
        let deposit = vault.balance;
        let ghost pre = *self;
        proof {
            // The vault is held by the program-derived authority, the three
            // user accounts by signatures, so none of them is the vault.
            assert(taker_source != off.vault);
            assert(maker_dest != off.vault);
            assert(taker_dest != off.vault);
        }
        // The taker pays the maker: debit the taker's paying account...
        self.set_balance(ti, ts.balance - off.wanted_amount);
        let ghost s1 = *self;
        let md_now = self.accounts[mi];
        proof {
            // ...and the credit below cannot overflow: the destination's
            // balance is bounded by the wanted mint's supply, just debited.
            assert(s1.accounts@[mi as int] == md_now);
            assert(md_now.mint == off.wanted_mint);
            crate::ledger::lemma_find_account_unique(s1.accounts@, mi as int);
            crate::ledger::lemma_holding_le_supply(s1.accounts@, mi as int, off.wanted_mint);
            assert(s1.supply_of(off.wanted_mint) == pre.supply_of(off.wanted_mint)
                - off.wanted_amount);
            assert(supply(pre.accounts@, off.wanted_mint) <= u64::MAX);
            assert(md_now.balance + off.wanted_amount <= u64::MAX);
        }
        self.set_balance(mi, md_now.balance + off.wanted_amount);
        let ghost s2 = *self;
        // Empty the vault under the program-derived authority...
        proof {
            assert(s2.accounts@[vi as int] == vault);
        }
        self.set_balance(vi, 0);
        let ghost s3 = *self;
        let td_now = self.accounts[di];
        proof {
            // ...and credit the whole deposit to the taker, bounded by the
            // offered mint's supply from which the vault was just debited.
            assert(s3.accounts@[di as int] == td_now);
            assert(td_now.mint == off.offered_mint);
            crate::ledger::lemma_find_account_unique(s3.accounts@, di as int);
            crate::ledger::lemma_holding_le_supply(s3.accounts@, di as int, off.offered_mint);
            assert(s1.supply_of(off.offered_mint) == pre.supply_of(off.offered_mint) - (
            if off.offered_mint == off.wanted_mint {
                off.wanted_amount as int
            } else {
                0
            }));
            assert(s2.supply_of(off.offered_mint) == s1.supply_of(off.offered_mint) + (
            if off.offered_mint == off.wanted_mint {
                off.wanted_amount as int
            } else {
                0
            }));
            assert(s3.supply_of(off.offered_mint) == pre.supply_of(off.offered_mint) - deposit);
            assert(supply(pre.accounts@, off.offered_mint) <= u64::MAX);
            assert(td_now.balance + deposit <= u64::MAX);
        }
        self.set_balance(di, td_now.balance + deposit);
        let ghost s4 = *self;
        // Close the vault and delete the offer record.
        self.remove_account(vi);
        let ghost s5 = *self;
        self.remove_offer(oi);
        proof {
            // The offer record is gone and no other record moved.
            assert(s5.offers@ == pre.offers@);
            assert(s5.offers@[oi as int].addr == offer_addr);
            assert(self.offer_at(offer_addr) is None);
            assert forall|a: Addr| a != offer_addr implies #[trigger] self.offer_at(a)
                == pre.offer_at(a) by {
                assert(self.offer_at(a) == s5.offer_at(a));
            }
            // The vault account is gone.
            assert(s4.accounts@[vi as int] == with_balance(vault, 0u64));
            assert(s5.account_at(off.vault) is None);
            assert(self.account_at(off.vault) is None);
            // Every other account kept its address, mint and owner, and its
            // balance moved by exactly the settlement's in- and out-flows.
            assert forall|a: Addr| a != off.vault implies {
                &&& crate::ledger::same_account_shape(
                    pre.account_at(a),
                    #[trigger] self.account_at(a),
                )
                &&& self.balance_at(a) == pre.balance_at(a) + (if a == maker_dest {
                    off.wanted_amount as int
                } else {
                    0
                }) + (if a == taker_dest {
                    deposit as int
                } else {
                    0
                }) - (if a == taker_source {
                    off.wanted_amount as int
                } else {
                    0
                })
            } by {
                if a == taker_source {
                    assert(s1.account_at(a) == Some(
                        with_balance(ts, (ts.balance - off.wanted_amount) as u64),
                    ));
                } else {
                    assert(s1.account_at(a) == pre.account_at(a));
                }
                if a == maker_dest {
                    assert(s1.account_at(a) == Some(md_now));
                    assert(s2.account_at(a) == Some(
                        with_balance(md_now, (md_now.balance + off.wanted_amount) as u64),
                    ));
                } else {
                    assert(s2.account_at(a) == s1.account_at(a));
                }
                assert(s3.account_at(a) == s2.account_at(a));
                if a == taker_dest {
                    assert(s3.account_at(a) == Some(td_now));
                    assert(s4.account_at(a) == Some(
                        with_balance(td_now, (td_now.balance + deposit) as u64),
                    ));
                } else {
                    assert(s4.account_at(a) == s3.account_at(a));
                }
                assert(s5.account_at(a) == s4.account_at(a));
                assert(self.account_at(a) == s5.account_at(a));
            }
            // No mint's total supply moved.
            assert forall|m: u64| #[trigger] self.supply_of(m) == pre.supply_of(m) by {
                assert(s1.supply_of(m) == pre.supply_of(m) - holding(ts, m) + holding(
                    with_balance(ts, (ts.balance - off.wanted_amount) as u64),
                    m,
                ));
                assert(s2.supply_of(m) == s1.supply_of(m) - holding(md_now, m) + holding(
                    with_balance(md_now, (md_now.balance + off.wanted_amount) as u64),
                    m,
                ));
                assert(s3.supply_of(m) == s2.supply_of(m) - holding(vault, m) + holding(
                    with_balance(vault, 0u64),
                    m,
                ));
                assert(s4.supply_of(m) == s3.supply_of(m) - holding(td_now, m) + holding(
                    with_balance(td_now, (td_now.balance + deposit) as u64),
                    m,
                ));
                assert(s5.supply_of(m) == s4.supply_of(m) - holding(with_balance(vault, 0u64), m));
                assert(self.supply_of(m) == s5.supply_of(m));
            }
            // Well-formedness: every remaining offer kept its vault intact.
            assert forall|j: int| 0 <= j < self.offers@.len() implies self.offer_record_wf(
                #[trigger] self.offers@[j],
            ) by {
                pre.offers@.remove_ensures(oi as int);
                let rec = self.offers@[j];
                let jj: int = if j < oi as int {
                    j
                } else {
                    j + 1
                };
                assert(rec == pre.offers@[jj]);
                assert(pre.offer_record_wf(rec));
                assert(jj != oi as int);
                assert(rec.addr != pre.offers@[oi as int].addr);
                assert(pre.offers@[oi as int].offer == off);
                assert(rec.offer.vault != off.vault);
                assert(pre.account_at(rec.offer.vault) is Some);
                assert(rec.offer.vault != taker_source);
                assert(rec.offer.vault != maker_dest);
                assert(rec.offer.vault != taker_dest);
                assert(crate::ledger::same_account_shape(
                    pre.account_at(rec.offer.vault),
                    self.account_at(rec.offer.vault),
                ));
                assert(self.balance_at(rec.offer.vault) == pre.balance_at(rec.offer.vault));
                assert(self.account_at(rec.offer.vault) == pre.account_at(rec.offer.vault));
            }
            assert forall|m: u64| #[trigger] supply(self.accounts@, m) <= u64::MAX by {
                assert(self.supply_of(m) == pre.supply_of(m));
                assert(supply(pre.accounts@, m) <= u64::MAX);
            }
        }
        Ok(())
    }

    /// The first reason `cancel` would reject these inputs, or `None` where
    /// it must succeed.  Checked in this order: the offer, the signer, the
    /// maker's refund account.
    pub open spec fn cancel_checks(
        self,
        signer: u64,
        offer_addr: Addr,
        maker_dest: Addr,
    ) -> Option<EscrowError> {
        match self.offer_at(offer_addr) {
            Option::None => Some(EscrowError::NotFound),
            Option::Some(off) => if signer != off.maker {
                Some(EscrowError::Unauthorized)
            } else {
                match self.account_at(maker_dest) {
                    Option::None => Some(EscrowError::NotFound),
                    Option::Some(d) => if d.owner != Authority::Signer(signer) {
                        Some(EscrowError::Unauthorized)
                    } else if d.mint != off.offered_mint {
                        Some(EscrowError::MintMismatch)
                    } else {
                        None
                    },
                }
            },
        }
    }

    /// Cancels the offer at `offer_addr`.  Only the recorded maker may
    /// cancel: any other signer is rejected with `Unauthorized` and nothing
    /// changes.  On success the vault's whole deposit returns to the maker's
    /// own account of the offered asset, under the program-derived vault
    /// authority, and the vault and the offer record cease to exist; no
    /// other balance moves and no mint's total supply changes.
    pub fn cancel(&mut self, signer: u64, offer_addr: Addr, maker_dest: Addr) -> (r: Result<
        (),
        EscrowError,
    >)
        requires
            old(self).wf(),
        ensures
            final(self).wf(),
            (r is Err) <==> old(self).cancel_checks(signer, offer_addr, maker_dest) is Some,
            r matches Err(e) ==> {
                &&& Some(e) == old(self).cancel_checks(signer, offer_addr, maker_dest)
                &&& final(self).accounts@ == old(self).accounts@
                &&& final(self).offers@ == old(self).offers@
            },
            r is Ok ==> ({
                let off = old(self).offer_at(offer_addr)->Some_0;
                let dep = old(self).balance_at(off.vault);
                &&& final(self).offer_at(offer_addr) is None
                &&& forall|a: Addr|
                    a != offer_addr ==> #[trigger] final(self).offer_at(a) == old(self).offer_at(a)
                &&& final(self).account_at(off.vault) is None
                &&& forall|a: Addr|
                    a != off.vault ==> crate::ledger::same_account_shape(
                        old(self).account_at(a),
                        #[trigger] final(self).account_at(a),
                    )
                &&& forall|a: Addr|
                    a != off.vault ==> #[trigger] final(self).balance_at(a) == old(self).balance_at(
                        a,
                    ) + (if a == maker_dest {
                        dep
                    } else {
                        0
                    })
                &&& forall|m: u64| #[trigger] final(self).supply_of(m) == old(self).supply_of(m)
            }),
    {
        let oi = match self.offer_index(offer_addr) {
            Some(i) => i,
            None => {
                return Err(EscrowError::NotFound);
            },
        };
        let off = self.offers[oi].offer;
        proof {
            assert(self.offer_record_wf(self.offers@[oi as int]));
            assert(self.offer_at(offer_addr) == Some(off));
            assert(self.account_at(off.vault) is Some);
        }
        if signer != off.maker {
            return Err(EscrowError::Unauthorized);
        }
        let vi = self.account_index(off.vault).unwrap();
        let vault = self.accounts[vi];
        let mi = match self.account_index(maker_dest) {
            Some(i) => i,
            None => {
                return Err(EscrowError::NotFound);
            },
        };
        let md = self.accounts[mi];
        if md.owner != Authority::Signer(signer) {
            return Err(EscrowError::Unauthorized);
        }
        if md.mint != off.offered_mint {
            return Err(EscrowError::MintMismatch);
        }
        let deposit = vault.balance;
        let ghost pre = *self;
        proof {
            // The refund account is signature-held, so it is not the vault.
            assert(maker_dest != off.vault);
        }
        // Empty the vault under the program-derived authority...
        self.set_balance(vi, 0);
        let ghost s1 = *self;
        let md_now = self.accounts[mi];
        proof {
            // ...and the refund cannot overflow: the destination's balance
            // is bounded by the offered mint's supply, just debited.
            assert(s1.accounts@[mi as int] == md_now);
            assert(md_now == md);
            crate::ledger::lemma_find_account_unique(s1.accounts@, mi as int);
            crate::ledger::lemma_holding_le_supply(s1.accounts@, mi as int, off.offered_mint);
            assert(s1.supply_of(off.offered_mint) == pre.supply_of(off.offered_mint) - deposit);
            assert(supply(pre.accounts@, off.offered_mint) <= u64::MAX);
            assert(md_now.balance + deposit <= u64::MAX);
        }
        self.set_balance(mi, md_now.balance + deposit);
        let ghost s2 = *self;
        // Close the vault and delete the offer record.
        self.remove_account(vi);
        let ghost s3 = *self;
        self.remove_offer(oi);
        proof {
            // The offer record is gone and no other record moved.
            assert(s3.offers@ == pre.offers@);
            assert(s3.offers@[oi as int].addr == offer_addr);
            assert(self.offer_at(offer_addr) is None);
            assert forall|a: Addr| a != offer_addr implies #[trigger] self.offer_at(a)
                == pre.offer_at(a) by {
                assert(self.offer_at(a) == s3.offer_at(a));
            }
            // The vault account is gone.
            assert(s2.accounts@[vi as int] == with_balance(vault, 0u64));
            assert(s3.account_at(off.vault) is None);
            assert(self.account_at(off.vault) is None);
            // Every other account kept its address, mint and owner, and only
            // the maker's refund account gained: exactly the deposit.
            assert forall|a: Addr| a != off.vault implies {
                &&& crate::ledger::same_account_shape(
                    pre.account_at(a),
                    #[trigger] self.account_at(a),
                )
                &&& self.balance_at(a) == pre.balance_at(a) + (if a == maker_dest {
                    deposit as int
                } else {
                    0
                })
            } by {
                assert(s1.account_at(a) == pre.account_at(a));
                if a == maker_dest {
                    assert(s1.account_at(a) == Some(md_now));
                    assert(s2.account_at(a) == Some(
                        with_balance(md_now, (md_now.balance + deposit) as u64),
                    ));
                } else {
                    assert(s2.account_at(a) == s1.account_at(a));
                }
                assert(s3.account_at(a) == s2.account_at(a));
                assert(self.account_at(a) == s3.account_at(a));
            }
            // No mint's total supply moved.
            assert forall|m: u64| #[trigger] self.supply_of(m) == pre.supply_of(m) by {
                assert(s1.supply_of(m) == pre.supply_of(m) - holding(vault, m) + holding(
                    with_balance(vault, 0u64),
                    m,
                ));
                assert(s2.supply_of(m) == s1.supply_of(m) - holding(md_now, m) + holding(
                    with_balance(md_now, (md_now.balance + deposit) as u64),
                    m,
                ));
                assert(s3.supply_of(m) == s2.supply_of(m) - holding(with_balance(vault, 0u64), m));
                assert(self.supply_of(m) == s3.supply_of(m));
            }
            // Well-formedness: every remaining offer kept its vault intact.
            assert forall|j: int| 0 <= j < self.offers@.len() implies self.offer_record_wf(
                #[trigger] self.offers@[j],
            ) by {
                pre.offers@.remove_ensures(oi as int);
                let rec = self.offers@[j];
                let jj: int = if j < oi as int {
                    j
                } else {
                    j + 1
                };
                assert(rec == pre.offers@[jj]);
                assert(pre.offer_record_wf(rec));
                assert(jj != oi as int);
                assert(rec.addr != pre.offers@[oi as int].addr);
                assert(pre.offers@[oi as int].offer == off);
                assert(rec.offer.vault != off.vault);
                assert(pre.account_at(rec.offer.vault) is Some);
                assert(rec.offer.vault != maker_dest);
                assert(crate::ledger::same_account_shape(
                    pre.account_at(rec.offer.vault),
                    self.account_at(rec.offer.vault),
                ));
                assert(self.balance_at(rec.offer.vault) == pre.balance_at(rec.offer.vault));
                assert(self.account_at(rec.offer.vault) == pre.account_at(rec.offer.vault));
            }
            assert forall|m: u64| #[trigger] supply(self.accounts@, m) <= u64::MAX by {
                assert(self.supply_of(m) == pre.supply_of(m));
                assert(supply(pre.accounts@, m) <= u64::MAX);
            }
        }
        Ok(())
    }
}

// ---------------------------------------------------------------------------
// Laws of the protocol.
// ---------------------------------------------------------------------------

/// A live offer always sits behind its vault: on a well-formed ledger, an
/// offer exists in storage only together with a non-empty account of the
/// offered asset at the offer's recorded vault address, owned by the
/// program-derived authority of the offer's storage address and recorded
/// salt.  Settling or cancelling removes both in the same atomic step, so
/// there is never an empty offer or an orphaned vault.
pub proof fn lemma_live_offer_vault(l: Ledger, a: Addr)
    requires
        l.wf(),
        l.offer_at(a) is Some,
    ensures
        ({
            let off = l.offer_at(a)->Some_0;
            &&& a == offer_address(off.maker, off.id)
            &&& off.vault == vault_address(off.maker, off.id)
            &&& off.wanted_amount > 0
            &&& match l.account_at(off.vault) {
                Option::Some(v) => {
                    &&& v.mint == off.offered_mint
                    &&& v.owner == Authority::Derived(a, off.bump)
                    &&& v.balance > 0
                },
                Option::None => false,
            }
        }),
{
    crate::ledger::lemma_find_offer_present(l.offers@, a);
    let i = choose|i: int| 0 <= i < l.offers@.len() && l.offers@[i] == find_offer(l.offers@, a)->Some_0;
    assert(l.offer_record_wf(l.offers@[i]));
}

/// Exactly-once settlement: once the offer record at `offer_addr` is gone —
/// as it is after any successful `settle` or `cancel` — every further
/// `settle` or `cancel` against that address reports `NotFound`, whatever
/// accounts or identities it names.
pub proof fn lemma_exactly_once_settlement(
    l: Ledger,
    offer_addr: Addr,
    taker: u64,
    taker_source: Addr,
    maker_dest: Addr,
    taker_dest: Addr,
    signer: u64,
    refund_dest: Addr,
)
    requires
        l.offer_at(offer_addr) is None,
    ensures
        l.settle_checks(taker, offer_addr, taker_source, maker_dest, taker_dest) == Some(
            EscrowError::NotFound,
        ),
        l.cancel_checks(signer, offer_addr, refund_dest) == Some(EscrowError::NotFound),
{
}

/// Id reuse is rejected: while an offer opened by `maker` with `id` is
/// live, every further `make_offer` naming the same `(maker, id)` pair is
/// rejected with `AlreadyExists`, whatever nonzero amounts, mints or
/// funding account it names.
pub proof fn lemma_id_reuse_rejected(
    l: Ledger,
    maker: u64,
    id: u64,
    offered_mint: u64,
    wanted_mint: u64,
    offered_amount: u64,
    wanted_amount: u64,
    source: Addr,
)
    requires
        offered_amount > 0,
        wanted_amount > 0,
        l.offer_at(offer_address(maker, id)) is Some,
    ensures
        l.open_checks(
            maker,
            id,
            offered_mint,
            wanted_mint,
            offered_amount,
            wanted_amount,
            source,
        ) == Some(EscrowError::AlreadyExists),
{
}

/// Only the maker may cancel: a `cancel` whose signer differs from the
/// offer's recorded maker is rejected with `Unauthorized`, whatever refund
/// account it names — and a rejected `cancel` changes nothing.
pub proof fn lemma_cancel_requires_maker(l: Ledger, signer: u64, offer_addr: Addr, dest: Addr)
    requires
        l.offer_at(offer_addr) is Some,
        signer != l.offer_at(offer_addr)->Some_0.maker,
    ensures
        l.cancel_checks(signer, offer_addr, dest) == Some(EscrowError::Unauthorized),
{
}

} // verus!
