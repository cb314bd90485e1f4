//! The ledger model: token accounts, offer records, and the spec-level view
//! of both, together with the lemmas that relate the concrete sequences to
//! the per-address and per-mint views.
//!
//! The ledger is the single source of truth.  Its well-formedness invariant
//! ties every live offer to a non-empty custody vault owned by the offer's
//! program-derived authority, and bounds each mint's total supply so that no
//! transfer can overflow a balance.

use vstd::prelude::*;

use crate::addr::{Addr, Authority};
use crate::error::EscrowError;

verus! {

/// A fungible-token account: an address, the asset it holds, the authority
/// that may move funds out of it, and its balance.
#[derive(Clone, Copy, Debug, PartialEq, Eq, Structural)]
pub struct TokenAccount {
    pub addr: Addr,
    pub mint: u64,
    pub owner: Authority,
    pub balance: u64,
}

/// An offer: the maker's identity and chosen id, the two assets being
/// exchanged, the amount of `wanted_mint` the maker demands, the address of
/// the custody vault holding the deposit, and the recorded derivation salt.
/// The record is immutable while it exists; `wanted_amount` never changes.
#[derive(Clone, Copy, Debug, PartialEq, Eq, Structural)]
pub struct Offer {
    pub id: u64,
    pub maker: u64,
    pub offered_mint: u64,
    pub wanted_mint: u64,
    pub wanted_amount: u64,
    pub vault: Addr,
    pub bump: u8,
}

/// An offer record as stored on the ledger, keyed by its storage address.
#[derive(Clone, Copy, Debug, PartialEq, Eq, Structural)]
pub struct OfferRecord {
    pub addr: Addr,
    pub offer: Offer,
}

/// The canonical ledger state: every token account and every live offer.
pub struct Ledger {
    pub accounts: Vec<TokenAccount>,
    pub offers: Vec<OfferRecord>,
}

// ---------------------------------------------------------------------------
// Spec-level views of the account and offer sequences.
// ---------------------------------------------------------------------------

/// No two accounts share an address.
pub open spec fn distinct_account_addrs(s: Seq<TokenAccount>) -> bool {
    forall|i: int, j: int| 0 <= i < j < s.len() ==> s[i].addr != s[j].addr
}

/// No two offer records share an address.
pub open spec fn distinct_offer_addrs(s: Seq<OfferRecord>) -> bool {
    forall|i: int, j: int| 0 <= i < j < s.len() ==> s[i].addr != s[j].addr
}

/// The account stored at address `a`, if any.
pub open spec fn find_account(s: Seq<TokenAccount>, a: Addr) -> Option<TokenAccount>
    decreases s.len(),
{
    if s.len() == 0 {
        None
    } else if s.last().addr == a {
        Some(s.last())
    } else {
        find_account(s.drop_last(), a)
    }
}

/// The offer record stored at address `a`, if any.
pub open spec fn find_offer(s: Seq<OfferRecord>, a: Addr) -> Option<OfferRecord>
    decreases s.len(),
{
    if s.len() == 0 {
        None
    } else if s.last().addr == a {
        Some(s.last())
    } else {
        find_offer(s.drop_last(), a)
    }
}

/// What account `x` adds to the total supply of mint `m`.
pub open spec fn holding(x: TokenAccount, m: u64) -> int {
    if x.mint == m {
        x.balance as int
    } else {
        0
    }
}

/// The total supply of mint `m` across the accounts of `s`.
pub open spec fn supply(s: Seq<TokenAccount>, m: u64) -> int
    decreases s.len(),
{
    if s.len() == 0 {
        0
    } else {
        supply(s.drop_last(), m) + holding(s.last(), m)
    }
}

/// Whether two optional accounts agree on everything but their balance:
/// both absent, or both present with the same address, mint and owner.
pub open spec fn same_account_shape(x: Option<TokenAccount>, y: Option<TokenAccount>) -> bool {
    match (x, y) {
        (Option::None, Option::None) => true,
        (Option::Some(p), Option::Some(q)) => p.addr == q.addr && p.mint == q.mint && p.owner
            == q.owner,
        _ => false,
    }
}

impl Ledger {
    /// The account at address `a`, if any.
    pub open spec fn account_at(self, a: Addr) -> Option<TokenAccount> {
        find_account(self.accounts@, a)
    }

    /// The balance held at address `a`; zero where no account exists.
    pub open spec fn balance_at(self, a: Addr) -> int {
        match self.account_at(a) {
            Option::Some(x) => x.balance as int,
            Option::None => 0,
        }
    }

    /// The offer stored at address `a`, if any.
    pub open spec fn offer_at(self, a: Addr) -> Option<Offer> {
        match find_offer(self.offers@, a) {
            Option::Some(r) => Some(r.offer),
            Option::None => None,
        }
    }

    /// The total supply of mint `m` on this ledger.
    pub open spec fn supply_of(self, m: u64) -> int {
        supply(self.accounts@, m)
    }

    /// A live offer record is internally consistent: it sits at the address
    /// derived from its maker and id, demands a positive amount, and its
    /// vault is a non-empty account of the offered asset at the derived
    /// vault address, owned by the offer's program-derived authority.
    pub open spec fn offer_record_wf(self, rec: OfferRecord) -> bool {
        &&& rec.addr == crate::addr::offer_address(rec.offer.maker, rec.offer.id)
        &&& rec.offer.vault == crate::addr::vault_address(rec.offer.maker, rec.offer.id)
        &&& rec.offer.wanted_amount > 0
        &&& match self.account_at(rec.offer.vault) {
            Option::Some(v) => {
                &&& v.mint == rec.offer.offered_mint
                &&& v.owner == Authority::Derived(rec.addr, rec.offer.bump)
                &&& v.balance > 0
            },
            Option::None => false,
        }
    }

    /// The ledger's well-formedness invariant: addresses are unique, every
    /// live offer is tied to its non-empty vault, and no mint's total supply
    /// exceeds what a single balance can hold (so transfers cannot overflow).
    pub open spec fn wf(self) -> bool {
        &&& distinct_account_addrs(self.accounts@)
        &&& distinct_offer_addrs(self.offers@)
        &&& forall|j: int|
            0 <= j < self.offers@.len() ==> self.offer_record_wf(#[trigger] self.offers@[j])
        &&& forall|m: u64| #[trigger] supply(self.accounts@, m) <= u64::MAX
    }
}

// ---------------------------------------------------------------------------
// Lemmas about find_account / find_offer.
// ---------------------------------------------------------------------------

/// An address is found iff some account carries it, and what is found is one
/// of those accounts.
pub proof fn lemma_find_account_present(s: Seq<TokenAccount>, a: Addr)
    ensures
        (find_account(s, a) is Some) <==> exists|i: int| 0 <= i < s.len() && s[i].addr == a,
        find_account(s, a) matches Some(x) ==> x.addr == a && exists|i: int|
            0 <= i < s.len() && s[i] == x,
    decreases s.len(),
{
    if s.len() > 0 {
        if s.last().addr == a {
            assert(s[s.len() - 1].addr == a);
        } else {
            lemma_find_account_present(s.drop_last(), a);
            if find_account(s, a) is Some {
                let i = choose|i: int| 0 <= i < s.drop_last().len() && s.drop_last()[i].addr == a;
                assert(s[i].addr == a);
            }
            if exists|i: int| 0 <= i < s.len() && s[i].addr == a {
                let i = choose|i: int| 0 <= i < s.len() && s[i].addr == a;
                assert(i < s.len() - 1);
                assert(s.drop_last()[i].addr == a);
            }
            match find_account(s, a) {
                Option::Some(x) => {
                    let i = choose|i: int|
                        0 <= i < s.drop_last().len() && s.drop_last()[i] == x;
                    assert(s[i] == x);
                },
                Option::None => {},
            }
        }
    }
}

/// Under distinct addresses, the account found at `s[i].addr` is `s[i]`.
pub proof fn lemma_find_account_unique(s: Seq<TokenAccount>, i: int)
    requires
        distinct_account_addrs(s),
        0 <= i < s.len(),
    ensures
        find_account(s, s[i].addr) == Some(s[i]),
    decreases s.len(),
{
    if s.last().addr == s[i].addr {
        assert(i == s.len() - 1);
    } else {
        assert(distinct_account_addrs(s.drop_last()));
        assert(i < s.len() - 1);
        assert(s.drop_last()[i] == s[i]);
        lemma_find_account_unique(s.drop_last(), i);
    }
}

/// An offer address is found iff some record carries it, and what is found
/// is one of those records.
pub proof fn lemma_find_offer_present(s: Seq<OfferRecord>, a: Addr)
    ensures
        (find_offer(s, a) is Some) <==> exists|i: int| 0 <= i < s.len() && s[i].addr == a,
        find_offer(s, a) matches Some(x) ==> x.addr == a && exists|i: int|
            0 <= i < s.len() && s[i] == x,
    decreases s.len(),
{
    if s.len() > 0 {
        if s.last().addr == a {
            assert(s[s.len() - 1].addr == a);
        } else {
            lemma_find_offer_present(s.drop_last(), a);
            if find_offer(s, a) is Some {
                let i = choose|i: int| 0 <= i < s.drop_last().len() && s.drop_last()[i].addr == a;
                assert(s[i].addr == a);
            }
            if exists|i: int| 0 <= i < s.len() && s[i].addr == a {
                let i = choose|i: int| 0 <= i < s.len() && s[i].addr == a;
                assert(i < s.len() - 1);
                assert(s.drop_last()[i].addr == a);
            }
            match find_offer(s, a) {
                Option::Some(x) => {
                    let i = choose|i: int|
                        0 <= i < s.drop_last().len() && s.drop_last()[i] == x;
                    assert(s[i] == x);
                },
                Option::None => {},
            }
        }
    }
}

/// Under distinct addresses, the record found at `s[i].addr` is `s[i]`.
pub proof fn lemma_find_offer_unique(s: Seq<OfferRecord>, i: int)
    requires
        distinct_offer_addrs(s),
        0 <= i < s.len(),
    ensures
        find_offer(s, s[i].addr) == Some(s[i]),
    decreases s.len(),
{
    if s.last().addr == s[i].addr {
        assert(i == s.len() - 1);
    } else {
        assert(distinct_offer_addrs(s.drop_last()));
        assert(i < s.len() - 1);
        assert(s.drop_last()[i] == s[i]);
        lemma_find_offer_unique(s.drop_last(), i);
    }
}

/// Updating index `i` without changing its address changes only what is
/// found at that address.
pub proof fn lemma_find_account_update(s: Seq<TokenAccount>, i: int, x: TokenAccount, a: Addr)
    requires
        distinct_account_addrs(s),
        0 <= i < s.len(),
        x.addr == s[i].addr,
    ensures
        distinct_account_addrs(s.update(i, x)),
        find_account(s.update(i, x), a) == if a == x.addr {
            Some(x)
        } else {
            find_account(s, a)
        },
{
    let t = s.update(i, x);
    assert(forall|j: int| 0 <= j < s.len() ==> #[trigger] t[j].addr == s[j].addr);
    assert(distinct_account_addrs(t));
    if a == x.addr {
        assert(t[i] == x);
        lemma_find_account_unique(t, i);
    } else {
        lemma_find_account_present(s, a);
        lemma_find_account_present(t, a);
        match find_account(s, a) {
            Option::Some(y) => {
                let j = choose|j: int| 0 <= j < s.len() && s[j] == y;
                assert(j != i);
                assert(t[j] == y);
                lemma_find_account_unique(t, j);
            },
            Option::None => {
                if find_account(t, a) is Some {
                    let j = choose|j: int| 0 <= j < t.len() && t[j].addr == a;
                    assert(s[j].addr == a);
                }
            },
        }
    }
}

/// Pushing an account at a fresh address changes only what is found there.
pub proof fn lemma_find_account_push(s: Seq<TokenAccount>, x: TokenAccount, a: Addr)
    requires
        distinct_account_addrs(s),
        find_account(s, x.addr) is None,
    ensures
        distinct_account_addrs(s.push(x)),
        find_account(s.push(x), a) == if a == x.addr {
            Some(x)
        } else {
            find_account(s, a)
        },
{
    let t = s.push(x);
    lemma_find_account_present(s, x.addr);
    assert(forall|j: int| 0 <= j < s.len() ==> #[trigger] t[j] == s[j]);
    assert(distinct_account_addrs(t));
    assert(t.last() == x);
    assert(t.drop_last() =~= s);
}

/// Removing index `i` changes only what is found at its address.
pub proof fn lemma_find_account_remove(s: Seq<TokenAccount>, i: int, a: Addr)
    requires
        distinct_account_addrs(s),
        0 <= i < s.len(),
    ensures
        distinct_account_addrs(s.remove(i)),
        find_account(s.remove(i), a) == if a == s[i].addr {
            None::<TokenAccount>
        } else {
            find_account(s, a)
        },
{
    let t = s.remove(i);
    s.remove_ensures(i);
    assert(forall|j: int|
        0 <= j < t.len() ==> #[trigger] t[j] == if j < i {
            s[j]
        } else {
            s[j + 1]
        });
    assert(distinct_account_addrs(t));
    lemma_find_account_present(s, a);
    lemma_find_account_present(t, a);
    if a == s[i].addr {
        if find_account(t, a) is Some {
            let j = choose|j: int| 0 <= j < t.len() && t[j].addr == a;
            if j < i {
                assert(s[j].addr == a);
            } else {
                assert(s[j + 1].addr == a);
            }
            assert(false);
        }
    } else {
        match find_account(s, a) {
            Option::Some(y) => {
                let j = choose|j: int| 0 <= j < s.len() && s[j] == y && s[j].addr == a;
                assert(j != i);
                if j < i {
                    assert(t[j] == y);
                    lemma_find_account_unique(t, j);
                } else {
                    assert(t[j - 1] == y);
                    lemma_find_account_unique(t, j - 1);
                }
            },
            Option::None => {
                if find_account(t, a) is Some {
                    let j = choose|j: int| 0 <= j < t.len() && t[j].addr == a;
                    if j < i {
                        assert(s[j].addr == a);
                    } else {
                        assert(s[j + 1].addr == a);
                    }
                    assert(false);
                }
            },
        }
    }
}

/// Pushing a record at a fresh address changes only what is found there.
pub proof fn lemma_find_offer_push(s: Seq<OfferRecord>, x: OfferRecord, a: Addr)
    requires
        distinct_offer_addrs(s),
        find_offer(s, x.addr) is None,
    ensures
        distinct_offer_addrs(s.push(x)),
        find_offer(s.push(x), a) == if a == x.addr {
            Some(x)
        } else {
            find_offer(s, a)
        },
{
    let t = s.push(x);
    lemma_find_offer_present(s, x.addr);
    assert(forall|j: int| 0 <= j < s.len() ==> #[trigger] t[j] == s[j]);
    assert(distinct_offer_addrs(t));
    assert(t.last() == x);
    assert(t.drop_last() =~= s);
}

/// Removing index `i` changes only what is found at its address.
pub proof fn lemma_find_offer_remove(s: Seq<OfferRecord>, i: int, a: Addr)
    requires
        distinct_offer_addrs(s),
        0 <= i < s.len(),
    ensures
        distinct_offer_addrs(s.remove(i)),
        find_offer(s.remove(i), a) == if a == s[i].addr {
            None::<OfferRecord>
        } else {
            find_offer(s, a)
        },
{
    let t = s.remove(i);
    s.remove_ensures(i);
    assert(forall|j: int|
        0 <= j < t.len() ==> #[trigger] t[j] == if j < i {
            s[j]
        } else {
            s[j + 1]
        });
    assert(distinct_offer_addrs(t));
    lemma_find_offer_present(s, a);
    lemma_find_offer_present(t, a);
    if a == s[i].addr {
        if find_offer(t, a) is Some {
            let j = choose|j: int| 0 <= j < t.len() && t[j].addr == a;
            if j < i {
                assert(s[j].addr == a);
            } else {
                assert(s[j + 1].addr == a);
            }
            assert(false);
        }
    } else {
        match find_offer(s, a) {
            Option::Some(y) => {
                let j = choose|j: int| 0 <= j < s.len() && s[j] == y && s[j].addr == a;
                assert(j != i);
                if j < i {
                    assert(t[j] == y);
                    lemma_find_offer_unique(t, j);
                } else {
                    assert(t[j - 1] == y);
                    lemma_find_offer_unique(t, j - 1);
                }
            },
            Option::None => {
                if find_offer(t, a) is Some {
                    let j = choose|j: int| 0 <= j < t.len() && t[j].addr == a;
                    if j < i {
                        assert(s[j].addr == a);
                    } else {
                        assert(s[j + 1].addr == a);
                    }
                    assert(false);
                }
            },
        }
    }
}

// ---------------------------------------------------------------------------
// Lemmas about supply.
// ---------------------------------------------------------------------------

/// Total supply is never negative.
pub proof fn lemma_supply_nonneg(s: Seq<TokenAccount>, m: u64)
    ensures
        supply(s, m) >= 0,
    decreases s.len(),
{
    if s.len() > 0 {
        lemma_supply_nonneg(s.drop_last(), m);
    }
}

/// Updating index `i` shifts the supply by the difference in holdingution.
pub proof fn lemma_supply_update(s: Seq<TokenAccount>, i: int, x: TokenAccount, m: u64)
    requires
        0 <= i < s.len(),
    ensures
        supply(s.update(i, x), m) == supply(s, m) - holding(s[i], m) + holding(x, m),
    decreases s.len(),
{
    let t = s.update(i, x);
    if i == s.len() - 1 {
        assert(t.drop_last() =~= s.drop_last());
        assert(t.last() == x);
    } else {
        assert(t.drop_last() =~= s.drop_last().update(i, x));
        assert(t.last() == s.last());
        lemma_supply_update(s.drop_last(), i, x, m);
    }
}

/// Pushing an account adds its holdingution to the supply.
pub proof fn lemma_supply_push(s: Seq<TokenAccount>, x: TokenAccount, m: u64)
    ensures
        supply(s.push(x), m) == supply(s, m) + holding(x, m),
{
    let t = s.push(x);
    assert(t.last() == x);
    assert(t.drop_last() =~= s);
}

/// Removing index `i` subtracts its holdingution from the supply.
pub proof fn lemma_supply_remove(s: Seq<TokenAccount>, i: int, m: u64)
    requires
        0 <= i < s.len(),
    ensures
        supply(s.remove(i), m) == supply(s, m) - holding(s[i], m),
    decreases s.len(),
{
    let t = s.remove(i);
    s.remove_ensures(i);
    if i == s.len() - 1 {
        assert(t =~= s.drop_last());
    } else {
        assert(t.drop_last() =~= s.drop_last().remove(i));
        assert(t.last() == s.last());
        lemma_supply_remove(s.drop_last(), i, m);
    }
}

/// A single balance never exceeds its mint's total supply.
pub proof fn lemma_holding_le_supply(s: Seq<TokenAccount>, i: int, m: u64)
    requires
        0 <= i < s.len(),
        s[i].mint == m,
    ensures
        s[i].balance as int <= supply(s, m),
    decreases s.len(),
{
    if i == s.len() - 1 {
        lemma_supply_nonneg(s.drop_last(), m);
    } else {
        assert(s.drop_last()[i] == s[i]);
        lemma_holding_le_supply(s.drop_last(), i, m);
    }
}

/// The supply of a sequence splits across any prefix/suffix boundary.
pub proof fn lemma_supply_split(s: Seq<TokenAccount>, i: int, m: u64)
    requires
        0 <= i <= s.len(),
    ensures
        supply(s, m) == supply(s.subrange(0, i), m) + supply(s.subrange(i, s.len() as int), m),
    decreases s.len() - i,
{
    if i == s.len() {
        assert(s.subrange(0, i) =~= s);
        assert(supply(s.subrange(i, s.len() as int), m) == 0);
    } else {
        lemma_supply_split(s, i + 1, m);
        let pre1 = s.subrange(0, i + 1);
        assert(pre1.drop_last() =~= s.subrange(0, i));
        assert(pre1.last() == s[i]);
        lemma_supply_suffix_step(s, i, m);
    }
}

/// One step of peeling the first element off a suffix: the supply of
/// `s[i..]` is the holdingution of `s[i]` plus the supply of `s[i+1..]`.
proof fn lemma_supply_suffix_step(s: Seq<TokenAccount>, i: int, m: u64)
    requires
        0 <= i < s.len(),
    ensures
        supply(s.subrange(i, s.len() as int), m) == holding(s[i], m) + supply(
            s.subrange(i + 1, s.len() as int),
            m,
        ),
    decreases s.len() - i,
{
    let suf = s.subrange(i, s.len() as int);
    if i == s.len() - 1 {
        assert(suf.len() == 1);
        assert(suf.drop_last() =~= s.subrange(i + 1, s.len() as int));
        assert(suf.last() == s[i]);
    } else {
        // Peel the last element off both suffixes and recurse on the
        // sequence without it.
        let t = s.drop_last();
        assert(suf.drop_last() =~= t.subrange(i, t.len() as int));
        assert(suf.last() == s.last());
        lemma_supply_suffix_step(t, i, m);
        assert(t.subrange(i + 1, t.len() as int) =~= s.subrange(
            i + 1,
            s.len() as int,
        ).drop_last());
        assert(s.subrange(i + 1, s.len() as int).last() == s.last());
        assert(t[i] == s[i]);
    }
}


// ---------------------------------------------------------------------------
// Executable layer: lookup, the primitive mutations, and the store API.
// ---------------------------------------------------------------------------

/// The account `x` with its balance replaced by `b`.
pub open spec fn with_balance(x: TokenAccount, b: u64) -> TokenAccount {
    TokenAccount { balance: b, ..x }
}

impl Ledger {
    /// A ledger with no accounts and no offers.
    pub fn new() -> (l: Ledger)
        ensures
            l.wf(),
            forall|a: Addr| #[trigger] l.account_at(a) is None,
            forall|a: Addr| #[trigger] l.offer_at(a) is None,
            forall|m: u64| #[trigger] l.supply_of(m) == 0,
    {
        let l = Ledger { accounts: Vec::new(), offers: Vec::new() };
        proof {
            assert(l.accounts@.len() == 0);
            assert(l.offers@.len() == 0);
            assert(forall|m: u64| #[trigger] supply(l.accounts@, m) == 0);
        }
        l
    }

    /// The position of the account at address `a`, if any.
    pub(crate) fn account_index(&self, a: Addr) -> (r: Option<usize>)
        requires
            distinct_account_addrs(self.accounts@),
        ensures
            match r {
                Option::Some(i) => {
                    &&& i < self.accounts@.len()
                    &&& self.accounts@[i as int].addr == a
                    &&& self.account_at(a) == Some(self.accounts@[i as int])
                },
                Option::None => self.account_at(a) is None,
            },
    {
        let n: usize = self.accounts.len();
        let mut i: usize = 0;
        while i < n
            invariant
                n == self.accounts@.len(),
                i <= n,
                distinct_account_addrs(self.accounts@),
                forall|j: int| 0 <= j < i ==> self.accounts@[j].addr != a,
            decreases n - i,
        {
            if self.accounts[i].addr == a {
                proof {
                    lemma_find_account_unique(self.accounts@, i as int);
                }
                return Some(i);
            }
            i = i + 1;
        }
        proof {
            lemma_find_account_present(self.accounts@, a);
        }
        None
    }

    /// The position of the offer record at address `a`, if any.
    pub(crate) fn offer_index(&self, a: Addr) -> (r: Option<usize>)
        requires
            distinct_offer_addrs(self.offers@),
        ensures
            match r {
                Option::Some(i) => {
                    &&& i < self.offers@.len()
                    &&& self.offers@[i as int].addr == a
                    &&& find_offer(self.offers@, a) == Some(self.offers@[i as int])
                },
                Option::None => find_offer(self.offers@, a) is None,
            },
    {
        let n: usize = self.offers.len();
        let mut i: usize = 0;
        while i < n
            invariant
                n == self.offers@.len(),
                i <= n,
                distinct_offer_addrs(self.offers@),
                forall|j: int| 0 <= j < i ==> self.offers@[j].addr != a,
            decreases n - i,
        {
            if self.offers[i].addr == a {
                proof {
                    lemma_find_offer_unique(self.offers@, i as int);
                }
                return Some(i);
            }
            i = i + 1;
        }
        proof {
            lemma_find_offer_present(self.offers@, a);
        }
        None
    }

    /// Overwrites the balance of the account at position `i`.
    pub(crate) fn set_balance(&mut self, i: usize, b: u64)
        requires
            distinct_account_addrs(old(self).accounts@),
            i < old(self).accounts@.len(),
        ensures
            final(self).offers@ == old(self).offers@,
            final(self).accounts@ == old(self).accounts@.update(
                i as int,
                with_balance(old(self).accounts@[i as int], b),
            ),
            distinct_account_addrs(final(self).accounts@),
            final(self).account_at(old(self).accounts@[i as int].addr) == Some(
                with_balance(old(self).accounts@[i as int], b),
            ),
            forall|x: Addr|
                x != old(self).accounts@[i as int].addr ==> #[trigger] final(self).account_at(x)
                    == old(self).account_at(x),
            forall|m: u64|
                #[trigger] final(self).supply_of(m) == old(self).supply_of(m) - holding(
                    old(self).accounts@[i as int],
                    m,
                ) + holding(with_balance(old(self).accounts@[i as int], b), m),
    {
        let ghost pre = self.accounts@;
        let a = self.accounts[i];
        let next = TokenAccount { addr: a.addr, mint: a.mint, owner: a.owner, balance: b };
        self.accounts.set(i, next);
        proof {
            assert(next == with_balance(pre[i as int], b));
            assert forall|x: Addr|
                x != pre[i as int].addr implies #[trigger] find_account(self.accounts@, x)
                == find_account(pre, x) by {
                lemma_find_account_update(pre, i as int, next, x);
            }
            lemma_find_account_update(pre, i as int, next, next.addr);
            assert forall|m: u64|
                #[trigger] supply(self.accounts@, m) == supply(pre, m) - holding(pre[i as int], m)
                + holding(next, m) by {
                lemma_supply_update(pre, i as int, next, m);
            }
        }
    }

    /// Adds a new account at a fresh address.
    pub(crate) fn push_account(&mut self, acct: TokenAccount)
        requires
            distinct_account_addrs(old(self).accounts@),
            old(self).account_at(acct.addr) is None,
        ensures
            final(self).offers@ == old(self).offers@,
            final(self).accounts@ == old(self).accounts@.push(acct),
            distinct_account_addrs(final(self).accounts@),
            final(self).account_at(acct.addr) == Some(acct),
            forall|x: Addr|
                x != acct.addr ==> #[trigger] final(self).account_at(x) == old(self).account_at(x),
            forall|m: u64|
                #[trigger] final(self).supply_of(m) == old(self).supply_of(m) + holding(acct, m),
    {
        let ghost pre = self.accounts@;
        self.accounts.push(acct);
        proof {
            assert forall|x: Addr| true implies #[trigger] find_account(self.accounts@, x) == (
            if x == acct.addr {
                Some(acct)
            } else {
                find_account(pre, x)
            }) by {
                lemma_find_account_push(pre, acct, x);
            }
            lemma_find_account_push(pre, acct, acct.addr);
            assert forall|m: u64|
                #[trigger] supply(self.accounts@, m) == supply(pre, m) + holding(acct, m) by {
                lemma_supply_push(pre, acct, m);
            }
        }
    }

    /// Removes the account at position `i`.
    pub(crate) fn remove_account(&mut self, i: usize)
        requires
            distinct_account_addrs(old(self).accounts@),
            i < old(self).accounts@.len(),
        ensures
            final(self).offers@ == old(self).offers@,
            final(self).accounts@ == old(self).accounts@.remove(i as int),
            distinct_account_addrs(final(self).accounts@),
            final(self).account_at(old(self).accounts@[i as int].addr) is None,
            forall|x: Addr|
                x != old(self).accounts@[i as int].addr ==> #[trigger] final(self).account_at(x)
                    == old(self).account_at(x),
            forall|m: u64|
                #[trigger] final(self).supply_of(m) == old(self).supply_of(m) - holding(
                    old(self).accounts@[i as int],
                    m,
                ),
    {
        let ghost pre = self.accounts@;
        self.accounts.remove(i);
        proof {
            assert forall|x: Addr| true implies #[trigger] find_account(self.accounts@, x) == (
            if x == pre[i as int].addr {
                None
            } else {
                find_account(pre, x)
            }) by {
                lemma_find_account_remove(pre, i as int, x);
            }
            assert forall|m: u64|
                #[trigger] supply(self.accounts@, m) == supply(pre, m) - holding(pre[i as int], m)
                by {
                lemma_supply_remove(pre, i as int, m);
            }
        }
    }

    /// Adds a new offer record at a fresh address.
    pub(crate) fn push_offer(&mut self, rec: OfferRecord)
        requires
            distinct_offer_addrs(old(self).offers@),
            find_offer(old(self).offers@, rec.addr) is None,
        ensures
            final(self).accounts@ == old(self).accounts@,
            final(self).offers@ == old(self).offers@.push(rec),
            distinct_offer_addrs(final(self).offers@),
            final(self).offer_at(rec.addr) == Some(rec.offer),
            forall|x: Addr|
                x != rec.addr ==> #[trigger] final(self).offer_at(x) == old(self).offer_at(x),
    {
        let ghost pre = self.offers@;
        self.offers.push(rec);
        proof {
            assert forall|x: Addr| true implies #[trigger] find_offer(self.offers@, x) == (
            if x == rec.addr {
                Some(rec)
            } else {
                find_offer(pre, x)
            }) by {
                lemma_find_offer_push(pre, rec, x);
            }
            lemma_find_offer_push(pre, rec, rec.addr);
        }
    }

    /// Removes the offer record at position `i`.
    pub(crate) fn remove_offer(&mut self, i: usize)
        requires
            distinct_offer_addrs(old(self).offers@),
            i < old(self).offers@.len(),
        ensures
            final(self).accounts@ == old(self).accounts@,
            final(self).offers@ == old(self).offers@.remove(i as int),
            distinct_offer_addrs(final(self).offers@),
            final(self).offer_at(old(self).offers@[i as int].addr) is None,
            forall|x: Addr|
                x != old(self).offers@[i as int].addr ==> #[trigger] final(self).offer_at(x)
                    == old(self).offer_at(x),
    {
        let ghost pre = self.offers@;
        self.offers.remove(i);
        proof {
            assert forall|x: Addr| true implies #[trigger] find_offer(self.offers@, x) == (
            if x == pre[i as int].addr {
                None
            } else {
                find_offer(pre, x)
            }) by {
                lemma_find_offer_remove(pre, i as int, x);
            }
        }
    }

    /// The total supply of `mint`, summed over every account.
    fn total_supply(&self, mint: u64) -> (r: u64)
        requires
            forall|m: u64| #[trigger] supply(self.accounts@, m) <= u64::MAX,
        ensures
            r as int == self.supply_of(mint),
    {
        let n: usize = self.accounts.len();
        let mut i: usize = 0;
        let mut total: u64 = 0;
        while i < n
            invariant
                n == self.accounts@.len(),
                i <= n,
                forall|m: u64| #[trigger] supply(self.accounts@, m) <= u64::MAX,
                total as int == supply(self.accounts@.subrange(0, i as int), mint),
            decreases n - i,
        {
            let a = self.accounts[i];
            proof {
                assert(supply(self.accounts@, mint) <= u64::MAX);
                lemma_supply_split(self.accounts@, i as int + 1, mint);
                lemma_supply_nonneg(
                    self.accounts@.subrange(i as int + 1, self.accounts@.len() as int),
                    mint,
                );
                assert(self.accounts@.subrange(0, i as int + 1).drop_last() =~= self.accounts@
                    .subrange(0, i as int));
                assert(self.accounts@.subrange(0, i as int + 1).last() == self.accounts@[i as int]);
                lemma_supply_nonneg(self.accounts@.subrange(0, i as int), mint);
            }
            if a.mint == mint {
                total = total + a.balance;
            }
            i = i + 1;
        }
        proof {
            assert(self.accounts@.subrange(0, n as int) =~= self.accounts@);
        }
        total
    }

    /// Creates a user token account at `addr` holding `balance` of `mint`,
    /// movable only with `owner`'s signature.  Rejected with `AlreadyExists`
    /// when the address is occupied, and with `InvalidAmount` when the
    /// mint's total supply would outgrow what a balance can hold.
    pub fn create_token_account(
        &mut self,
        addr: Addr,
        mint: u64,
        owner: u64,
        balance: u64,
    ) -> (r: Result<(), EscrowError>)
        requires
            old(self).wf(),
        ensures
            final(self).wf(),
            (r is Err) <==> (old(self).account_at(addr) is Some || old(self).supply_of(mint)
                + balance > u64::MAX),
            r matches Err(e) ==> {
                &&& final(self).accounts@ == old(self).accounts@
                &&& final(self).offers@ == old(self).offers@
                &&& e == (if old(self).account_at(addr) is Some {
                    EscrowError::AlreadyExists
                } else {
                    EscrowError::InvalidAmount
                })
            },
            r is Ok ==> {
                &&& final(self).account_at(addr) == Some(
                    (TokenAccount { addr, mint, owner: Authority::Signer(owner), balance }),
                )
                &&& forall|x: Addr|
                    x != addr ==> #[trigger] final(self).account_at(x) == old(self).account_at(x)
                &&& final(self).offers@ == old(self).offers@
                &&& final(self).supply_of(mint) == old(self).supply_of(mint) + balance
                &&& forall|m: u64|
                    m != mint ==> #[trigger] final(self).supply_of(m) == old(self).supply_of(m)
            },
    {
        if self.account_index(addr).is_some() {
            return Err(EscrowError::AlreadyExists);
        }
        let current: u64 = self.total_supply(mint);
        if balance > u64::MAX - current {
            return Err(EscrowError::InvalidAmount);
        }
        let acct = TokenAccount { addr, mint, owner: Authority::Signer(owner), balance };
        let ghost pre = *self;
        self.push_account(acct);
        proof {
            assert forall|j: int|
                0 <= j < self.offers@.len() implies self.offer_record_wf(
                #[trigger] self.offers@[j],
            ) by {
                let rec = self.offers@[j];
                assert(pre.offer_record_wf(rec));
                assert(pre.account_at(rec.offer.vault) is Some);
                assert(rec.offer.vault != addr);
            }
            assert forall|m: u64| #[trigger] supply(self.accounts@, m) <= u64::MAX by {
                assert(self.supply_of(m) == pre.supply_of(m) + holding(acct, m));
                assert(supply(pre.accounts@, m) <= u64::MAX);
            }
        }
        Ok(())
    }

    /// The balance of the token account at `addr`, if one exists.
    pub fn balance_of(&self, addr: Addr) -> (r: Option<u64>)
        requires
            self.wf(),
        ensures
            match self.account_at(addr) {
                Option::Some(x) => r == Some(x.balance),
                Option::None => r is None,
            },
    {
        match self.account_index(addr) {
            Some(i) => Some(self.accounts[i].balance),
            None => None,
        }
    }

    /// Reads the offer stored at `addr`; `NotFound` where none lives there.
    pub fn read_offer(&self, addr: Addr) -> (r: Result<Offer, EscrowError>)
        requires
            self.wf(),
        ensures
            match self.offer_at(addr) {
                Option::Some(o) => r == Ok::<Offer, EscrowError>(o),
                Option::None => r == Err::<Offer, EscrowError>(EscrowError::NotFound),
            },
    {
        match self.offer_index(addr) {
            Some(i) => Ok(self.offers[i].offer),
            None => Err(EscrowError::NotFound),
        }
    }
}

} // verus!
