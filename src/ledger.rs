//! A fungible multi-asset ledger with free and reserved balances per
//! (asset, account), used by the funding-round engine to escrow creator
//! tokens, lock voting stake and hold committed funds.
use crate::types::{AccountId, AssetId, Balance};
use vstd::prelude::*;

verus! {

/// The balances of one account in one asset.
#[derive(Clone, Copy, Debug, PartialEq, Eq, Structural)]
pub struct AccountBalance {
    pub asset: AssetId,
    pub who: AccountId,
    pub free: Balance,
    pub reserved: Balance,
}

/// Why the ledger refused an operation.
#[derive(Clone, Copy, Debug, PartialEq, Eq, Structural)]
pub enum LedgerError {
    /// The free balance does not cover the amount.
    InsufficientBalance,
    /// The receiving account's total balance would not fit in a `Balance`.
    Overflow,
}

/// The record that decides the balances of `(asset, who)`: the last entry
/// with that key. An account without an entry holds nothing.
pub open spec fn entry_of(s: Seq<AccountBalance>, asset: AssetId, who: AccountId) -> Option<
    AccountBalance,
>
    decreases s.len(),
{
    if s.len() == 0 {
        None
    } else if s.last().asset == asset && s.last().who == who {
        Some(s.last())
    } else {
        entry_of(s.drop_last(), asset, who)
    }
}

pub open spec fn max_balance() -> nat {
    u128::MAX as nat
}

proof fn lemma_entry_of_push(s: Seq<AccountBalance>, x: AccountBalance, a: AssetId, w: AccountId)
    ensures
        entry_of(s.push(x), a, w) == if x.asset == a && x.who == w {
            Some(x)
        } else {
            entry_of(s, a, w)
        },
{
    assert(s.push(x).drop_last() =~= s);
}

proof fn lemma_entry_of_update(
    s: Seq<AccountBalance>,
    i: int,
    x: AccountBalance,
    a: AssetId,
    w: AccountId,
)
    requires
        0 <= i < s.len(),
        s[i].asset == x.asset && s[i].who == x.who,
        forall|j: int| i < j < s.len() ==> !(s[j].asset == x.asset && s[j].who == x.who),
    ensures
        entry_of(s.update(i, x), a, w) == if x.asset == a && x.who == w {
            Some(x)
        } else {
            entry_of(s, a, w)
        },
    decreases s.len(),
{
    let t = s.update(i, x);
    if i == s.len() - 1 {
        assert(t.drop_last() =~= s.drop_last());
    } else {
        assert(t.drop_last() =~= s.drop_last().update(i, x));
        lemma_entry_of_update(s.drop_last(), i, x, a, w);
    }
}

proof fn lemma_entry_of_bounded(s: Seq<AccountBalance>, a: AssetId, w: AccountId)
    requires
        forall|i: int| 0 <= i < s.len() ==> s[i].free + s[i].reserved <= max_balance(),
    ensures
        entry_of(s, a, w) matches Some(e) ==> e.free + e.reserved <= max_balance(),
    decreases s.len(),
{
    if s.len() > 0 {
        lemma_entry_of_bounded(s.drop_last(), a, w);
    }
}

/// The ledger: every (asset, account) pair has a free and a reserved
/// balance, both zero until funds arrive.
pub struct Ledger {
    pub entries: Vec<AccountBalance>,
}

impl Ledger {
    /// Free and reserved balance of `who` in `asset`.
    pub open spec fn balance(&self, asset: AssetId, who: AccountId) -> (nat, nat) {
        match entry_of(self.entries@, asset, who) {
            Some(e) => (e.free as nat, e.reserved as nat),
            None => (0, 0),
        }
    }

    pub open spec fn free(&self, asset: AssetId, who: AccountId) -> int {
        self.balance(asset, who).0 as int
    }

    pub open spec fn reserved(&self, asset: AssetId, who: AccountId) -> int {
        self.balance(asset, who).1 as int
    }

    /// `who` holds exactly `free` and `reserved` in `asset`.
    pub open spec fn holds(&self, asset: AssetId, who: AccountId, free: int, reserved: int) -> bool {
        self.free(asset, who) == free && self.reserved(asset, who) == reserved
    }

    pub open spec fn total(&self, asset: AssetId, who: AccountId) -> int {
        self.free(asset, who) + self.reserved(asset, who)
    }

    /// Every account's total balance fits in a `Balance`.
    pub open spec fn wf(&self) -> bool {
        forall|i: int|
            0 <= i < self.entries@.len() ==> #[trigger] self.entries@[i].free
                + self.entries@[i].reserved <= max_balance()
    }

    /// `self` and `other` agree on every account except `who` in `asset`.
    pub open spec fn agrees_except(&self, other: &Ledger, asset: AssetId, who: AccountId) -> bool {
        forall|a: AssetId, w: AccountId|
            !(a == asset && w == who) ==> #[trigger] self.balance(a, w) == other.balance(a, w)
    }

    /// What `repatriate_reserved` moves: as much of `amount` as `from` holds
    /// reserved and, for another account, as `to` can still receive.
    pub open spec fn repatriable(
        &self,
        asset: AssetId,
        from: AccountId,
        to: AccountId,
        amount: int,
    ) -> int {
        let r = if amount <= self.reserved(asset, from) {
            amount
        } else {
            self.reserved(asset, from)
        };
        if from == to {
            r
        } else {
            let room = max_balance() - self.total(asset, to);
            if r <= room {
                r
            } else {
                room
            }
        }
    }

    /// `after` is `self` once `repatriate_reserved(asset, from, to, amount)` ran.
    pub open spec fn repatriated(&self, after: &Ledger, asset: AssetId, from: AccountId, to: AccountId, amount: int) -> bool {
        let moved = self.repatriable(asset, from, to, amount);
        &&& from == to ==> after.holds(asset, from, self.free(asset, from) + moved, self.reserved(asset, from) - moved)
        &&& from == to ==> after.agrees_except(self, asset, from)
        &&& from != to ==> after.holds(asset, from, self.free(asset, from), self.reserved(asset, from) - moved)
        &&& from != to ==> after.holds(asset, to, self.free(asset, to) + moved, self.reserved(asset, to))
        &&& from != to ==> forall|a: AssetId, w: AccountId|
            !(a == asset && (w == from || w == to)) ==> #[trigger] after.balance(a, w) == self.balance(a, w)
    }

    pub proof fn lemma_total_bounded(&self, asset: AssetId, who: AccountId)
        requires
            self.wf(),
        ensures
            self.total(asset, who) <= max_balance(),
    {
        lemma_entry_of_bounded(self.entries@, asset, who);
    }

    /// An empty ledger.
    pub fn new() -> (r: Ledger)
        ensures
            r.wf(),
            forall|a: AssetId, w: AccountId| #[trigger] r.balance(a, w) == (0nat, 0nat),
    {
        Ledger { entries: Vec::new() }
    }

    /// Index of the entry that decides `(asset, who)`, if any.
    fn find(&self, asset: AssetId, who: AccountId) -> (r: Option<usize>)
        ensures
            match r {
                Some(i) => {
                    &&& i < self.entries@.len()
                    &&& self.entries@[i as int].asset == asset
                    &&& self.entries@[i as int].who == who
                    &&& entry_of(self.entries@, asset, who) == Some(self.entries@[i as int])
                    &&& forall|j: int|
                        i < j < self.entries@.len() ==> !(#[trigger] self.entries@[j].asset
                            == asset && self.entries@[j].who == who)
                },
                None => entry_of(self.entries@, asset, who) == None::<AccountBalance>,
            },
    {
        let s = Ghost(self.entries@);
        let mut i: usize = self.entries.len();
        assert(s@.subrange(0, i as int) =~= s@);
        while i > 0
            invariant
                s@ == self.entries@,
                0 <= i <= s@.len(),
                forall|j: int| i <= j < s@.len() ==> !(#[trigger] s@[j].asset == asset && s@[j].who == who),
                entry_of(s@, asset, who) == entry_of(s@.subrange(0, i as int), asset, who),
            decreases i,
        {
            let e = &self.entries[i - 1];
            if e.asset == asset && e.who == who {
                return Some(i - 1);
            }
            assert(s@.subrange(0, i as int).drop_last() =~= s@.subrange(0, i - 1));
            i = i - 1;
        }
        None
    }

    /// Sets the balances of `who` in `asset`, leaving every other account as it was.
    fn set_balance(&mut self, asset: AssetId, who: AccountId, free: Balance, reserved: Balance)
        requires
            old(self).wf(),
            free + reserved <= max_balance(),
        ensures
            final(self).wf(),
            final(self).holds(asset, who, free as int, reserved as int),
            final(self).agrees_except(&*old(self), asset, who),
    {
        let x = AccountBalance { asset, who, free, reserved };
        let ghost s = self.entries@;
        match self.find(asset, who) {
            Some(i) => {
                self.entries.set(i, x);
                assert(self.entries@ == s.update(i as int, x));
                assert forall|a: AssetId, w: AccountId| true implies #[trigger] entry_of(
                    self.entries@,
                    a,
                    w,
                ) == if a == asset && w == who {
                    Some(x)
                } else {
                    entry_of(s, a, w)
                } by {
                    lemma_entry_of_update(s, i as int, x, a, w);
                }
            },
            None => {
                self.entries.push(x);
                assert forall|a: AssetId, w: AccountId| true implies #[trigger] entry_of(
                    self.entries@,
                    a,
                    w,
                ) == if a == asset && w == who {
                    Some(x)
                } else {
                    entry_of(s, a, w)
                } by {
                    lemma_entry_of_push(s, x, a, w);
                }
            },
        }
    }

    /// Free balance of `who` in `asset`.
    pub fn free_balance(&self, asset: AssetId, who: AccountId) -> (r: Balance)
        ensures
            r == self.free(asset, who),
    {
        match self.find(asset, who) {
            Some(i) => self.entries[i].free,
            None => 0,
        }
    }

    /// Reserved balance of `who` in `asset`.
    pub fn reserved_balance(&self, asset: AssetId, who: AccountId) -> (r: Balance)
        ensures
            r == self.reserved(asset, who),
    {
        match self.find(asset, who) {
            Some(i) => self.entries[i].reserved,
            None => 0,
        }
    }

    /// Free plus reserved balance of `who` in `asset`.
    pub fn total_balance(&self, asset: AssetId, who: AccountId) -> (r: Balance)
        requires
            self.wf(),
        ensures
            r == self.total(asset, who),
    {
        proof {
            self.lemma_total_bounded(asset, who);
        }
        self.free_balance(asset, who) + self.reserved_balance(asset, who)
    }

    /// Credits `amount` to the free balance of `who`; refused when the
    /// account's total would not fit.
    pub fn deposit(&mut self, asset: AssetId, who: AccountId, amount: Balance) -> (r: Result<
        (),
        LedgerError,
    >)
        requires
            old(self).wf(),
        ensures
            final(self).wf(),
            r is Err <==> old(self).total(asset, who) + amount > max_balance(),
            r is Err ==> r == Err::<(), LedgerError>(LedgerError::Overflow) && *final(self) == *old(self),
            r is Ok ==> final(self).holds(asset, who, old(self).free(asset, who) + amount, old(self).reserved(asset, who)),
            r is Ok ==> final(self).agrees_except(&*old(self), asset, who),
    {
        let total = self.total_balance(asset, who);
        if amount > u128::MAX - total {
            return Err(LedgerError::Overflow);
        }
        let free = self.free_balance(asset, who);
        let reserved = self.reserved_balance(asset, who);
        self.set_balance(asset, who, free + amount, reserved);
        Ok(())
    }

    /// Moves `amount` of `who`'s free balance to its reserved balance;
    /// refused when the free balance does not cover it.
    pub fn reserve(&mut self, asset: AssetId, who: AccountId, amount: Balance) -> (r: Result<
        (),
        LedgerError,
    >)
        requires
            old(self).wf(),
        ensures
            final(self).wf(),
            r is Err <==> old(self).free(asset, who) < amount,
            r is Err ==> r == Err::<(), LedgerError>(LedgerError::InsufficientBalance) && *final(self) == *old(self),
            r is Ok ==> final(self).holds(asset, who, old(self).free(asset, who) - amount, old(self).reserved(asset, who) + amount),
            r is Ok ==> final(self).agrees_except(&*old(self), asset, who),
    {
        let free = self.free_balance(asset, who);
        if free < amount {
            return Err(LedgerError::InsufficientBalance);
        }
        let reserved = self.reserved_balance(asset, who);
        proof {
            self.lemma_total_bounded(asset, who);
        }
        self.set_balance(asset, who, free - amount, reserved + amount);
        Ok(())
    }

    /// Moves up to `amount` of `who`'s reserved balance back to its free
    /// balance; returns the part of `amount` that was not reserved.
    pub fn unreserve(&mut self, asset: AssetId, who: AccountId, amount: Balance) -> (r: Balance)
        requires
            old(self).wf(),
        ensures
            final(self).wf(),
            old(self).reserved(asset, who) >= amount ==> r == 0,
            old(self).reserved(asset, who) < amount ==> r == amount - old(self).reserved(asset, who),
            final(self).holds(asset, who, old(self).free(asset, who) + (amount - r), old(self).reserved(asset, who) - (amount - r)),
            final(self).agrees_except(&*old(self), asset, who),
    {
        let free = self.free_balance(asset, who);
        let reserved = self.reserved_balance(asset, who);
        let moved = if amount <= reserved {
            amount
        } else {
            reserved
        };
        proof {
            self.lemma_total_bounded(asset, who);
        }
        self.set_balance(asset, who, free + moved, reserved - moved);
        amount - moved
    }

    /// Moves up to `amount` from the reserved balance of `from` to the free
    /// balance of `to`; returns what was moved, `repatriable(..)`.
    pub fn repatriate_reserved(
        &mut self,
        asset: AssetId,
        from: AccountId,
        to: AccountId,
        amount: Balance,
    ) -> (r: Balance)
        requires
            old(self).wf(),
        ensures
            final(self).wf(),
            r == old(self).repatriable(asset, from, to, amount as int),
            old(self).repatriated(&*final(self), asset, from, to, amount as int),
    {
        if from == to {
            let rest = self.unreserve(asset, from, amount);
            return amount - rest;
        }
        let ghost l0 = *self;
        let reserved = self.reserved_balance(asset, from);
        let mut moved = if amount <= reserved {
            amount
        } else {
            reserved
        };
        let to_total = self.total_balance(asset, to);
        if moved > u128::MAX - to_total {
            moved = u128::MAX - to_total;
        }
        let from_free = self.free_balance(asset, from);
        let to_free = self.free_balance(asset, to);
        let to_reserved = self.reserved_balance(asset, to);
        proof {
            self.lemma_total_bounded(asset, from);
        }
        self.set_balance(asset, from, from_free, reserved - moved);
        self.set_balance(asset, to, to_free + moved, to_reserved);
        assert forall|a: AssetId, w: AccountId|
            !(a == asset && (w == from || w == to)) implies #[trigger] self.balance(a, w)
                == l0.balance(a, w) by {}
        moved
    }
}

} // verus!
