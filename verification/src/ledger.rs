use vstd::prelude::*;
use crate::types::{AccountId, Balance, PaymentError};

verus! {

/// The monetary settlement primitive a purchase relies on. The host injects
/// an implementation; `Balances` below is a verified in-memory one. On
/// success exactly `amount` moves from `from` to `to`; on failure the
/// ledger stays as it was. Whether a given payment succeeds is the
/// implementation's decision.
pub trait PaymentLedger: Sized {
    /// The implementation's own consistency condition.
    spec fn wf(&self) -> bool;

    /// The balance the ledger ascribes to an account.
    spec fn balance_of(&self, account: AccountId) -> int;

    /// Whether this ledger, in its current state, would complete a payment
    /// of `amount` from `from` to `to`. Each implementation declares its own
    /// condition; `pay` succeeds exactly when it holds.
    spec fn pay_succeeds(&self, from: AccountId, to: AccountId, amount: Balance) -> bool;

    /// Moves `amount` from `from` to `to` atomically: either both balances
    /// change by exactly `amount` and no other does, or a failure is
    /// reported and nothing changes.
    fn pay(&mut self, from: AccountId, to: AccountId, amount: Balance) -> (r: Result<
        (),
        PaymentError,
    >)
        requires
            old(self).wf(),
            from != to,
        ensures
            final(self).wf(),
            (r is Ok) == old(self).pay_succeeds(from, to, amount),
            match r {
                Ok(()) => {
                    &&& final(self).balance_of(from) == old(self).balance_of(from) - amount
                    &&& final(self).balance_of(to) == old(self).balance_of(to) + amount
                    &&& forall|a: AccountId|
                        a != from && a != to ==> final(self).balance_of(a) == old(
                            self,
                        ).balance_of(a)
                },
                Err(_) => *final(self) == *old(self),
            },
    ;
}

/// A verified in-memory payment ledger: per-account balances with checked
/// arithmetic. A payment fails when the payer's balance is short or the
/// payee's balance would overflow, and then changes nothing.
pub struct Balances {
    /// One entry per account holding a balance; accounts unique.
    pub accounts: Vec<(AccountId, Balance)>,
}

impl Balances {
    /// Accounts of ledger entries are pairwise distinct.
    pub open spec fn accounts_unique(self) -> bool {
        forall|i: int, j: int|
            0 <= i < j < self.accounts@.len() ==> (#[trigger] self.accounts@[i]).0 != (
            #[trigger] self.accounts@[j]).0
    }

    /// Whether the ledger has an entry for this account.
    pub open spec fn spec_has(self, account: AccountId) -> bool {
        exists|i: int| 0 <= i < self.accounts@.len() && self.accounts@[i].0 == account
    }

    /// Position of this account's entry.
    pub open spec fn spec_index_of(self, account: AccountId) -> int {
        choose|i: int| 0 <= i < self.accounts@.len() && self.accounts@[i].0 == account
    }

    /// A fresh ledger: every balance zero.
    pub fn new() -> (r: Balances)
        ensures
            r.wf(),
            forall|a: AccountId| r.balance_of(a) == 0,
    {
        let r = Balances { accounts: Vec::new() };
        proof {
            assert forall|a: AccountId| r.balance_of(a) == 0 by {
                assert(!r.spec_has(a));
            }
        }
        r
    }

    /// Position of this account's entry, if present.
    fn find(&self, account: AccountId) -> (r: Option<usize>)
        ensures
            match r {
                Some(i) => (i as int) < self.accounts@.len() && self.accounts@[i as int].0
                    == account,
                None => !self.spec_has(account),
            },
    {
        let mut i: usize = 0;
        while i < self.accounts.len()
            invariant
                0 <= i <= self.accounts@.len(),
                forall|j: int| 0 <= j < i ==> self.accounts@[j].0 != account,
            decreases self.accounts@.len() - i,
        {
            if self.accounts[i].0 == account {
                return Some(i);
            }
            i += 1;
        }
        None
    }

    /// Adds to an account's balance; for funding accounts before purchases.
    pub fn credit(&mut self, account: AccountId, amount: Balance)
        requires
            old(self).wf(),
            old(self).balance_of(account) + amount <= u64::MAX,
        ensures
            final(self).wf(),
            final(self).balance_of(account) == old(self).balance_of(account) + amount,
            forall|a: AccountId|
                a != account ==> final(self).balance_of(a) == old(self).balance_of(a),
    {
        let ghost p0 = *self;
        match self.find(account) {
            Some(i) => {
                proof {
                    let w = p0.spec_index_of(account);
                    assert(0 <= w < p0.accounts@.len() && p0.accounts@[w].0 == account);
                    assert(w == i as int);
                }
                let mut entry = self.accounts.remove(i);
                entry.1 = entry.1 + amount;
                self.accounts.insert(i, entry);
                proof {
                    assert(self.accounts@ =~= p0.accounts@.update(i as int, entry));
                    lemma_balances_update(p0, *self, i as int, entry);
                }
            },
            None => {
                self.accounts.push((account, amount));
                proof {
                    lemma_balances_push(p0, *self, (account, amount));
                }
            },
        }
    }

    /// The balance of an account.
    pub fn balance(&self, account: AccountId) -> (r: Balance)
        requires
            self.wf(),
        ensures
            r as int == self.balance_of(account),
    {
        match self.find(account) {
            Some(i) => {
                proof {
                    let w = self.spec_index_of(account);
                    assert(0 <= w < self.accounts@.len() && self.accounts@[w].0 == account);
                    assert(w == i as int);
                }
                self.accounts[i].1
            },
            None => 0,
        }
    }
}

/// Replacing one account's entry changes that account's balance and no
/// other's.
proof fn lemma_balances_update(pre: Balances, post: Balances, i: int, entry: (
    AccountId,
    Balance,
))
    requires
        pre.accounts_unique(),
        0 <= i < pre.accounts@.len(),
        entry.0 == pre.accounts@[i].0,
        post.accounts@ == pre.accounts@.update(i, entry),
    ensures
        post.accounts_unique(),
        forall|a: AccountId| post.spec_has(a) == pre.spec_has(a),
        forall|a: AccountId| a != entry.0 ==> post.balance_of(a) == pre.balance_of(a),
        post.balance_of(entry.0) == entry.1 as int,
{
    let n = pre.accounts@.len() as int;
    assert forall|a: int, b: int| 0 <= a < b < n implies (#[trigger] post.accounts@[a]).0 != (
    #[trigger] post.accounts@[b]).0 by {
        assert(pre.accounts@[a].0 != pre.accounts@[b].0);
    }
    assert forall|a: AccountId| post.spec_has(a) == pre.spec_has(a) by {
        if pre.spec_has(a) {
            let w = choose|w: int| 0 <= w < n && pre.accounts@[w].0 == a;
            assert(post.accounts@[w].0 == a);
        }
        if post.spec_has(a) {
            let w = choose|w: int| 0 <= w < n && post.accounts@[w].0 == a;
            assert(pre.accounts@[w].0 == a);
        }
    }
    assert forall|a: AccountId| a != entry.0 implies post.balance_of(a) == pre.balance_of(
        a,
    ) by {
        if pre.spec_has(a) {
            let wpre = pre.spec_index_of(a);
            assert(0 <= wpre < n && pre.accounts@[wpre].0 == a);
            let wpost = post.spec_index_of(a);
            assert(0 <= wpost < n && post.accounts@[wpost].0 == a);
            assert(pre.accounts@[wpost].0 == a);
            assert(wpre == wpost);
            assert(wpost != i);
        }
    }
    assert(post.balance_of(entry.0) == entry.1 as int) by {
        assert(post.accounts@[i].0 == entry.0);
        assert(post.spec_has(entry.0));
        let w = post.spec_index_of(entry.0);
        assert(0 <= w < n && post.accounts@[w].0 == entry.0);
        assert(w == i);
    }
}

/// Appending an entry for a new account gives it that balance and changes
/// no other.
proof fn lemma_balances_push(pre: Balances, post: Balances, entry: (AccountId, Balance))
    requires
        pre.accounts_unique(),
        !pre.spec_has(entry.0),
        post.accounts@ == pre.accounts@.push(entry),
    ensures
        post.accounts_unique(),
        forall|a: AccountId| a != entry.0 ==> post.spec_has(a) == pre.spec_has(a),
        forall|a: AccountId| a != entry.0 ==> post.balance_of(a) == pre.balance_of(a),
        post.balance_of(entry.0) == entry.1 as int,
{
    let n = pre.accounts@.len() as int;
    assert forall|a: int, b: int| 0 <= a < b < n + 1 implies (#[trigger] post.accounts@[a]).0
        != (#[trigger] post.accounts@[b]).0 by {
        if b < n {
            assert(pre.accounts@[a].0 != pre.accounts@[b].0);
        } else {
            assert(post.accounts@[a] == pre.accounts@[a]);
            if pre.accounts@[a].0 == entry.0 {
                assert(pre.spec_has(entry.0));
            }
        }
    }
    assert forall|a: AccountId| a != entry.0 implies post.spec_has(a) == pre.spec_has(a)
        && post.balance_of(a) == pre.balance_of(a) by {
        if pre.spec_has(a) {
            let wpre = pre.spec_index_of(a);
            assert(0 <= wpre < n && pre.accounts@[wpre].0 == a);
            assert(post.accounts@[wpre].0 == a);
            assert(post.spec_has(a));
            let wpost = post.spec_index_of(a);
            assert(0 <= wpost < n + 1 && post.accounts@[wpost].0 == a);
            assert(wpost < n);
            assert(pre.accounts@[wpost].0 == a);
            assert(wpre == wpost);
        } else {
            if post.spec_has(a) {
                let w = choose|w: int| 0 <= w < n + 1 && post.accounts@[w].0 == a;
                assert(w < n);
                assert(pre.accounts@[w].0 == a);
                assert(false);
            }
        }
    }
    assert(post.balance_of(entry.0) == entry.1 as int) by {
        assert(post.accounts@[n].0 == entry.0);
        assert(post.spec_has(entry.0));
        let w = post.spec_index_of(entry.0);
        assert(0 <= w < n + 1 && post.accounts@[w].0 == entry.0);
        if w < n {
            assert(pre.accounts@[w].0 == entry.0);
            assert(false);
        }
    }
}

impl PaymentLedger for Balances {
    open spec fn wf(&self) -> bool {
        self.accounts_unique()
    }

    open spec fn balance_of(&self, account: AccountId) -> int {
        if self.spec_has(account) {
            self.accounts@[self.spec_index_of(account)].1 as int
        } else {
            0
        }
    }

    /// A payment completes unless the payer's balance is short or crediting
    /// the payee would overflow; a zero amount always completes.
    open spec fn pay_succeeds(&self, from: AccountId, to: AccountId, amount: Balance) -> bool {
        amount == 0 || (self.balance_of(from) >= amount && self.balance_of(to) + amount
            <= u64::MAX)
    }

    fn pay(&mut self, from: AccountId, to: AccountId, amount: Balance) -> (r: Result<
        (),
        PaymentError,
    >) {
        if amount == 0 {
            return Ok(());
        }
        let ghost p0 = *self;
        let k_from = match self.find(from) {
            Some(k) => k,
            None => {
                proof {
                    assert(self.balance_of(from) == 0);
                }
                return Err(PaymentError::InsufficientBalance);
            },
        };
        proof {
            let w = p0.spec_index_of(from);
            assert(0 <= w < p0.accounts@.len() && p0.accounts@[w].0 == from);
            assert(w == k_from as int);
        }
        let bal_from = self.accounts[k_from].1;
        proof {
            assert(self.balance_of(from) == bal_from as int);
        }
        if bal_from < amount {
            return Err(PaymentError::InsufficientBalance);
        }
        let k_to_opt = self.find(to);
        let bal_to = match k_to_opt {
            Some(k_to) => {
                proof {
                    let w = p0.spec_index_of(to);
                    assert(0 <= w < p0.accounts@.len() && p0.accounts@[w].0 == to);
                    assert(w == k_to as int);
                }
                self.accounts[k_to].1
            },
            None => 0,
        };
        proof {
            assert(self.balance_of(to) == bal_to as int);
        }
        if bal_to > u64::MAX - amount {
            return Err(PaymentError::BalanceOverflow);
        }
        let mut e_from = self.accounts.remove(k_from);
        e_from.1 = bal_from - amount;
        self.accounts.insert(k_from, e_from);
        let ghost p1 = *self;
        proof {
            assert(p1.accounts@ =~= p0.accounts@.update(k_from as int, e_from));
            lemma_balances_update(p0, p1, k_from as int, e_from);
        }
        match k_to_opt {
            Some(k_to) => {
                proof {
                    assert(k_to as int != k_from as int);
                    assert(p1.accounts@[k_to as int] == p0.accounts@[k_to as int]);
                }
                let mut e_to = self.accounts.remove(k_to);
                e_to.1 = bal_to + amount;
                self.accounts.insert(k_to, e_to);
                proof {
                    assert(self.accounts@ =~= p1.accounts@.update(k_to as int, e_to));
                    lemma_balances_update(p1, *self, k_to as int, e_to);
                }
            },
            None => {
                self.accounts.push((to, amount));
                proof {
                    lemma_balances_push(p1, *self, (to, amount));
                }
            },
        }
        Ok(())
    }
}

} // verus!
