use vstd::prelude::*;
use crate::identifier::{id_digest, id_payload};
use crate::ledger::PaymentLedger;
use crate::types::{AccountId, Balance, Collectible, Color, Config, DispatchError, Error, Event};

verus! {

/// The sequence of 16-byte identifiers in a list, as mathematical byte
/// sequences.
pub open spec fn id_view(ids: Seq<[u8; 16]>) -> Seq<Seq<u8>> {
    ids.map_values(|id: [u8; 16]| id@)
}

/// The whole registry state: the collectible store with its running count,
/// the per-account reverse index, and the instance configuration. This is
/// the single shared state object; the six operations are its only
/// mutators.
pub struct Pallet {
    /// The store: one record per collectible, identifiers unique.
    pub collectibles: Vec<Collectible>,
    /// Number of records in the store; kept equal to the store's size.
    pub count: u64,
    /// Reverse index: each account owning at least one collectible at some
    /// point, with the identifiers it currently owns. Accounts appear at
    /// most once; the order of identifiers within a list carries no
    /// meaning.
    pub owners: Vec<(AccountId, Vec<[u8; 16]>)>,
    /// Fixed configuration of this registry instance.
    pub config: Config,
}

impl Pallet {
    /// Whether the store holds a record with this identifier.
    pub open spec fn store_contains(self, id: Seq<u8>) -> bool {
        exists|i: int|
            0 <= i < self.collectibles@.len() && self.collectibles@[i].unique_id@ == id
    }

    /// Position of the record with this identifier (well defined when the
    /// identifier is present and identifiers are unique).
    pub open spec fn store_index(self, id: Seq<u8>) -> int {
        choose|i: int|
            0 <= i < self.collectibles@.len() && self.collectibles@[i].unique_id@ == id
    }

    /// The record stored under this identifier.
    pub open spec fn record(self, id: Seq<u8>) -> Collectible {
        self.collectibles@[self.store_index(id)]
    }

    /// The store as a mapping from identifier to record.
    pub open spec fn store(self) -> Map<Seq<u8>, Collectible> {
        Map::new(|id: Seq<u8>| self.store_contains(id), |id: Seq<u8>| self.record(id))
    }

    /// Whether the reverse index has an entry for this account.
    pub open spec fn has_account(self, account: AccountId) -> bool {
        exists|k: int| 0 <= k < self.owners@.len() && self.owners@[k].0 == account
    }

    /// Position of this account's entry in the reverse index.
    pub open spec fn account_index(self, account: AccountId) -> int {
        choose|k: int| 0 <= k < self.owners@.len() && self.owners@[k].0 == account
    }

    /// The identifiers this account owns, in index order. The order carries
    /// no meaning: removal swaps with the last element, so only the
    /// collection's contents are contractual.
    pub open spec fn owned_seq(self, account: AccountId) -> Seq<Seq<u8>> {
        if self.has_account(account) {
            id_view(self.owners@[self.account_index(account)].1@)
        } else {
            Seq::<Seq<u8>>::empty()
        }
    }

    /// The set of identifiers this account owns.
    pub open spec fn owned(self, account: AccountId) -> Set<Seq<u8>> {
        self.owned_seq(account).to_set()
    }

    /// Identifiers of store records are pairwise distinct.
    pub open spec fn ids_unique(self) -> bool {
        forall|i: int, j: int|
            0 <= i < j < self.collectibles@.len()
                ==> (#[trigger] self.collectibles@[i]).unique_id@
                != (#[trigger] self.collectibles@[j]).unique_id@
    }

    /// Accounts of reverse-index entries are pairwise distinct.
    pub open spec fn accounts_unique(self) -> bool {
        forall|k: int, l: int|
            0 <= k < l < self.owners@.len()
                ==> (#[trigger] self.owners@[k]).0 != (#[trigger] self.owners@[l]).0
    }

    /// Entry `m` of reverse-index entry `k` resolves to a store record whose
    /// owner is that entry's account.
    pub open spec fn entry_resolves(self, k: int, m: int) -> bool {
        &&& self.store_contains(self.owners@[k].1@[m]@)
        &&& self.record(self.owners@[k].1@[m]@).owner == self.owners@[k].0
    }

    /// Store record `i` appears in its owner's collection.
    pub open spec fn listed_with_owner(self, i: int) -> bool {
        self.owned_seq(self.collectibles@[i].owner).contains(self.collectibles@[i].unique_id@)
    }

    /// The registry's data invariant: identifiers unique, the count equal to
    /// the store's size, each account indexed at most once and owning at
    /// most `maximum_owned` collectibles, and the reverse index agreeing
    /// with the store in both directions.
    pub open spec fn wf(self) -> bool {
        &&& self.count == self.collectibles@.len()
        &&& self.ids_unique()
        &&& self.accounts_unique()
        &&& forall|k: int|
            0 <= k < self.owners@.len()
                ==> (#[trigger] self.owners@[k]).1@.len() <= self.config.maximum_owned
        &&& forall|k: int|
            0 <= k < self.owners@.len() ==> id_view(
                (#[trigger] self.owners@[k]).1@,
            ).no_duplicates()
        &&& forall|k: int, m: int|
            0 <= k < self.owners@.len() && 0 <= m < self.owners@[k].1@.len()
                ==> #[trigger] self.entry_resolves(k, m)
        &&& forall|i: int|
            0 <= i < self.collectibles@.len() ==> #[trigger] self.listed_with_owner(i)
    }

    /// A fresh, empty registry.
    pub fn new(config: Config) -> (r: Pallet)
        ensures
            r.wf(),
            r.count == 0,
            r.store() == Map::<Seq<u8>, Collectible>::empty(),
            forall|a: AccountId| #[trigger] r.owned_seq(a) == Seq::<Seq<u8>>::empty(),
            r.config == config,
    {
        let r = Pallet { collectibles: Vec::new(), count: 0, owners: Vec::new(), config };
        proof {
            assert(r.store() =~= Map::<Seq<u8>, Collectible>::empty());
            assert forall|a: AccountId| #[trigger] r.owned_seq(a) == Seq::<Seq<u8>>::empty() by {
                assert(!r.has_account(a));
            }
        }
        r
    }
}

/// An identifier an account owns resolves to a store record owned by that
/// account.
pub proof fn lemma_owned_resolves(p: Pallet, account: AccountId, id: Seq<u8>)
    requires
        p.wf(),
        p.owned_seq(account).contains(id),
    ensures
        p.store_contains(id),
        p.record(id).owner == account,
{
    let k = p.account_index(account);
    let ids = p.owners@[k].1;
    let m = choose|m: int| 0 <= m < id_view(ids@).len() && id_view(ids@)[m] == id;
    assert(p.entry_resolves(k, m));
}

/// A list after removal by swap-with-last-then-truncate: the element at `m`
/// is replaced by the last element and the last position dropped.
spec fn swap_removed<A>(s: Seq<A>, m: int) -> Seq<A> {
    s.update(m, s.last()).drop_last()
}

/// Swap-with-last-then-truncate removes exactly the element at `m` from a
/// duplicate-free sequence, keeping the rest (in some order).
proof fn lemma_swap_removed<A>(s: Seq<A>, m: int)
    requires
        s.no_duplicates(),
        0 <= m < s.len(),
    ensures
        swap_removed(s, m).len() == s.len() - 1,
        swap_removed(s, m).no_duplicates(),
        swap_removed(s, m).to_set() == s.to_set().remove(s[m]),
        !swap_removed(s, m).contains(s[m]),
{
    let t = swap_removed(s, m);
    let n = s.len() as int;
    assert forall|a: int, b: int| 0 <= a < b < t.len() implies t[a] != t[b] by {
        let fa: int = if a == m { n - 1 } else { a };
        let fb: int = if b == m { n - 1 } else { b };
        assert(t[a] == s[fa]);
        assert(t[b] == s[fb]);
        assert(fa != fb);
    }
    assert forall|x: A| t.to_set().contains(x) implies s.to_set().contains(x) && x != s[m] by {
        let j = choose|j: int| 0 <= j < t.len() && t[j] == x;
        let fj: int = if j == m { n - 1 } else { j };
        assert(t[j] == s[fj]);
        assert(s.contains(x));
        assert(fj != m);
    }
    assert forall|x: A| s.to_set().contains(x) && x != s[m] implies t.to_set().contains(x) by {
        let w = choose|w: int| 0 <= w < s.len() && s[w] == x;
        assert(w != m);
        if w == n - 1 {
            assert(m < n - 1);
            assert(t[m] == s[n - 1]);
            assert(t.contains(x));
        } else {
            assert(t[w] == s[w]);
            assert(t.contains(x));
        }
    }
    assert(t.to_set() =~= s.to_set().remove(s[m]));
    assert(!t.to_set().contains(s[m]));
}

/// Appending a fresh element to a duplicate-free sequence adds exactly that
/// element.
proof fn lemma_push_fresh<A>(s: Seq<A>, v: A)
    requires
        s.no_duplicates(),
        !s.contains(v),
    ensures
        s.push(v).no_duplicates(),
        s.push(v).to_set() == s.to_set().insert(v),
{
    assert forall|x: A| s.push(v).to_set().contains(x) implies s.to_set().insert(v).contains(
        x,
    ) by {
        let j = choose|j: int| 0 <= j < s.push(v).len() && s.push(v)[j] == x;
        if j < s.len() {
            assert(s.contains(x));
        }
    }
    assert forall|x: A| s.to_set().insert(v).contains(x) implies s.push(v).to_set().contains(
        x,
    ) by {
        if x == v {
            assert(s.push(v)[s.len() as int] == v);
            assert(s.push(v).contains(x));
        } else {
            let w = choose|w: int| 0 <= w < s.len() && s[w] == x;
            assert(s.push(v)[w] == x);
            assert(s.push(v).contains(x));
        }
    }
    assert(s.push(v).to_set() =~= s.to_set().insert(v));
}

/// Replacing the record at position `i` by one with the same identifier
/// updates the store mapping at that identifier and nothing else.
proof fn lemma_store_update(pre: Pallet, post: Pallet, i: int, c: Collectible)
    requires
        pre.ids_unique(),
        0 <= i < pre.collectibles@.len(),
        c.unique_id@ == pre.collectibles@[i].unique_id@,
        post.collectibles@ == pre.collectibles@.update(i, c),
    ensures
        post.ids_unique(),
        forall|x: Seq<u8>| post.store_contains(x) == pre.store_contains(x),
        post.store_contains(c.unique_id@),
        post.record(c.unique_id@) == c,
        forall|x: Seq<u8>|
            pre.store_contains(x) && x != c.unique_id@ ==> post.record(x) == pre.record(x),
        post.store() == pre.store().insert(c.unique_id@, c),
{
    let n = pre.collectibles@.len() as int;
    let cid = c.unique_id@;
    assert forall|j: int| 0 <= j < n implies (#[trigger] post.collectibles@[j]).unique_id@
        == pre.collectibles@[j].unique_id@ by {}
    assert forall|a: int, b: int| 0 <= a < b < n implies (#[trigger] post.collectibles@[a]).unique_id@
        != (#[trigger] post.collectibles@[b]).unique_id@ by {
        assert(pre.collectibles@[a].unique_id@ != pre.collectibles@[b].unique_id@);
    }
    assert forall|x: Seq<u8>| post.store_contains(x) == pre.store_contains(x) by {
        if pre.store_contains(x) {
            let w = choose|w: int| 0 <= w < n && pre.collectibles@[w].unique_id@ == x;
            assert(post.collectibles@[w].unique_id@ == x);
            assert(post.store_contains(x));
        }
        if post.store_contains(x) {
            let w = choose|w: int| 0 <= w < n && post.collectibles@[w].unique_id@ == x;
            assert(pre.collectibles@[w].unique_id@ == x);
            assert(pre.store_contains(x));
        }
    }
    assert(post.store_contains(cid)) by {
        assert(post.collectibles@[i].unique_id@ == cid);
    }
    assert(post.record(cid) == c) by {
        let w = post.store_index(cid);
        assert(0 <= w < n && post.collectibles@[w].unique_id@ == cid);
        assert(w == i);
    }
    assert forall|x: Seq<u8>| pre.store_contains(x) && x != cid implies post.record(x)
        == pre.record(x) by {
        let wpre = pre.store_index(x);
        assert(0 <= wpre < n && pre.collectibles@[wpre].unique_id@ == x);
        assert(post.store_contains(x));
        let wpost = post.store_index(x);
        assert(0 <= wpost < n && post.collectibles@[wpost].unique_id@ == x);
        assert(pre.collectibles@[wpost].unique_id@ == x);
        assert(wpre == wpost);
        assert(wpost != i);
    }
    assert(post.store() =~= pre.store().insert(cid, c));
}

/// Appending a record with a fresh identifier inserts it into the store
/// mapping and leaves every other identifier's record unchanged.
proof fn lemma_store_push(pre: Pallet, post: Pallet, c: Collectible)
    requires
        pre.ids_unique(),
        !pre.store_contains(c.unique_id@),
        post.collectibles@ == pre.collectibles@.push(c),
    ensures
        post.ids_unique(),
        forall|x: Seq<u8>|
            post.store_contains(x) == (pre.store_contains(x) || x == c.unique_id@),
        post.record(c.unique_id@) == c,
        forall|x: Seq<u8>| pre.store_contains(x) ==> post.record(x) == pre.record(x),
        post.store() == pre.store().insert(c.unique_id@, c),
{
    let n = pre.collectibles@.len() as int;
    let cid = c.unique_id@;
    assert forall|a: int, b: int| 0 <= a < b < n + 1 implies (#[trigger] post.collectibles@[a]).unique_id@
        != (#[trigger] post.collectibles@[b]).unique_id@ by {
        if b < n {
            assert(pre.collectibles@[a].unique_id@ != pre.collectibles@[b].unique_id@);
        } else {
            assert(post.collectibles@[b] == c);
            assert(post.collectibles@[a] == pre.collectibles@[a]);
            if pre.collectibles@[a].unique_id@ == cid {
                assert(pre.store_contains(cid));
            }
        }
    }
    assert forall|x: Seq<u8>| post.store_contains(x) == (pre.store_contains(x) || x == cid) by {
        if pre.store_contains(x) {
            let w = choose|w: int| 0 <= w < n && pre.collectibles@[w].unique_id@ == x;
            assert(post.collectibles@[w].unique_id@ == x);
            assert(post.store_contains(x));
        }
        if x == cid {
            assert(post.collectibles@[n].unique_id@ == x);
            assert(post.store_contains(x));
        }
        if post.store_contains(x) && x != cid {
            let w = choose|w: int| 0 <= w < n + 1 && post.collectibles@[w].unique_id@ == x;
            assert(w < n);
            assert(pre.collectibles@[w].unique_id@ == x);
            assert(pre.store_contains(x));
        }
    }
    assert(post.record(cid) == c) by {
        let w = post.store_index(cid);
        assert(0 <= w < n + 1 && post.collectibles@[w].unique_id@ == cid);
        if w < n {
            assert(pre.collectibles@[w].unique_id@ == cid);
            assert(pre.store_contains(cid));
        }
        assert(w == n);
    }
    assert forall|x: Seq<u8>| pre.store_contains(x) implies post.record(x) == pre.record(x) by {
        let wpre = pre.store_index(x);
        assert(0 <= wpre < n && pre.collectibles@[wpre].unique_id@ == x);
        assert(post.collectibles@[wpre].unique_id@ == x);
        assert(post.store_contains(x));
        let wpost = post.store_index(x);
        assert(0 <= wpost < n + 1 && post.collectibles@[wpost].unique_id@ == x);
        assert(x != cid);
        assert(wpost < n);
        assert(pre.collectibles@[wpost].unique_id@ == x);
        assert(wpre == wpost);
    }
    assert(post.store() =~= pre.store().insert(cid, c));
}

/// Removing the record at position `i` removes exactly its identifier from
/// the store mapping.
proof fn lemma_store_remove(pre: Pallet, post: Pallet, i: int)
    requires
        pre.ids_unique(),
        0 <= i < pre.collectibles@.len(),
        post.collectibles@ == pre.collectibles@.remove(i),
    ensures
        post.ids_unique(),
        forall|x: Seq<u8>|
            post.store_contains(x) == (pre.store_contains(x) && x
                != pre.collectibles@[i].unique_id@),
        forall|x: Seq<u8>|
            pre.store_contains(x) && x != pre.collectibles@[i].unique_id@ ==> post.record(x)
                == pre.record(x),
        post.store() == pre.store().remove(pre.collectibles@[i].unique_id@),
{
    let n = pre.collectibles@.len() as int;
    let cid = pre.collectibles@[i].unique_id@;
    assert forall|j: int| 0 <= j < n - 1 implies #[trigger] post.collectibles@[j] == (
    if j < i {
        pre.collectibles@[j]
    } else {
        pre.collectibles@[j + 1]
    }) by {}
    assert forall|a: int, b: int| 0 <= a < b < n - 1 implies (#[trigger] post.collectibles@[a]).unique_id@
        != (#[trigger] post.collectibles@[b]).unique_id@ by {
        let fa: int = if a < i { a } else { a + 1 };
        let fb: int = if b < i { b } else { b + 1 };
        assert(post.collectibles@[a] == pre.collectibles@[fa]);
        assert(post.collectibles@[b] == pre.collectibles@[fb]);
        assert(fa < fb);
    }
    assert forall|x: Seq<u8>| post.store_contains(x) == (pre.store_contains(x) && x != cid) by {
        if post.store_contains(x) {
            let w = choose|w: int| 0 <= w < n - 1 && post.collectibles@[w].unique_id@ == x;
            let fw: int = if w < i { w } else { w + 1 };
            assert(pre.collectibles@[fw].unique_id@ == x);
            assert(pre.store_contains(x));
            assert(fw != i);
            if x == cid {
                assert(pre.collectibles@[fw].unique_id@ == pre.collectibles@[i].unique_id@);
                assert(false);
            }
        }
        if pre.store_contains(x) && x != cid {
            let w = choose|w: int| 0 <= w < n && pre.collectibles@[w].unique_id@ == x;
            assert(w != i);
            if w < i {
                assert(post.collectibles@[w].unique_id@ == x);
            } else {
                assert(post.collectibles@[w - 1].unique_id@ == x);
            }
            assert(post.store_contains(x));
        }
    }
    assert forall|x: Seq<u8>| pre.store_contains(x) && x != cid implies post.record(x)
        == pre.record(x) by {
        let wpre = pre.store_index(x);
        assert(0 <= wpre < n && pre.collectibles@[wpre].unique_id@ == x);
        assert(wpre != i);
        assert(post.store_contains(x));
        let wpost = post.store_index(x);
        assert(0 <= wpost < n - 1 && post.collectibles@[wpost].unique_id@ == x);
        let fw: int = if wpost < i { wpost } else { wpost + 1 };
        assert(post.collectibles@[wpost] == pre.collectibles@[fw]);
        assert(pre.collectibles@[fw].unique_id@ == x);
        assert(fw == wpre);
    }
    assert(post.store() =~= pre.store().remove(cid));
}

/// Two states with the same reverse index have the same ownership views.
proof fn lemma_owned_stable(p: Pallet, q: Pallet)
    requires
        p.accounts_unique(),
        q.owners@ == p.owners@,
    ensures
        q.accounts_unique(),
        forall|a: AccountId| q.has_account(a) == p.has_account(a),
        forall|a: AccountId| #[trigger] q.owned_seq(a) == p.owned_seq(a),
{
    let n = p.owners@.len() as int;
    assert forall|a: AccountId| q.has_account(a) == p.has_account(a) by {
        if p.has_account(a) {
            let w = choose|w: int| 0 <= w < n && p.owners@[w].0 == a;
            assert(q.owners@[w].0 == a);
        }
        if q.has_account(a) {
            let w = choose|w: int| 0 <= w < n && q.owners@[w].0 == a;
            assert(p.owners@[w].0 == a);
        }
    }
    assert forall|a: AccountId| #[trigger] q.owned_seq(a) == p.owned_seq(a) by {
        if p.has_account(a) {
            let wp = p.account_index(a);
            assert(0 <= wp < n && p.owners@[wp].0 == a);
            let wq = q.account_index(a);
            assert(0 <= wq < n && q.owners@[wq].0 == a);
            assert(p.owners@[wq].0 == a);
            assert(wp == wq);
        }
    }
}

/// Two states with the same record sequence have the same store view.
proof fn lemma_store_stable(p: Pallet, q: Pallet)
    requires
        p.ids_unique(),
        q.collectibles@ == p.collectibles@,
    ensures
        q.ids_unique(),
        forall|x: Seq<u8>| q.store_contains(x) == p.store_contains(x),
        forall|x: Seq<u8>| #[trigger] p.store_contains(x) ==> q.record(x) == p.record(x),
        q.store() == p.store(),
{
    let n = p.collectibles@.len() as int;
    assert forall|x: Seq<u8>| q.store_contains(x) == p.store_contains(x) by {
        if p.store_contains(x) {
            let w = choose|w: int| 0 <= w < n && p.collectibles@[w].unique_id@ == x;
            assert(q.collectibles@[w].unique_id@ == x);
        }
        if q.store_contains(x) {
            let w = choose|w: int| 0 <= w < n && q.collectibles@[w].unique_id@ == x;
            assert(p.collectibles@[w].unique_id@ == x);
        }
    }
    assert forall|x: Seq<u8>| #[trigger] p.store_contains(x) implies q.record(x) == p.record(
        x,
    ) by {
        let wp = p.store_index(x);
        assert(0 <= wp < n && p.collectibles@[wp].unique_id@ == x);
        assert(q.store_contains(x));
        let wq = q.store_index(x);
        assert(0 <= wq < n && q.collectibles@[wq].unique_id@ == x);
        assert(p.collectibles@[wq].unique_id@ == x);
        assert(wp == wq);
    }
    assert(q.store() =~= p.store());
}

/// Replacing one account's identifier list changes that account's view and
/// no other account's.
proof fn lemma_owners_update(pre: Pallet, post: Pallet, k: int, entry: (
    AccountId,
    Vec<[u8; 16]>,
))
    requires
        pre.accounts_unique(),
        0 <= k < pre.owners@.len(),
        entry.0 == pre.owners@[k].0,
        post.owners@ == pre.owners@.update(k, entry),
    ensures
        post.accounts_unique(),
        forall|a: AccountId| post.has_account(a) == pre.has_account(a),
        forall|a: AccountId| a != entry.0 ==> post.owned_seq(a) == pre.owned_seq(a),
        post.has_account(entry.0),
        post.owned_seq(entry.0) == id_view(entry.1@),
{
    let n = pre.owners@.len() as int;
    assert forall|j: int| 0 <= j < n implies (#[trigger] post.owners@[j]).0 == pre.owners@[j].0 by {}
    assert forall|a: int, b: int| 0 <= a < b < n implies (#[trigger] post.owners@[a]).0 != (
    #[trigger] post.owners@[b]).0 by {
        assert(pre.owners@[a].0 != pre.owners@[b].0);
    }
    assert forall|a: AccountId| post.has_account(a) == pre.has_account(a) by {
        if pre.has_account(a) {
            let w = choose|w: int| 0 <= w < n && pre.owners@[w].0 == a;
            assert(post.owners@[w].0 == a);
        }
        if post.has_account(a) {
            let w = choose|w: int| 0 <= w < n && post.owners@[w].0 == a;
            assert(pre.owners@[w].0 == a);
        }
    }
    assert forall|a: AccountId| a != entry.0 implies post.owned_seq(a) == pre.owned_seq(a) by {
        if pre.has_account(a) {
            let wpre = pre.account_index(a);
            assert(0 <= wpre < n && pre.owners@[wpre].0 == a);
            let wpost = post.account_index(a);
            assert(0 <= wpost < n && post.owners@[wpost].0 == a);
            assert(pre.owners@[wpost].0 == a);
            assert(wpre == wpost);
            assert(wpost != k);
            assert(post.owners@[wpost] == pre.owners@[wpre]);
        }
    }
    assert(post.has_account(entry.0)) by {
        assert(post.owners@[k].0 == entry.0);
    }
    assert(post.owned_seq(entry.0) == id_view(entry.1@)) by {
        let w = post.account_index(entry.0);
        assert(0 <= w < n && post.owners@[w].0 == entry.0);
        assert(w == k);
    }
}

/// Appending an entry for a new account adds that account's view and leaves
/// every other account's unchanged.
proof fn lemma_owners_push(pre: Pallet, post: Pallet, entry: (AccountId, Vec<[u8; 16]>))
    requires
        pre.accounts_unique(),
        !pre.has_account(entry.0),
        post.owners@ == pre.owners@.push(entry),
    ensures
        post.accounts_unique(),
        forall|a: AccountId| a != entry.0 ==> post.has_account(a) == pre.has_account(a),
        forall|a: AccountId| a != entry.0 ==> post.owned_seq(a) == pre.owned_seq(a),
        post.has_account(entry.0),
        post.owned_seq(entry.0) == id_view(entry.1@),
{
    let n = pre.owners@.len() as int;
    assert forall|a: int, b: int| 0 <= a < b < n + 1 implies (#[trigger] post.owners@[a]).0 != (
    #[trigger] post.owners@[b]).0 by {
        if b < n {
            assert(pre.owners@[a].0 != pre.owners@[b].0);
        } else {
            assert(post.owners@[a] == pre.owners@[a]);
            if pre.owners@[a].0 == entry.0 {
                assert(pre.has_account(entry.0));
            }
        }
    }
    assert forall|a: AccountId| a != entry.0 implies post.has_account(a) == pre.has_account(
        a,
    ) by {
        if pre.has_account(a) {
            let w = choose|w: int| 0 <= w < n && pre.owners@[w].0 == a;
            assert(post.owners@[w].0 == a);
        }
        if post.has_account(a) {
            let w = choose|w: int| 0 <= w < n + 1 && post.owners@[w].0 == a;
            assert(w < n);
            assert(pre.owners@[w].0 == a);
        }
    }
    assert forall|a: AccountId| a != entry.0 implies post.owned_seq(a) == pre.owned_seq(a) by {
        if pre.has_account(a) {
            let wpre = pre.account_index(a);
            assert(0 <= wpre < n && pre.owners@[wpre].0 == a);
            assert(post.has_account(a));
            let wpost = post.account_index(a);
            assert(0 <= wpost < n + 1 && post.owners@[wpost].0 == a);
            assert(wpost < n);
            assert(pre.owners@[wpost].0 == a);
            assert(wpre == wpost);
            assert(post.owners@[wpost] == pre.owners@[wpre]);
        }
    }
    assert(post.has_account(entry.0)) by {
        assert(post.owners@[n].0 == entry.0);
    }
    assert(post.owned_seq(entry.0) == id_view(entry.1@)) by {
        let w = post.account_index(entry.0);
        assert(0 <= w < n + 1 && post.owners@[w].0 == entry.0);
        if w < n {
            assert(pre.owners@[w].0 == entry.0);
            assert(pre.has_account(entry.0));
        }
        assert(w == n);
    }
}

/// Entry `m` of reverse-index entry `k` is an identifier that entry's
/// account owns.
proof fn lemma_entry_is_owned(p: Pallet, k: int, m: int)
    requires
        p.accounts_unique(),
        0 <= k < p.owners@.len(),
        0 <= m < p.owners@[k].1@.len(),
    ensures
        p.has_account(p.owners@[k].0),
        p.owned_seq(p.owners@[k].0).contains(p.owners@[k].1@[m]@),
{
    let a = p.owners@[k].0;
    assert(p.has_account(a));
    let w = p.account_index(a);
    assert(0 <= w < p.owners@.len() && p.owners@[w].0 == a);
    assert(w == k);
    assert(id_view(p.owners@[k].1@)[m] == p.owners@[k].1@[m]@);
}

/// No identifier is owned by two accounts.
pub proof fn lemma_one_owner(p: Pallet, a: AccountId, b: AccountId, id: Seq<u8>)
    requires
        p.wf(),
        p.owned_seq(a).contains(id),
        p.owned_seq(b).contains(id),
    ensures
        a == b,
{
    lemma_owned_resolves(p, a, id);
    lemma_owned_resolves(p, b, id);
}

/// How a successful transfer or purchase changes the registry: the record is
/// reassigned to `to` with its listing reset, the identifier moves from the
/// old owner's collection to `to`'s, and everything else stays as it was.
pub open spec fn transfer_applied(pre: Pallet, post: Pallet, id: Seq<u8>, to: AccountId) -> bool {
    let from = pre.record(id).owner;
    let moved = Collectible {
        unique_id: pre.record(id).unique_id,
        price: None,
        color: pre.record(id).color,
        owner: to,
    };
    &&& post.store() == pre.store().insert(id, moved)
    &&& post.record(id) == moved
    &&& post.store_contains(id)
    &&& forall|x: Seq<u8>| #[trigger] post.store_contains(x) == pre.store_contains(x)
    &&& post.count == pre.count
    &&& post.owned(from) == pre.owned(from).remove(id)
    &&& post.owned_seq(from).len() == pre.owned_seq(from).len() - 1
    &&& post.owned(to) == pre.owned(to).insert(id)
    &&& post.owned_seq(to).len() == pre.owned_seq(to).len() + 1
    &&& forall|a: AccountId| a != from && a != to ==> post.owned_seq(a) == pre.owned_seq(a)
}

/// Whether two 16-byte identifiers are equal.
fn id_eq(a: &[u8; 16], b: &[u8; 16]) -> (r: bool)
    ensures
        r == (a@ == b@),
{
    let mut i: usize = 0;
    while i < 16
        invariant
            0 <= i <= 16,
            forall|j: int| 0 <= j < i ==> a@[j] == b@[j],
        decreases 16 - i,
    {
        if a[i] != b[i] {
            return false;
        }
        i += 1;
    }
    proof {
        assert(a@ =~= b@);
    }
    true
}

/// A fresh copy of an identifier list.
fn copy_ids(ids: &Vec<[u8; 16]>) -> (r: Vec<[u8; 16]>)
    ensures
        r@ == ids@,
{
    let mut out: Vec<[u8; 16]> = Vec::new();
    let mut i: usize = 0;
    while i < ids.len()
        invariant
            0 <= i <= ids@.len(),
            out@ == ids@.subrange(0, i as int),
        decreases ids@.len() - i,
    {
        out.push(ids[i]);
        proof {
            assert(out@ =~= ids@.subrange(0, i + 1));
        }
        i += 1;
    }
    proof {
        assert(out@ =~= ids@);
    }
    out
}

/// Position of an identifier in a list, if present.
fn position_of(ids: &Vec<[u8; 16]>, id: &[u8; 16]) -> (r: Option<usize>)
    ensures
        match r {
            Some(m) => (m as int) < ids@.len() && ids@[m as int]@ == id@,
            None => !id_view(ids@).contains(id@),
        },
{
    let mut i: usize = 0;
    while i < ids.len()
        invariant
            0 <= i <= ids@.len(),
            forall|j: int| 0 <= j < i ==> ids@[j]@ != id@,
        decreases ids@.len() - i,
    {
        if id_eq(&ids[i], id) {
            return Some(i);
        }
        i += 1;
    }
    proof {
        if id_view(ids@).contains(id@) {
            let j = choose|j: int| 0 <= j < id_view(ids@).len() && id_view(ids@)[j] == id@;
            assert(ids@[j]@ == id@);
        }
    }
    None
}

impl Pallet {
    /// Position of the record with this identifier, if present.
    fn find_collectible(&self, id: &[u8; 16]) -> (r: Option<usize>)
        ensures
            match r {
                Some(i) => (i as int) < self.collectibles@.len()
                    && self.collectibles@[i as int].unique_id@ == id@,
                None => !self.store_contains(id@),
            },
    {
        let mut i: usize = 0;
        while i < self.collectibles.len()
            invariant
                0 <= i <= self.collectibles@.len(),
                forall|j: int| 0 <= j < i ==> self.collectibles@[j].unique_id@ != id@,
            decreases self.collectibles@.len() - i,
        {
            if id_eq(&self.collectibles[i].unique_id, id) {
                return Some(i);
            }
            i += 1;
        }
        None
    }

    /// Replaces the identifier list of the reverse-index entry at `k`.
    fn set_owned_list(&mut self, k: usize, ids: Vec<[u8; 16]>)
        requires
            (k as int) < old(self).owners@.len(),
        ensures
            final(self).owners@ == old(self).owners@.update(
                k as int,
                (old(self).owners@[k as int].0, ids),
            ),
            final(self).collectibles == old(self).collectibles,
            final(self).count == old(self).count,
            final(self).config == old(self).config,
    {
        let mut entry = self.owners.remove(k);
        entry.1 = ids;
        self.owners.insert(k, entry);
        proof {
            assert(self.owners@ =~= old(self).owners@.update(
                k as int,
                (old(self).owners@[k as int].0, ids),
            ));
        }
    }

    /// Adds an identifier to an account's collection, failing if the bound
    /// would be exceeded. Leaves the store untouched.
    fn append_owned(&mut self, owner: AccountId, id: [u8; 16]) -> (r: Result<(), Error>)
        requires
            old(self).accounts_unique(),
            forall|k: int|
                0 <= k < old(self).owners@.len()
                    ==> (#[trigger] old(self).owners@[k]).1@.len()
                    <= old(self).config.maximum_owned,
            forall|k: int|
                0 <= k < old(self).owners@.len() ==> id_view(
                    (#[trigger] old(self).owners@[k]).1@,
                ).no_duplicates(),
            !old(self).owned_seq(owner).contains(id@),
        ensures
            final(self).collectibles == old(self).collectibles,
            final(self).count == old(self).count,
            final(self).config == old(self).config,
            (r is Ok) == (old(self).owned_seq(owner).len()
                < old(self).config.maximum_owned),
            match r {
                Ok(()) => {
                    &&& final(self).accounts_unique()
                    &&& forall|k: int|
                        0 <= k < final(self).owners@.len()
                            ==> (#[trigger] final(self).owners@[k]).1@.len()
                            <= final(self).config.maximum_owned
                    &&& forall|k: int|
                        0 <= k < final(self).owners@.len() ==> id_view(
                            (#[trigger] final(self).owners@[k]).1@,
                        ).no_duplicates()
                    &&& forall|a: AccountId|
                        a != owner ==> final(self).owned_seq(a) == old(self).owned_seq(a)
                    &&& final(self).owned_seq(owner) == old(self).owned_seq(owner).push(id@)
                },
                Err(e) => {
                    &&& e == Error::MaximumCollectiblesOwned
                    &&& *final(self) == *old(self)
                },
            },
    {
        match self.find_account(owner) {
            Some(k) => {
                proof {
                    assert(self.owners@[k as int].0 == owner);
                    assert(self.has_account(owner));
                    let w = self.account_index(owner);
                    assert(0 <= w < self.owners@.len() && self.owners@[w].0 == owner);
                    assert(w == k as int);
                }
                if self.owners[k].1.len() >= self.config.maximum_owned as usize {
                    return Err(Error::MaximumCollectiblesOwned);
                }
                let mut ids = copy_ids(&self.owners[k].1);
                ids.push(id);
                let ghost pre = *self;
                let ghost gentry = (pre.owners@[k as int].0, ids);
                self.set_owned_list(k, ids);
                proof {
                    lemma_owners_update(pre, *self, k as int, gentry);
                    assert(id_view(gentry.1@) =~= id_view(pre.owners@[k as int].1@).push(id@));
                    assert forall|kk: int| 0 <= kk < self.owners@.len() implies (
                    #[trigger] self.owners@[kk]).1@.len() <= self.config.maximum_owned by {
                        if kk != k as int {
                            assert(self.owners@[kk] == pre.owners@[kk]);
                        }
                    }
                    assert forall|kk: int| 0 <= kk < self.owners@.len() implies id_view((
                    #[trigger] self.owners@[kk]).1@).no_duplicates() by {
                        if kk != k as int {
                            assert(self.owners@[kk] == pre.owners@[kk]);
                        } else {
                            assert(id_view(pre.owners@[k as int].1@).no_duplicates());
                            assert(!id_view(pre.owners@[k as int].1@).contains(id@));
                            lemma_push_fresh(id_view(pre.owners@[k as int].1@), id@);
                        }
                    }
                }
                Ok(())
            },
            None => {
                if self.config.maximum_owned == 0 {
                    return Err(Error::MaximumCollectiblesOwned);
                }
                let mut ids: Vec<[u8; 16]> = Vec::new();
                ids.push(id);
                let ghost gentry = (owner, ids);
                let ghost pre = *self;
                self.owners.push((owner, ids));
                proof {
                    lemma_owners_push(pre, *self, gentry);
                    assert(id_view(gentry.1@) =~= Seq::<Seq<u8>>::empty().push(id@));
                    assert(pre.owned_seq(owner) == Seq::<Seq<u8>>::empty());
                    assert forall|kk: int| 0 <= kk < self.owners@.len() implies (
                    #[trigger] self.owners@[kk]).1@.len() <= self.config.maximum_owned by {
                        if kk < pre.owners@.len() {
                            assert(self.owners@[kk] == pre.owners@[kk]);
                        }
                    }
                    assert forall|kk: int| 0 <= kk < self.owners@.len() implies id_view((
                    #[trigger] self.owners@[kk]).1@).no_duplicates() by {
                        if kk < pre.owners@.len() {
                            assert(self.owners@[kk] == pre.owners@[kk]);
                        }
                    }
                }
                Ok(())
            },
        }
    }

    /// Creates and stores a collectible with the given identifier, attribute
    /// tag and owner, enforcing identifier uniqueness, the supply counter and
    /// the per-account bound, in that order. All checks precede any
    /// mutation, so a failure leaves the registry untouched.
    fn mint(&mut self, owner: AccountId, unique_id: [u8; 16], color: Color) -> (r: Result<
        [u8; 16],
        Error,
    >)
        requires
            old(self).wf(),
        ensures
            final(self).wf(),
            final(self).config == old(self).config,
            (r is Ok) == (!old(self).store_contains(unique_id@) && old(self).count < u64::MAX
                && old(self).owned_seq(owner).len() < old(self).config.maximum_owned),
            match r {
                Ok(id) => {
                    &&& id == unique_id
                    &&& final(self).store_contains(unique_id@)
                    &&& final(self).record(unique_id@) == (Collectible {
                        unique_id,
                        price: None,
                        color,
                        owner,
                    })
                    &&& forall|x: Seq<u8>|
                        #[trigger] final(self).store_contains(x) == (old(self).store_contains(x)
                            || x == unique_id@)
                    &&& final(self).store() == old(self).store().insert(
                        unique_id@,
                        (Collectible { unique_id, price: None, color, owner }),
                    )
                    &&& final(self).count == old(self).count + 1
                    &&& final(self).owned(owner) == old(self).owned(owner).insert(unique_id@)
                    &&& final(self).owned_seq(owner).len() == old(self).owned_seq(owner).len()
                        + 1
                    &&& forall|a: AccountId|
                        a != owner ==> final(self).owned_seq(a) == old(self).owned_seq(a)
                },
                Err(e) => {
                    &&& *final(self) == *old(self)
                    &&& (e == Error::DuplicateCollectible <==> old(self).store_contains(
                        unique_id@,
                    ))
                    &&& (e == Error::BoundsOverflow <==> (!old(self).store_contains(unique_id@)
                        && old(self).count == u64::MAX))
                    &&& (e == Error::MaximumCollectiblesOwned <==> (!old(
                        self,
                    ).store_contains(unique_id@) && old(self).count < u64::MAX && old(
                        self,
                    ).owned_seq(owner).len() >= old(self).config.maximum_owned))
                },
            },
    {
        let collectible = Collectible { unique_id, price: None, color, owner };
        if let Some(i) = self.find_collectible(&unique_id) {
            proof {
                assert(self.collectibles@[i as int].unique_id@ == unique_id@);
                assert(self.store_contains(unique_id@));
            }
            return Err(Error::DuplicateCollectible);
        }
        let new_count = match self.count.checked_add(1) {
            Some(c) => c,
            None => {
                return Err(Error::BoundsOverflow);
            },
        };
        let ghost p0 = *self;
        proof {
            if p0.owned_seq(owner).contains(unique_id@) {
                lemma_owned_resolves(p0, owner, unique_id@);
                assert(false);
            }
        }
        match self.append_owned(owner, unique_id) {
            Ok(()) => {},
            Err(e) => {
                return Err(e);
            },
        }
        let ghost p1 = *self;
        self.collectibles.push(collectible);
        self.count = new_count;
        proof {
            lemma_store_push(p0, *self, collectible);
            assert(self.owners@ == p1.owners@);
            lemma_owned_stable(p1, *self);
            assert(self.owned_seq(owner) == p0.owned_seq(owner).push(unique_id@));
            if p0.has_account(owner) {
                let w = p0.account_index(owner);
                assert(id_view(p0.owners@[w].1@).no_duplicates());
            }
            lemma_push_fresh(p0.owned_seq(owner), unique_id@);
            assert(self.owned(owner) =~= p0.owned(owner).insert(unique_id@));
            // The reverse index still resolves against the extended store.
            assert forall|k: int, m: int|
                0 <= k < self.owners@.len() && 0 <= m < self.owners@[k].1@.len() implies #[trigger] self.entry_resolves(
                k,
                m,
            ) by {
                lemma_entry_is_owned(*self, k, m);
                let a = self.owners@[k].0;
                let x = self.owners@[k].1@[m]@;
                if a == owner {
                    let s = p0.owned_seq(owner);
                    let j = choose|j: int|
                        0 <= j < s.push(unique_id@).len() && s.push(unique_id@)[j] == x;
                    if j < s.len() {
                        assert(s.contains(x));
                        lemma_owned_resolves(p0, owner, x);
                    } else {
                        assert(x == unique_id@);
                    }
                } else {
                    assert(self.owned_seq(a) == p0.owned_seq(a));
                    lemma_owned_resolves(p0, a, x);
                }
            }
            // Every record, old and new, appears under its owner.
            assert forall|i: int| 0 <= i < self.collectibles@.len() implies #[trigger] self.listed_with_owner(
                i,
            ) by {
                if i < p0.collectibles@.len() {
                    assert(self.collectibles@[i] == p0.collectibles@[i]);
                    assert(p0.listed_with_owner(i));
                    let c = p0.collectibles@[i];
                    let s = p0.owned_seq(c.owner);
                    let j = choose|j: int| 0 <= j < s.len() && s[j] == c.unique_id@;
                    if c.owner == owner {
                        assert(s.push(unique_id@)[j] == c.unique_id@);
                        assert(self.owned_seq(owner).contains(c.unique_id@));
                    } else {
                        assert(self.owned_seq(c.owner) == s);
                        assert(self.owned_seq(c.owner)[j] == c.unique_id@);
                    }
                } else {
                    assert(self.collectibles@[i] == collectible);
                    let s = p0.owned_seq(owner);
                    assert(s.push(unique_id@)[s.len() as int] == unique_id@);
                    assert(self.owned_seq(owner).contains(unique_id@));
                }
            }
        }
        Ok(unique_id)
    }

    /// Mints a new collectible for the caller, deriving its identifier and
    /// attribute tag from the host-supplied entropy and context. Fails with
    /// `DuplicateCollectible` when the derived identifier collides with an
    /// existing one.
    pub fn create_collectible(
        &mut self,
        caller: AccountId,
        entropy: &[u8; 32],
        extrinsic_index: u32,
        block_number: u32,
    ) -> (r: Result<Event, Error>)
        requires
            old(self).wf(),
        ensures
            final(self).wf(),
            final(self).config == old(self).config,
            ({
                let id = id_digest(id_payload(entropy@, extrinsic_index, block_number));
                let tag = (if id[0] % 2 == 0 {
                    Color::Red
                } else {
                    Color::Yellow
                });
                &&& (r is Ok) == (!old(self).store_contains(id) && old(self).count < u64::MAX
                    && old(self).owned_seq(caller).len() < old(self).config.maximum_owned)
                &&& match r {
                    Ok(ev) => match ev {
                        Event::CollectibleCreated { collectible, owner } => {
                            &&& collectible@ == id
                            &&& owner == caller
                            &&& final(self).store_contains(id)
                            &&& final(self).record(id) == (Collectible {
                                unique_id: collectible,
                                price: None,
                                color: tag,
                                owner: caller,
                            })
                            &&& forall|x: Seq<u8>|
                                #[trigger] final(self).store_contains(x) == (old(
                                    self,
                                ).store_contains(x) || x == id)
                            &&& final(self).store() == old(self).store().insert(
                                id,
                                (Collectible {
                                    unique_id: collectible,
                                    price: None,
                                    color: tag,
                                    owner: caller,
                                }),
                            )
                            &&& final(self).count == old(self).count + 1
                            &&& final(self).owned(caller) == old(self).owned(caller).insert(id)
                            &&& final(self).owned_seq(caller).len() == old(self).owned_seq(
                                caller,
                            ).len() + 1
                            &&& forall|a: AccountId|
                                a != caller ==> final(self).owned_seq(a) == old(
                                    self,
                                ).owned_seq(a)
                        },
                        _ => false,
                    },
                    Err(e) => {
                        &&& *final(self) == *old(self)
                        &&& (e == Error::DuplicateCollectible <==> old(self).store_contains(id))
                        &&& (e == Error::BoundsOverflow <==> (!old(self).store_contains(id)
                            && old(self).count == u64::MAX))
                        &&& (e == Error::MaximumCollectiblesOwned <==> (!old(
                            self,
                        ).store_contains(id) && old(self).count < u64::MAX && old(
                            self,
                        ).owned_seq(caller).len() >= old(self).config.maximum_owned))
                    },
                }
            }),
    {
        let (unique_id, color) = crate::identifier::gen_unique_id(
            entropy,
            extrinsic_index,
            block_number,
        );
        match self.mint(caller, unique_id, color) {
            Ok(id) => Ok(Event::CollectibleCreated { collectible: id, owner: caller }),
            Err(e) => Err(e),
        }
    }

    /// Validation and staging shared by plain transfers and purchases:
    /// checks existence, self-transfer and the recipient's bound, and builds
    /// the updated record and both updated collections without touching
    /// shared state. Removal from the old owner's collection swaps with the
    /// last element and truncates, so the remaining order is not preserved.
    fn pre_transfer(&self, collectible_id: &[u8; 16], to: AccountId) -> (r: Result<
        (Collectible, AccountId, Vec<[u8; 16]>, Vec<[u8; 16]>),
        Error,
    >)
        requires
            self.wf(),
        ensures
            (r is Ok) == (self.store_contains(collectible_id@) && to != self.record(
                collectible_id@,
            ).owner && self.owned_seq(to).len() < self.config.maximum_owned),
            match r {
                Ok(staged) => {
                    let from = self.record(collectible_id@).owner;
                    &&& staged.0 == (Collectible {
                        unique_id: self.record(collectible_id@).unique_id,
                        price: None,
                        color: self.record(collectible_id@).color,
                        owner: to,
                    })
                    &&& staged.0.unique_id@ == collectible_id@
                    &&& staged.1 == from
                    &&& id_view(staged.2@).no_duplicates()
                    &&& id_view(staged.2@).to_set() == self.owned(from).remove(collectible_id@)
                    &&& staged.2@.len() == self.owned_seq(from).len() - 1
                    &&& id_view(staged.3@).no_duplicates()
                    &&& id_view(staged.3@).to_set() == self.owned(to).insert(collectible_id@)
                    &&& staged.3@.len() == self.owned_seq(to).len() + 1
                    &&& staged.3@.len() <= self.config.maximum_owned
                },
                Err(e) => {
                    &&& (e == Error::NoCollectible <==> !self.store_contains(collectible_id@))
                    &&& (e == Error::TransferToSelf <==> (self.store_contains(collectible_id@)
                        && to == self.record(collectible_id@).owner))
                    &&& (e == Error::MaximumCollectiblesOwned <==> (self.store_contains(
                        collectible_id@,
                    ) && to != self.record(collectible_id@).owner && self.owned_seq(to).len()
                        >= self.config.maximum_owned))
                },
            },
    {
        let i = match self.find_collectible(collectible_id) {
            Some(i) => i,
            None => {
                return Err(Error::NoCollectible);
            },
        };
        proof {
            assert(self.store_contains(collectible_id@));
            let w = self.store_index(collectible_id@);
            assert(0 <= w < self.collectibles@.len() && self.collectibles@[w].unique_id@
                == collectible_id@);
            assert(w == i as int);
        }
        let collectible = self.collectibles[i];
        let from = collectible.owner;
        if from == to {
            return Err(Error::TransferToSelf);
        }
        proof {
            assert(self.listed_with_owner(i as int));
            assert(self.owned_seq(from).contains(collectible_id@));
            if !self.has_account(from) {
                assert(Seq::<Seq<u8>>::empty().contains(collectible_id@));
                assert(false);
            }
        }
        let k_from = match self.find_account(from) {
            Some(k) => k,
            None => {
                proof {
                    assert(false);
                }
                return Err(Error::NoCollectible);
            },
        };
        proof {
            let w = self.account_index(from);
            assert(0 <= w < self.owners@.len() && self.owners@[w].0 == from);
            assert(w == k_from as int);
        }
        let mut from_ids = copy_ids(&self.owners[k_from].1);
        let ghost gfrom_ids = from_ids@;
        let m = match position_of(&from_ids, collectible_id) {
            Some(m) => m,
            None => {
                proof {
                    assert(id_view(gfrom_ids) == self.owned_seq(from));
                    assert(false);
                }
                return Err(Error::NoCollectible);
            },
        };
        from_ids.swap_remove(m);
        proof {
            assert(id_view(gfrom_ids) == self.owned_seq(from));
            assert(id_view(gfrom_ids).no_duplicates());
            lemma_swap_removed(id_view(gfrom_ids), m as int);
            assert(id_view(from_ids@) =~= swap_removed(id_view(gfrom_ids), m as int));
            assert(id_view(gfrom_ids)[m as int] == collectible_id@);
        }
        let to_ids_base = match self.find_account(to) {
            Some(k_to) => {
                proof {
                    let w = self.account_index(to);
                    assert(0 <= w < self.owners@.len() && self.owners@[w].0 == to);
                    assert(w == k_to as int);
                }
                copy_ids(&self.owners[k_to].1)
            },
            None => Vec::new(),
        };
        proof {
            assert(id_view(to_ids_base@) == self.owned_seq(to));
        }
        if to_ids_base.len() >= self.config.maximum_owned as usize {
            return Err(Error::MaximumCollectiblesOwned);
        }
        let mut to_ids = to_ids_base;
        to_ids.push(*collectible_id);
        let ghost gto_base = self.owned_seq(to);
        proof {
            if gto_base.contains(collectible_id@) {
                lemma_one_owner(*self, to, from, collectible_id@);
                assert(false);
            }
            if self.has_account(to) {
                let w = self.account_index(to);
                assert(id_view(self.owners@[w].1@).no_duplicates());
            }
            lemma_push_fresh(gto_base, collectible_id@);
            assert(id_view(to_ids@) =~= gto_base.push(collectible_id@));
        }
        Ok(
            (
                Collectible {
                    unique_id: collectible.unique_id,
                    price: None,
                    color: collectible.color,
                    owner: to,
                },
                from,
                from_ids,
                to_ids,
            ),
        )
    }

    /// Commits a staged transfer: rewrites the record and both accounts'
    /// collections as one logical step. Infallible given correctly staged
    /// inputs; no intermediate state is observable afterwards.
    fn post_transfer(
        &mut self,
        collectible: &Collectible,
        from: AccountId,
        to: AccountId,
        from_ids: Vec<[u8; 16]>,
        to_ids: Vec<[u8; 16]>,
    )
        requires
            old(self).wf(),
            old(self).store_contains(collectible.unique_id@),
            old(self).record(collectible.unique_id@).owner == from,
            collectible.owner == to,
            collectible.price is None,
            from != to,
            id_view(from_ids@).no_duplicates(),
            id_view(from_ids@).to_set() == old(self).owned(from).remove(collectible.unique_id@),
            from_ids@.len() == old(self).owned_seq(from).len() - 1,
            id_view(to_ids@).no_duplicates(),
            id_view(to_ids@).to_set() == old(self).owned(to).insert(collectible.unique_id@),
            to_ids@.len() == old(self).owned_seq(to).len() + 1,
            to_ids@.len() <= old(self).config.maximum_owned,
        ensures
            final(self).wf(),
            final(self).config == old(self).config,
            final(self).count == old(self).count,
            final(self).store() == old(self).store().insert(collectible.unique_id@, *collectible),
            final(self).record(collectible.unique_id@) == *collectible,
            forall|x: Seq<u8>|
                #[trigger] final(self).store_contains(x) == old(self).store_contains(x),
            final(self).owned(from) == old(self).owned(from).remove(collectible.unique_id@),
            final(self).owned_seq(from).len() == old(self).owned_seq(from).len() - 1,
            final(self).owned(to) == old(self).owned(to).insert(collectible.unique_id@),
            final(self).owned_seq(to).len() == old(self).owned_seq(to).len() + 1,
            forall|a: AccountId|
                a != from && a != to ==> final(self).owned_seq(a) == old(self).owned_seq(a),
    {
        let ghost p0 = *self;
        let ghost cid = collectible.unique_id@;
        let i = match self.find_collectible(&collectible.unique_id) {
            Some(i) => i,
            None => {
                proof {
                    assert(false);
                }
                return ;
            },
        };
        let _removed = self.collectibles.remove(i);
        self.collectibles.insert(i, *collectible);
        let ghost p1 = *self;
        proof {
            assert(p1.collectibles@ =~= p0.collectibles@.update(i as int, *collectible));
            lemma_store_update(p0, p1, i as int, *collectible);
            let w = p0.store_index(cid);
            assert(0 <= w < p0.collectibles@.len() && p0.collectibles@[w].unique_id@ == cid);
            assert(w == i as int);
            assert(p0.listed_with_owner(i as int));
            assert(p0.owned_seq(from).contains(cid));
            if !p0.has_account(from) {
                assert(false);
            }
        }
        let k_from = match self.find_account(from) {
            Some(k) => k,
            None => {
                proof {
                    assert(false);
                }
                return ;
            },
        };
        let ghost gfrom_entry = (p1.owners@[k_from as int].0, from_ids);
        self.set_owned_list(k_from, from_ids);
        let ghost p2 = *self;
        proof {
            lemma_owners_update(p1, p2, k_from as int, gfrom_entry);
            let w = p1.account_index(from);
            assert(0 <= w < p1.owners@.len() && p1.owners@[w].0 == from);
            assert(w == k_from as int);
            assert(gfrom_entry.0 == from);
            assert(p2.owned_seq(from) == id_view(from_ids@));
        }
        match self.find_account(to) {
            Some(k_to) => {
                let ghost gto_entry = (p2.owners@[k_to as int].0, to_ids);
                self.set_owned_list(k_to, to_ids);
                proof {
                    lemma_owners_update(p2, *self, k_to as int, gto_entry);
                    let w = p2.account_index(to);
                    assert(0 <= w < p2.owners@.len() && p2.owners@[w].0 == to);
                    assert(w == k_to as int);
                    assert(gto_entry.0 == to);
                    assert(self.owned_seq(to) == id_view(to_ids@));
                }
            },
            None => {
                let ghost gto_entry = (to, to_ids);
                self.owners.push((to, to_ids));
                proof {
                    lemma_owners_push(p2, *self, gto_entry);
                    assert(self.owned_seq(to) == id_view(to_ids@));
                }
            },
        }
        proof {
            lemma_store_stable(p1, *self);
            assert(self.store() == p0.store().insert(cid, *collectible));
            self.lemma_post_transfer_wf(p0, p2, *collectible, from, to);
        }
    }

    /// Wraps up the commit proof of `post_transfer`: from the staged facts
    /// and the intermediate states, the final state is well formed.
    proof fn lemma_post_transfer_wf(
        self,
        p0: Pallet,
        p2: Pallet,
        collectible: Collectible,
        from: AccountId,
        to: AccountId,
    )
        requires
            p0.wf(),
            p0.store_contains(collectible.unique_id@),
            p0.record(collectible.unique_id@).owner == from,
            collectible.owner == to,
            collectible.price is None,
            from != to,
            self.count == p0.count,
            self.config == p0.config,
            self.collectibles == p2.collectibles,
            self.ids_unique(),
            self.accounts_unique(),
            forall|x: Seq<u8>| self.store_contains(x) == p0.store_contains(x),
            self.record(collectible.unique_id@) == collectible,
            forall|x: Seq<u8>|
                p0.store_contains(x) && x != collectible.unique_id@ ==> self.record(x)
                    == p0.record(x),
            self.store() == p0.store().insert(collectible.unique_id@, collectible),
            self.collectibles@.len() == p0.collectibles@.len(),
            self.owned_seq(from).no_duplicates(),
            self.owned_seq(from).to_set() == p0.owned(from).remove(collectible.unique_id@),
            self.owned_seq(from).len() == p0.owned_seq(from).len() - 1,
            self.owned_seq(to).no_duplicates(),
            self.owned_seq(to).to_set() == p0.owned(to).insert(collectible.unique_id@),
            self.owned_seq(to).len() == p0.owned_seq(to).len() + 1,
            self.owned_seq(to).len() <= p0.config.maximum_owned,
            forall|a: AccountId|
                a != from && a != to ==> self.owned_seq(a) == p0.owned_seq(a),
        ensures
            self.wf(),
    {
        let cid = collectible.unique_id@;
        assert forall|k: int|
            0 <= k < self.owners@.len() implies (#[trigger] self.owners@[k]).1@.len()
            <= self.config.maximum_owned by {
            let a = self.owners@[k].0;
            assert(self.has_account(a)) by {
                assert(self.owners@[k].0 == a);
            }
            let w = self.account_index(a);
            assert(w == k);
            assert(self.owned_seq(a) == id_view(self.owners@[k].1@));
            if a == from {
                assert(p0.owned_seq(from).len() <= p0.config.maximum_owned) by {
                    if p0.has_account(from) {
                        let wf0 = p0.account_index(from);
                        assert(p0.owners@[wf0].1@.len() <= p0.config.maximum_owned);
                    }
                }
            } else if a == to {
            } else {
                assert(self.owned_seq(a) == p0.owned_seq(a));
                if p0.has_account(a) {
                    let wf0 = p0.account_index(a);
                    assert(p0.owners@[wf0].1@.len() <= p0.config.maximum_owned);
                }
            }
        }
        assert forall|k: int|
            0 <= k < self.owners@.len() implies id_view(
            (#[trigger] self.owners@[k]).1@,
        ).no_duplicates() by {
            let a = self.owners@[k].0;
            assert(self.has_account(a)) by {
                assert(self.owners@[k].0 == a);
            }
            let w = self.account_index(a);
            assert(w == k);
            assert(self.owned_seq(a) == id_view(self.owners@[k].1@));
            if a == from {
            } else if a == to {
            } else {
                assert(self.owned_seq(a) == p0.owned_seq(a));
                if p0.has_account(a) {
                    let wf0 = p0.account_index(a);
                    assert(id_view(p0.owners@[wf0].1@).no_duplicates());
                    assert(p0.owned_seq(a) == id_view(p0.owners@[wf0].1@));
                }
            }
        }
        assert forall|k: int, m: int|
            0 <= k < self.owners@.len() && 0 <= m < self.owners@[k].1@.len() implies #[trigger] self.entry_resolves(
            k,
            m,
        ) by {
            lemma_entry_is_owned(self, k, m);
            let a = self.owners@[k].0;
            let x = self.owners@[k].1@[m]@;
            assert(self.owned_seq(a).contains(x));
            if a == from {
                assert(self.owned_seq(from).to_set().contains(x));
                assert(p0.owned_seq(from).contains(x) && x != cid);
                lemma_owned_resolves(p0, from, x);
                assert(self.record(x) == p0.record(x));
            } else if a == to {
                assert(self.owned_seq(to).to_set().contains(x));
                if x == cid {
                    assert(self.record(cid) == collectible);
                } else {
                    assert(p0.owned_seq(to).contains(x));
                    lemma_owned_resolves(p0, to, x);
                    assert(self.record(x) == p0.record(x));
                }
            } else {
                assert(self.owned_seq(a) == p0.owned_seq(a));
                lemma_owned_resolves(p0, a, x);
                if x == cid {
                    assert(p0.record(cid).owner == a);
                    assert(false);
                }
                assert(self.record(x) == p0.record(x));
            }
        }
        assert forall|i: int|
            0 <= i < self.collectibles@.len() implies #[trigger] self.listed_with_owner(i) by {
            let c = self.collectibles@[i];
            assert(self.store_contains(c.unique_id@)) by {
                assert(self.collectibles@[i].unique_id@ == c.unique_id@);
            }
            if c.unique_id@ == cid {
                assert(self.record(cid) == self.collectibles@[self.store_index(cid)]);
                let w = self.store_index(cid);
                assert(0 <= w < self.collectibles@.len() && self.collectibles@[w].unique_id@
                    == cid);
                assert(w == i);
                assert(c == collectible);
                assert(self.owned_seq(to).to_set().contains(cid));
                assert(self.owned_seq(to).contains(cid));
            } else {
                assert(p0.store_contains(c.unique_id@));
                assert(self.record(c.unique_id@) == p0.record(c.unique_id@)) by {
                    assert(p0.store_contains(c.unique_id@) && c.unique_id@ != cid);
                }
                assert(self.record(c.unique_id@) == c) by {
                    let w = self.store_index(c.unique_id@);
                    assert(0 <= w < self.collectibles@.len()
                        && self.collectibles@[w].unique_id@ == c.unique_id@);
                    assert(w == i);
                }
                let owner0 = c.owner;
                assert(p0.record(c.unique_id@) == c);
                assert(p0.listed_with_owner(p0.store_index(c.unique_id@))) by {
                    let w0 = p0.store_index(c.unique_id@);
                    assert(0 <= w0 < p0.collectibles@.len());
                }
                let w0 = p0.store_index(c.unique_id@);
                assert(p0.collectibles@[w0] == p0.record(c.unique_id@));
                assert(p0.owned_seq(owner0).contains(c.unique_id@));
                if owner0 == from {
                    assert(p0.owned(from).remove(cid).contains(c.unique_id@));
                    assert(self.owned_seq(from).to_set().contains(c.unique_id@));
                    assert(self.owned_seq(from).contains(c.unique_id@));
                } else if owner0 == to {
                    assert(p0.owned(to).insert(cid).contains(c.unique_id@));
                    assert(self.owned_seq(to).to_set().contains(c.unique_id@));
                    assert(self.owned_seq(to).contains(c.unique_id@));
                } else {
                    assert(self.owned_seq(owner0) == p0.owned_seq(owner0));
                }
            }
        }
    }

    /// Transfers a collectible to another account and reports the outcome
    /// record. The moved collectible's listing is reset.
    pub fn do_transfer(&mut self, collectible_id: [u8; 16], to: AccountId) -> (r: Result<
        Event,
        Error,
    >)
        requires
            old(self).wf(),
        ensures
            final(self).wf(),
            final(self).config == old(self).config,
            (r is Ok) == (old(self).store_contains(collectible_id@) && to != old(self).record(
                collectible_id@,
            ).owner && old(self).owned_seq(to).len() < old(self).config.maximum_owned),
            match r {
                Ok(ev) => {
                    &&& ev == (Event::TransferSucceeded {
                        from: old(self).record(collectible_id@).owner,
                        to,
                        collectible: collectible_id,
                    })
                    &&& transfer_applied(*old(self), *final(self), collectible_id@, to)
                },
                Err(e) => {
                    &&& *final(self) == *old(self)
                    &&& (e == Error::NoCollectible <==> !old(self).store_contains(
                        collectible_id@,
                    ))
                    &&& (e == Error::TransferToSelf <==> (old(self).store_contains(
                        collectible_id@,
                    ) && to == old(self).record(collectible_id@).owner))
                    &&& (e == Error::MaximumCollectiblesOwned <==> (old(self).store_contains(
                        collectible_id@,
                    ) && to != old(self).record(collectible_id@).owner && old(self).owned_seq(
                        to,
                    ).len() >= old(self).config.maximum_owned))
                },
            },
    {
        let (collectible, from, from_collection, to_collection) = match self.pre_transfer(
            &collectible_id,
            to,
        ) {
            Ok(staged) => staged,
            Err(e) => {
                return Err(e);
            },
        };
        self.post_transfer(&collectible, from, to, from_collection, to_collection);
        Ok(Event::TransferSucceeded { from, to, collectible: collectible_id })
    }

    /// Transfers a collectible the caller owns to another account. Any
    /// account holding a collectible can send it; the transfer resets the
    /// listing, so the new owner must set a price to sell it.
    pub fn transfer(&mut self, caller: AccountId, to: AccountId, collectible_id: [u8; 16]) -> (r:
        Result<Event, Error>)
        requires
            old(self).wf(),
        ensures
            final(self).wf(),
            final(self).config == old(self).config,
            (r is Ok) == (old(self).store_contains(collectible_id@) && old(self).record(
                collectible_id@,
            ).owner == caller && to != caller && old(self).owned_seq(to).len() < old(
                self,
            ).config.maximum_owned),
            match r {
                Ok(ev) => {
                    &&& ev == (Event::TransferSucceeded { from: caller, to, collectible: collectible_id })
                    &&& transfer_applied(*old(self), *final(self), collectible_id@, to)
                },
                Err(e) => {
                    &&& *final(self) == *old(self)
                    &&& (e == Error::NoCollectible <==> !old(self).store_contains(
                        collectible_id@,
                    ))
                    &&& (e == Error::NotOwner <==> (old(self).store_contains(collectible_id@)
                        && old(self).record(collectible_id@).owner != caller))
                    &&& (e == Error::TransferToSelf <==> (old(self).store_contains(
                        collectible_id@,
                    ) && old(self).record(collectible_id@).owner == caller && to == caller))
                    &&& (e == Error::MaximumCollectiblesOwned <==> (old(self).store_contains(
                        collectible_id@,
                    ) && old(self).record(collectible_id@).owner == caller && to != caller
                        && old(self).owned_seq(to).len() >= old(self).config.maximum_owned))
                },
            },
    {
        let i = match self.find_collectible(&collectible_id) {
            Some(i) => i,
            None => {
                return Err(Error::NoCollectible);
            },
        };
        proof {
            let w = self.store_index(collectible_id@);
            assert(0 <= w < self.collectibles@.len() && self.collectibles@[w].unique_id@
                == collectible_id@);
            assert(w == i as int);
        }
        if self.collectibles[i].owner != caller {
            return Err(Error::NotOwner);
        }
        self.do_transfer(collectible_id, to)
    }

    /// Buys a collectible for `buyer` at `price`: validates and stages the
    /// transfer, then settles the payment — the last fallible step, so a
    /// settlement failure leaves the registry untouched — and only then
    /// commits storage and reports the sale.
    pub fn do_buy<P: PaymentLedger>(
        &mut self,
        ledger: &mut P,
        collectible_id: [u8; 16],
        buyer: AccountId,
        price: Balance,
    ) -> (r: Result<Event, DispatchError>)
        requires
            old(self).wf(),
            old(ledger).wf(),
        ensures
            final(self).wf(),
            final(ledger).wf(),
            final(self).config == old(self).config,
            (r is Ok) == (old(self).store_contains(collectible_id@) && buyer != old(self).record(
                collectible_id@,
            ).owner && old(self).owned_seq(buyer).len() < old(self).config.maximum_owned && old(
                ledger,
            ).pay_succeeds(buyer, old(self).record(collectible_id@).owner, price)),
            match r {
                Ok(ev) => {
                    let seller = old(self).record(collectible_id@).owner;
                    &&& old(self).store_contains(collectible_id@)
                    &&& buyer != seller
                    &&& old(self).owned_seq(buyer).len() < old(self).config.maximum_owned
                    &&& ev == (Event::Sold { seller, buyer, collectible: collectible_id, price })
                    &&& transfer_applied(*old(self), *final(self), collectible_id@, buyer)
                    &&& final(ledger).balance_of(buyer) == old(ledger).balance_of(buyer)
                        - price
                    &&& final(ledger).balance_of(seller) == old(ledger).balance_of(seller)
                        + price
                    &&& forall|a: AccountId|
                        a != buyer && a != seller ==> final(ledger).balance_of(a) == old(
                            ledger,
                        ).balance_of(a)
                },
                Err(e) => {
                    &&& *final(self) == *old(self)
                    &&& *final(ledger) == *old(ledger)
                    &&& (e == DispatchError::Registry(Error::NoCollectible) <==> !old(
                        self,
                    ).store_contains(collectible_id@))
                    &&& (e == DispatchError::Registry(Error::TransferToSelf) <==> (old(
                        self,
                    ).store_contains(collectible_id@) && buyer == old(self).record(
                        collectible_id@,
                    ).owner))
                    &&& (e == DispatchError::Registry(Error::MaximumCollectiblesOwned) <==> (old(
                        self,
                    ).store_contains(collectible_id@) && buyer != old(self).record(
                        collectible_id@,
                    ).owner && old(self).owned_seq(buyer).len() >= old(
                        self,
                    ).config.maximum_owned))
                    &&& (e is Payment <==> (old(self).store_contains(collectible_id@) && buyer
                        != old(self).record(collectible_id@).owner && old(self).owned_seq(
                        buyer,
                    ).len() < old(self).config.maximum_owned && !old(ledger).pay_succeeds(
                        buyer,
                        old(self).record(collectible_id@).owner,
                        price,
                    )))
                    &&& (e is Registry ==> (e == DispatchError::Registry(Error::NoCollectible)
                        || e == DispatchError::Registry(Error::TransferToSelf) || e
                        == DispatchError::Registry(Error::MaximumCollectiblesOwned)))
                },
            },
    {
        let (collectible, seller, seller_collection, buyer_collection) = match self.pre_transfer(
            &collectible_id,
            buyer,
        ) {
            Ok(staged) => staged,
            Err(e) => {
                return Err(DispatchError::Registry(e));
            },
        };
        // Settlement comes before any storage write: nothing can fail after
        // it, so a payment failure leaves the registry exactly as it was.
        match ledger.pay(buyer, seller, price) {
            Ok(()) => {},
            Err(e) => {
                return Err(DispatchError::Payment(e));
            },
        }
        self.post_transfer(&collectible, seller, buyer, seller_collection, buyer_collection);
        Ok(Event::Sold { seller, buyer, collectible: collectible_id, price })
    }

    /// Buys a listed collectible. The offer must reach the listed price,
    /// but the buyer is charged exactly the seller's ask, even when the
    /// offer is higher.
    pub fn buy<P: PaymentLedger>(
        &mut self,
        ledger: &mut P,
        caller: AccountId,
        collectible_id: [u8; 16],
        offered_price: Balance,
    ) -> (r: Result<Event, DispatchError>)
        requires
            old(self).wf(),
            old(ledger).wf(),
        ensures
            final(self).wf(),
            final(ledger).wf(),
            final(self).config == old(self).config,
            ({
                let rec = old(self).record(collectible_id@);
                (r is Ok) == (old(self).store_contains(collectible_id@) && rec.price is Some
                    && offered_price >= rec.price->0 && caller != rec.owner && old(
                    self,
                ).owned_seq(caller).len() < old(self).config.maximum_owned && old(
                    ledger,
                ).pay_succeeds(caller, rec.owner, rec.price->0))
            }),
            match r {
                Ok(ev) => {
                    let rec = old(self).record(collectible_id@);
                    &&& old(self).store_contains(collectible_id@)
                    &&& rec.price is Some
                    &&& offered_price >= rec.price->0
                    &&& caller != rec.owner
                    &&& old(self).owned_seq(caller).len() < old(self).config.maximum_owned
                    &&& ev == (Event::Sold {
                        seller: rec.owner,
                        buyer: caller,
                        collectible: collectible_id,
                        price: rec.price->0,
                    })
                    &&& transfer_applied(*old(self), *final(self), collectible_id@, caller)
                    &&& final(ledger).balance_of(caller) == old(ledger).balance_of(caller)
                        - rec.price->0
                    &&& final(ledger).balance_of(rec.owner) == old(ledger).balance_of(
                        rec.owner,
                    ) + rec.price->0
                    &&& forall|a: AccountId|
                        a != caller && a != rec.owner ==> final(ledger).balance_of(a) == old(
                            ledger,
                        ).balance_of(a)
                },
                Err(e) => {
                    let rec = old(self).record(collectible_id@);
                    &&& *final(self) == *old(self)
                    &&& *final(ledger) == *old(ledger)
                    &&& (e == DispatchError::Registry(Error::NoCollectible) <==> !old(
                        self,
                    ).store_contains(collectible_id@))
                    &&& (e == DispatchError::Registry(Error::CollectibleNotForSale) <==> (old(
                        self,
                    ).store_contains(collectible_id@) && rec.price is None))
                    &&& (e == DispatchError::Registry(Error::OfferedPriceTooLow) <==> (old(
                        self,
                    ).store_contains(collectible_id@) && rec.price is Some && offered_price
                        < rec.price->0))
                    &&& (e == DispatchError::Registry(Error::TransferToSelf) <==> (old(
                        self,
                    ).store_contains(collectible_id@) && rec.price is Some && offered_price
                        >= rec.price->0 && caller == rec.owner))
                    &&& (e == DispatchError::Registry(Error::MaximumCollectiblesOwned) <==> (old(
                        self,
                    ).store_contains(collectible_id@) && rec.price is Some && offered_price
                        >= rec.price->0 && caller != rec.owner && old(self).owned_seq(
                        caller,
                    ).len() >= old(self).config.maximum_owned))
                    &&& (e is Payment <==> (old(self).store_contains(collectible_id@)
                        && rec.price is Some && offered_price >= rec.price->0 && caller
                        != rec.owner && old(self).owned_seq(caller).len() < old(
                        self,
                    ).config.maximum_owned && !old(ledger).pay_succeeds(
                        caller,
                        rec.owner,
                        rec.price->0,
                    )))
                    &&& (e is Registry ==> (e == DispatchError::Registry(Error::NoCollectible)
                        || e == DispatchError::Registry(Error::CollectibleNotForSale) || e
                        == DispatchError::Registry(Error::OfferedPriceTooLow) || e
                        == DispatchError::Registry(Error::TransferToSelf) || e
                        == DispatchError::Registry(Error::MaximumCollectiblesOwned)))
                },
            },
    {
        let i = match self.find_collectible(&collectible_id) {
            Some(i) => i,
            None => {
                return Err(DispatchError::Registry(Error::NoCollectible));
            },
        };
        proof {
            let w = self.store_index(collectible_id@);
            assert(0 <= w < self.collectibles@.len() && self.collectibles@[w].unique_id@
                == collectible_id@);
            assert(w == i as int);
        }
        let listed_price = match self.collectibles[i].price {
            Some(p) => p,
            None => {
                return Err(DispatchError::Registry(Error::CollectibleNotForSale));
            },
        };
        if offered_price < listed_price {
            return Err(DispatchError::Registry(Error::OfferedPriceTooLow));
        }
        self.do_buy(ledger, collectible_id, caller, listed_price)
    }

    /// Destroys a collectible the caller owns: the record leaves the store,
    /// the count decreases, and the identifier leaves the caller's
    /// collection. No listing check: a listed collectible can be destroyed,
    /// which silently invalidates its listing.
    pub fn destroy_collectible(&mut self, caller: AccountId, collectible_id: [u8; 16]) -> (r:
        Result<Event, Error>)
        requires
            old(self).wf(),
        ensures
            final(self).wf(),
            final(self).config == old(self).config,
            (r is Ok) == (old(self).store_contains(collectible_id@) && old(self).record(
                collectible_id@,
            ).owner == caller),
            match r {
                Ok(ev) => {
                    &&& ev == (Event::CollectibleDestroyed { collectible: collectible_id })
                    &&& final(self).store() == old(self).store().remove(collectible_id@)
                    &&& !final(self).store_contains(collectible_id@)
                    &&& forall|x: Seq<u8>|
                        x != collectible_id@ ==> (#[trigger] final(self).store_contains(x)
                            == old(self).store_contains(x))
                    &&& final(self).count == old(self).count - 1
                    &&& final(self).owned(caller) == old(self).owned(caller).remove(
                        collectible_id@,
                    )
                    &&& final(self).owned_seq(caller).len() == old(self).owned_seq(
                        caller,
                    ).len() - 1
                    &&& forall|a: AccountId|
                        a != caller ==> final(self).owned_seq(a) == old(self).owned_seq(a)
                },
                Err(e) => {
                    &&& *final(self) == *old(self)
                    &&& (e == Error::NoCollectible <==> !old(self).store_contains(
                        collectible_id@,
                    ))
                    &&& (e == Error::NotOwner <==> (old(self).store_contains(collectible_id@)
                        && old(self).record(collectible_id@).owner != caller))
                },
            },
    {
        let i = match self.find_collectible(&collectible_id) {
            Some(i) => i,
            None => {
                return Err(Error::NoCollectible);
            },
        };
        proof {
            let w = self.store_index(collectible_id@);
            assert(0 <= w < self.collectibles@.len() && self.collectibles@[w].unique_id@
                == collectible_id@);
            assert(w == i as int);
        }
        if self.collectibles[i].owner != caller {
            return Err(Error::NotOwner);
        }
        let ghost p0 = *self;
        // The record exists, so the count is at least one and cannot
        // underflow.
        self.count = self.count - 1;
        let _removed = self.collectibles.remove(i);
        let ghost p1 = *self;
        proof {
            lemma_store_remove(p0, p1, i as int);
            assert(p0.listed_with_owner(i as int));
            assert(p0.owned_seq(caller).contains(collectible_id@));
            if !p0.has_account(caller) {
                assert(false);
            }
            lemma_owned_stable(p0, p1);
        }
        let k = match self.find_account(caller) {
            Some(k) => k,
            None => {
                proof {
                    assert(false);
                }
                return Err(Error::NoCollectible);
            },
        };
        proof {
            let w = p1.account_index(caller);
            assert(0 <= w < p1.owners@.len() && p1.owners@[w].0 == caller);
            assert(w == k as int);
        }
        let mut ids = copy_ids(&self.owners[k].1);
        let ghost gids = ids@;
        proof {
            assert(id_view(gids) == p1.owned_seq(caller));
            assert(id_view(gids).no_duplicates()) by {
                assert(id_view(p1.owners@[k as int].1@).no_duplicates());
            }
        }
        let m = match position_of(&ids, &collectible_id) {
            Some(m) => m,
            None => {
                proof {
                    assert(id_view(gids).contains(collectible_id@));
                    assert(false);
                }
                return Err(Error::NoCollectible);
            },
        };
        ids.swap_remove(m);
        let ghost gentry = (p1.owners@[k as int].0, ids);
        self.set_owned_list(k, ids);
        proof {
            lemma_owners_update(p1, *self, k as int, gentry);
            lemma_swap_removed(id_view(gids), m as int);
            assert(id_view(ids@) =~= swap_removed(id_view(gids), m as int));
            assert(id_view(gids)[m as int] == collectible_id@);
            assert(self.owned_seq(caller) == id_view(ids@));
            lemma_store_stable(p1, *self);
            assert(self.store() == p0.store().remove(collectible_id@));
            assert(self.owned(caller) == p0.owned(caller).remove(collectible_id@));
            let cid = collectible_id@;
            // Bounds and duplicate freedom of every entry.
            assert forall|kk: int|
                0 <= kk < self.owners@.len() implies (#[trigger] self.owners@[kk]).1@.len()
                <= self.config.maximum_owned && id_view(self.owners@[kk].1@).no_duplicates() by {
                if kk != k as int {
                    assert(self.owners@[kk] == p1.owners@[kk]);
                    assert(p0.owners@[kk] == p1.owners@[kk]);
                    assert(id_view((p0.owners@[kk]).1@).no_duplicates());
                    assert((p0.owners@[kk]).1@.len() <= p0.config.maximum_owned);
                } else {
                    assert(gids == p0.owners@[kk].1@);
                    assert(p0.owners@[kk].1@.len() <= p0.config.maximum_owned);
                }
            }
            // Every indexed identifier still resolves.
            assert forall|kk: int, mm: int|
                0 <= kk < self.owners@.len() && 0 <= mm < self.owners@[kk].1@.len() implies #[trigger] self.entry_resolves(
                kk,
                mm,
            ) by {
                lemma_entry_is_owned(*self, kk, mm);
                let a = self.owners@[kk].0;
                let x = self.owners@[kk].1@[mm]@;
                assert(self.owned_seq(a).contains(x));
                if a == caller {
                    assert(self.owned_seq(caller).to_set().contains(x));
                    assert(p0.owned_seq(caller).contains(x) && x != cid);
                    lemma_owned_resolves(p0, caller, x);
                    assert(p1.record(x) == p0.record(x));
                    assert(self.record(x) == p1.record(x));
                } else {
                    assert(self.owned_seq(a) == p0.owned_seq(a));
                    lemma_owned_resolves(p0, a, x);
                    if x == cid {
                        assert(p0.record(cid).owner == a);
                        assert(false);
                    }
                    assert(p1.record(x) == p0.record(x));
                    assert(self.record(x) == p1.record(x));
                }
            }
            // Every remaining record is still listed under its owner.
            assert forall|j: int|
                0 <= j < self.collectibles@.len() implies #[trigger] self.listed_with_owner(
                j,
            ) by {
                let c = self.collectibles@[j];
                let fj: int = if j < i as int {
                    j
                } else {
                    j + 1
                };
                assert(c == p0.collectibles@[fj]);
                assert(p0.listed_with_owner(fj));
                assert(c.unique_id@ != cid) by {
                    assert(p0.collectibles@[i as int].unique_id@ == cid);
                }
                if c.owner == caller {
                    assert(p0.owned_seq(caller).contains(c.unique_id@));
                    assert(p0.owned(caller).remove(cid).contains(c.unique_id@));
                    assert(self.owned_seq(caller).to_set().contains(c.unique_id@));
                    assert(self.owned_seq(caller).contains(c.unique_id@));
                } else {
                    assert(self.owned_seq(c.owner) == p0.owned_seq(c.owner));
                }
            }
        }
        Ok(Event::CollectibleDestroyed { collectible: collectible_id })
    }

    /// Replaces the record at position `i` by one with the same identifier
    /// and owner (a listing change), keeping the registry well formed.
    fn replace_record(&mut self, i: usize, c: Collectible)
        requires
            old(self).wf(),
            (i as int) < old(self).collectibles@.len(),
            c.unique_id == old(self).collectibles@[i as int].unique_id,
            c.owner == old(self).collectibles@[i as int].owner,
        ensures
            final(self).wf(),
            final(self).config == old(self).config,
            final(self).count == old(self).count,
            forall|a: AccountId| final(self).owned_seq(a) == old(self).owned_seq(a),
            final(self).store() == old(self).store().insert(c.unique_id@, c),
            final(self).record(c.unique_id@) == c,
            forall|x: Seq<u8>|
                #[trigger] final(self).store_contains(x) == old(self).store_contains(x),
            forall|x: Seq<u8>|
                old(self).store_contains(x) && x != c.unique_id@ ==> final(self).record(x)
                    == old(self).record(x),
    {
        let ghost p0 = *self;
        let _removed = self.collectibles.remove(i);
        self.collectibles.insert(i, c);
        proof {
            assert(self.collectibles@ =~= p0.collectibles@.update(i as int, c));
            lemma_store_update(p0, *self, i as int, c);
            lemma_owned_stable(p0, *self);
            assert(p0.collectibles@[i as int].unique_id@ == c.unique_id@);
            assert(p0.store_contains(c.unique_id@));
            let w = p0.store_index(c.unique_id@);
            assert(0 <= w < p0.collectibles@.len() && p0.collectibles@[w].unique_id@
                == c.unique_id@);
            assert(w == i as int);
            assert(p0.record(c.unique_id@) == p0.collectibles@[i as int]);
            assert forall|k: int, m: int|
                0 <= k < self.owners@.len() && 0 <= m < self.owners@[k].1@.len() implies #[trigger] self.entry_resolves(
                k,
                m,
            ) by {
                assert(p0.entry_resolves(k, m));
                let x = self.owners@[k].1@[m]@;
                if x == c.unique_id@ {
                    assert(self.record(x) == c);
                    assert(p0.record(x).owner == p0.owners@[k].0);
                } else {
                    assert(self.record(x) == p0.record(x));
                }
            }
            assert forall|j: int|
                0 <= j < self.collectibles@.len() implies #[trigger] self.listed_with_owner(
                j,
            ) by {
                assert(p0.listed_with_owner(j));
                if j == i as int {
                    assert(self.collectibles@[j] == c);
                    assert(p0.collectibles@[j].owner == c.owner);
                    assert(p0.collectibles@[j].unique_id == c.unique_id);
                } else {
                    assert(self.collectibles@[j] == p0.collectibles@[j]);
                }
            }
        }
    }

    /// Lists a collectible the caller owns at the given price.
    pub fn set_price(&mut self, caller: AccountId, collectible_id: [u8; 16], new_price: Balance)
        -> (r: Result<Event, Error>)
        requires
            old(self).wf(),
        ensures
            final(self).wf(),
            final(self).config == old(self).config,
            (r is Ok) == (old(self).store_contains(collectible_id@) && old(self).record(
                collectible_id@,
            ).owner == caller),
            match r {
                Ok(ev) => {
                    &&& ev == (Event::PriceSet { collectible: collectible_id, price: new_price })
                    &&& final(self).store() == old(self).store().insert(
                        collectible_id@,
                        (Collectible {
                            unique_id: old(self).record(collectible_id@).unique_id,
                            price: Some(new_price),
                            color: old(self).record(collectible_id@).color,
                            owner: caller,
                        }),
                    )
                    &&& final(self).record(collectible_id@) == (Collectible {
                        unique_id: old(self).record(collectible_id@).unique_id,
                        price: Some(new_price),
                        color: old(self).record(collectible_id@).color,
                        owner: caller,
                    })
                    &&& forall|x: Seq<u8>|
                        #[trigger] final(self).store_contains(x) == old(self).store_contains(x)
                    &&& final(self).count == old(self).count
                    &&& forall|a: AccountId| final(self).owned_seq(a) == old(self).owned_seq(a)
                },
                Err(e) => {
                    &&& *final(self) == *old(self)
                    &&& (e == Error::NoCollectible <==> !old(self).store_contains(
                        collectible_id@,
                    ))
                    &&& (e == Error::NotOwner <==> (old(self).store_contains(collectible_id@)
                        && old(self).record(collectible_id@).owner != caller))
                },
            },
    {
        let i = match self.find_collectible(&collectible_id) {
            Some(i) => i,
            None => {
                return Err(Error::NoCollectible);
            },
        };
        proof {
            let w = self.store_index(collectible_id@);
            assert(0 <= w < self.collectibles@.len() && self.collectibles@[w].unique_id@
                == collectible_id@);
            assert(w == i as int);
        }
        let mut collectible = self.collectibles[i];
        if collectible.owner != caller {
            return Err(Error::NotOwner);
        }
        collectible.price = Some(new_price);
        self.replace_record(i, collectible);
        Ok(Event::PriceSet { collectible: collectible_id, price: new_price })
    }

    /// Withdraws a listed collectible the caller owns from the market.
    pub fn remove_from_market(&mut self, caller: AccountId, collectible_id: [u8; 16]) -> (r:
        Result<Event, Error>)
        requires
            old(self).wf(),
        ensures
            final(self).wf(),
            final(self).config == old(self).config,
            (r is Ok) == (old(self).store_contains(collectible_id@) && old(self).record(
                collectible_id@,
            ).owner == caller && old(self).record(collectible_id@).price is Some),
            match r {
                Ok(ev) => {
                    &&& ev == (Event::NotLongerOnSale { collectible: collectible_id })
                    &&& final(self).store() == old(self).store().insert(
                        collectible_id@,
                        (Collectible {
                            unique_id: old(self).record(collectible_id@).unique_id,
                            price: None,
                            color: old(self).record(collectible_id@).color,
                            owner: caller,
                        }),
                    )
                    &&& final(self).record(collectible_id@) == (Collectible {
                        unique_id: old(self).record(collectible_id@).unique_id,
                        price: None,
                        color: old(self).record(collectible_id@).color,
                        owner: caller,
                    })
                    &&& forall|x: Seq<u8>|
                        #[trigger] final(self).store_contains(x) == old(self).store_contains(x)
                    &&& final(self).count == old(self).count
                    &&& forall|a: AccountId| final(self).owned_seq(a) == old(self).owned_seq(a)
                },
                Err(e) => {
                    &&& *final(self) == *old(self)
                    &&& (e == Error::NoCollectible <==> !old(self).store_contains(
                        collectible_id@,
                    ))
                    &&& (e == Error::NotOwner <==> (old(self).store_contains(collectible_id@)
                        && old(self).record(collectible_id@).owner != caller))
                    &&& (e == Error::CollectibleNotForSale <==> (old(self).store_contains(
                        collectible_id@,
                    ) && old(self).record(collectible_id@).owner == caller && old(self).record(
                        collectible_id@,
                    ).price is None))
                },
            },
    {
        let i = match self.find_collectible(&collectible_id) {
            Some(i) => i,
            None => {
                return Err(Error::NoCollectible);
            },
        };
        proof {
            let w = self.store_index(collectible_id@);
            assert(0 <= w < self.collectibles@.len() && self.collectibles@[w].unique_id@
                == collectible_id@);
            assert(w == i as int);
        }
        let mut collectible = self.collectibles[i];
        if collectible.owner != caller {
            return Err(Error::NotOwner);
        }
        if collectible.price.is_none() {
            return Err(Error::CollectibleNotForSale);
        }
        collectible.price = None;
        self.replace_record(i, collectible);
        Ok(Event::NotLongerOnSale { collectible: collectible_id })
    }

    /// The number of collectibles in the registry.
    pub fn collectibles_count(&self) -> (r: u64)
        ensures
            r == self.count,
    {
        self.count
    }

    /// The configured per-account ownership bound.
    pub fn maximum_owned(&self) -> (r: u32)
        ensures
            r == self.config.maximum_owned,
    {
        self.config.maximum_owned
    }

    /// The record stored under an identifier, if any.
    pub fn get_collectible(&self, collectible_id: &[u8; 16]) -> (r: Option<Collectible>)
        requires
            self.wf(),
        ensures
            match r {
                Some(c) => self.store_contains(collectible_id@) && c == self.record(
                    collectible_id@,
                ),
                None => !self.store_contains(collectible_id@),
            },
    {
        match self.find_collectible(collectible_id) {
            Some(i) => {
                proof {
                    let w = self.store_index(collectible_id@);
                    assert(0 <= w < self.collectibles@.len() && self.collectibles@[w].unique_id@
                        == collectible_id@);
                    assert(w == i as int);
                }
                Some(self.collectibles[i])
            },
            None => None,
        }
    }

    /// How many collectibles an account currently owns.
    pub fn owned_count(&self, account: AccountId) -> (r: usize)
        requires
            self.wf(),
        ensures
            r == self.owned_seq(account).len(),
    {
        match self.find_account(account) {
            Some(k) => {
                proof {
                    let w = self.account_index(account);
                    assert(0 <= w < self.owners@.len() && self.owners@[w].0 == account);
                    assert(w == k as int);
                }
                self.owners[k].1.len()
            },
            None => 0,
        }
    }

    /// The identifiers an account currently owns. The order carries no
    /// meaning: removal swaps with the last element.
    pub fn owned_ids(&self, account: AccountId) -> (r: Vec<[u8; 16]>)
        requires
            self.wf(),
        ensures
            id_view(r@) == self.owned_seq(account),
    {
        match self.find_account(account) {
            Some(k) => {
                proof {
                    let w = self.account_index(account);
                    assert(0 <= w < self.owners@.len() && self.owners@[w].0 == account);
                    assert(w == k as int);
                }
                copy_ids(&self.owners[k].1)
            },
            None => {
                let r: Vec<[u8; 16]> = Vec::new();
                proof {
                    assert(id_view(r@) =~= Seq::<Seq<u8>>::empty());
                }
                r
            },
        }
    }

    /// Position of this account's entry in the reverse index, if present.
    fn find_account(&self, account: AccountId) -> (r: Option<usize>)
        ensures
            match r {
                Some(k) => (k as int) < self.owners@.len() && self.owners@[k as int].0
                    == account,
                None => !self.has_account(account),
            },
    {
        let mut k: usize = 0;
        while k < self.owners.len()
            invariant
                0 <= k <= self.owners@.len(),
                forall|j: int| 0 <= j < k ==> self.owners@[j].0 != account,
            decreases self.owners@.len() - k,
        {
            if self.owners[k].0 == account {
                return Some(k);
            }
            k += 1;
        }
        None
    }
}

} // verus!
