use vstd::prelude::*;
use crate::pallet::{id_view, Pallet};
use crate::types::AccountId;

verus! {

/// Uniqueness: in a well-formed registry no two store entries share an
/// identifier, whatever sequence of operations produced the state — every
/// operation requires and re-establishes well-formedness.
pub proof fn lemma_identifiers_unique(p: Pallet, i: int, j: int)
    requires
        p.wf(),
        0 <= i < p.collectibles@.len(),
        0 <= j < p.collectibles@.len(),
        i != j,
    ensures
        p.collectibles@[i].unique_id@ != p.collectibles@[j].unique_id@,
{
}

/// Count invariant: in a well-formed registry the running count equals the
/// number of identifiers in the store mapping. Every operation keeps the
/// state well formed, and a failed operation leaves it unchanged.
pub proof fn lemma_count_matches_store(p: Pallet)
    requires
        p.wf(),
    ensures
        p.store().dom().finite(),
        p.store().dom().len() == p.count,
{
    let ids = p.collectibles@.map_values(|c: crate::types::Collectible| c.unique_id@);
    assert(ids.no_duplicates()) by {
        assert forall|a: int, b: int|
            0 <= a < ids.len() && 0 <= b < ids.len() && a != b implies ids[a] != ids[b] by {
            assert(ids[a] == p.collectibles@[a].unique_id@);
            assert(ids[b] == p.collectibles@[b].unique_id@);
        }
    }
    assert(p.store().dom() =~= ids.to_set()) by {
        assert forall|x: Seq<u8>| p.store().dom().contains(x) == ids.to_set().contains(x) by {
            if p.store_contains(x) {
                let w = p.store_index(x);
                assert(0 <= w < p.collectibles@.len() && p.collectibles@[w].unique_id@ == x);
                assert(ids[w] == x);
                assert(ids.contains(x));
            }
            if ids.contains(x) {
                let w = choose|w: int| 0 <= w < ids.len() && ids[w] == x;
                assert(p.collectibles@[w].unique_id@ == x);
                assert(p.store_contains(x));
            }
        }
    }
    vstd::seq_lib::seq_to_set_is_finite::<Seq<u8>>(ids);
    ids.unique_seq_to_set();
}

/// Bound invariant: in a well-formed registry no account's collection
/// exceeds the configured bound, whatever account is asked about.
pub proof fn lemma_owned_within_bound(p: Pallet, account: AccountId)
    requires
        p.wf(),
    ensures
        p.owned_seq(account).len() <= p.config.maximum_owned,
        p.owned(account).len() <= p.config.maximum_owned,
{
    if p.has_account(account) {
        let k = p.account_index(account);
        assert(0 <= k < p.owners@.len() && p.owners@[k].0 == account);
        assert(p.owners@[k].1@.len() <= p.config.maximum_owned);
        assert(p.owned_seq(account) == id_view(p.owners@[k].1@));
    }
    p.owned_seq(account).lemma_cardinality_of_set();
}

} // verus!
