//! What the gas pool storage promises over sequences of calls: reservations
//! stay within the per-query limit and meet their budget, fail only when the
//! sponsor's coins cannot meet it, never hand out a coin twice, and putting a
//! reservation back unchanged restores the pool.

use vstd::prelude::*;
use crate::base_types::{GasCoin, GasGroupKey, ObjectID, SuiAddress};
use crate::coin_order::{coins_sorted, upsert_coin, upsert_coins, is_insertion_point, lemma_insertion_point_unique,
    coin_map, insert_all, lemma_upsert_coins};
use crate::gas_groups::{coin_ids, UpdatedGasGroup};
use crate::gas_store::{StoreView, StorageError, GroupView, MAX_GAS_PER_QUERY, balance_sum, reserve_stops,
    take_count, take_count_from, min_id, lemma_min_id_unique, group_wf, updated_coins_of};

verus! {

/// What a reservation that has taken `n` coins without stopping goes on to take.
pub proof fn lemma_take_count_from(coins: Seq<GasCoin>, budget: u64, n: nat)
    requires
        n <= coins.len(),
        forall|k: int| 1 <= k <= n ==> !#[trigger] reserve_stops(coins, budget, k),
    ensures
        n <= take_count_from(coins, budget, n) <= coins.len(),
        forall|k: int| 1 <= k < take_count_from(coins, budget, n) ==> !#[trigger] reserve_stops(coins, budget, k),
        take_count_from(coins, budget, n) == coins.len()
            || reserve_stops(coins, budget, take_count_from(coins, budget, n) as int),
        take_count_from(coins, budget, n) == n ==> n == coins.len(),
    decreases coins.len() - n,
{
    if n < coins.len() && !reserve_stops(coins, budget, (n + 1) as int) {
        lemma_take_count_from(coins, budget, n + 1);
    }
}

/// A reservation that succeeds takes the sponsor's first coins, at least one
/// and at most `MAX_GAS_PER_QUERY`, whose balances reach the budget, and stops
/// at the first coin that brings them there; one that fails for want of coins
/// had a nonzero budget that the sponsor's first `MAX_GAS_PER_QUERY` coins (or
/// all of them, if fewer) do not reach.
pub proof fn law_reservation_bounds(v: StoreView, sponsor: SuiAddress, budget: u64, duration: u64, now: u64)
    ensures
        ({
            let coins = v.available[sponsor];
            let r = v.reserve(sponsor, budget, duration, now).0;
            &&& r matches Ok(taken) ==> {
                &&& 1 <= taken.len() <= MAX_GAS_PER_QUERY
                &&& taken == coins.take(taken.len() as int)
                &&& balance_sum(taken) >= budget
                &&& forall|k: int| 1 <= k < taken.len() ==> #[trigger] balance_sum(coins.take(k)) < budget
            }
            &&& r == Err::<Seq<GasCoin>, StorageError>(StorageError::InsufficientGasCoins) ==> {
                &&& budget > 0
                &&& balance_sum(coins.take(if coins.len() < MAX_GAS_PER_QUERY { coins.len() as int } else { MAX_GAS_PER_QUERY as int })) < budget
            }
        }),
{
    let coins = v.available[sponsor];
    lemma_take_count_from(coins, budget, 0);
    let n = take_count(coins, budget);
    assert forall|k: int| 1 <= k < n implies k < MAX_GAS_PER_QUERY && #[trigger] balance_sum(coins.take(k)) < budget by {
        assert(!reserve_stops(coins, budget, k));
    }
    if n >= 2 {
        assert(!reserve_stops(coins, budget, n - 1));
    }
    assert(n <= MAX_GAS_PER_QUERY);
    if budget > 0 && balance_sum(coins.take(n as int)) < budget {
        if coins.len() > MAX_GAS_PER_QUERY {
            assert(reserve_stops(coins, budget, MAX_GAS_PER_QUERY as int));
            if n < MAX_GAS_PER_QUERY {
                assert(reserve_stops(coins, budget, n as int));
            }
        } else if n < coins.len() {
            assert(reserve_stops(coins, budget, n as int));
        }
    }
    if budget > 0 && balance_sum(coins.take(n as int)) >= budget {
        assert(n > 0) by {
            if n == 0 {
                assert(coins.take(0) =~= Seq::<GasCoin>::empty());
            }
        }
    }
}

/// Coin `id` is among sponsor `a`'s available coins.
pub open spec fn in_available(v: StoreView, a: SuiAddress, id: ObjectID) -> bool {
    coin_ids(v.available[a]).contains(id)
}

/// Coin `id` is in the group keyed `k` of table `t`.
pub open spec fn in_table(t: Map<GasGroupKey, GroupView>, k: GasGroupKey, id: ObjectID) -> bool {
    t.contains_key(k) && t[k].objects.contains(id)
}

/// Every coin is in one place only: among one sponsor's available coins, or in
/// one reserved group, or in one pending group.
pub open spec fn coins_disjoint(v: StoreView) -> bool {
    &&& forall|a1: SuiAddress, a2: SuiAddress, id: ObjectID|
        #[trigger] in_available(v, a1, id) && #[trigger] in_available(v, a2, id) ==> a1 == a2
    &&& forall|a: SuiAddress, k: GasGroupKey, id: ObjectID|
        !(#[trigger] in_available(v, a, id) && #[trigger] in_table(v.reserved, k, id))
    &&& forall|a: SuiAddress, k: GasGroupKey, id: ObjectID|
        !(#[trigger] in_available(v, a, id) && #[trigger] in_table(v.pending, k, id))
    &&& forall|k1: GasGroupKey, k2: GasGroupKey, id: ObjectID|
        #[trigger] in_table(v.reserved, k1, id) && #[trigger] in_table(v.reserved, k2, id) ==> k1 == k2
    &&& forall|k1: GasGroupKey, k2: GasGroupKey, id: ObjectID|
        #[trigger] in_table(v.pending, k1, id) && #[trigger] in_table(v.pending, k2, id) ==> k1 == k2
    &&& forall|k1: GasGroupKey, k2: GasGroupKey, id: ObjectID|
        !(#[trigger] in_table(v.reserved, k1, id) && #[trigger] in_table(v.pending, k2, id))
}

proof fn lemma_ids_take_skip(coins: Seq<GasCoin>, n: int)
    requires
        coins_sorted(coins),
        0 <= n <= coins.len(),
    ensures
        forall|id: ObjectID| #[trigger] coin_ids(coins.take(n)).contains(id) ==> coin_ids(coins).contains(id),
        forall|id: ObjectID| #[trigger] coin_ids(coins.skip(n)).contains(id) ==> coin_ids(coins).contains(id),
        forall|id: ObjectID| !(#[trigger] coin_ids(coins.take(n)).contains(id) && #[trigger] coin_ids(coins.skip(n)).contains(id)),
{
    let t = coin_ids(coins.take(n));
    let u = coin_ids(coins.skip(n));
    let c = coin_ids(coins);
    assert forall|id: ObjectID| #[trigger] t.contains(id) implies c.contains(id) by {
        let i = choose|i: int| 0 <= i < t.len() && t[i] == id;
        assert(c[i] == id);
    }
    assert forall|id: ObjectID| #[trigger] u.contains(id) implies c.contains(id) by {
        let i = choose|i: int| 0 <= i < u.len() && u[i] == id;
        assert(c[i + n] == id);
    }
    assert forall|id: ObjectID| !(#[trigger] t.contains(id) && #[trigger] u.contains(id)) by {
        if t.contains(id) && u.contains(id) {
            let i = choose|i: int| 0 <= i < t.len() && t[i] == id;
            let j = choose|j: int| 0 <= j < u.len() && u[j] == id;
            assert(coins[i].object_ref.0.num() < coins[j + n].object_ref.0.num());
        }
    }
}

/// A successful reservation moves exactly the coins it returns from the
/// sponsor's available coins into a new reserved group keyed by the first of
/// them; nothing else changes but the expiration queue.
pub proof fn law_reserve_moves_coins(v: StoreView, sponsor: SuiAddress, budget: u64, duration: u64, now: u64)
    requires
        v.wf(),
    ensures
        ({
            let (r, v1) = v.reserve(sponsor, budget, duration, now);
            r matches Ok(taken) ==> {
                &&& v1.wf()
                &&& v.available[sponsor] == taken + v1.available[sponsor]
                &&& v1.reserved.contains_key(taken[0].object_ref.0)
                &&& v1.reserved[taken[0].object_ref.0].objects == coin_ids(taken)
                &&& forall|id: ObjectID| #[trigger] coin_ids(taken).contains(id) ==> !in_available(v1, sponsor, id)
            }
        }),
{
    let (r, v1) = v.reserve(sponsor, budget, duration, now);
    if r is Ok {
        let coins = v.available[sponsor];
        let n = take_count(coins, budget);
        lemma_take_count_from(coins, budget, 0);
        assert(coins_sorted(coins));
        crate::gas_store::lemma_sorted_parts_pub(coins, n as int);
        lemma_ids_take_skip(coins, n as int);
        assert(coins =~= coins.take(n as int) + coins.skip(n as int));
        assert forall|a: SuiAddress| #[trigger] coins_sorted(v1.available[a]) by {
            if a != sponsor {
                assert(coins_sorted(v.available[a]));
            }
        }
        assert(v1.available.dom() =~= Set::<SuiAddress>::full());
        law_reservation_bounds(v, sponsor, budget, duration, now);
    }
}

/// Reserving keeps every coin in one place only.
pub proof fn law_reserve_keeps_coins_disjoint(v: StoreView, sponsor: SuiAddress, budget: u64, duration: u64, now: u64)
    requires
        v.wf(),
        coins_disjoint(v),
    ensures
        v.reserve(sponsor, budget, duration, now).1.wf(),
        coins_disjoint(v.reserve(sponsor, budget, duration, now).1),
{
    let (r, v1) = v.reserve(sponsor, budget, duration, now);
    if r is Ok {
        law_reserve_moves_coins(v, sponsor, budget, duration, now);
        let coins = v.available[sponsor];
        let n = take_count(coins, budget);
        let taken = coins.take(n as int);
        let g = coin_ids(taken);
        let key = taken[0].object_ref.0;
        lemma_take_count_from(coins, budget, 0);
        lemma_ids_take_skip(coins, n as int);
        assert(v1.available[sponsor] == coins.skip(n as int));
        // Where a coin is after the reservation, it was before.
        assert forall|a: SuiAddress, id: ObjectID| #[trigger] in_available(v1, a, id) implies in_available(v, a, id)
            && (a == sponsor ==> !g.contains(id)) by {
            if a != sponsor {
                assert(v1.available[a] == v.available[a]);
            }
        }
        assert forall|id: ObjectID| #[trigger] g.contains(id) implies in_available(v, sponsor, id) by {}
        assert forall|k: GasGroupKey, id: ObjectID| #[trigger] in_table(v1.reserved, k, id) implies
            (k == key && g.contains(id)) || (k != key && in_table(v.reserved, k, id)) by {}
        assert forall|a1: SuiAddress, a2: SuiAddress, id: ObjectID|
            #[trigger] in_available(v1, a1, id) && #[trigger] in_available(v1, a2, id) implies a1 == a2 by {
            assert(in_available(v, a1, id) && in_available(v, a2, id));
        }
        assert forall|a: SuiAddress, k: GasGroupKey, id: ObjectID|
            !(#[trigger] in_available(v1, a, id) && #[trigger] in_table(v1.reserved, k, id)) by {
            if in_available(v1, a, id) && in_table(v1.reserved, k, id) {
                assert(in_available(v, a, id));
                if k == key {
                    assert(g.contains(id));
                    assert(in_available(v, sponsor, id));
                } else {
                    assert(in_table(v.reserved, k, id));
                }
            }
        }
        assert forall|a: SuiAddress, k: GasGroupKey, id: ObjectID|
            !(#[trigger] in_available(v1, a, id) && #[trigger] in_table(v1.pending, k, id)) by {
            if in_available(v1, a, id) && in_table(v1.pending, k, id) {
                assert(in_available(v, a, id));
                assert(in_table(v.pending, k, id));
            }
        }
        assert forall|k1: GasGroupKey, k2: GasGroupKey, id: ObjectID|
            #[trigger] in_table(v1.reserved, k1, id) && #[trigger] in_table(v1.reserved, k2, id) implies k1 == k2 by {
            if k1 == key && k2 != key {
                assert(in_available(v, sponsor, id) && in_table(v.reserved, k2, id));
            } else if k1 != key && k2 == key {
                assert(in_available(v, sponsor, id) && in_table(v.reserved, k1, id));
            }
        }
        assert forall|k1: GasGroupKey, k2: GasGroupKey, id: ObjectID|
            !(#[trigger] in_table(v1.reserved, k1, id) && #[trigger] in_table(v1.pending, k2, id)) by {
            if in_table(v1.reserved, k1, id) && in_table(v1.pending, k2, id) {
                assert(in_table(v.pending, k2, id));
                if k1 == key {
                    assert(in_available(v, sponsor, id));
                } else {
                    assert(in_table(v.reserved, k1, id));
                }
            }
        }
    }
}

/// A reservation never hands out a coin that an earlier reservation handed out:
/// two reservations in a row, for any sponsors, share no coin.
pub proof fn law_no_coin_reserved_twice(
    v: StoreView,
    sponsor1: SuiAddress, budget1: u64, duration1: u64, now1: u64,
    sponsor2: SuiAddress, budget2: u64, duration2: u64, now2: u64,
)
    requires
        v.wf(),
        coins_disjoint(v),
    ensures
        ({
            let (r1, v1) = v.reserve(sponsor1, budget1, duration1, now1);
            let (r2, v2) = v1.reserve(sponsor2, budget2, duration2, now2);
            r1 is Ok && r2 is Ok ==> forall|i: int, j: int|
                0 <= i < r1->Ok_0.len() && 0 <= j < r2->Ok_0.len() ==>
                    (#[trigger] r1->Ok_0[i]).object_ref.0 != (#[trigger] r2->Ok_0[j]).object_ref.0
        }),
{
    let (r1, v1) = v.reserve(sponsor1, budget1, duration1, now1);
    let (r2, v2) = v1.reserve(sponsor2, budget2, duration2, now2);
    if r1 is Ok && r2 is Ok {
        law_reserve_moves_coins(v, sponsor1, budget1, duration1, now1);
        law_reserve_keeps_coins_disjoint(v, sponsor1, budget1, duration1, now1);
        law_reserve_moves_coins(v1, sponsor2, budget2, duration2, now2);
        let x = r1->Ok_0;
        let y = r2->Ok_0;
        let key = x[0].object_ref.0;
        assert forall|i: int, j: int| 0 <= i < x.len() && 0 <= j < y.len() implies
            (#[trigger] x[i]).object_ref.0 != (#[trigger] y[j]).object_ref.0 by {
            let id = x[i].object_ref.0;
            assert(coin_ids(x)[i] == id);
            assert(in_table(v1.reserved, key, id));
            if y[j].object_ref.0 == id {
                let ys = v1.available[sponsor2];
                assert(ys[j] == y[j]);
                assert(coin_ids(ys)[j] == id);
                assert(in_available(v1, sponsor2, id));
            }
        }
    }
}

/// Putting back, in order, the first `k` of the coins taken from the front of a
/// sequence in order rebuilds its front.
proof fn lemma_upsert_prefix(coins: Seq<GasCoin>, n: int, k: int)
    requires
        coins_sorted(coins),
        0 <= k <= n <= coins.len(),
    ensures
        upsert_coins(coins.skip(n), coins.take(k)) == coins.take(k) + coins.skip(n),
    decreases k,
{
    if k == 0 {
        assert(coins.take(0) + coins.skip(n) =~= coins.skip(n));
    } else {
        let tk = coins.take(k);
        assert(tk.drop_last() =~= coins.take(k - 1));
        lemma_upsert_prefix(coins, n, k - 1);
        let t = coins.take(k - 1) + coins.skip(n);
        let c = coins[k - 1];
        let x = c.object_ref.0.num();
        assert forall|i: int| 0 <= i < t.len() && i < k - 1 implies (#[trigger] t[i]).object_ref.0.num() < x by {
            assert(t[i] == coins[i]);
        }
        assert forall|i: int| k - 1 <= i < t.len() implies (#[trigger] t[i]).object_ref.0.num() > x by {
            assert(t[i] == coins[i - (k - 1) + n]);
        }
        assert(is_insertion_point(t, x, k - 1));
        assert(coins_sorted(t)) by {
            assert forall|i: int, j: int| 0 <= i < j < t.len() implies (#[trigger] t[i]).object_ref.0.num() < (#[trigger] t[j]).object_ref.0.num() by {
                let i0 = if i < k - 1 { i } else { i - (k - 1) + n };
                let j0 = if j < k - 1 { j } else { j - (k - 1) + n };
                assert(t[i] == coins[i0] && t[j] == coins[j0]);
            }
        }
        lemma_insertion_point_unique(t, x, k - 1);
        if k - 1 < t.len() {
            assert(t[k - 1].object_ref.0 != c.object_ref.0);
        }
        assert(upsert_coin(t, c) =~= coins.take(k) + coins.skip(n));
    }
}

/// A reservation whose coins come back unchanged after its transaction leaves
/// the sponsor's available coins as they were; when every coin was in one place
/// only, the reserved and pending tables are as they were too.
pub proof fn law_unchanged_coins_restore_pool(
    v: StoreView,
    sponsor: SuiAddress,
    budget: u64,
    duration: u64,
    now: u64,
    returned: UpdatedGasGroup,
)
    requires
        v.wf(),
    ensures
        ({
            let (r1, v1) = v.reserve(sponsor, budget, duration, now);
            r1 is Ok && returned.updated_gas_coins@ == r1->Ok_0 && returned.deleted_gas_coins@.len() == 0 ==> {
                let (r2, v2) = v1.ready_for_execution(sponsor, coin_ids(r1->Ok_0));
                let (r3, v3) = v2.update_gas_coins(sponsor, seq![returned]);
                &&& r2 is Ok
                &&& r3 is Ok
                &&& v3.available == v.available
                &&& v3.valid_addresses == v.valid_addresses
                &&& coins_disjoint(v) ==> v3.reserved == v.reserved && v3.pending == v.pending
            }
        }),
{
    let (r1, v1) = v.reserve(sponsor, budget, duration, now);
    if r1 is Ok && returned.updated_gas_coins@ == r1->Ok_0 && returned.deleted_gas_coins@.len() == 0 {
        let coins = v.available[sponsor];
        let n = take_count(coins, budget);
        lemma_take_count_from(coins, budget, 0);
        law_reserve_moves_coins(v, sponsor, budget, duration, now);
        let taken = r1->Ok_0;
        let ids = coin_ids(taken);
        let key = taken[0].object_ref.0;
        let (r2, v2) = v1.ready_for_execution(sponsor, ids);
        assert(ids[0] == key);
        assert(r2 is Ok);
        let (r3, v3) = v2.update_gas_coins(sponsor, seq![returned]);
        assert(returned.all_ids() =~= ids);
        assert(crate::gas_groups::is_min_id(key, ids)) by {
            assert(ids.contains(key)) by { assert(ids[0] == key); }
            crate::gas_store::lemma_sorted_parts_pub(coins, n as int);
            assert forall|i: int| 0 <= i < ids.len() implies key.num() <= #[trigger] ids[i].num() by {
                if i > 0 {
                    assert(ids[0].num() < ids[i].num());
                }
            }
        }
        lemma_min_id_unique(key, returned.all_ids());
        assert(seq![returned][0] == returned);
        assert(v2.pending.contains_key(key));
        assert(r3 is Ok);
        assert(crate::gas_store::updated_coins_of(seq![returned]) =~= taken) by {
            reveal_with_fuel(crate::gas_store::updated_coins_of, 2);
            assert(seq![returned].drop_last() =~= Seq::<UpdatedGasGroup>::empty());
            assert(seq![returned].last() == returned);
            assert(Seq::<GasCoin>::empty() + taken =~= taken);
        }
        lemma_upsert_prefix(coins, n as int, n as int);
        assert(coins.take(n as int) + coins.skip(n as int) =~= coins);
        assert(v3.available =~= v.available);
        let ks = Set::new(|k: GasGroupKey| exists|i: int| 0 <= i < seq![returned].len() && k == min_id(#[trigger] seq![returned][i].all_ids()));
        assert(ks =~= set![key]);
        if coins_disjoint(v) {
            assert(in_available(v, sponsor, key)) by {
                assert(coin_ids(coins)[0] == key);
            }
            if v.reserved.contains_key(key) {
                assert(v.reserved[key].objects[0] == key);
                assert(in_table(v.reserved, key, key));
            }
            if v.pending.contains_key(key) {
                assert(v.pending[key].objects[0] == key);
                assert(in_table(v.pending, key, key));
            }
            assert(v3.reserved =~= v.reserved);
            assert(v3.pending =~= v.pending);
        }
    }
}

/// Handing a reservation to its transaction keeps every coin in one place only.
pub proof fn law_ready_keeps_coins_disjoint(v: StoreView, sponsor: SuiAddress, gas_coins: Seq<ObjectID>)
    requires
        v.wf(),
        coins_disjoint(v),
    ensures
        v.ready_for_execution(sponsor, gas_coins).1.wf(),
        coins_disjoint(v.ready_for_execution(sponsor, gas_coins).1),
{
    let (r, v1) = v.ready_for_execution(sponsor, gas_coins);
    if r is Ok {
        let key = gas_coins[0];
        assert forall|k: GasGroupKey, id: ObjectID| #[trigger] in_table(v1.reserved, k, id) implies
            k != key && in_table(v.reserved, k, id) by {}
        assert forall|k: GasGroupKey, id: ObjectID| #[trigger] in_table(v1.pending, k, id) implies
            (k == key && in_table(v.reserved, key, id)) || (k != key && in_table(v.pending, k, id)) by {}
        assert forall|a: SuiAddress, k: GasGroupKey, id: ObjectID|
            !(#[trigger] in_available(v1, a, id) && #[trigger] in_table(v1.pending, k, id)) by {
            if in_available(v1, a, id) && in_table(v1.pending, k, id) {
                assert(in_available(v, a, id));
                if k == key {
                    assert(in_table(v.reserved, key, id));
                } else {
                    assert(in_table(v.pending, k, id));
                }
            }
        }
        assert forall|a: SuiAddress, k: GasGroupKey, id: ObjectID|
            !(#[trigger] in_available(v1, a, id) && #[trigger] in_table(v1.reserved, k, id)) by {
            if in_available(v1, a, id) && in_table(v1.reserved, k, id) {
                assert(in_available(v, a, id) && in_table(v.reserved, k, id));
            }
        }
        assert forall|a1: SuiAddress, a2: SuiAddress, id: ObjectID|
            #[trigger] in_available(v1, a1, id) && #[trigger] in_available(v1, a2, id) implies a1 == a2 by {
            assert(in_available(v, a1, id) && in_available(v, a2, id));
        }
        assert forall|k1: GasGroupKey, k2: GasGroupKey, id: ObjectID|
            #[trigger] in_table(v1.reserved, k1, id) && #[trigger] in_table(v1.reserved, k2, id) implies k1 == k2 by {
            assert(in_table(v.reserved, k1, id) && in_table(v.reserved, k2, id));
        }
        assert forall|k1: GasGroupKey, k2: GasGroupKey, id: ObjectID|
            #[trigger] in_table(v1.pending, k1, id) && #[trigger] in_table(v1.pending, k2, id) implies k1 == k2 by {
            if k1 == key && k2 != key {
                assert(in_table(v.reserved, key, id) && in_table(v.pending, k2, id));
            } else if k1 != key && k2 == key {
                assert(in_table(v.reserved, key, id) && in_table(v.pending, k1, id));
            } else if k1 != key && k2 != key {
                assert(in_table(v.pending, k1, id) && in_table(v.pending, k2, id));
            }
        }
        assert forall|k1: GasGroupKey, k2: GasGroupKey, id: ObjectID|
            !(#[trigger] in_table(v1.reserved, k1, id) && #[trigger] in_table(v1.pending, k2, id)) by {
            if in_table(v1.reserved, k1, id) && in_table(v1.pending, k2, id) {
                assert(in_table(v.reserved, k1, id));
                if k2 == key {
                    assert(in_table(v.reserved, key, id));
                } else {
                    assert(in_table(v.pending, k2, id));
                }
            }
        }
    }
}

/// Expiring reservations keeps every coin in one place only.
pub proof fn law_expire_keeps_coins_disjoint(v: StoreView, sponsor: SuiAddress, now: u64)
    requires
        v.wf(),
        coins_disjoint(v),
    ensures
        v.after_expire(sponsor, now).wf(),
        coins_disjoint(v.after_expire(sponsor, now)),
{
    let v1 = v.after_expire(sponsor, now);
    let e = v.reserved.dom().filter(|k: GasGroupKey| v.expiring(sponsor, now, k));
    assert forall|k: GasGroupKey, id: ObjectID| #[trigger] in_table(v1.reserved, k, id) implies
        !e.contains(k) && in_table(v.reserved, k, id) by {}
    assert forall|k: GasGroupKey, id: ObjectID| #[trigger] in_table(v1.pending, k, id) implies
        (e.contains(k) && in_table(v.reserved, k, id)) || (!e.contains(k) && in_table(v.pending, k, id)) by {}
    assert forall|k: GasGroupKey| #[trigger] v1.pending.contains_key(k) implies
        group_wf(v1.pending[k].objects) && v1.pending[k].objects[0] == k by {
        if e.contains(k) {
            assert(v.reserved.contains_key(k));
        }
    }
    assert forall|a: SuiAddress, k: GasGroupKey, id: ObjectID|
        !(#[trigger] in_available(v1, a, id) && #[trigger] in_table(v1.pending, k, id)) by {
        if in_available(v1, a, id) && in_table(v1.pending, k, id) {
            assert(in_available(v, a, id));
            if e.contains(k) {
                assert(in_table(v.reserved, k, id));
            } else {
                assert(in_table(v.pending, k, id));
            }
        }
    }
    assert forall|a: SuiAddress, k: GasGroupKey, id: ObjectID|
        !(#[trigger] in_available(v1, a, id) && #[trigger] in_table(v1.reserved, k, id)) by {
        if in_available(v1, a, id) && in_table(v1.reserved, k, id) {
            assert(in_available(v, a, id) && in_table(v.reserved, k, id));
        }
    }
    assert forall|a1: SuiAddress, a2: SuiAddress, id: ObjectID|
        #[trigger] in_available(v1, a1, id) && #[trigger] in_available(v1, a2, id) implies a1 == a2 by {
        assert(in_available(v, a1, id) && in_available(v, a2, id));
    }
    assert forall|k1: GasGroupKey, k2: GasGroupKey, id: ObjectID|
        #[trigger] in_table(v1.reserved, k1, id) && #[trigger] in_table(v1.reserved, k2, id) implies k1 == k2 by {
        assert(in_table(v.reserved, k1, id) && in_table(v.reserved, k2, id));
    }
    assert forall|k1: GasGroupKey, k2: GasGroupKey, id: ObjectID|
        #[trigger] in_table(v1.pending, k1, id) && #[trigger] in_table(v1.pending, k2, id) implies k1 == k2 by {
        if e.contains(k1) && e.contains(k2) {
            assert(in_table(v.reserved, k1, id) && in_table(v.reserved, k2, id));
        } else if e.contains(k1) {
            assert(in_table(v.reserved, k1, id) && in_table(v.pending, k2, id));
        } else if e.contains(k2) {
            assert(in_table(v.reserved, k2, id) && in_table(v.pending, k1, id));
        } else {
            assert(in_table(v.pending, k1, id) && in_table(v.pending, k2, id));
        }
    }
    assert forall|k1: GasGroupKey, k2: GasGroupKey, id: ObjectID|
        !(#[trigger] in_table(v1.reserved, k1, id) && #[trigger] in_table(v1.pending, k2, id)) by {
        if in_table(v1.reserved, k1, id) && in_table(v1.pending, k2, id) {
            assert(in_table(v.reserved, k1, id));
            if e.contains(k2) {
                assert(in_table(v.reserved, k2, id));
            } else {
                assert(in_table(v.pending, k2, id));
            }
        }
    }
}

/// A reservation left unused expires: once its expiry time has come, expiring
/// the sponsor's reservations moves its group to the pending table.
pub proof fn law_unused_reservation_expires(
    v: StoreView,
    sponsor: SuiAddress,
    budget: u64,
    duration: u64,
    now: u64,
    later: u64,
)
    requires
        v.wf(),
        later >= now + duration,
    ensures
        ({
            let (r, v1) = v.reserve(sponsor, budget, duration, now);
            r is Ok ==> {
                let key = r->Ok_0[0].object_ref.0;
                &&& v1.expiring(sponsor, later, key)
                &&& !v1.after_expire(sponsor, later).reserved.contains_key(key)
                &&& v1.after_expire(sponsor, later).pending.contains_key(key)
                &&& v1.after_expire(sponsor, later).pending[key].objects == coin_ids(r->Ok_0)
            }
        }),
{
    let (r, v1) = v.reserve(sponsor, budget, duration, now);
    if r is Ok {
        law_reserve_moves_coins(v, sponsor, budget, duration, now);
        let key = r->Ok_0[0].object_ref.0;
        assert(v1.expiring(sponsor, later, key));
        let e = v1.reserved.dom().filter(|k: GasGroupKey| v1.expiring(sponsor, later, k));
        assert(e.contains(key));
    }
}

/// Adding coins that are nowhere in the pool keeps every coin in one place only.
pub proof fn law_add_fresh_coins_keeps_disjoint(v: StoreView, sponsor: SuiAddress, coins: Seq<GasCoin>)
    requires
        v.wf(),
        coins_disjoint(v),
        forall|i: int, a: SuiAddress| 0 <= i < coins.len() && a != sponsor ==>
            !#[trigger] in_available(v, a, coins[i].object_ref.0),
        forall|i: int, k: GasGroupKey| 0 <= i < coins.len() ==>
            !#[trigger] in_table(v.reserved, k, coins[i].object_ref.0),
        forall|i: int, k: GasGroupKey| 0 <= i < coins.len() ==>
            !#[trigger] in_table(v.pending, k, coins[i].object_ref.0),
    ensures
        v.add_new_coins(sponsor, coins).wf(),
        coins_disjoint(v.add_new_coins(sponsor, coins)),
{
    let v1 = v.add_new_coins(sponsor, coins);
    let old_ids = coin_ids(v.available[sponsor]);
    crate::coin_order::lemma_upsert_coins(v.available[sponsor], coins);
    lemma_upsert_ids(v.available[sponsor], coins);
    assert forall|a: SuiAddress| #[trigger] coins_sorted(v1.available[a]) by {
        if a != sponsor {
            assert(coins_sorted(v.available[a]));
        }
    }
    assert(v1.available.dom() =~= Set::<SuiAddress>::full());
    assert forall|a: SuiAddress, id: ObjectID| #[trigger] in_available(v1, a, id) implies
        in_available(v, a, id) || (a == sponsor && exists|i: int| 0 <= i < coins.len() && (#[trigger] coins[i]).object_ref.0 == id) by {
        if a != sponsor {
            assert(v1.available[a] == v.available[a]);
        }
    }
    assert forall|a1: SuiAddress, a2: SuiAddress, id: ObjectID|
        #[trigger] in_available(v1, a1, id) && #[trigger] in_available(v1, a2, id) implies a1 == a2 by {
        if a1 != a2 {
            if a1 == sponsor && !in_available(v, a1, id) {
                let i = choose|i: int| 0 <= i < coins.len() && (#[trigger] coins[i]).object_ref.0 == id;
                assert(!in_available(v, a2, coins[i].object_ref.0));
            } else if a2 == sponsor && !in_available(v, a2, id) {
                let i = choose|i: int| 0 <= i < coins.len() && (#[trigger] coins[i]).object_ref.0 == id;
                assert(!in_available(v, a1, coins[i].object_ref.0));
            }
        }
    }
    assert forall|a: SuiAddress, k: GasGroupKey, id: ObjectID|
        !(#[trigger] in_available(v1, a, id) && #[trigger] in_table(v1.reserved, k, id)) by {
        if in_available(v1, a, id) && in_table(v1.reserved, k, id) && !in_available(v, a, id) {
            let i = choose|i: int| 0 <= i < coins.len() && (#[trigger] coins[i]).object_ref.0 == id;
            assert(!in_table(v.reserved, k, coins[i].object_ref.0));
        }
    }
    assert forall|a: SuiAddress, k: GasGroupKey, id: ObjectID|
        !(#[trigger] in_available(v1, a, id) && #[trigger] in_table(v1.pending, k, id)) by {
        if in_available(v1, a, id) && in_table(v1.pending, k, id) && !in_available(v, a, id) {
            let i = choose|i: int| 0 <= i < coins.len() && (#[trigger] coins[i]).object_ref.0 == id;
            assert(!in_table(v.pending, k, coins[i].object_ref.0));
        }
    }
}

/// The identifiers held after putting coins in their places are those held
/// before and those put.
proof fn lemma_upsert_ids(s: Seq<GasCoin>, cs: Seq<GasCoin>)
    requires
        coins_sorted(s),
    ensures
        forall|id: ObjectID| #[trigger] coin_ids(upsert_coins(s, cs)).contains(id) ==>
            coin_ids(s).contains(id) || exists|i: int| 0 <= i < cs.len() && (#[trigger] cs[i]).object_ref.0 == id,
    decreases cs.len(),
{
    if cs.len() > 0 {
        let t = upsert_coins(s, cs.drop_last());
        lemma_upsert_ids(s, cs.drop_last());
        crate::coin_order::lemma_upsert_coins(s, cs.drop_last());
        let c = cs.last();
        crate::coin_order::lemma_insertion_point_exists(t, c.object_ref.0.num());
        let u = upsert_coin(t, c);
        assert forall|id: ObjectID| #[trigger] coin_ids(u).contains(id) implies
            coin_ids(s).contains(id) || exists|i: int| 0 <= i < cs.len() && (#[trigger] cs[i]).object_ref.0 == id by {
            let j = choose|j: int| 0 <= j < coin_ids(u).len() && coin_ids(u)[j] == id;
            let p = crate::coin_order::insertion_point(t, c.object_ref.0.num());
            if id == c.object_ref.0 {
                assert(cs[cs.len() - 1].object_ref.0 == id);
            } else {
                let j0 = if p < t.len() && t[p].object_ref.0 == c.object_ref.0 { j } else if j < p { j } else { j - 1 };
                assert(u[j] == t[j0]);
                assert(coin_ids(t)[j0] == id);
                assert(coin_ids(t).contains(id));
                assert(coin_ids(s).contains(id) || exists|i: int| 0 <= i < cs.drop_last().len() && (#[trigger] cs.drop_last()[i]).object_ref.0 == id);
                if !coin_ids(s).contains(id) {
                    let i = choose|i: int| 0 <= i < cs.drop_last().len() && (#[trigger] cs.drop_last()[i]).object_ref.0 == id;
                    assert(cs[i] == cs.drop_last()[i]);
                }
            }
        }
    }
}

/// Some group updates a coin with identifier `id`.
pub open spec fn updates_id(groups: Seq<UpdatedGasGroup>, id: ObjectID) -> bool {
    exists|i: int, j: int| 0 <= i < groups.len() && 0 <= j < groups[i].updated_gas_coins@.len()
        && (#[trigger] groups[i].updated_gas_coins@[j]).object_ref.0 == id
}

/// A later update, in a later group or later in the same group, has the
/// identifier of update `j` of group `i`.
pub open spec fn updated_again(groups: Seq<UpdatedGasGroup>, i: int, j: int) -> bool {
    exists|i2: int, j2: int| 0 <= i2 < groups.len() && 0 <= j2 < groups[i2].updated_gas_coins@.len()
        && (i2 > i || (i2 == i && j2 > j))
        && (#[trigger] groups[i2].updated_gas_coins@[j2]).object_ref.0 == groups[i].updated_gas_coins@[j].object_ref.0
}

proof fn lemma_insert_all_append(m: Map<ObjectID, GasCoin>, a: Seq<GasCoin>, b: Seq<GasCoin>)
    ensures
        insert_all(m, a + b) == insert_all(insert_all(m, a), b),
    decreases b.len(),
{
    if b.len() == 0 {
        assert(a + b =~= a);
    } else {
        lemma_insert_all_append(m, a, b.drop_last());
        assert((a + b).drop_last() =~= a + b.drop_last());
        assert((a + b).last() == b.last());
    }
}

proof fn lemma_insert_all(m: Map<ObjectID, GasCoin>, cs: Seq<GasCoin>)
    ensures
        forall|k: int| 0 <= k < cs.len() ==> insert_all(m, cs).contains_key((#[trigger] cs[k]).object_ref.0),
        forall|k: int| 0 <= k < cs.len()
            && (forall|k2: int| k < k2 < cs.len() ==> (#[trigger] cs[k2]).object_ref.0 != cs[k].object_ref.0)
            ==> insert_all(m, cs)[(#[trigger] cs[k]).object_ref.0] == cs[k],
        forall|id: ObjectID| (forall|k: int| 0 <= k < cs.len() ==> (#[trigger] cs[k]).object_ref.0 != id) ==>
            (#[trigger] insert_all(m, cs).contains_key(id)) == m.contains_key(id)
            && (m.contains_key(id) ==> insert_all(m, cs)[id] == m[id]),
    decreases cs.len(),
{
    if cs.len() > 0 {
        let d = cs.drop_last();
        lemma_insert_all(m, d);
        assert forall|k: int| 0 <= k < d.len() implies d[k] == cs[k] by {}
        let n = cs.len() - 1;
        assert forall|k: int| 0 <= k < cs.len() implies insert_all(m, cs).contains_key((#[trigger] cs[k]).object_ref.0) by {
            if k < n {
                assert(d[k] == cs[k]);
            }
        }
        assert forall|k: int| 0 <= k < cs.len()
            && (forall|k2: int| k < k2 < cs.len() ==> (#[trigger] cs[k2]).object_ref.0 != cs[k].object_ref.0)
            implies insert_all(m, cs)[(#[trigger] cs[k]).object_ref.0] == cs[k] by {
            if k < n {
                assert(cs[n].object_ref.0 != cs[k].object_ref.0);
                assert(d[k] == cs[k]);
                assert forall|k2: int| k < k2 < d.len() implies (#[trigger] d[k2]).object_ref.0 != d[k].object_ref.0 by {
                    assert(d[k2] == cs[k2]);
                }
            }
        }
        assert forall|id: ObjectID| (forall|k: int| 0 <= k < cs.len() ==> (#[trigger] cs[k]).object_ref.0 != id) implies
            (#[trigger] insert_all(m, cs).contains_key(id)) == m.contains_key(id)
            && (m.contains_key(id) ==> insert_all(m, cs)[id] == m[id]) by {
            assert forall|k: int| 0 <= k < d.len() implies (#[trigger] d[k]).object_ref.0 != id by {
                assert(d[k] == cs[k]);
            }
            assert(cs[n].object_ref.0 != id);
            assert(insert_all(m, d).contains_key(id) == m.contains_key(id));
            assert(insert_all(m, cs) == insert_all(m, d).insert(cs[n].object_ref.0, cs[n]));
        }
    }
}

/// The coins of the groups laid over `m`: every updated coin is there, the
/// last update of each identifier wins, and identifiers no group updates keep
/// what they had.
proof fn lemma_insert_groups(m: Map<ObjectID, GasCoin>, groups: Seq<UpdatedGasGroup>)
    ensures
        forall|i: int, j: int| 0 <= i < groups.len() && 0 <= j < groups[i].updated_gas_coins@.len() ==>
            insert_all(m, updated_coins_of(groups)).contains_key((#[trigger] groups[i].updated_gas_coins@[j]).object_ref.0),
        forall|i: int, j: int| 0 <= i < groups.len() && 0 <= j < groups[i].updated_gas_coins@.len()
            && !updated_again(groups, i, j) ==>
            insert_all(m, updated_coins_of(groups))[(#[trigger] groups[i].updated_gas_coins@[j]).object_ref.0]
                == groups[i].updated_gas_coins@[j],
        forall|id: ObjectID| !updates_id(groups, id) ==>
            (#[trigger] insert_all(m, updated_coins_of(groups)).contains_key(id)) == m.contains_key(id)
            && (m.contains_key(id) ==> insert_all(m, updated_coins_of(groups))[id] == m[id]),
    decreases groups.len(),
{
    if groups.len() > 0 {
        let d = groups.drop_last();
        let n = groups.len() - 1;
        let cs = groups[n].updated_gas_coins@;
        let mid = insert_all(m, updated_coins_of(d));
        let r = insert_all(m, updated_coins_of(groups));
        lemma_insert_groups(m, d);
        lemma_insert_all_append(m, updated_coins_of(d), cs);
        assert(updated_coins_of(groups) == updated_coins_of(d) + cs);
        assert(r == insert_all(mid, cs));
        lemma_insert_all(mid, cs);
        assert forall|i: int| 0 <= i < n implies #[trigger] d[i] == groups[i] by {}
        assert forall|i: int, j: int| 0 <= i < groups.len() && 0 <= j < groups[i].updated_gas_coins@.len() implies
            r.contains_key((#[trigger] groups[i].updated_gas_coins@[j]).object_ref.0) by {
            let id = groups[i].updated_gas_coins@[j].object_ref.0;
            if i == n {
                assert(cs[j] == groups[i].updated_gas_coins@[j]);
            } else {
                assert(d[i] == groups[i]);
                assert(d[i].updated_gas_coins@[j] == groups[i].updated_gas_coins@[j]);
                assert(mid.contains_key(id));
                if exists|k: int| 0 <= k < cs.len() && (#[trigger] cs[k]).object_ref.0 == id {
                    let k = choose|k: int| 0 <= k < cs.len() && (#[trigger] cs[k]).object_ref.0 == id;
                    assert(r.contains_key(cs[k].object_ref.0));
                }
            }
        }
        assert forall|i: int, j: int| 0 <= i < groups.len() && 0 <= j < groups[i].updated_gas_coins@.len()
            && !updated_again(groups, i, j) implies
            r[(#[trigger] groups[i].updated_gas_coins@[j]).object_ref.0] == groups[i].updated_gas_coins@[j] by {
            let c = groups[i].updated_gas_coins@[j];
            if i == n {
                assert(cs[j] == c);
                assert forall|k2: int| j < k2 < cs.len() implies (#[trigger] cs[k2]).object_ref.0 != cs[j].object_ref.0 by {
                    assert(cs[k2] == groups[n].updated_gas_coins@[k2]);
                }
            } else {
                assert(d[i] == groups[i]);
                assert(d[i].updated_gas_coins@[j] == c);
                assert forall|k: int| 0 <= k < cs.len() implies (#[trigger] cs[k]).object_ref.0 != c.object_ref.0 by {
                    assert(cs[k] == groups[n].updated_gas_coins@[k]);
                }
                if updated_again(d, i, j) {
                    let (i2, j2) = choose|i2: int, j2: int| 0 <= i2 < d.len() && 0 <= j2 < d[i2].updated_gas_coins@.len()
                        && (i2 > i || (i2 == i && j2 > j))
                        && (#[trigger] d[i2].updated_gas_coins@[j2]).object_ref.0 == d[i].updated_gas_coins@[j].object_ref.0;
                    assert(d[i2] == groups[i2]);
                    assert(groups[i2].updated_gas_coins@[j2].object_ref.0 == c.object_ref.0);
                }
                assert(mid[c.object_ref.0] == c);
            }
        }
        assert forall|id: ObjectID| !updates_id(groups, id) implies
            (#[trigger] r.contains_key(id)) == m.contains_key(id) && (m.contains_key(id) ==> r[id] == m[id]) by {
            assert forall|k: int| 0 <= k < cs.len() implies (#[trigger] cs[k]).object_ref.0 != id by {
                assert(cs[k] == groups[n].updated_gas_coins@[k]);
            }
            if updates_id(d, id) {
                let (i, j) = choose|i: int, j: int| 0 <= i < d.len() && 0 <= j < d[i].updated_gas_coins@.len()
                    && (#[trigger] d[i].updated_gas_coins@[j]).object_ref.0 == id;
                assert(d[i] == groups[i]);
                assert(groups[i].updated_gas_coins@[j].object_ref.0 == id);
            }
        }
    }
}

/// Putting coins back loses none: after a successful update, every updated
/// coin of every group is among the sponsor's available coins, each identifier
/// holding its last update; the sponsor's coins that no group updates stay as
/// they were, and other sponsors' coins do not change.
pub proof fn law_update_puts_back_every_coin(v: StoreView, sponsor: SuiAddress, groups: Seq<UpdatedGasGroup>)
    requires
        v.wf(),
        v.update_gas_coins(sponsor, groups).0 is Ok,
    ensures
        forall|i: int, j: int| 0 <= i < groups.len() && 0 <= j < groups[i].updated_gas_coins@.len() ==>
            coin_map(v.update_gas_coins(sponsor, groups).1.available[sponsor])
                .contains_key((#[trigger] groups[i].updated_gas_coins@[j]).object_ref.0),
        forall|i: int, j: int| 0 <= i < groups.len() && 0 <= j < groups[i].updated_gas_coins@.len()
            && !updated_again(groups, i, j) ==>
            coin_map(v.update_gas_coins(sponsor, groups).1.available[sponsor])[(#[trigger] groups[i].updated_gas_coins@[j]).object_ref.0]
                == groups[i].updated_gas_coins@[j],
        forall|id: ObjectID| !updates_id(groups, id) ==>
            (#[trigger] coin_map(v.update_gas_coins(sponsor, groups).1.available[sponsor]).contains_key(id))
                == coin_map(v.available[sponsor]).contains_key(id)
            && (coin_map(v.available[sponsor]).contains_key(id) ==>
                coin_map(v.update_gas_coins(sponsor, groups).1.available[sponsor])[id] == coin_map(v.available[sponsor])[id]),
        forall|a: SuiAddress| a != sponsor ==> #[trigger] v.update_gas_coins(sponsor, groups).1.available[a] == v.available[a],
{
    let s = v.available[sponsor];
    assert(coins_sorted(s));
    lemma_upsert_coins(s, updated_coins_of(groups));
    lemma_insert_groups(coin_map(s), groups);
}

} // verus!
