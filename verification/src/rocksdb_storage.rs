//! A single gas pool kept as a queue: coins are taken from the front, in the
//! order they were added, and put back at the end. Each coin taken is noted as
//! reserved, with the time it was taken, until it is put back.

use vstd::prelude::*;
use crate::base_types::{GasCoin, ObjectID};
use crate::gas_store::{balance_sum, lemma_balance_sum_bounds, lemma_balance_sum_take_step, take_count,
    take_count_from, MAX_GAS_PER_QUERY};
use crate::keyed::{has_key, keyed_map, keys_unique, lemma_entry_at_index, lemma_keyed_insert, lemma_keyed_remove,
    lemma_keyed_update, lemma_keyed_len, lemma_map_values_insert, lemma_map_values_remove, lemma_push_contains};

verus! {

/// The queue, as specification: the available coins with their indexes, in
/// order, and the time each reserved coin was taken.
pub struct CoinQueueView {
    pub available: Seq<(u64, GasCoin)>,
    pub reserved: Map<ObjectID, u64>,
}

/// The coins of queue entries.
pub open spec fn queue_coins(entries: Seq<(u64, GasCoin)>) -> Seq<GasCoin> {
    entries.map_values(|e: (u64, GasCoin)| e.1)
}

/// The identifiers of coins.
pub open spec fn coin_ids(coins: Seq<GasCoin>) -> Seq<ObjectID> {
    coins.map_values(|c: GasCoin| c.id())
}

/// The indexes are strictly increasing.
pub open spec fn indexes_increasing(entries: Seq<(u64, GasCoin)>) -> bool {
    forall|i: int, j: int| 0 <= i < j < entries.len() ==> #[trigger] entries[i].0 < #[trigger] entries[j].0
}

/// The index the next coin put back gets: one after the last, or zero.
pub open spec fn next_index(entries: Seq<(u64, GasCoin)>) -> int {
    if entries.len() == 0 { 0 } else { entries.last().0 + 1 }
}

/// The entries for `coins` put at the end from index `next` on.
pub open spec fn appended(next: int, coins: Seq<GasCoin>) -> Seq<(u64, GasCoin)> {
    Seq::new(coins.len(), |i: int| ((next + i) as u64, coins[i]))
}

/// The reserved coins after `coins` are taken at time `now`.
pub open spec fn reserved_after(reserved: Map<ObjectID, u64>, coins: Seq<GasCoin>, now: u64) -> Map<ObjectID, u64> {
    reserved.union_prefer_right(Map::new(|id: ObjectID| coin_ids(coins).contains(id), |id: ObjectID| now))
}

pub open spec fn reserved_key() -> spec_fn((ObjectID, u64)) -> ObjectID {
    |e: (ObjectID, u64)| e.0
}

pub open spec fn reserved_map(entries: Seq<(ObjectID, u64)>) -> Map<ObjectID, u64> {
    keyed_map(entries, reserved_key()).map_values(|e: (ObjectID, u64)| e.1)
}

impl CoinQueueView {
    /// The available coins, in order.
    pub open spec fn coins(self) -> Seq<GasCoin> {
        queue_coins(self.available)
    }

    /// How many coins a reservation of `target_budget` takes from the front,
    /// or none when they do not reach the budget.
    pub open spec fn taken(self, target_budget: u64) -> Seq<GasCoin> {
        let n = take_count(self.coins(), target_budget);
        if balance_sum(self.coins().take(n as int)) < target_budget {
            Seq::empty()
        } else {
            self.coins().take(n as int)
        }
    }
}

pub struct RocksDBStorageTables {
    available_gas_coins: Vec<(u64, GasCoin)>,
    reserved_gas_coins: Vec<(ObjectID, u64)>,
}

impl View for RocksDBStorageTables {
    type V = CoinQueueView;

    closed spec fn view(&self) -> CoinQueueView {
        CoinQueueView { available: self.available_gas_coins@, reserved: reserved_map(self.reserved_gas_coins@) }
    }
}

/// Finds the reserved entry of `id`.
fn find_reserved(entries: &Vec<(ObjectID, u64)>, id: ObjectID) -> (r: Option<usize>)
    requires
        keys_unique(entries@, reserved_key()),
    ensures
        r matches Some(i) ==> i < entries@.len() && entries@[i as int].0 == id
            && reserved_map(entries@).contains_key(id),
        r is None ==> !reserved_map(entries@).contains_key(id),
{
    let mut i: usize = 0;
    while i < entries.len()
        invariant
            i <= entries@.len(),
            keys_unique(entries@, reserved_key()),
            forall|j: int| 0 <= j < i ==> (reserved_key())(#[trigger] entries@[j]) != id,
        decreases entries.len() - i,
    {
        if entries[i].0 == id {
            proof {
                lemma_entry_at_index(entries@, reserved_key(), i as int);
            }
            return Some(i);
        }
        i = i + 1;
    }
    None
}

impl RocksDBStorageTables {
    /// Indexes increase along the queue and each reserved coin is noted once.
    pub closed spec fn wf(&self) -> bool {
        &&& indexes_increasing(self.available_gas_coins@)
        &&& keys_unique(self.reserved_gas_coins@, reserved_key())
    }

    /// An empty queue with nothing reserved.
    pub fn new() -> (r: Self)
        ensures
            r.wf(),
            r@.available == Seq::<(u64, GasCoin)>::empty(),
            r@.reserved.dom() == Set::<ObjectID>::empty(),
    {
        let r = RocksDBStorageTables { available_gas_coins: Vec::new(), reserved_gas_coins: Vec::new() };
        proof {
            assert(r@.reserved.dom() =~= Set::<ObjectID>::empty());
        }
        r
    }

    /// The index the next coin put back gets.
    fn get_next_available_gas_coin_index(&self) -> (r: u64)
        requires
            self.available_gas_coins@.len() > 0 ==> self.available_gas_coins@.last().0 < u64::MAX,
        ensures
            r == next_index(self@.available),
    {
        let n = self.available_gas_coins.len();
        if n == 0 {
            0
        } else {
            self.available_gas_coins[n - 1].0 + 1
        }
    }

    /// Notes coin `id` as reserved at `time`.
    fn note_reserved(&mut self, id: ObjectID, time: u64)
        requires
            keys_unique(old(self).reserved_gas_coins@, reserved_key()),
        ensures
            keys_unique(final(self).reserved_gas_coins@, reserved_key()),
            reserved_map(final(self).reserved_gas_coins@) == reserved_map(old(self).reserved_gas_coins@).insert(id, time),
            final(self).available_gas_coins@ == old(self).available_gas_coins@,
    {
        let ghost e0 = self.reserved_gas_coins@;
        match find_reserved(&self.reserved_gas_coins, id) {
            Some(i) => {
                self.reserved_gas_coins.set(i, (id, time));
                proof {
                    lemma_keyed_update(e0, reserved_key(), i as int, (id, time));
                    lemma_map_values_insert(keyed_map(e0, reserved_key()), id, (id, time), |e: (ObjectID, u64)| e.1);
                }
            },
            None => {
                self.reserved_gas_coins.push((id, time));
                proof {
                    assert(e0.insert(e0.len() as int, (id, time)) =~= self.reserved_gas_coins@);
                    assert(!has_key(e0, reserved_key(), id));
                    lemma_keyed_insert(e0, reserved_key(), e0.len() as int, (id, time));
                    lemma_map_values_insert(keyed_map(e0, reserved_key()), id, (id, time), |e: (ObjectID, u64)| e.1);
                }
            },
        }
    }

    /// Forgets that coin `id` is reserved.
    fn forget_reserved(&mut self, id: ObjectID)
        requires
            keys_unique(old(self).reserved_gas_coins@, reserved_key()),
        ensures
            keys_unique(final(self).reserved_gas_coins@, reserved_key()),
            reserved_map(final(self).reserved_gas_coins@) == reserved_map(old(self).reserved_gas_coins@).remove(id),
            final(self).available_gas_coins@ == old(self).available_gas_coins@,
    {
        let ghost e0 = self.reserved_gas_coins@;
        match find_reserved(&self.reserved_gas_coins, id) {
            Some(i) => {
                self.reserved_gas_coins.remove(i);
                proof {
                    lemma_keyed_remove(e0, reserved_key(), i as int);
                    lemma_map_values_remove(keyed_map(e0, reserved_key()), id, |e: (ObjectID, u64)| e.1);
                }
            },
            None => {
                proof {
                    assert(reserved_map(e0).remove(id) =~= reserved_map(e0));
                }
            },
        }
    }

    /// Takes coins from the front of the queue until their balances reach
    /// `target_budget` or `MAX_GAS_PER_QUERY` coins are taken. When they do
    /// not reach the budget, nothing is taken and no coin is given. The coins
    /// taken are noted as reserved at time `now`.
    pub fn take_first_available_gas_coins_at(&mut self, target_budget: u64, now: u64) -> (r: Vec<GasCoin>)
        requires
            old(self).wf(),
        ensures
            final(self).wf(),
            r@ == old(self)@.taken(target_budget),
            final(self)@.available == old(self)@.available.skip(r@.len() as int),
            final(self)@.reserved == reserved_after(old(self)@.reserved, r@, now),
    {
        let ghost coins0 = self@.coins();
        let ghost avail0 = self@.available;
        let mut n: usize = 0;
        let mut total: u128 = 0;
        let mut done = false;
        while !done && n < self.available_gas_coins.len()
            invariant
                self@.available == avail0,
                coins0 == queue_coins(avail0),
                n <= coins0.len(),
                n <= MAX_GAS_PER_QUERY,
                !done ==> n < MAX_GAS_PER_QUERY,
                total == balance_sum(coins0.take(n as int)),
                done ==> take_count(coins0, target_budget) == n,
                !done ==> take_count(coins0, target_budget) == take_count_from(coins0, target_budget, n as nat),
            decreases coins0.len() - n, if done { 0int } else { 1int },
        {
            proof {
                lemma_balance_sum_take_step(coins0, n as int);
                lemma_balance_sum_bounds(coins0.take(n as int));
                assert(n * (u64::MAX as int) <= 256 * (u64::MAX as int)) by (nonlinear_arith)
                    requires n <= 256;
            }
            total = total + self.available_gas_coins[n].1.balance as u128;
            n = n + 1;
            if total >= target_budget as u128 || n >= MAX_GAS_PER_QUERY {
                done = true;
            }
        }
        if total < target_budget as u128 {
            proof {
                assert(Map::new(|id: ObjectID| coin_ids(Seq::<GasCoin>::empty()).contains(id), |id: ObjectID| now).dom()
                    =~= Set::<ObjectID>::empty());
                assert(self@.reserved.union_prefer_right(
                    Map::new(|id: ObjectID| coin_ids(Seq::<GasCoin>::empty()).contains(id), |id: ObjectID| now))
                    =~= self@.reserved);
                assert(avail0.skip(0) =~= avail0);
            }
            return Vec::new();
        }
        let mut taken_entries = self.available_gas_coins.split_off(n);
        std::mem::swap(&mut taken_entries, &mut self.available_gas_coins);
        proof {
            assert(self.available_gas_coins@ =~= avail0.skip(n as int));
            assert forall|i: int, j: int| 0 <= i < j < self.available_gas_coins@.len() implies
                #[trigger] self.available_gas_coins@[i].0 < #[trigger] self.available_gas_coins@[j].0 by {
                assert(self.available_gas_coins@[i] == avail0[i + n]);
                assert(self.available_gas_coins@[j] == avail0[j + n]);
            }
        }
        let mut result: Vec<GasCoin> = Vec::new();
        let ghost reserved0 = self@.reserved;
        let mut k: usize = 0;
        proof {
            assert(reserved0.union_prefer_right(Map::new(|id: ObjectID| coin_ids(result@).contains(id), |id: ObjectID| now))
                =~= reserved0);
        }
        while k < taken_entries.len()
            invariant
                k <= taken_entries@.len(),
                taken_entries@ == avail0.take(n as int),
                coins0 == queue_coins(avail0),
                n <= avail0.len(),
                result@ == coins0.take(k as int),
                keys_unique(self.reserved_gas_coins@, reserved_key()),
                indexes_increasing(self.available_gas_coins@),
                self.available_gas_coins@ == avail0.skip(n as int),
                self@.reserved == reserved0.union_prefer_right(
                    Map::new(|id: ObjectID| coin_ids(result@).contains(id), |id: ObjectID| now)),
            decreases taken_entries.len() - k,
        {
            let coin = taken_entries[k].1;
            self.note_reserved(coin.object_ref.0, now);
            let ghost r0 = result@;
            result.push(coin);
            proof {
                assert(coins0.take(k as int + 1) =~= r0.push(coin));
                assert(coin_ids(result@) =~= coin_ids(r0).push(coin.id()));
                lemma_push_contains(coin_ids(r0), coin.id());
                assert(self@.reserved =~= reserved0.union_prefer_right(
                    Map::new(|id: ObjectID| coin_ids(result@).contains(id), |id: ObjectID| now)));
            }
            k = k + 1;
        }
        proof {
            assert(result@.len() == n);
        }
        result
    }

    /// Puts coins at the end of the queue, after the last index, and forgets
    /// that they are reserved.
    pub fn add_gas_coins(&mut self, gas_coins: Vec<GasCoin>)
        requires
            old(self).wf(),
            next_index(old(self)@.available) + gas_coins@.len() <= u64::MAX + 1,
            old(self)@.available.len() > 0 ==> old(self)@.available.last().0 < u64::MAX,
        ensures
            final(self).wf(),
            final(self)@.available == old(self)@.available + appended(next_index(old(self)@.available), gas_coins@),
            final(self)@.reserved == old(self)@.reserved.remove_keys(coin_ids(gas_coins@).to_set()),
    {
        let ghost avail0 = self@.available;
        let ghost reserved0 = self@.reserved;
        let next = self.get_next_available_gas_coin_index();
        let mut i: usize = 0;
        while i < gas_coins.len()
            invariant
                i <= gas_coins@.len(),
                next == next_index(avail0),
                next + gas_coins@.len() <= u64::MAX + 1,
                avail0.len() > 0 ==> avail0.last().0 < next,
                indexes_increasing(avail0),
                self.available_gas_coins@ == avail0 + appended(next as int, gas_coins@.take(i as int)),
                indexes_increasing(self.available_gas_coins@),
                keys_unique(self.reserved_gas_coins@, reserved_key()),
                self@.reserved == reserved0,
            decreases gas_coins.len() - i,
        {
            let ghost before = self.available_gas_coins@;
            self.available_gas_coins.push((next + i as u64, gas_coins[i]));
            proof {
                assert(appended(next as int, gas_coins@.take(i as int + 1))
                    =~= appended(next as int, gas_coins@.take(i as int)).push(((next + i) as u64, gas_coins@[i as int])));
                let t = self.available_gas_coins@;
                assert forall|a: int, b: int| 0 <= a < b < t.len() implies #[trigger] t[a].0 < #[trigger] t[b].0 by {
                    if b == t.len() - 1 {
                        if a < avail0.len() {
                            assert(t[a] == avail0[a]);
                            assert(avail0[a].0 <= avail0.last().0);
                        } else {
                            assert(t[a] == before[a]);
                        }
                    } else {
                        assert(t[a] == before[a] && t[b] == before[b]);
                    }
                }
            }
            i = i + 1;
        }
        proof {
            assert(gas_coins@.take(i as int) =~= gas_coins@);
        }
        let mut k: usize = 0;
        while k < gas_coins.len()
            invariant
                k <= gas_coins@.len(),
                self.available_gas_coins@ == avail0 + appended(next as int, gas_coins@),
                indexes_increasing(self.available_gas_coins@),
                keys_unique(self.reserved_gas_coins@, reserved_key()),
                self@.reserved == reserved0.remove_keys(coin_ids(gas_coins@.take(k as int)).to_set()),
            decreases gas_coins.len() - k,
        {
            self.forget_reserved(gas_coins[k].object_ref.0);
            proof {
                let ids = coin_ids(gas_coins@.take(k as int));
                assert(coin_ids(gas_coins@.take(k as int + 1)) =~= ids.push(gas_coins@[k as int].id()));
                lemma_push_contains(ids, gas_coins@[k as int].id());
                assert(self@.reserved =~= reserved0.remove_keys(coin_ids(gas_coins@.take(k as int + 1)).to_set()));
            }
            k = k + 1;
        }
        proof {
            assert(gas_coins@.take(k as int) =~= gas_coins@);
        }
    }
}

impl RocksDBStorageTables {
    /// Reserves coins for `target_budget` at the current time, as
    /// `take_first_available_gas_coins_at` does. The time is read from the
    /// clock as milliseconds since the Unix epoch.
    pub fn take_first_available_gas_coins(&mut self, target_budget: u64) -> (r: Vec<GasCoin>)
        requires
            old(self).wf(),
        ensures
            final(self).wf(),
            r@ == old(self)@.taken(target_budget),
            final(self)@.available == old(self)@.available.skip(r@.len() as int),
            exists|now: u64| now <= i64::MAX && final(self)@.reserved == #[trigger] reserved_after(old(self)@.reserved, r@, now),
    {
        let now = crate::clock::utc_now_millis() as u64;
        self.take_first_available_gas_coins_at(target_budget, now)
    }

    /// How many coins are available.
    pub fn get_available_coin_count(&self) -> (r: usize)
        ensures
            r == self@.available.len(),
    {
        self.available_gas_coins.len()
    }

    /// How many coins are reserved.
    pub fn get_reserved_coin_count(&self) -> (r: usize)
        requires
            self.wf(),
        ensures
            r == self@.reserved.dom().len(),
    {
        proof {
            lemma_keyed_len(self.reserved_gas_coins@, reserved_key());
            assert(self@.reserved.dom() =~= keyed_map(self.reserved_gas_coins@, reserved_key()).dom());
        }
        self.reserved_gas_coins.len()
    }

    /// The total balance of the available coins.
    pub fn get_total_available_coin_balance(&self) -> (r: u64)
        requires
            balance_sum(self@.coins()) <= u64::MAX,
        ensures
            r == balance_sum(self@.coins()),
    {
        let ghost coins = self@.coins();
        let mut total: u64 = 0;
        let mut i: usize = 0;
        while i < self.available_gas_coins.len()
            invariant
                i <= coins.len(),
                coins == queue_coins(self.available_gas_coins@),
                balance_sum(coins) <= u64::MAX,
                total == balance_sum(coins.take(i as int)),
            decreases self.available_gas_coins.len() - i,
        {
            proof {
                lemma_balance_sum_take_step(coins, i as int);
                lemma_balance_sum_prefix(coins, i as int + 1);
            }
            total = total + self.available_gas_coins[i].1.balance;
            i = i + 1;
        }
        proof {
            assert(coins.take(i as int) =~= coins);
        }
        total
    }
}

/// A prefix holds no more balance than the whole.
proof fn lemma_balance_sum_prefix(coins: Seq<GasCoin>, n: int)
    requires
        0 <= n <= coins.len(),
    ensures
        balance_sum(coins.take(n)) <= balance_sum(coins),
    decreases coins.len() - n,
{
    if n < coins.len() {
        lemma_balance_sum_take_step(coins, n);
        lemma_balance_sum_prefix(coins, n + 1);
        assert(coins.take(coins.len() as int) =~= coins);
    } else {
        assert(coins.take(n) =~= coins);
    }
}

/// The single gas pool.
pub struct RocksDBStorage {
    tables: RocksDBStorageTables,
}

impl View for RocksDBStorage {
    type V = CoinQueueView;

    closed spec fn view(&self) -> CoinQueueView {
        self.tables@
    }
}

impl RocksDBStorage {
    pub closed spec fn wf(&self) -> bool {
        self.tables.wf()
    }

    /// An empty pool.
    pub fn new() -> (r: Self)
        ensures
            r.wf(),
            r@.available == Seq::<(u64, GasCoin)>::empty(),
            r@.reserved.dom() == Set::<ObjectID>::empty(),
    {
        RocksDBStorage { tables: RocksDBStorageTables::new() }
    }

    /// Reserves coins for `target_budget`: the first coins of the queue whose
    /// balances reach it, at most `MAX_GAS_PER_QUERY` of them, or none.
    pub fn reserve_gas_coins(&mut self, target_budget: u64) -> (r: Vec<GasCoin>)
        requires
            old(self).wf(),
        ensures
            final(self).wf(),
            r@ == old(self)@.taken(target_budget),
            final(self)@.available == old(self)@.available.skip(r@.len() as int),
            exists|now: u64| final(self)@.reserved == #[trigger] reserved_after(old(self)@.reserved, r@, now),
    {
        self.tables.take_first_available_gas_coins(target_budget)
    }

    /// Puts coins back at the end of the queue.
    pub fn add_gas_coins(&mut self, gas_coins: Vec<GasCoin>)
        requires
            old(self).wf(),
            next_index(old(self)@.available) + gas_coins@.len() <= u64::MAX + 1,
            old(self)@.available.len() > 0 ==> old(self)@.available.last().0 < u64::MAX,
        ensures
            final(self).wf(),
            final(self)@.available == old(self)@.available + appended(next_index(old(self)@.available), gas_coins@),
            final(self)@.reserved == old(self)@.reserved.remove_keys(coin_ids(gas_coins@).to_set()),
    {
        self.tables.add_gas_coins(gas_coins)
    }

    pub fn get_available_coin_count(&self) -> (r: usize)
        ensures
            r == self@.available.len(),
    {
        self.tables.get_available_coin_count()
    }

    pub fn get_reserved_coin_count(&self) -> (r: usize)
        requires
            self.wf(),
        ensures
            r == self@.reserved.dom().len(),
    {
        self.tables.get_reserved_coin_count()
    }

    pub fn get_total_available_coin_balance(&self) -> (r: u64)
        requires
            balance_sum(self@.coins()) <= u64::MAX,
        ensures
            r == balance_sum(self@.coins()),
    {
        self.tables.get_total_available_coin_balance()
    }
}

/// Coins put back are taken again after the coins already there: a
/// reservation from a queue with coins put back at its end takes them in the
/// order of the queue.
pub proof fn law_put_back_goes_last(v: CoinQueueView, gas_coins: Seq<GasCoin>)
    ensures
        queue_coins(v.available + appended(next_index(v.available), gas_coins)) == v.coins() + gas_coins,
{
    assert(queue_coins(v.available + appended(next_index(v.available), gas_coins)) =~= v.coins() + gas_coins);
}

/// A reservation either takes nothing or coins whose balances reach the
/// budget, and never more than `MAX_GAS_PER_QUERY` coins.
pub proof fn law_reservation_meets_budget(v: CoinQueueView, target_budget: u64)
    ensures
        v.taken(target_budget).len() == 0 || balance_sum(v.taken(target_budget)) >= target_budget,
        v.taken(target_budget).len() <= MAX_GAS_PER_QUERY,
        v.taken(target_budget) == v.coins().take(v.taken(target_budget).len() as int),
{
    let coins = v.coins();
    crate::pool_laws::lemma_take_count_from(coins, target_budget, 0);
    let n = take_count(coins, target_budget);
    if n > MAX_GAS_PER_QUERY {
        assert(crate::gas_store::reserve_stops(coins, target_budget, MAX_GAS_PER_QUERY as int));
    }
    if v.taken(target_budget).len() == 0 {
        assert(coins.take(0) =~= Seq::<GasCoin>::empty());
    }
}

} // verus!
