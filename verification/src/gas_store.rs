//! The gas pool's storage tables: for each sponsor the gas coins available in
//! the pool, the groups of coins reserved and not yet handed to a transaction,
//! the queue of reservation expiry times, and the groups whose transaction is
//! under way and whose coins wait to be put back.
//!
//! A reservation takes a sponsor's available coins in the order of their
//! identifiers until their balances reach the budget, never more than
//! `MAX_GAS_PER_QUERY` coins. The reserved group is keyed by its smallest
//! identifier.

use vstd::prelude::*;
use crate::base_types::{ExpirationTimeMs, GasCoin, GasGroupKey, ObjectDigest, ObjectID, SuiAddress};
use crate::coin_order::{coins_sorted, upsert_coin, upsert_coins, is_insertion_point,
    lemma_insertion_point_unique, lemma_upsert_coin, lemma_upsert_coins_append};
use crate::gas_groups::{coin_ids, ids_sorted, ReservedGasGroup, UpdatedGasGroup};
use crate::keyed::{keys_unique, has_key, entry_at, keyed_map, lemma_entry_at_index, lemma_keyed_insert,
    lemma_keyed_update, lemma_keyed_remove, lemma_map_values_insert, lemma_map_values_remove};

verus! {

/// The most coins one reservation may take: a transaction takes at most this
/// many gas coins.
pub const MAX_GAS_PER_QUERY: usize = 256;

/// An entry of the expiration queue.
#[derive(Clone, Copy, Debug, PartialEq, Eq, Structural)]
pub struct ExpirationEntry {
    pub sponsor: SuiAddress,
    pub expiration_time: ExpirationTimeMs,
    pub group_key: GasGroupKey,
}

#[derive(Clone, Copy, Debug, PartialEq, Eq)]
pub enum StorageError {
    /// A reservation asked for a zero budget.
    ZeroBudget,
    /// The sponsor's coins, within the per-query limit, do not reach the budget.
    InsufficientGasCoins,
    /// The expiration time does not fit in 64 bits.
    ExpirationOverflow,
    /// No gas coin was named.
    EmptyGasCoins,
    /// The smallest coin named is not the key of a reserved group.
    NotReserved,
    /// The coins named are not those of the reservation.
    ReservationMismatch,
    /// A group handed back, the one with this key, is not waiting to be put back.
    NotPending(GasGroupKey),
    /// The sponsor has never had coins added to the pool.
    InvalidSponsor,
}

/// `groups[i]` is the first group whose key is not in `pending`.
pub open spec fn first_not_pending(pending: Set<GasGroupKey>, groups: Seq<UpdatedGasGroup>, i: int) -> bool {
    &&& 0 <= i < groups.len()
    &&& !pending.contains(min_id(groups[i].all_ids()))
    &&& forall|j: int| 0 <= j < i ==> pending.contains(min_id(#[trigger] groups[j].all_ids()))
}

/// A gas coin's version, digest and balance, as stored under its identifier.
#[derive(Clone, Copy, Debug, PartialEq, Eq, Structural)]
pub struct GasCoinInfo {
    pub version: u64,
    pub digest: ObjectDigest,
    pub balance: u64,
}

impl GasCoinInfo {
    pub fn from_gas_coin(gas_coin: &GasCoin) -> (r: Self)
        ensures
            r.version == gas_coin.object_ref.1,
            r.digest == gas_coin.object_ref.2,
            r.balance == gas_coin.balance,
    {
        GasCoinInfo { version: gas_coin.object_ref.1, digest: gas_coin.object_ref.2, balance: gas_coin.balance }
    }

    pub fn to_gas_coin(&self, object_id: ObjectID) -> (r: GasCoin)
        ensures
            r.object_ref.0 == object_id,
            r.object_ref.1 == self.version,
            r.object_ref.2 == self.digest,
            r.balance == self.balance,
    {
        GasCoin { object_ref: crate::base_types::ObjectRef(object_id, self.version, self.digest), balance: self.balance }
    }
}

/// A reserved group, as specification: its identifiers and expiry time.
pub struct GroupView {
    pub objects: Seq<ObjectID>,
    pub expiration_time: ExpirationTimeMs,
}

impl View for ReservedGasGroup {
    type V = GroupView;

    open spec fn view(&self) -> GroupView {
        GroupView { objects: self.objects@, expiration_time: self.expiration_time }
    }
}

/// The available coins of one sponsor, in the order of their identifiers.
#[derive(Debug)]
pub struct SponsorCoins {
    pub sponsor: SuiAddress,
    pub coins: Vec<GasCoin>,
}

/// The storage tables, as specification.
pub struct StoreView {
    /// The sponsors that ever had coins added.
    pub valid_addresses: Set<SuiAddress>,
    /// Each sponsor's available coins, in the order of their identifiers.
    pub available: Map<SuiAddress, Seq<GasCoin>>,
    pub expiration_queue: Set<ExpirationEntry>,
    /// Reserved groups by key.
    pub reserved: Map<GasGroupKey, GroupView>,
    /// Groups handed to a transaction, by key, waiting to be put back.
    pub pending: Map<GasGroupKey, GroupView>,
}

/// Sum of the coins' balances.
pub open spec fn balance_sum(coins: Seq<GasCoin>) -> int
    decreases coins.len(),
{
    if coins.len() == 0 {
        0
    } else {
        balance_sum(coins.drop_last()) + coins.last().balance
    }
}

/// A reservation stops after taking `n` coins.
pub open spec fn reserve_stops(coins: Seq<GasCoin>, budget: u64, n: int) -> bool {
    balance_sum(coins.take(n)) >= budget || n >= MAX_GAS_PER_QUERY
}

/// How many coins a reservation takes, having taken `n` without stopping.
pub open spec fn take_count_from(coins: Seq<GasCoin>, budget: u64, n: nat) -> nat
    decreases coins.len() - n,
{
    if n >= coins.len() {
        coins.len()
    } else if reserve_stops(coins, budget, (n + 1) as int) {
        n + 1
    } else {
        take_count_from(coins, budget, n + 1)
    }
}

/// How many coins, taken in order, a reservation of `budget` takes: it stops at
/// the first coin that brings the total to the budget or the count to
/// `MAX_GAS_PER_QUERY`, or when the coins run out.
pub open spec fn take_count(coins: Seq<GasCoin>, budget: u64) -> nat {
    take_count_from(coins, budget, 0)
}

pub open spec fn sponsor_key() -> spec_fn(SponsorCoins) -> SuiAddress {
    |s: SponsorCoins| s.sponsor
}

pub open spec fn group_key() -> spec_fn(ReservedGasGroup) -> ObjectID {
    |g: ReservedGasGroup| g.objects@[0]
}

/// A group's identifiers are nonempty and strictly increasing.
pub open spec fn group_wf(objects: Seq<ObjectID>) -> bool {
    objects.len() > 0 && ids_sorted(objects)
}

/// The groups of a table, by key.
pub open spec fn group_table(groups: Seq<ReservedGasGroup>) -> Map<GasGroupKey, GroupView> {
    keyed_map(groups, group_key()).map_values(|g: ReservedGasGroup| g@)
}

pub open spec fn group_table_wf(groups: Seq<ReservedGasGroup>) -> bool {
    &&& keys_unique(groups, group_key())
    &&& forall|i: int| 0 <= i < groups.len() ==> group_wf((#[trigger] groups[i]).objects@)
}

/// The entry is one that expiry for `sponsor` at time `now` removes.
pub open spec fn is_expired_entry(e: ExpirationEntry, sponsor: SuiAddress, now: u64) -> bool {
    e.sponsor == sponsor && e.expiration_time <= now
}

/// The updated coins of the groups, in order.
pub open spec fn updated_coins_of(groups: Seq<UpdatedGasGroup>) -> Seq<GasCoin>
    decreases groups.len(),
{
    if groups.len() == 0 {
        Seq::empty()
    } else {
        updated_coins_of(groups.drop_last()) + groups.last().updated_gas_coins@
    }
}

/// The smallest identifier, when there is one.
pub open spec fn min_id(ids: Seq<ObjectID>) -> ObjectID {
    choose|r: ObjectID| crate::gas_groups::is_min_id(r, ids)
}

impl StoreView {
    /// Each sponsor's coins are in order, and each group is nonempty, in order,
    /// and keyed by its smallest identifier.
    pub open spec fn wf(self) -> bool {
        &&& forall|a: SuiAddress| #[trigger] coins_sorted(self.available[a])
        &&& self.available.dom() == Set::<SuiAddress>::full()
        &&& forall|k: GasGroupKey| #[trigger] self.reserved.contains_key(k) ==>
                group_wf(self.reserved[k].objects) && self.reserved[k].objects[0] == k
        &&& forall|k: GasGroupKey| #[trigger] self.pending.contains_key(k) ==>
                group_wf(self.pending[k].objects) && self.pending[k].objects[0] == k
    }

    /// What a reservation returns, and the tables after it.
    pub open spec fn reserve(self, sponsor: SuiAddress, budget: u64, duration: u64, now: u64)
        -> (Result<Seq<GasCoin>, StorageError>, StoreView)
    {
        let coins = self.available[sponsor];
        let n = take_count(coins, budget);
        let taken = coins.take(n as int);
        if budget == 0 {
            (Err(StorageError::ZeroBudget), self)
        } else if balance_sum(taken) < budget {
            (Err(StorageError::InsufficientGasCoins), self)
        } else if now + duration > u64::MAX {
            (Err(StorageError::ExpirationOverflow), self)
        } else {
            let exp = (now + duration) as u64;
            let key = taken[0].object_ref.0;
            (Ok(taken), StoreView {
                available: self.available.insert(sponsor, coins.skip(n as int)),
                reserved: self.reserved.insert(key, GroupView { objects: coin_ids(taken), expiration_time: exp }),
                expiration_queue: self.expiration_queue.insert(
                    ExpirationEntry { sponsor, expiration_time: exp, group_key: key }),
                ..self
            })
        }
    }

    /// Moving a reservation to the pending table when its transaction starts.
    /// The coins are named in increasing order; the smallest is the key.
    pub open spec fn ready_for_execution(self, sponsor: SuiAddress, gas_coins: Seq<ObjectID>)
        -> (Result<(), StorageError>, StoreView)
    {
        if gas_coins.len() == 0 {
            (Err(StorageError::EmptyGasCoins), self)
        } else if !self.reserved.contains_key(gas_coins[0]) {
            (Err(StorageError::NotReserved), self)
        } else if self.reserved[gas_coins[0]].objects != gas_coins {
            (Err(StorageError::ReservationMismatch), self)
        } else {
            let key = gas_coins[0];
            let group = self.reserved[key];
            (Ok(()), StoreView {
                reserved: self.reserved.remove(key),
                expiration_queue: self.expiration_queue.remove(
                    ExpirationEntry { sponsor, expiration_time: group.expiration_time, group_key: key }),
                pending: self.pending.insert(key, group),
                ..self
            })
        }
    }

    /// The reserved group keyed `k` expires for `sponsor` at time `now`: it is
    /// still reserved, and its entry in the queue, naming this sponsor and the
    /// group's own expiry time, is due.
    pub open spec fn expiring(self, sponsor: SuiAddress, now: u64, k: GasGroupKey) -> bool {
        &&& self.reserved.contains_key(k)
        &&& self.reserved[k].expiration_time <= now
        &&& self.expiration_queue.contains(
                ExpirationEntry { sponsor, expiration_time: self.reserved[k].expiration_time, group_key: k })
    }

    /// The tables after expiring `sponsor`'s reservations at time `now`: all due
    /// queue entries of the sponsor go, and the groups that expire move to the
    /// pending table.
    pub open spec fn after_expire(self, sponsor: SuiAddress, now: u64) -> StoreView {
        let expiring_keys = self.reserved.dom().filter(|k: GasGroupKey| self.expiring(sponsor, now, k));
        StoreView {
            expiration_queue: self.expiration_queue.filter(|e: ExpirationEntry| !is_expired_entry(e, sponsor, now)),
            reserved: self.reserved.remove_keys(expiring_keys),
            pending: self.pending.union_prefer_right(self.reserved.restrict(expiring_keys)),
            ..self
        }
    }

    /// Putting coins back after their transactions: every group's key must be
    /// pending, else the first group whose key is not is named; then the
    /// updated coins join the sponsor's available coins and the groups leave
    /// the pending table.
    pub open spec fn update_gas_coins(self, sponsor: SuiAddress, groups: Seq<UpdatedGasGroup>)
        -> (Result<(), StorageError>, StoreView)
    {
        if exists|i: int| 0 <= i < groups.len() && !self.pending.contains_key(min_id(#[trigger] groups[i].all_ids())) {
            let i = choose|i: int| first_not_pending(self.pending.dom(), groups, i);
            (Err(StorageError::NotPending(min_id(groups[i].all_ids()))), self)
        } else {
            (Ok(()), StoreView {
                available: self.available.insert(sponsor,
                    upsert_coins(self.available[sponsor], updated_coins_of(groups))),
                pending: self.pending.remove_keys(
                    Set::new(|k: GasGroupKey| exists|i: int| 0 <= i < groups.len() && k == min_id(#[trigger] groups[i].all_ids()))),
                ..self
            })
        }
    }

    /// Adding coins to a sponsor's pool, which makes the sponsor valid.
    pub open spec fn add_new_coins(self, sponsor: SuiAddress, coins: Seq<GasCoin>) -> StoreView {
        StoreView {
            valid_addresses: self.valid_addresses.insert(sponsor),
            available: self.available.insert(sponsor, upsert_coins(self.available[sponsor], coins)),
            ..self
        }
    }
}

/// The storage tables, held in vectors: the sponsors' coins in the order of
/// their identifiers, and each table with distinct keys.
pub struct RocksDBStorageTables {
    valid_addresses: Vec<SuiAddress>,
    available_gas_coins: Vec<SponsorCoins>,
    expiration_queue: Vec<ExpirationEntry>,
    reserved_gas_groups: Vec<ReservedGasGroup>,
    pending_update_gas_groups: Vec<ReservedGasGroup>,
}

impl View for RocksDBStorageTables {
    type V = StoreView;

    closed spec fn view(&self) -> StoreView {
        StoreView {
            valid_addresses: self.valid_addresses@.to_set(),
            available: Map::new(|a: SuiAddress| true, |a: SuiAddress| coins_of(self.available_gas_coins@, a)),
            expiration_queue: self.expiration_queue@.to_set(),
            reserved: group_table(self.reserved_gas_groups@),
            pending: group_table(self.pending_update_gas_groups@),
        }
    }
}

/// The coins of sponsor `a` in a sponsor table.
pub open spec fn coins_of(sps: Seq<SponsorCoins>, a: SuiAddress) -> Seq<GasCoin> {
    if has_key(sps, sponsor_key(), a) {
        entry_at(sps, sponsor_key(), a).coins@
    } else {
        Seq::empty()
    }
}

/// A change of one sponsor's entry changes only that sponsor's coins.
proof fn lemma_coins_of_change(old_sps: Seq<SponsorCoins>, new_sps: Seq<SponsorCoins>, e: SponsorCoins)
    requires
        keyed_map(new_sps, sponsor_key()) == keyed_map(old_sps, sponsor_key()).insert(e.sponsor, e),
    ensures
        forall|a: SuiAddress| #[trigger] coins_of(new_sps, a) == if a == e.sponsor { e.coins@ } else { coins_of(old_sps, a) },
{
    assert forall|a: SuiAddress| #[trigger] coins_of(new_sps, a) == if a == e.sponsor { e.coins@ } else { coins_of(old_sps, a) } by {
        let m1 = keyed_map(new_sps, sponsor_key());
        let m0 = keyed_map(old_sps, sponsor_key());
        assert(m1.contains_key(a) == has_key(new_sps, sponsor_key(), a));
        assert(m0.contains_key(a) == has_key(old_sps, sponsor_key(), a));
        if a == e.sponsor {
            assert(m1[a] == e);
        } else if has_key(old_sps, sponsor_key(), a) {
            assert(m1[a] == m0[a]);
        }
    }
}

/// The smallest identifier is unique.
pub proof fn lemma_min_id_unique(r: ObjectID, ids: Seq<ObjectID>)
    requires
        crate::gas_groups::is_min_id(r, ids),
    ensures
        min_id(ids) == r,
{
    let m = min_id(ids);
    assert(crate::gas_groups::is_min_id(m, ids));
    let i = choose|i: int| 0 <= i < ids.len() && ids[i] == r;
    let j = choose|j: int| 0 <= j < ids.len() && ids[j] == m;
    assert(r.num() <= ids[j].num());
    assert(m.num() <= ids[i].num());
    crate::base_types::lemma_num_injective(r, m);
}

/// Finds where a coin belongs in a sequence in order of identifiers, and puts it
/// there, replacing the coin with the same identifier.
fn insert_coin_sorted(coins: &mut Vec<GasCoin>, c: GasCoin)
    requires
        coins_sorted(old(coins)@),
    ensures
        final(coins)@ == upsert_coin(old(coins)@, c),
        coins_sorted(final(coins)@),
{
    let ghost x = c.object_ref.0.num();
    let mut lo: usize = 0;
    let mut hi: usize = coins.len();
    while lo < hi
        invariant
            lo <= hi <= coins.len(),
            x == c.object_ref.0.num(),
            coins_sorted(coins@),
            forall|i: int| 0 <= i < lo ==> (#[trigger] coins@[i]).object_ref.0.num() < x,
            forall|i: int| hi <= i < coins@.len() ==> (#[trigger] coins@[i]).object_ref.0.num() >= x,
        decreases hi - lo,
    {
        let mid = lo + (hi - lo) / 2;
        if coins[mid].object_ref.0.lt(&c.object_ref.0) {
            proof {
                assert forall|i: int| 0 <= i < mid + 1 implies (#[trigger] coins@[i]).object_ref.0.num() < x by {
                    if i < mid {
                        assert(coins@[i].object_ref.0.num() < coins@[mid as int].object_ref.0.num());
                    }
                }
            }
            lo = mid + 1;
        } else {
            proof {
                assert forall|i: int| mid <= i < coins@.len() implies (#[trigger] coins@[i]).object_ref.0.num() >= x by {
                    if i > mid {
                        assert(coins@[mid as int].object_ref.0.num() < coins@[i].object_ref.0.num());
                    }
                }
            }
            hi = mid;
        }
    }
    let p = lo;
    proof {
        assert(is_insertion_point(coins@, x, p as int));
        lemma_insertion_point_unique(coins@, x, p as int);
        lemma_upsert_coin(coins@, c);
    }
    if p < coins.len() && coins[p].object_ref.0 == c.object_ref.0 {
        coins.set(p, c);
    } else {
        coins.insert(p, c);
    }
}

impl RocksDBStorageTables {
    pub closed spec fn wf(&self) -> bool {
        &&& self.valid_addresses@.no_duplicates()
        &&& keys_unique(self.available_gas_coins@, sponsor_key())
        &&& forall|i: int| 0 <= i < self.available_gas_coins@.len() ==>
                coins_sorted((#[trigger] self.available_gas_coins@[i]).coins@)
        &&& self.expiration_queue@.no_duplicates()
        &&& group_table_wf(self.reserved_gas_groups@)
        &&& group_table_wf(self.pending_update_gas_groups@)
    }
}


impl RocksDBStorageTables {
    proof fn lemma_view_wf(&self)
        requires
            self.wf(),
        ensures
            self@.wf(),
    {
        let sps = self.available_gas_coins@;
        assert forall|a: SuiAddress| #[trigger] coins_sorted(self@.available[a]) by {
            if has_key(sps, sponsor_key(), a) {
                let i = choose|i: int| 0 <= i < sps.len() && (sponsor_key())(#[trigger] sps[i]) == a;
                lemma_entry_at_index(sps, sponsor_key(), i);
                assert(coins_sorted(sps[i].coins@));
            }
        }
        assert(self@.available.dom() =~= Set::<SuiAddress>::full());
        Self::lemma_group_table_wf(self.reserved_gas_groups@);
        Self::lemma_group_table_wf(self.pending_update_gas_groups@);
    }

    proof fn lemma_group_table_wf(groups: Seq<ReservedGasGroup>)
        requires
            group_table_wf(groups),
        ensures
            forall|k: GasGroupKey| #[trigger] group_table(groups).contains_key(k) ==>
                group_wf(group_table(groups)[k].objects) && group_table(groups)[k].objects[0] == k,
    {
        assert forall|k: GasGroupKey| #[trigger] group_table(groups).contains_key(k) implies
            group_wf(group_table(groups)[k].objects) && group_table(groups)[k].objects[0] == k by {
            let i = choose|i: int| 0 <= i < groups.len() && (group_key())(#[trigger] groups[i]) == k;
            lemma_entry_at_index(groups, group_key(), i);
            assert(group_wf(groups[i].objects@));
        }
    }

    /// Empty tables.
    pub fn new() -> (r: Self)
        ensures
            r.wf(),
            r@.wf(),
            r@.valid_addresses == Set::<SuiAddress>::empty(),
            forall|a: SuiAddress| #[trigger] r@.available[a] == Seq::<GasCoin>::empty(),
            r@.expiration_queue == Set::<ExpirationEntry>::empty(),
            r@.reserved == Map::<GasGroupKey, GroupView>::empty(),
            r@.pending == Map::<GasGroupKey, GroupView>::empty(),
    {
        let r = RocksDBStorageTables {
            valid_addresses: Vec::new(),
            available_gas_coins: Vec::new(),
            expiration_queue: Vec::new(),
            reserved_gas_groups: Vec::new(),
            pending_update_gas_groups: Vec::new(),
        };
        proof {
            assert(r@.valid_addresses =~= Set::<SuiAddress>::empty());
            assert(r@.expiration_queue =~= Set::<ExpirationEntry>::empty());
            assert(r@.reserved =~= Map::<GasGroupKey, GroupView>::empty());
            assert(r@.pending =~= Map::<GasGroupKey, GroupView>::empty());
            r.lemma_view_wf();
        }
        r
    }

    fn find_sponsor(&self, sponsor: SuiAddress) -> (r: Option<usize>)
        requires
            self.wf(),
        ensures
            r matches Some(i) ==> i < self.available_gas_coins@.len()
                && self.available_gas_coins@[i as int].sponsor == sponsor,
            r is None ==> !has_key(self.available_gas_coins@, sponsor_key(), sponsor),
    {
        let mut i: usize = 0;
        while i < self.available_gas_coins.len()
            invariant
                i <= self.available_gas_coins@.len(),
                forall|j: int| 0 <= j < i ==> (#[trigger] self.available_gas_coins@[j]).sponsor != sponsor,
            decreases self.available_gas_coins.len() - i,
        {
            if self.available_gas_coins[i].sponsor == sponsor {
                return Some(i);
            }
            i = i + 1;
        }
        None
    }

    /// Puts coins into a sponsor's available coins, each in its place, a later
    /// coin replacing an earlier one with the same identifier.
    fn put_coins(&mut self, sponsor: SuiAddress, coins: &Vec<GasCoin>)
        requires
            old(self).wf(),
        ensures
            final(self).wf(),
            final(self)@ == (StoreView {
                available: old(self)@.available.insert(sponsor, upsert_coins(old(self)@.available[sponsor], coins@)),
                ..old(self)@
            }),
    {
        let idx = match self.find_sponsor(sponsor) {
            Some(i) => i,
            None => {
                let ghost sps0 = self.available_gas_coins@;
                let e = SponsorCoins { sponsor, coins: Vec::new() };
                self.available_gas_coins.push(e);
                proof {
                    lemma_keyed_insert(sps0, sponsor_key(), sps0.len() as int, e);
                    assert(sps0.insert(sps0.len() as int, e) =~= self.available_gas_coins@);
                    lemma_coins_of_change(sps0, self.available_gas_coins@, e);
                    assert(self@.available =~= old(self)@.available);
                }
                self.available_gas_coins.len() - 1
            },
        };
        let ghost mid = self@;
        let ghost sps1 = self.available_gas_coins@;
        let mut entry = self.available_gas_coins.remove(idx);
        proof {
            lemma_entry_at_index(sps1, sponsor_key(), idx as int);
            assert(entry.coins@ == mid.available[sponsor]);
            assert(coins_sorted(entry.coins@));
        }
        let mut j: usize = 0;
        while j < coins.len()
            invariant
                j <= coins@.len(),
                entry.sponsor == sponsor,
                coins_sorted(entry.coins@),
                entry.coins@ == upsert_coins(mid.available[sponsor], coins@.take(j as int)),
            decreases coins.len() - j,
        {
            proof {
                assert(coins@.take(j + 1).drop_last() =~= coins@.take(j as int));
            }
            insert_coin_sorted(&mut entry.coins, coins[j]);
            j = j + 1;
        }
        proof {
            assert(coins@.take(j as int) =~= coins@);
        }
        let ghost e = entry;
        self.available_gas_coins.insert(idx, entry);
        proof {
            assert(self.available_gas_coins@ =~= sps1.update(idx as int, e));
            lemma_keyed_update(sps1, sponsor_key(), idx as int, e);
            lemma_coins_of_change(sps1, self.available_gas_coins@, e);
            assert(self@.available =~= old(self)@.available.insert(sponsor, upsert_coins(old(self)@.available[sponsor], coins@)));
            assert forall|i: int| 0 <= i < self.available_gas_coins@.len() implies
                coins_sorted((#[trigger] self.available_gas_coins@[i]).coins@) by {
                if i != idx {
                    assert(self.available_gas_coins@[i] == sps1[i]);
                }
            }
        }
    }

    /// Adds coins to a sponsor's pool, and records the sponsor as valid.
    pub fn add_new_coins(&mut self, sponsor: SuiAddress, new_coins: Vec<GasCoin>)
        requires
            old(self).wf(),
        ensures
            final(self).wf(),
            final(self)@ == old(self)@.add_new_coins(sponsor, new_coins@),
    {
        self.put_coins(sponsor, &new_coins);
        let mut i: usize = 0;
        let mut found = false;
        while i < self.valid_addresses.len()
            invariant
                i <= self.valid_addresses@.len(),
                found == exists|j: int| 0 <= j < i && self.valid_addresses@[j] == sponsor,
            decreases self.valid_addresses.len() - i,
        {
            if self.valid_addresses[i] == sponsor {
                found = true;
            }
            i = i + 1;
        }
        if !found {
            let ghost v0 = self.valid_addresses@;
            self.valid_addresses.push(sponsor);
            proof {
                v0.lemma_push_to_set_commute(sponsor);
            }
        } else {
            proof {
                assert(self.valid_addresses@.to_set().contains(sponsor));
                assert(self.valid_addresses@.to_set() =~= self.valid_addresses@.to_set().insert(sponsor));
            }
        }
    }

    /// The sponsor has had coins added.
    pub fn initialized(&self, sponsor: SuiAddress) -> (r: bool)
        ensures
            r == self@.valid_addresses.contains(sponsor),
    {
        let mut i: usize = 0;
        while i < self.valid_addresses.len()
            invariant
                i <= self.valid_addresses@.len(),
                forall|j: int| 0 <= j < i ==> self.valid_addresses@[j] != sponsor,
            decreases self.valid_addresses.len() - i,
        {
            if self.valid_addresses[i] == sponsor {
                return true;
            }
            i = i + 1;
        }
        false
    }

    /// The number of coins available to the sponsor.
    pub fn get_available_coin_count(&self, sponsor: SuiAddress) -> (r: usize)
        requires
            self.wf(),
        ensures
            r == self@.available[sponsor].len(),
    {
        match self.find_sponsor(sponsor) {
            Some(i) => {
                proof {
                    lemma_entry_at_index(self.available_gas_coins@, sponsor_key(), i as int);
                }
                self.available_gas_coins[i].coins.len()
            },
            None => 0,
        }
    }

    /// The total balance of the coins available to the sponsor.
    pub fn get_total_available_coin_balance(&self, sponsor: SuiAddress) -> (r: u128)
        requires
            self.wf(),
            self@.available[sponsor].len() <= u64::MAX,
        ensures
            r == balance_sum(self@.available[sponsor]),
    {
        match self.find_sponsor(sponsor) {
            Some(i) => {
                proof {
                    lemma_entry_at_index(self.available_gas_coins@, sponsor_key(), i as int);
                }
                total_balance(&self.available_gas_coins[i].coins)
            },
            None => 0,
        }
    }
}

/// A sum of balances is at most the count times the largest balance.
pub proof fn lemma_balance_sum_bounds(coins: Seq<GasCoin>)
    ensures
        0 <= balance_sum(coins) <= coins.len() * (u64::MAX as int),
    decreases coins.len(),
{
    if coins.len() > 0 {
        lemma_balance_sum_bounds(coins.drop_last());
    }
}

/// The total balance of the coins.
pub fn total_balance(coins: &Vec<GasCoin>) -> (r: u128)
    requires
        coins@.len() <= u64::MAX,
    ensures
        r == balance_sum(coins@),
{
    let mut total: u128 = 0;
    let mut i: usize = 0;
    while i < coins.len()
        invariant
            i <= coins@.len(),
            coins@.len() <= u64::MAX,
            total == balance_sum(coins@.take(i as int)),
        decreases coins.len() - i,
    {
        proof {
            assert(coins@.take(i + 1).drop_last() =~= coins@.take(i as int));
            lemma_balance_sum_bounds(coins@.take(i + 1));
            assert((i + 1) * (u64::MAX as int) <= (u64::MAX as int) * (u64::MAX as int)) by (nonlinear_arith)
                requires i + 1 <= u64::MAX;
        }
        total = total + coins[i].balance as u128;
        i = i + 1;
    }
    proof {
        assert(coins@.take(i as int) =~= coins@);
    }
    total
}


/// The index of the group with key `key`.
fn find_group(groups: &Vec<ReservedGasGroup>, key: GasGroupKey) -> (r: Option<usize>)
    requires
        group_table_wf(groups@),
    ensures
        r matches Some(i) ==> i < groups@.len() && (group_key())(groups@[i as int]) == key
            && group_table(groups@).contains_key(key) && group_table(groups@)[key] == groups@[i as int]@,
        r is None ==> !has_key(groups@, group_key(), key) && !group_table(groups@).contains_key(key),
{
    let mut i: usize = 0;
    while i < groups.len()
        invariant
            i <= groups@.len(),
            group_table_wf(groups@),
            forall|j: int| 0 <= j < i ==> (group_key())(#[trigger] groups@[j]) != key,
        decreases groups.len() - i,
    {
        assert(group_wf(groups@[i as int].objects@));
        if groups[i].objects[0] == key {
            proof {
                lemma_entry_at_index(groups@, group_key(), i as int);
            }
            return Some(i);
        }
        i = i + 1;
    }
    None
}

/// Puts a group into a table, replacing the group with the same key.
fn upsert_group(groups: &mut Vec<ReservedGasGroup>, g: ReservedGasGroup)
    requires
        group_table_wf(old(groups)@),
        group_wf(g.objects@),
    ensures
        group_table_wf(final(groups)@),
        group_table(final(groups)@) == group_table(old(groups)@).insert(g.objects@[0], g@),
{
    let ghost g0 = groups@;
    let key = g.objects[0];
    match find_group(groups, key) {
        Some(i) => {
            let ghost gv = g;
            groups.set(i, g);
            proof {
                lemma_keyed_update(g0, group_key(), i as int, gv);
                lemma_map_values_insert(keyed_map(g0, group_key()), key, gv, |x: ReservedGasGroup| x@);
                assert forall|j: int| 0 <= j < groups@.len() implies group_wf((#[trigger] groups@[j]).objects@) by {
                    if j != i {
                        assert(groups@[j] == g0[j]);
                    }
                }
            }
        },
        None => {
            let ghost gv = g;
            groups.push(g);
            proof {
                assert(g0.insert(g0.len() as int, gv) =~= groups@);
                lemma_keyed_insert(g0, group_key(), g0.len() as int, gv);
                lemma_map_values_insert(keyed_map(g0, group_key()), key, gv, |x: ReservedGasGroup| x@);
                assert forall|j: int| 0 <= j < groups@.len() implies group_wf((#[trigger] groups@[j]).objects@) by {
                    if j < g0.len() {
                        assert(groups@[j] == g0[j]);
                    }
                }
            }
        },
    }
}

/// Takes the group with key `key` out of a table.
fn remove_group(groups: &mut Vec<ReservedGasGroup>, key: GasGroupKey) -> (r: Option<ReservedGasGroup>)
    requires
        group_table_wf(old(groups)@),
    ensures
        group_table_wf(final(groups)@),
        group_table(final(groups)@) == group_table(old(groups)@).remove(key),
        r matches Some(g) ==> group_table(old(groups)@).contains_key(key) && g@ == group_table(old(groups)@)[key]
            && group_wf(g.objects@) && g.objects@[0] == key,
        r is None ==> !group_table(old(groups)@).contains_key(key),
{
    let ghost g0 = groups@;
    match find_group(groups, key) {
        Some(i) => {
            let g = groups.remove(i);
            proof {
                lemma_keyed_remove(g0, group_key(), i as int);
                lemma_map_values_remove(keyed_map(g0, group_key()), key, |x: ReservedGasGroup| x@);
                assert forall|j: int| 0 <= j < groups@.len() implies group_wf((#[trigger] groups@[j]).objects@) by {
                    if j < i {
                        assert(groups@[j] == g0[j]);
                    } else {
                        assert(groups@[j] == g0[j + 1]);
                    }
                }
                assert(group_wf(g0[i as int].objects@));
            }
            Some(g)
        },
        None => {
            proof {
                assert(group_table(g0).remove(key) =~= group_table(g0));
            }
            None
        },
    }
}

/// Adds an entry to the expiration queue, if it is not there.
fn queue_insert(q: &mut Vec<ExpirationEntry>, e: ExpirationEntry)
    requires
        old(q)@.no_duplicates(),
    ensures
        final(q)@.no_duplicates(),
        final(q)@.to_set() == old(q)@.to_set().insert(e),
{
    let mut i: usize = 0;
    while i < q.len()
        invariant
            i <= q@.len(),
            q@ == old(q)@,
            q@.no_duplicates(),
            forall|j: int| 0 <= j < i ==> q@[j] != e,
        decreases q.len() - i,
    {
        if q[i] == e {
            proof {
                assert(q@.to_set().contains(e));
                assert(q@.to_set() =~= q@.to_set().insert(e));
            }
            return;
        }
        i = i + 1;
    }
    let ghost q0 = q@;
    q.push(e);
    proof {
        q0.lemma_push_to_set_commute(e);
    }
}

/// Removes an entry from the expiration queue.
fn queue_remove(q: &mut Vec<ExpirationEntry>, e: ExpirationEntry)
    requires
        old(q)@.no_duplicates(),
    ensures
        final(q)@.no_duplicates(),
        final(q)@.to_set() == old(q)@.to_set().remove(e),
{
    let mut i: usize = 0;
    while i < q.len()
        invariant
            i <= q@.len(),
            q@ == old(q)@,
            q@.no_duplicates(),
            forall|j: int| 0 <= j < i ==> q@[j] != e,
        decreases q.len() - i,
    {
        if q[i] == e {
            let ghost q0 = q@;
            q.remove(i);
            proof {
                assert forall|a: int, b: int| 0 <= a < q@.len() && 0 <= b < q@.len() && a != b implies q@[a] != q@[b] by {
                    let a0 = if a < i { a } else { a + 1 };
                    let b0 = if b < i { b } else { b + 1 };
                    assert(q@[a] == q0[a0] && q@[b] == q0[b0]);
                }
                assert forall|x: ExpirationEntry| q@.to_set().contains(x) <==> q0.to_set().remove(e).contains(x) by {
                    if q@.contains(x) {
                        let j = choose|j: int| 0 <= j < q@.len() && q@[j] == x;
                        if j < i {
                            assert(q0[j] == x);
                        } else {
                            assert(q0[j + 1] == x);
                        }
                        assert(x != e);
                    }
                    if q0.contains(x) && x != e {
                        let j = choose|j: int| 0 <= j < q0.len() && q0[j] == x;
                        if j < i {
                            assert(q@[j] == x);
                        } else {
                            assert(q@[j - 1] == x);
                        }
                    }
                }
                assert(q@.to_set() =~= q0.to_set().remove(e));
            }
            return;
        }
        i = i + 1;
    }
    proof {
        assert(!q@.contains(e));
        assert(q@.to_set() =~= q@.to_set().remove(e));
    }
}


/// The identifiers of the coins, in order.
fn ids_of_coins(coins: &Vec<GasCoin>) -> (r: Vec<ObjectID>)
    ensures
        r@ == coin_ids(coins@),
{
    let mut r: Vec<ObjectID> = Vec::new();
    let mut i: usize = 0;
    while i < coins.len()
        invariant
            i <= coins@.len(),
            r@ == coin_ids(coins@).take(i as int),
        decreases coins.len() - i,
    {
        r.push(coins[i].object_ref.0);
        i = i + 1;
        assert(r@ =~= coin_ids(coins@).take(i as int));
    }
    assert(coin_ids(coins@).take(i as int) =~= coin_ids(coins@));
    r
}

proof fn lemma_sorted_parts(coins: Seq<GasCoin>, n: int)
    requires
        coins_sorted(coins),
        0 <= n <= coins.len(),
    ensures
        coins_sorted(coins.take(n)),
        coins_sorted(coins.skip(n)),
        ids_sorted(coin_ids(coins.take(n))),
{
    let t = coins.take(n);
    assert forall|i: int, j: int| 0 <= i < j < t.len() implies (#[trigger] t[i]).object_ref.0.num() < (#[trigger] t[j]).object_ref.0.num() by {
        assert(t[i] == coins[i] && t[j] == coins[j]);
    }
    let u = coins.skip(n);
    assert forall|i: int, j: int| 0 <= i < j < u.len() implies (#[trigger] u[i]).object_ref.0.num() < (#[trigger] u[j]).object_ref.0.num() by {
        assert(u[i] == coins[i + n] && u[j] == coins[j + n]);
    }
    let ids = coin_ids(t);
    assert forall|i: int, j: int| 0 <= i < j < ids.len() implies #[trigger] ids[i].num() < #[trigger] ids[j].num() by {
        assert(ids[i] == t[i].object_ref.0 && ids[j] == t[j].object_ref.0);
    }
}

/// The parts of a sequence in order are in order.
pub proof fn lemma_sorted_parts_pub(coins: Seq<GasCoin>, n: int)
    requires
        coins_sorted(coins),
        0 <= n <= coins.len(),
    ensures
        coins_sorted(coins.take(n)),
        coins_sorted(coins.skip(n)),
        ids_sorted(coin_ids(coins.take(n))),
{
    lemma_sorted_parts(coins, n);
}

/// The sum over one more coin adds its balance.
pub proof fn lemma_balance_sum_take_step(coins: Seq<GasCoin>, n: int)
    requires
        0 <= n < coins.len(),
    ensures
        balance_sum(coins.take(n + 1)) == balance_sum(coins.take(n)) + coins[n].balance,
{
    assert(coins.take(n + 1).drop_last() =~= coins.take(n));
}

impl RocksDBStorageTables {
    /// Reserves gas coins of `sponsor` for `target_budget` at time `now` (in
    /// milliseconds): takes the sponsor's available coins in the order of their
    /// identifiers until their balances reach the budget, at most
    /// `MAX_GAS_PER_QUERY` of them, and records them as a group that expires
    /// `reserved_duration_ms` after `now`.
    pub fn reserve_gas_coins_at(
        &mut self,
        sponsor: SuiAddress,
        target_budget: u64,
        reserved_duration_ms: u64,
        now: u64,
    ) -> (r: Result<Vec<GasCoin>, StorageError>)
        requires
            old(self).wf(),
        ensures
            final(self).wf(),
            final(self)@ == old(self)@.reserve(sponsor, target_budget, reserved_duration_ms, now).1,
            ({
                let res = old(self)@.reserve(sponsor, target_budget, reserved_duration_ms, now).0;
                match r {
                    Ok(coins) => res == Ok::<Seq<GasCoin>, StorageError>(coins@),
                    Err(e) => res == Err::<Seq<GasCoin>, StorageError>(e),
                }
            }),
    {
        proof {
            self.lemma_view_wf();
        }
        if target_budget == 0 {
            return Err(StorageError::ZeroBudget);
        }
        let ghost coins0 = self@.available[sponsor];
        let idx = match self.find_sponsor(sponsor) {
            Some(i) => i,
            None => {
                proof {
                    assert(coins0 =~= Seq::<GasCoin>::empty());
                    assert(coins0.take(0) =~= Seq::<GasCoin>::empty());
                }
                return Err(StorageError::InsufficientGasCoins);
            },
        };
        proof {
            lemma_entry_at_index(self.available_gas_coins@, sponsor_key(), idx as int);
            assert(self.available_gas_coins@[idx as int].coins@ == coins0);
        }
        let mut n: usize = 0;
        let mut total: u128 = 0;
        let mut done = false;
        while !done && n < self.available_gas_coins[idx].coins.len()
            invariant
                idx < self.available_gas_coins@.len(),
                self.available_gas_coins@[idx as int].coins@ == coins0,
                n <= coins0.len(),
                n <= MAX_GAS_PER_QUERY,
                !done ==> n < MAX_GAS_PER_QUERY,
                total == balance_sum(coins0.take(n as int)),
                done ==> take_count(coins0, target_budget) == n,
                !done ==> take_count(coins0, target_budget) == take_count_from(coins0, target_budget, n as nat),
            decreases coins0.len() - n, if done { 0int } else { 1int },
        {
            proof {
                lemma_balance_sum_take_step(coins0, n as int);
                lemma_balance_sum_bounds(coins0.take(n as int));
                assert(n * (u64::MAX as int) <= 256 * (u64::MAX as int)) by (nonlinear_arith)
                    requires n <= 256;
            }
            total = total + self.available_gas_coins[idx].coins[n].balance as u128;
            n = n + 1;
            if total >= target_budget as u128 || n >= MAX_GAS_PER_QUERY {
                done = true;
            }
        }
        if total < target_budget as u128 {
            return Err(StorageError::InsufficientGasCoins);
        }
        let expiration_time = match now.checked_add(reserved_duration_ms) {
            Some(t) => t,
            None => {
                return Err(StorageError::ExpirationOverflow);
            },
        };
        let ghost sps1 = self.available_gas_coins@;
        let ghost v0 = self@;
        let entry = self.available_gas_coins.remove(idx);
        let mut taken = entry.coins;
        let rest = taken.split_off(n);
        proof {
            assert(taken@ =~= coins0.take(n as int));
            assert(rest@ =~= coins0.skip(n as int));
            lemma_sorted_parts(coins0, n as int);
        }
        let objects = ids_of_coins(&taken);
        let key = taken[0].object_ref.0;
        let group = ReservedGasGroup { objects, expiration_time };
        let e = SponsorCoins { sponsor, coins: rest };
        let ghost ev = e;
        self.available_gas_coins.insert(idx, e);
        proof {
            assert(self.available_gas_coins@ =~= sps1.update(idx as int, ev));
            lemma_keyed_update(sps1, sponsor_key(), idx as int, ev);
            lemma_coins_of_change(sps1, self.available_gas_coins@, ev);
            assert forall|i: int| 0 <= i < self.available_gas_coins@.len() implies
                coins_sorted((#[trigger] self.available_gas_coins@[i]).coins@) by {
                if i != idx {
                    assert(self.available_gas_coins@[i] == sps1[i]);
                }
            }
            assert(group.objects@[0] == key);
        }
        upsert_group(&mut self.reserved_gas_groups, group);
        queue_insert(&mut self.expiration_queue, ExpirationEntry { sponsor, expiration_time, group_key: key });
        proof {
            assert(self@.available =~= v0.available.insert(sponsor, coins0.skip(n as int)));
        }
        Ok(taken)
    }
}


/// A copy of a group.
fn copy_group(g: &ReservedGasGroup) -> (r: ReservedGasGroup)
    ensures
        r@ == g@,
{
    let mut objects: Vec<ObjectID> = Vec::new();
    let mut i: usize = 0;
    while i < g.objects.len()
        invariant
            i <= g.objects@.len(),
            objects@ == g.objects@.take(i as int),
        decreases g.objects.len() - i,
    {
        objects.push(g.objects[i]);
        i = i + 1;
        assert(objects@ =~= g.objects@.take(i as int));
    }
    assert(g.objects@.take(i as int) =~= g.objects@);
    ReservedGasGroup { objects, expiration_time: g.expiration_time }
}

/// The entry `e` matches the reserved group keyed `k` in table `r0`.
pub open spec fn entry_matches(e: ExpirationEntry, r0: Map<GasGroupKey, GroupView>, k: GasGroupKey) -> bool {
    e.group_key == k && r0.contains_key(k) && r0[k].expiration_time == e.expiration_time
}

/// The keys that the first `j` due entries match.
pub open spec fn matched_keys(due: Seq<ExpirationEntry>, r0: Map<GasGroupKey, GroupView>, j: int) -> Set<GasGroupKey> {
    Set::new(|k: GasGroupKey| exists|t: int| 0 <= t < j && entry_matches(#[trigger] due[t], r0, k))
}

impl RocksDBStorageTables {
    /// Moves the reservation whose coins are `gas_coins` (in increasing order)
    /// to the pending table, as its transaction is about to run.
    pub fn ready_for_execution(&mut self, sponsor: SuiAddress, gas_coins: Vec<ObjectID>) -> (r: Result<(), StorageError>)
        requires
            old(self).wf(),
            ids_sorted(gas_coins@),
        ensures
            final(self).wf(),
            final(self)@ == old(self)@.ready_for_execution(sponsor, gas_coins@).1,
            r == old(self)@.ready_for_execution(sponsor, gas_coins@).0,
    {
        if gas_coins.len() == 0 {
            return Err(StorageError::EmptyGasCoins);
        }
        let key = gas_coins[0];
        let i = match find_group(&self.reserved_gas_groups, key) {
            Some(i) => i,
            None => {
                return Err(StorageError::NotReserved);
            },
        };
        let mut same = self.reserved_gas_groups[i].objects.len() == gas_coins.len();
        let mut j: usize = 0;
        while same && j < gas_coins.len()
            invariant
                i < self.reserved_gas_groups@.len(),
                j <= gas_coins@.len(),
                same ==> self.reserved_gas_groups@[i as int].objects@.len() == gas_coins@.len(),
                same ==> forall|t: int| 0 <= t < j ==> self.reserved_gas_groups@[i as int].objects@[t] == gas_coins@[t],
                !same ==> self.reserved_gas_groups@[i as int].objects@ != gas_coins@,
            decreases gas_coins.len() - j, if same { 1int } else { 0int },
        {
            if self.reserved_gas_groups[i].objects[j] != gas_coins[j] {
                same = false;
            }
            j = j + 1;
        }
        if !same {
            return Err(StorageError::ReservationMismatch);
        }
        proof {
            assert(self.reserved_gas_groups@[i as int].objects@ =~= gas_coins@);
        }
        let ghost v0 = self@;
        let group = match remove_group(&mut self.reserved_gas_groups, key) {
            Some(g) => g,
            None => {
                return Err(StorageError::NotReserved);
            },
        };
        queue_remove(&mut self.expiration_queue,
            ExpirationEntry { sponsor, expiration_time: group.expiration_time, group_key: key });
        upsert_group(&mut self.pending_update_gas_groups, group);
        Ok(())
    }

    /// Expires `sponsor`'s reservations at time `now` (in milliseconds): the
    /// sponsor's queue entries due by `now` are dropped, and each reserved group
    /// whose due entry carries its own expiry time moves to the pending table
    /// and is returned.
    pub fn expire_reserved_gas_groups_at(&mut self, sponsor: SuiAddress, now: u64) -> (r: Vec<ReservedGasGroup>)
        requires
            old(self).wf(),
        ensures
            final(self).wf(),
            final(self)@ == old(self)@.after_expire(sponsor, now),
            forall|i: int| 0 <= i < r@.len() ==> group_wf((#[trigger] r@[i]).objects@)
                && old(self)@.expiring(sponsor, now, r@[i].objects@[0])
                && r@[i]@ == old(self)@.reserved[r@[i].objects@[0]],
            forall|k: GasGroupKey| #[trigger] old(self)@.expiring(sponsor, now, k) ==>
                exists|i: int| 0 <= i < r@.len() && (#[trigger] r@[i]).objects@[0] == k,
            keys_unique(r@, group_key()),
    {
        proof {
            self.lemma_view_wf();
        }
        let ghost v0 = self@;
        let ghost q0 = self.expiration_queue@;
        // Split the queue into the entries that stay and those due.
        let mut kept: Vec<ExpirationEntry> = Vec::new();
        let mut due: Vec<ExpirationEntry> = Vec::new();
        let mut i: usize = 0;
        while i < self.expiration_queue.len()
            invariant
                self.expiration_queue@ == q0,
                q0.no_duplicates(),
                i <= q0.len(),
                kept@.no_duplicates(),
                forall|x: ExpirationEntry| kept@.contains(x) <==>
                    (q0.take(i as int).contains(x) && !is_expired_entry(x, sponsor, now)),
                forall|x: ExpirationEntry| due@.contains(x) <==>
                    (q0.take(i as int).contains(x) && is_expired_entry(x, sponsor, now)),
            decreases q0.len() - i,
        {
            let e = self.expiration_queue[i];
            proof {
                let a1 = q0.take(i + 1);
                let a0 = q0.take(i as int);
                assert forall|x: ExpirationEntry| a1.contains(x) <==> (a0.contains(x) || x == e) by {
                    if a1.contains(x) {
                        let t = choose|t: int| 0 <= t < a1.len() && a1[t] == x;
                        if t < i {
                            assert(a0[t] == x);
                        }
                    }
                    if a0.contains(x) {
                        let t = choose|t: int| 0 <= t < a0.len() && a0[t] == x;
                        assert(a1[t] == x);
                    }
                    if x == e {
                        assert(a1[i as int] == x);
                    }
                }
                assert(!a0.contains(e)) by {
                    if a0.contains(e) {
                        let t = choose|t: int| 0 <= t < a0.len() && a0[t] == e;
                        assert(q0[t] == q0[i as int]);
                    }
                }
            }
            if e.sponsor == sponsor && e.expiration_time <= now {
                proof {
                    crate::keyed::lemma_push_contains(due@, e);
                }
                due.push(e);
            } else {
                let ghost k0 = kept@;
                proof {
                    crate::keyed::lemma_push_contains(kept@, e);
                }
                kept.push(e);
                proof {
                    assert forall|a: int, b: int| 0 <= a < kept@.len() && 0 <= b < kept@.len() && a != b implies kept@[a] != kept@[b] by {
                        if a == k0.len() {
                            assert(k0.contains(kept@[b]));
                        } else if b == k0.len() {
                            assert(k0.contains(kept@[a]));
                        }
                    }
                }
            }
            i = i + 1;
        }
        proof {
            assert(q0.take(i as int) =~= q0);
            assert(kept@.to_set() =~= q0.to_set().filter(|e: ExpirationEntry| !is_expired_entry(e, sponsor, now)));
        }
        self.expiration_queue = kept;
        let ghost r0 = v0.reserved;
        let ghost p0 = v0.pending;
        let mut result: Vec<ReservedGasGroup> = Vec::new();
        let mut j: usize = 0;
        while j < due.len()
            invariant
                self.wf(),
                self@.valid_addresses == v0.valid_addresses,
                self@.available == v0.available,
                self@.expiration_queue == v0.expiration_queue.filter(|e: ExpirationEntry| !is_expired_entry(e, sponsor, now)),
                v0.wf(),
                r0 == v0.reserved,
                p0 == v0.pending,
                j <= due@.len(),
                forall|x: ExpirationEntry| due@.contains(x) <==> (q0.contains(x) && is_expired_entry(x, sponsor, now)),
                q0.to_set() == v0.expiration_queue,
                self@.reserved == r0.remove_keys(matched_keys(due@, r0, j as int)),
                self@.pending == p0.union_prefer_right(r0.restrict(matched_keys(due@, r0, j as int))),
                forall|a: int| 0 <= a < result@.len() ==> group_wf((#[trigger] result@[a]).objects@)
                    && (exists|t: int| 0 <= t < j && entry_matches(#[trigger] due@[t], r0, result@[a].objects@[0]))
                    && result@[a]@ == r0[result@[a].objects@[0]],
                forall|k: GasGroupKey| #[trigger] matched_keys(due@, r0, j as int).contains(k) ==>
                    exists|a: int| 0 <= a < result@.len() && (#[trigger] result@[a]).objects@[0] == k,
                keys_unique(result@, group_key()),
            decreases due.len() - j,
        {
            let e = due[j];
            let ghost s_old = matched_keys(due@, r0, j as int);
            let ghost s_new = matched_keys(due@, r0, j + 1);
            match find_group(&self.reserved_gas_groups, e.group_key) {
                Some(gi) => {
                    if self.reserved_gas_groups[gi].expiration_time == e.expiration_time {
                        let g = match remove_group(&mut self.reserved_gas_groups, e.group_key) {
                            Some(g) => g,
                            None => {
                                proof { assert(false); }
                                return result;
                            },
                        };
                        let g2 = copy_group(&g);
                        upsert_group(&mut self.pending_update_gas_groups, g2);
                        let ghost res0 = result@;
                        result.push(g);
                        proof {
                            let k = e.group_key;
                            assert(!s_old.contains(k));
                            assert(entry_matches(due@[j as int], r0, k));
                            assert(s_new =~= s_old.insert(k)) by {
                                assert forall|x: GasGroupKey| s_new.contains(x) implies s_old.insert(x).contains(x) || x == k by {}
                                assert forall|x: GasGroupKey| s_old.insert(k).contains(x) implies s_new.contains(x) by {
                                    if x == k {
                                        assert(entry_matches(due@[j as int], r0, x));
                                    } else {
                                        let t = choose|t: int| 0 <= t < j && entry_matches(#[trigger] due@[t], r0, x);
                                        assert(entry_matches(due@[t], r0, x));
                                    }
                                }
                                assert forall|x: GasGroupKey| s_new.contains(x) implies s_old.insert(k).contains(x) by {
                                    let t = choose|t: int| 0 <= t < j + 1 && entry_matches(#[trigger] due@[t], r0, x);
                                    if t < j {
                                        assert(s_old.contains(x));
                                    }
                                }
                            }
                            assert(self@.reserved =~= r0.remove_keys(s_new));
                            assert(self@.pending =~= p0.union_prefer_right(r0.restrict(s_new)));
                            assert forall|a: int| 0 <= a < result@.len() implies group_wf((#[trigger] result@[a]).objects@)
                                && (exists|t: int| 0 <= t < j + 1 && entry_matches(#[trigger] due@[t], r0, result@[a].objects@[0]))
                                && result@[a]@ == r0[result@[a].objects@[0]] by {
                                if a < res0.len() {
                                    assert(result@[a] == res0[a]);
                                    let t = choose|t: int| 0 <= t < j && entry_matches(#[trigger] due@[t], r0, res0[a].objects@[0]);
                                    assert(entry_matches(due@[t], r0, result@[a].objects@[0]));
                                } else {
                                    assert(entry_matches(due@[j as int], r0, result@[a].objects@[0]));
                                }
                            }
                            assert forall|x: GasGroupKey| #[trigger] s_new.contains(x) implies
                                exists|a: int| 0 <= a < result@.len() && (#[trigger] result@[a]).objects@[0] == x by {
                                if x == k {
                                    assert(result@[res0.len() as int].objects@[0] == x);
                                } else {
                                    assert(s_old.contains(x));
                                    let a = choose|a: int| 0 <= a < res0.len() && (#[trigger] res0[a]).objects@[0] == x;
                                    assert(result@[a] == res0[a]);
                                }
                            }
                            assert forall|a: int, b: int| 0 <= a < result@.len() && 0 <= b < result@.len() && a != b implies
                                (group_key())(#[trigger] result@[a]) != (group_key())(#[trigger] result@[b]) by {
                                if a < res0.len() && b < res0.len() {
                                    assert(result@[a] == res0[a] && result@[b] == res0[b]);
                                } else if a < res0.len() {
                                    assert(result@[a] == res0[a]);
                                    assert(s_old.contains(res0[a].objects@[0])) by {
                                        let t = choose|t: int| 0 <= t < j && entry_matches(#[trigger] due@[t], r0, res0[a].objects@[0]);
                                    }
                                } else if b < res0.len() {
                                    assert(result@[b] == res0[b]);
                                    assert(s_old.contains(res0[b].objects@[0])) by {
                                        let t = choose|t: int| 0 <= t < j && entry_matches(#[trigger] due@[t], r0, res0[b].objects@[0]);
                                    }
                                }
                            }
                        }
                    } else {
                        proof {
                            assert(s_new =~= s_old) by {
                                assert forall|x: GasGroupKey| s_new.contains(x) implies s_old.contains(x) by {
                                    let t = choose|t: int| 0 <= t < j + 1 && entry_matches(#[trigger] due@[t], r0, x);
                                    if t == j {
                                        assert(self@.reserved.contains_key(x));
                                        assert(false);
                                    }
                                }
                                assert forall|x: GasGroupKey| s_old.contains(x) implies s_new.contains(x) by {
                                    let t = choose|t: int| 0 <= t < j && entry_matches(#[trigger] due@[t], r0, x);
                                    assert(entry_matches(due@[t], r0, x));
                                }
                            }
                        }
                    }
                },
                None => {
                    proof {
                        assert(s_new =~= s_old) by {
                            assert forall|x: GasGroupKey| s_new.contains(x) implies s_old.contains(x) by {
                                let t = choose|t: int| 0 <= t < j + 1 && entry_matches(#[trigger] due@[t], r0, x);
                                if t == j && !s_old.contains(x) {
                                    assert(self@.reserved.contains_key(x));
                                }
                            }
                            assert forall|x: GasGroupKey| s_old.contains(x) implies s_new.contains(x) by {
                                let t = choose|t: int| 0 <= t < j && entry_matches(#[trigger] due@[t], r0, x);
                                assert(entry_matches(due@[t], r0, x));
                            }
                        }
                    }
                },
            }
            j = j + 1;
        }
        proof {
            let s_fin = matched_keys(due@, r0, j as int);
            let ek = r0.dom().filter(|k: GasGroupKey| v0.expiring(sponsor, now, k));
            assert forall|k: GasGroupKey| s_fin.contains(k) <==> #[trigger] v0.expiring(sponsor, now, k) by {
                if s_fin.contains(k) {
                    let t = choose|t: int| 0 <= t < j && entry_matches(#[trigger] due@[t], r0, k);
                    assert(due@.contains(due@[t]));
                    assert(q0.contains(due@[t]));
                }
                if v0.expiring(sponsor, now, k) {
                    let e = ExpirationEntry { sponsor, expiration_time: r0[k].expiration_time, group_key: k };
                    assert(q0.to_set().contains(e));
                    assert(due@.contains(e));
                    let t = choose|t: int| 0 <= t < due@.len() && due@[t] == e;
                    assert(entry_matches(due@[t], r0, k));
                }
            }
            assert(s_fin =~= ek);
            assert(self@ == v0.after_expire(sponsor, now));
        }
        result
    }
}

impl RocksDBStorageTables {
    /// Puts back the coins of groups whose transactions ran: every group must be
    /// pending (else nothing changes); the updated coins then join the sponsor's
    /// available coins, and the groups leave the pending table.
    pub fn update_gas_coins(&mut self, sponsor: SuiAddress, updated_gas_coins: Vec<UpdatedGasGroup>) -> (r: Result<(), StorageError>)
        requires
            old(self).wf(),
            forall|i: int| 0 <= i < updated_gas_coins@.len() ==>
                (#[trigger] updated_gas_coins@[i]).all_ids().len() > 0 && updated_gas_coins@[i].all_ids().no_duplicates(),
        ensures
            final(self).wf(),
            final(self)@ == old(self)@.update_gas_coins(sponsor, updated_gas_coins@).1,
            r == old(self)@.update_gas_coins(sponsor, updated_gas_coins@).0,
    {
        let ghost groups = updated_gas_coins@;
        let mut keys: Vec<GasGroupKey> = Vec::new();
        let mut i: usize = 0;
        while i < updated_gas_coins.len()
            invariant
                i <= groups.len(),
                groups == updated_gas_coins@,
                forall|t: int| 0 <= t < groups.len() ==>
                    (#[trigger] groups[t]).all_ids().len() > 0 && groups[t].all_ids().no_duplicates(),
                keys@.len() == i,
                forall|t: int| 0 <= t < i ==> keys@[t] == min_id((#[trigger] groups[t]).all_ids()),
            decreases groups.len() - i,
        {
            let k = updated_gas_coins[i].get_group_key();
            proof {
                lemma_min_id_unique(k, groups[i as int].all_ids());
            }
            keys.push(k);
            i = i + 1;
        }
        proof {
            self.lemma_view_wf();
        }
        let mut j: usize = 0;
        while j < keys.len()
            invariant
                self.wf(),
                self@ == old(self)@,
                groups == updated_gas_coins@,
                keys@.len() == groups.len(),
                forall|t: int| 0 <= t < groups.len() ==> keys@[t] == min_id((#[trigger] groups[t]).all_ids()),
                j <= keys@.len(),
                forall|t: int| 0 <= t < j ==> group_table(self.pending_update_gas_groups@).contains_key(#[trigger] keys@[t]),
            decreases keys.len() - j,
        {
            match find_group(&self.pending_update_gas_groups, keys[j]) {
                Some(_) => {},
                None => {
                    proof {
                        let p = self@.pending.dom();
                        assert(!self@.pending.contains_key(min_id(groups[j as int].all_ids())));
                        assert forall|t: int| 0 <= t < j implies p.contains(min_id(#[trigger] groups[t].all_ids())) by {
                            assert(group_table(self.pending_update_gas_groups@).contains_key(keys@[t]));
                        }
                        assert(first_not_pending(p, groups, j as int));
                        let c = choose|i: int| first_not_pending(p, groups, i);
                        if c < j {
                            assert(p.contains(min_id(groups[c].all_ids())));
                        } else if c > j {
                            assert(p.contains(min_id(groups[j as int].all_ids())));
                        }
                    }
                    return Err(StorageError::NotPending(keys[j]));
                },
            }
            j = j + 1;
        }
        let ghost v0 = self@;
        proof {
            assert forall|t: int| 0 <= t < groups.len() implies v0.pending.contains_key(min_id(#[trigger] groups[t].all_ids())) by {
                assert(v0.pending.contains_key(keys@[t]));
            }
            assert(groups.take(0) =~= Seq::<UpdatedGasGroup>::empty());
            assert(updated_coins_of(groups.take(0)) =~= Seq::<GasCoin>::empty());
            assert(v0.available.insert(sponsor, v0.available[sponsor]) =~= v0.available);
        }
        let mut g: usize = 0;
        while g < updated_gas_coins.len()
            invariant
                self.wf(),
                g <= groups.len(),
                groups == updated_gas_coins@,
                self@ == (StoreView {
                    available: v0.available.insert(sponsor, upsert_coins(v0.available[sponsor], updated_coins_of(groups.take(g as int)))),
                    ..v0
                }),
            decreases groups.len() - g,
        {
            proof {
                assert(groups.take(g + 1).drop_last() =~= groups.take(g as int));
                lemma_upsert_coins_append(v0.available[sponsor], updated_coins_of(groups.take(g as int)),
                    updated_gas_coins@[g as int].updated_gas_coins@);
            }
            self.put_coins(sponsor, &updated_gas_coins[g].updated_gas_coins);
            g = g + 1;
            proof {
                assert(self@.available =~= v0.available.insert(sponsor, upsert_coins(v0.available[sponsor], updated_coins_of(groups.take(g as int)))));
            }
        }
        proof {
            assert(groups.take(g as int) =~= groups);
        }
        let ghost v1 = self@;
        proof {
            assert(keys@.take(0).to_set() =~= Set::<GasGroupKey>::empty());
            assert(v1.pending.remove_keys(Set::<GasGroupKey>::empty()) =~= v1.pending);
        }
        let mut d: usize = 0;
        while d < keys.len()
            invariant
                self.wf(),
                d <= keys@.len(),
                self@ == (StoreView { pending: v1.pending.remove_keys(keys@.take(d as int).to_set()), ..v1 }),
            decreases keys.len() - d,
        {
            let ghost p_before = self@.pending;
            let _ = remove_group(&mut self.pending_update_gas_groups, keys[d]);
            d = d + 1;
            proof {
                assert(keys@.take(d as int) =~= keys@.take(d - 1).push(keys@[d - 1]));
                keys@.take(d - 1).lemma_push_to_set_commute(keys@[d - 1]);
                assert(self@.pending =~= v1.pending.remove_keys(keys@.take(d as int).to_set()));
            }
        }
        proof {
            assert(keys@.take(d as int) =~= keys@);
            let ks = Set::new(|k: GasGroupKey| exists|i: int| 0 <= i < groups.len() && k == min_id(#[trigger] groups[i].all_ids()));
            assert forall|k: GasGroupKey| keys@.to_set().contains(k) <==> ks.contains(k) by {
                if keys@.contains(k) {
                    let t = choose|t: int| 0 <= t < keys@.len() && keys@[t] == k;
                    assert(k == min_id(groups[t].all_ids()));
                }
                if ks.contains(k) {
                    let t = choose|t: int| 0 <= t < groups.len() && k == min_id(#[trigger] groups[t].all_ids());
                    assert(keys@[t] == k);
                }
            }
            assert(keys@.to_set() =~= ks);
        }
        Ok(())
    }
}

impl RocksDBStorageTables {
    /// Reserves gas coins at the current time; see `reserve_gas_coins_at`.
    pub fn reserve_gas_coins(&mut self, sponsor: SuiAddress, target_budget: u64, reserved_duration_ms: u64)
        -> (r: Result<Vec<GasCoin>, StorageError>)
        requires
            old(self).wf(),
        ensures
            final(self).wf(),
            exists|now: u64| {
                &&& now <= i64::MAX
                &&& final(self)@ == (#[trigger] old(self)@.reserve(sponsor, target_budget, reserved_duration_ms, now)).1
                &&& match r {
                    Ok(coins) => old(self)@.reserve(sponsor, target_budget, reserved_duration_ms, now).0
                        == Ok::<Seq<GasCoin>, StorageError>(coins@),
                    Err(e) => old(self)@.reserve(sponsor, target_budget, reserved_duration_ms, now).0
                        == Err::<Seq<GasCoin>, StorageError>(e),
                }
            },
    {
        let now = crate::clock::utc_now_millis();
        self.reserve_gas_coins_at(sponsor, target_budget, reserved_duration_ms, now as u64)
    }

    /// Expires the sponsor's reservations at the current time; see
    /// `expire_reserved_gas_groups_at`.
    pub fn expire_reserved_gas_groups(&mut self, sponsor: SuiAddress) -> (r: Vec<ReservedGasGroup>)
        requires
            old(self).wf(),
        ensures
            final(self).wf(),
            exists|now: u64| {
                &&& final(self)@ == #[trigger] old(self)@.after_expire(sponsor, now)
                &&& forall|i: int| 0 <= i < r@.len() ==> group_wf((#[trigger] r@[i]).objects@)
                    && old(self)@.expiring(sponsor, now, r@[i].objects@[0])
                    && r@[i]@ == old(self)@.reserved[r@[i].objects@[0]]
                &&& forall|k: GasGroupKey| #[trigger] old(self)@.expiring(sponsor, now, k) ==>
                    exists|i: int| 0 <= i < r@.len() && (#[trigger] r@[i]).objects@[0] == k
            },
            keys_unique(r@, group_key()),
    {
        let now = crate::clock::utc_now_millis();
        self.expire_reserved_gas_groups_at(sponsor, now as u64)
    }

    /// The number of coins in the reserved groups, counted group by group.
    pub closed spec fn reserved_coin_total(&self) -> int {
        reserved_coin_count(self.reserved_gas_groups@)
    }

    /// The number of coins in reserved groups, over all sponsors.
    pub fn get_reserved_coin_count(&self) -> (r: usize)
        requires
            self.wf(),
        ensures
            r as int == min_usize(self.reserved_coin_total()),
    {
        let mut total: usize = 0;
        let mut i: usize = 0;
        while i < self.reserved_gas_groups.len()
            invariant
                i <= self.reserved_gas_groups@.len(),
                total as int == min_usize(reserved_coin_count(self.reserved_gas_groups@.take(i as int))),
                reserved_coin_count(self.reserved_gas_groups@.take(i as int)) >= 0,
            decreases self.reserved_gas_groups.len() - i,
        {
            proof {
                assert(self.reserved_gas_groups@.take(i + 1).drop_last() =~= self.reserved_gas_groups@.take(i as int));
            }
            total = total.saturating_add(self.reserved_gas_groups[i].objects.len());
            i = i + 1;
        }
        proof {
            assert(self.reserved_gas_groups@.take(i as int) =~= self.reserved_gas_groups@);
        }
        total
    }

    /// The number of groups waiting to be put back.
    pub fn get_pending_update_coin_count(&self) -> (r: usize)
        requires
            self.wf(),
        ensures
            r == self@.pending.dom().len(),
    {
        proof {
            self.lemma_pending_count();
        }
        self.pending_update_gas_groups.len()
    }

    proof fn lemma_pending_count(&self)
        requires
            self.wf(),
        ensures
            self.pending_update_gas_groups@.len() == self@.pending.dom().len(),
    {
        let gs = self.pending_update_gas_groups@;
        let keys = gs.map_values(|g: ReservedGasGroup| (group_key())(g));
        assert forall|i: int, j: int| 0 <= i < keys.len() && 0 <= j < keys.len() && i != j implies keys[i] != keys[j] by {
            assert((group_key())(gs[i]) != (group_key())(gs[j]));
        }
        assert(keys.no_duplicates());
        keys.unique_seq_to_set();
        assert forall|k: GasGroupKey| keys.to_set().contains(k) <==> self@.pending.dom().contains(k) by {
            if keys.contains(k) {
                let i = choose|i: int| 0 <= i < keys.len() && keys[i] == k;
                assert((group_key())(gs[i]) == k);
            }
            if self@.pending.dom().contains(k) {
                let i = choose|i: int| 0 <= i < gs.len() && (group_key())(#[trigger] gs[i]) == k;
                assert(keys[i] == k);
            }
        }
        assert(keys.to_set() =~= self@.pending.dom());
    }
}

/// `x`, or `usize::MAX` where `x` is larger.
pub open spec fn min_usize(x: int) -> int {
    if x > usize::MAX { usize::MAX as int } else { x }
}

/// The number of coins in the groups.
pub open spec fn reserved_coin_count(groups: Seq<ReservedGasGroup>) -> int
    decreases groups.len(),
{
    if groups.len() == 0 {
        0
    } else {
        reserved_coin_count(groups.drop_last()) + groups.last().objects@.len()
    }
}

/// The gas pool storage: the tables, used only for sponsors that have had
/// coins added.
pub struct RocksDBStorage {
    tables: RocksDBStorageTables,
}

impl View for RocksDBStorage {
    type V = StoreView;

    closed spec fn view(&self) -> StoreView {
        self.tables@
    }
}

impl RocksDBStorage {
    pub closed spec fn wf(&self) -> bool {
        self.tables.wf()
    }

    /// An empty storage.
    pub fn new() -> (r: Self)
        ensures
            r.wf(),
            r@.wf(),
            r@.valid_addresses == Set::<SuiAddress>::empty(),
            forall|a: SuiAddress| #[trigger] r@.available[a] == Seq::<GasCoin>::empty(),
            r@.expiration_queue == Set::<ExpirationEntry>::empty(),
            r@.reserved == Map::<GasGroupKey, GroupView>::empty(),
            r@.pending == Map::<GasGroupKey, GroupView>::empty(),
    {
        RocksDBStorage { tables: RocksDBStorageTables::new() }
    }

    pub proof fn lemma_wf(&self)
        requires
            self.wf(),
        ensures
            self@.wf(),
    {
        self.tables.lemma_view_wf();
    }

    /// Reserves gas coins for a valid sponsor; see
    /// `RocksDBStorageTables::reserve_gas_coins_at`.
    pub fn reserve_gas_coins_at(&mut self, sponsor_address: SuiAddress, target_budget: u64, reserved_duration_ms: u64, now: u64)
        -> (r: Result<Vec<GasCoin>, StorageError>)
        requires
            old(self).wf(),
        ensures
            final(self).wf(),
            !old(self)@.valid_addresses.contains(sponsor_address) ==>
                r == Err::<Vec<GasCoin>, StorageError>(StorageError::InvalidSponsor) && final(self)@ == old(self)@,
            old(self)@.valid_addresses.contains(sponsor_address) ==> {
                &&& final(self)@ == old(self)@.reserve(sponsor_address, target_budget, reserved_duration_ms, now).1
                &&& match r {
                    Ok(coins) => old(self)@.reserve(sponsor_address, target_budget, reserved_duration_ms, now).0
                        == Ok::<Seq<GasCoin>, StorageError>(coins@),
                    Err(e) => old(self)@.reserve(sponsor_address, target_budget, reserved_duration_ms, now).0
                        == Err::<Seq<GasCoin>, StorageError>(e),
                }
            },
    {
        if !self.tables.initialized(sponsor_address) {
            return Err(StorageError::InvalidSponsor);
        }
        self.tables.reserve_gas_coins_at(sponsor_address, target_budget, reserved_duration_ms, now)
    }

    /// Reserves gas coins for a valid sponsor at the current time.
    pub fn reserve_gas_coins(&mut self, sponsor_address: SuiAddress, target_budget: u64, reserved_duration_ms: u64)
        -> (r: Result<Vec<GasCoin>, StorageError>)
        requires
            old(self).wf(),
        ensures
            final(self).wf(),
            !old(self)@.valid_addresses.contains(sponsor_address) ==>
                r == Err::<Vec<GasCoin>, StorageError>(StorageError::InvalidSponsor) && final(self)@ == old(self)@,
            old(self)@.valid_addresses.contains(sponsor_address) ==> exists|now: u64| {
                &&& now <= i64::MAX
                &&& final(self)@ == (#[trigger] old(self)@.reserve(sponsor_address, target_budget, reserved_duration_ms, now)).1
                &&& match r {
                    Ok(coins) => old(self)@.reserve(sponsor_address, target_budget, reserved_duration_ms, now).0
                        == Ok::<Seq<GasCoin>, StorageError>(coins@),
                    Err(e) => old(self)@.reserve(sponsor_address, target_budget, reserved_duration_ms, now).0
                        == Err::<Seq<GasCoin>, StorageError>(e),
                }
            },
    {
        let now = crate::clock::utc_now_millis();
        self.reserve_gas_coins_at(sponsor_address, target_budget, reserved_duration_ms, now as u64)
    }

    /// Moves a valid sponsor's reservation to the pending table; see
    /// `RocksDBStorageTables::ready_for_execution`.
    pub fn read_for_execution(&mut self, sponsor_address: SuiAddress, gas_coins: Vec<ObjectID>) -> (r: Result<(), StorageError>)
        requires
            old(self).wf(),
            ids_sorted(gas_coins@),
        ensures
            final(self).wf(),
            !old(self)@.valid_addresses.contains(sponsor_address) ==>
                r == Err::<(), StorageError>(StorageError::InvalidSponsor) && final(self)@ == old(self)@,
            old(self)@.valid_addresses.contains(sponsor_address) ==>
                final(self)@ == old(self)@.ready_for_execution(sponsor_address, gas_coins@).1
                && r == old(self)@.ready_for_execution(sponsor_address, gas_coins@).0,
    {
        if !self.tables.initialized(sponsor_address) {
            return Err(StorageError::InvalidSponsor);
        }
        self.tables.ready_for_execution(sponsor_address, gas_coins)
    }

    /// Puts back a valid sponsor's coins; see
    /// `RocksDBStorageTables::update_gas_coins`.
    pub fn update_gas_coins(&mut self, sponsor_address: SuiAddress, updated_gas_coins: Vec<UpdatedGasGroup>) -> (r: Result<(), StorageError>)
        requires
            old(self).wf(),
            forall|i: int| 0 <= i < updated_gas_coins@.len() ==>
                (#[trigger] updated_gas_coins@[i]).all_ids().len() > 0 && updated_gas_coins@[i].all_ids().no_duplicates(),
        ensures
            final(self).wf(),
            !old(self)@.valid_addresses.contains(sponsor_address) ==>
                r == Err::<(), StorageError>(StorageError::InvalidSponsor) && final(self)@ == old(self)@,
            old(self)@.valid_addresses.contains(sponsor_address) ==>
                final(self)@ == old(self)@.update_gas_coins(sponsor_address, updated_gas_coins@).1
                && r == old(self)@.update_gas_coins(sponsor_address, updated_gas_coins@).0,
    {
        if !self.tables.initialized(sponsor_address) {
            return Err(StorageError::InvalidSponsor);
        }
        self.tables.update_gas_coins(sponsor_address, updated_gas_coins)
    }

    /// Adds coins to a sponsor's pool, making the sponsor valid.
    pub fn add_new_coins(&mut self, sponsor_address: SuiAddress, new_coins: Vec<GasCoin>)
        requires
            old(self).wf(),
        ensures
            final(self).wf(),
            final(self)@ == old(self)@.add_new_coins(sponsor_address, new_coins@),
    {
        self.tables.add_new_coins(sponsor_address, new_coins)
    }

    /// Expires a valid sponsor's reservations at time `now`, and returns the
    /// coins of each expired group.
    pub fn expire_coins_at(&mut self, sponsor_address: SuiAddress, now: u64) -> (r: Result<Vec<Vec<ObjectID>>, StorageError>)
        requires
            old(self).wf(),
        ensures
            final(self).wf(),
            !old(self)@.valid_addresses.contains(sponsor_address) ==>
                r == Err::<Vec<Vec<ObjectID>>, StorageError>(StorageError::InvalidSponsor) && final(self)@ == old(self)@,
            old(self)@.valid_addresses.contains(sponsor_address) ==>
                final(self)@ == old(self)@.after_expire(sponsor_address, now) && r is Ok,
            r matches Ok(groups) ==> forall|i: int| 0 <= i < groups@.len() ==> group_wf((#[trigger] groups@[i])@)
                && old(self)@.expiring(sponsor_address, now, groups@[i]@[0])
                && groups@[i]@ == old(self)@.reserved[groups@[i]@[0]].objects,
            r matches Ok(groups) ==> forall|k: GasGroupKey| #[trigger] old(self)@.expiring(sponsor_address, now, k) ==>
                exists|i: int| 0 <= i < groups@.len() && (#[trigger] groups@[i])@[0] == k,
            r matches Ok(groups) ==> forall|i: int, j: int| 0 <= i < groups@.len() && 0 <= j < groups@.len() && i != j ==>
                (#[trigger] groups@[i])@[0] != (#[trigger] groups@[j])@[0],
    {
        if !self.tables.initialized(sponsor_address) {
            return Err(StorageError::InvalidSponsor);
        }
        let mut expired = self.tables.expire_reserved_gas_groups_at(sponsor_address, now);
        let ghost e0 = expired@;
        let mut out: Vec<Vec<ObjectID>> = Vec::new();
        let mut i: usize = 0;
        while i < expired.len()
            invariant
                i <= e0.len(),
                expired@ == e0,
                self.wf(),
                self@ == old(self)@.after_expire(sponsor_address, now),
                forall|t: int| 0 <= t < e0.len() ==> group_wf((#[trigger] e0[t]).objects@)
                    && old(self)@.expiring(sponsor_address, now, e0[t].objects@[0])
                    && e0[t]@ == old(self)@.reserved[e0[t].objects@[0]],
                forall|k: GasGroupKey| #[trigger] old(self)@.expiring(sponsor_address, now, k) ==>
                    exists|t: int| 0 <= t < e0.len() && (#[trigger] e0[t]).objects@[0] == k,
                keys_unique(e0, group_key()),
                out@.len() == i,
                forall|t: int| 0 <= t < i ==> (#[trigger] out@[t])@ == e0[t].objects@,
            decreases e0.len() - i,
        {
            let objects = copy_group(&expired[i]).objects;
            out.push(objects);
            i = i + 1;
        }
        proof {
            assert forall|t: int| 0 <= t < out@.len() implies group_wf((#[trigger] out@[t])@)
                && old(self)@.expiring(sponsor_address, now, out@[t]@[0])
                && out@[t]@ == old(self)@.reserved[out@[t]@[0]].objects by {
                assert(out@[t]@ == e0[t].objects@);
                assert(group_wf(e0[t].objects@));
            }
            assert forall|a: int, b: int| 0 <= a < out@.len() && 0 <= b < out@.len() && a != b implies
                (#[trigger] out@[a])@[0] != (#[trigger] out@[b])@[0] by {
                assert((group_key())(e0[a]) != (group_key())(e0[b]));
            }
            assert forall|k: GasGroupKey| #[trigger] old(self)@.expiring(sponsor_address, now, k) implies
                exists|t: int| 0 <= t < out@.len() && (#[trigger] out@[t])@[0] == k by {
                let t = choose|t: int| 0 <= t < e0.len() && (#[trigger] e0[t]).objects@[0] == k;
                assert(out@[t]@[0] == k);
            }
        }
        let res: Result<Vec<Vec<ObjectID>>, StorageError> = Ok(out);
        proof {
            assert forall|k: GasGroupKey| #[trigger] old(self)@.expiring(sponsor_address, now, k) implies
                exists|t: int| 0 <= t < res->Ok_0@.len() && (#[trigger] res->Ok_0@[t])@[0] == k by {
                let t = choose|t: int| 0 <= t < out@.len() && (#[trigger] out@[t])@[0] == k;
                assert(res->Ok_0@[t]@[0] == k);
            }
        }
        res
    }

    /// Expires a valid sponsor's reservations at the current time.
    pub fn expire_coins(&mut self, sponsor_address: SuiAddress) -> (r: Result<Vec<Vec<ObjectID>>, StorageError>)
        requires
            old(self).wf(),
        ensures
            final(self).wf(),
            !old(self)@.valid_addresses.contains(sponsor_address) ==>
                r == Err::<Vec<Vec<ObjectID>>, StorageError>(StorageError::InvalidSponsor) && final(self)@ == old(self)@,
            old(self)@.valid_addresses.contains(sponsor_address) ==> exists|now: u64| {
                &&& final(self)@ == #[trigger] old(self)@.after_expire(sponsor_address, now)
                &&& r matches Ok(groups)
                &&& forall|i: int| 0 <= i < groups@.len() ==> group_wf((#[trigger] groups@[i])@)
                    && old(self)@.expiring(sponsor_address, now, groups@[i]@[0])
                    && groups@[i]@ == old(self)@.reserved[groups@[i]@[0]].objects
                &&& forall|k: GasGroupKey| #[trigger] old(self)@.expiring(sponsor_address, now, k) ==>
                    exists|i: int| 0 <= i < groups@.len() && (#[trigger] groups@[i])@[0] == k
            },
    {
        let now = crate::clock::utc_now_millis();
        self.expire_coins_at(sponsor_address, now as u64)
    }

    /// The sponsor has had coins added.
    pub fn initialized(&self, sponsor_address: SuiAddress) -> (r: bool)
        ensures
            r == self@.valid_addresses.contains(sponsor_address),
    {
        self.tables.initialized(sponsor_address)
    }

    /// Always healthy: the tables are in memory.
    pub fn check_health(&self) -> (r: Result<(), StorageError>)
        ensures
            r is Ok,
    {
        Ok(())
    }

    pub fn get_available_coin_count(&self, sponsor_address: SuiAddress) -> (r: usize)
        requires
            self.wf(),
        ensures
            r == self@.available[sponsor_address].len(),
    {
        self.tables.get_available_coin_count(sponsor_address)
    }

    pub fn get_total_available_coin_balance(&self, sponsor_address: SuiAddress) -> (r: u128)
        requires
            self.wf(),
            self@.available[sponsor_address].len() <= u64::MAX,
        ensures
            r == balance_sum(self@.available[sponsor_address]),
    {
        self.tables.get_total_available_coin_balance(sponsor_address)
    }

    pub fn get_reserved_coin_count(&self) -> (r: usize)
        requires
            self.wf(),
        ensures
            r as int == min_usize(self.reserved_coin_total()),
    {
        self.tables.get_reserved_coin_count()
    }

    /// The number of coins in the reserved groups, counted group by group.
    pub closed spec fn reserved_coin_total(&self) -> int {
        self.tables.reserved_coin_total()
    }

    pub fn get_pending_update_coin_count(&self) -> (r: usize)
        requires
            self.wf(),
        ensures
            r == self@.pending.dom().len(),
    {
        self.tables.get_pending_update_coin_count()
    }
}

} // verus!
