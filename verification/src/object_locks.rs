//! Locks on the address-owned objects of transactions being executed, so that
//! two sponsored transactions never use the same owned object at once.
//!
//! A cache remembers, for each object seen, its last known version and whether
//! it is address-owned. Acquiring locks runs in two steps around a query for
//! the owners of the objects the cache cannot answer for: `prepare_locks`
//! reads the cache, and `finish_locks` takes the query's answer, records it in
//! the cache and takes the locks.

use vstd::prelude::*;
use moka::sync::SegmentedCache;
use crate::base_types::{ObjectID, ObjectRef, SuiAddress};
use crate::keyed::{has_key, keyed_map, keys_unique, lemma_entry_at_index, lemma_keyed_insert, lemma_keyed_update,
    lemma_push_contains};

verus! {

/// How many objects the owner cache holds at most.
pub const CACHE_SIZE: u64 = 1000000;

/// The owner of an object.
#[derive(Clone, Copy, Debug, PartialEq, Eq, Structural)]
pub enum Owner {
    /// Owned by an address: only that address can use it.
    AddressOwner(SuiAddress),
    /// Owned by another object.
    ObjectOwner(SuiAddress),
    /// Shared, since the given version.
    Shared { initial_shared_version: u64 },
    /// Frozen: anyone can read it and nobody can change it.
    Immutable,
    /// Owned by an address, with versions assigned by consensus.
    ConsensusAddressOwner { start_version: u64, owner: SuiAddress },
}

impl Owner {
    pub open spec fn spec_is_address_owned(self) -> bool {
        self is AddressOwner
    }

    /// Whether the object is owned by an address.
    pub fn is_address_owned(&self) -> (r: bool)
        ensures
            r == self.spec_is_address_owned(),
    {
        match self {
            Owner::AddressOwner(_) => true,
            _ => false,
        }
    }
}

/// An input object of a transaction, as the transaction names it.
#[derive(Clone, Copy, Debug, PartialEq, Eq, Structural)]
pub enum InputObjectKind {
    /// A Move package.
    MovePackage(ObjectID),
    /// An immutable or address-owned object, at a version.
    ImmOrOwnedMoveObject(ObjectRef),
    /// A shared object.
    SharedMoveObject { id: ObjectID, initial_shared_version: u64, mutable: bool },
}

#[derive(Clone, Copy, Debug, PartialEq, Eq, Structural)]
pub enum ObjectLockError {
    /// The object is locked by a transaction being executed.
    AlreadyLocked(ObjectID),
    /// The transaction names an older version of the object than the latest known.
    VersionOutOfDate { id: ObjectID, provided: u64, latest: u64 },
}

/// The immutable or owned input objects that are not gas, with their
/// versions, in the order of the inputs.
pub open spec fn imm_or_owned_non_gas(inputs: Seq<InputObjectKind>, gas: Set<ObjectID>) -> Seq<(ObjectID, u64)>
    decreases inputs.len(),
{
    if inputs.len() == 0 {
        Seq::empty()
    } else {
        let rest = imm_or_owned_non_gas(inputs.drop_last(), gas);
        match inputs.last() {
            InputObjectKind::ImmOrOwnedMoveObject(r) => if gas.contains(r.0) {
                rest
            } else {
                rest.push((r.0, r.1))
            },
            _ => rest,
        }
    }
}

/// The first object of `objects` that is locked.
pub open spec fn first_locked(locked: Set<ObjectID>, objects: Seq<ObjectID>) -> Option<ObjectID>
    decreases objects.len(),
{
    if objects.len() == 0 {
        None
    } else {
        match first_locked(locked, objects.drop_last()) {
            Some(id) => Some(id),
            None => if locked.contains(objects.last()) {
                Some(objects.last())
            } else {
                None
            },
        }
    }
}

/// What the cache says of the objects: the address-owned ones it knows at
/// the version given, and the versions to ask for the others (a later mention
/// of an object replaces an earlier one). An object given at a version older
/// than the cached one is refused.
pub open spec fn classify(objects: Seq<(ObjectID, u64)>, cached: Seq<Option<(u64, bool)>>)
    -> Result<(Seq<ObjectID>, Map<ObjectID, u64>), ObjectLockError>
    decreases objects.len(),
{
    if objects.len() == 0 {
        Ok((Seq::empty(), Map::empty()))
    } else {
        match classify(objects.drop_last(), cached.take(objects.len() - 1)) {
            Err(e) => Err(e),
            Ok((owned, query)) => {
                let (id, version) = objects.last();
                match cached[objects.len() - 1] {
                    Some((cached_version, is_address_owned)) => if version < cached_version {
                        Err(ObjectLockError::VersionOutOfDate { id, provided: version, latest: cached_version })
                    } else if version == cached_version {
                        Ok((if is_address_owned { owned.push(id) } else { owned }, query))
                    } else {
                        Ok((owned, query.insert(id, version)))
                    },
                    None => Ok((owned, query.insert(id, version))),
                }
            },
        }
    }
}

/// What the owners fetched for the queried objects give: the address-owned
/// ones, in the order fetched, or the first that is at a later version than
/// the one the transaction gives.
pub open spec fn fetched_outcome(query: Map<ObjectID, u64>, fetched: Seq<(ObjectID, Owner, u64)>)
    -> Result<Seq<ObjectID>, ObjectLockError>
    decreases fetched.len(),
{
    if fetched.len() == 0 {
        Ok(Seq::empty())
    } else {
        match fetched_outcome(query, fetched.drop_last()) {
            Err(e) => Err(e),
            Ok(owned) => {
                let (id, owner, version) = fetched.last();
                if version > query[id] {
                    Err(ObjectLockError::VersionOutOfDate { id, provided: query[id], latest: version })
                } else {
                    Ok(if owner.spec_is_address_owned() { owned.push(id) } else { owned })
                }
            },
        }
    }
}

/// The cache entries recorded from the owners fetched: each is recorded
/// until the first refused one.
pub open spec fn fetched_records(query: Map<ObjectID, u64>, fetched: Seq<(ObjectID, Owner, u64)>)
    -> Map<ObjectID, (u64, bool)>
    decreases fetched.len(),
{
    if fetched.len() == 0 {
        Map::empty()
    } else {
        let (id, owner, version) = fetched.last();
        let before = fetched_records(query, fetched.drop_last());
        if fetched_outcome(query, fetched.drop_last()) is Err || version > query[id] {
            before
        } else {
            before.insert(id, (version, owner.spec_is_address_owned()))
        }
    }
}

/// The cache entries recorded after a transaction ran: the new version and
/// ownership of each changed object that was an immutable or owned input.
pub open spec fn post_execution_records(inputs: Set<ObjectID>, mutated: Seq<(ObjectID, Owner, u64)>)
    -> Map<ObjectID, (u64, bool)>
    decreases mutated.len(),
{
    if mutated.len() == 0 {
        Map::empty()
    } else {
        let (id, owner, version) = mutated.last();
        let before = post_execution_records(inputs, mutated.drop_last());
        if inputs.contains(id) {
            before.insert(id, (version, owner.spec_is_address_owned()))
        } else {
            before
        }
    }
}

/// The identifiers of a list of objects with versions.
pub open spec fn ids_of(objects: Seq<(ObjectID, u64)>) -> Seq<ObjectID> {
    objects.map_values(|o: (ObjectID, u64)| o.0)
}

/// The key of an entry of a query: its object.
pub open spec fn query_key() -> spec_fn((ObjectID, u64)) -> ObjectID {
    |e: (ObjectID, u64)| e.0
}

/// The version asked for each queried object.
pub open spec fn query_map(entries: Seq<(ObjectID, u64)>) -> Map<ObjectID, u64> {
    keyed_map(entries, query_key()).map_values(|e: (ObjectID, u64)| e.1)
}

proof fn lemma_classify_err_stays(objects: Seq<(ObjectID, u64)>, cached: Seq<Option<(u64, bool)>>, k: int, n: int)
    requires
        0 <= k <= n <= objects.len(),
        objects.len() == cached.len(),
        classify(objects.take(k), cached.take(k)) is Err,
    ensures
        classify(objects.take(n), cached.take(n)) == classify(objects.take(k), cached.take(k)),
    decreases n - k,
{
    if k < n {
        lemma_classify_err_stays(objects, cached, k, n - 1);
        assert(objects.take(n).drop_last() =~= objects.take(n - 1));
        assert(cached.take(n).take(n - 1) =~= cached.take(n - 1));
    }
}

proof fn lemma_fetched_err_stays(query: Map<ObjectID, u64>, fetched: Seq<(ObjectID, Owner, u64)>, k: int, n: int)
    requires
        0 <= k <= n <= fetched.len(),
        fetched_outcome(query, fetched.take(k)) is Err,
    ensures
        fetched_outcome(query, fetched.take(n)) == fetched_outcome(query, fetched.take(k)),
        fetched_records(query, fetched.take(n)) == fetched_records(query, fetched.take(k)),
    decreases n - k,
{
    if k < n {
        lemma_fetched_err_stays(query, fetched, k, n - 1);
        assert(fetched.take(n).drop_last() =~= fetched.take(n - 1));
    }
}

proof fn lemma_first_locked_stays(locked: Set<ObjectID>, objects: Seq<ObjectID>, k: int, n: int)
    requires
        0 <= k <= n <= objects.len(),
        first_locked(locked, objects.take(k)) is Some,
    ensures
        first_locked(locked, objects.take(n)) == first_locked(locked, objects.take(k)),
    decreases n - k,
{
    if k < n {
        lemma_first_locked_stays(locked, objects, k, n - 1);
        assert(objects.take(n).drop_last() =~= objects.take(n - 1));
    }
}

/// No object of `objects` is locked exactly when none is found locked.
pub proof fn lemma_first_locked_none(locked: Set<ObjectID>, objects: Seq<ObjectID>)
    ensures
        first_locked(locked, objects) is None <==> forall|i: int| 0 <= i < objects.len() ==> !locked.contains(#[trigger] objects[i]),
        first_locked(locked, objects) matches Some(id) ==> locked.contains(id) && objects.contains(id),
    decreases objects.len(),
{
    if objects.len() > 0 {
        let d = objects.drop_last();
        lemma_first_locked_none(locked, d);
        if first_locked(locked, d) is None {
            assert forall|i: int| 0 <= i < objects.len() - 1 implies !locked.contains(#[trigger] objects[i]) by {
                assert(objects[i] == d[i]);
            }
        }
        if let Some(id) = first_locked(locked, d) {
            let j = choose|j: int| 0 <= j < d.len() && d[j] == id;
            assert(objects[j] == id);
        }
        assert(objects[objects.len() - 1] == objects.last());
    }
}

proof fn lemma_submap_trans<K, V>(a: Map<K, V>, b: Map<K, V>, c: Map<K, V>)
    requires
        a.submap_of(b),
        b.submap_of(c),
    ensures
        a.submap_of(c),
{
    assert forall|x: K| #[trigger] a.dom().contains(x) implies c.dom().contains(x) && a[x] == c[x] by {
        assert(b.dom().contains(x));
    }
}

proof fn lemma_submap_insert<K, V>(a: Map<K, V>, b: Map<K, V>, c: Map<K, V>, k: K, v: V)
    requires
        a.submap_of(b.insert(k, v)),
        b.submap_of(c),
    ensures
        a.submap_of(c.insert(k, v)),
{
    assert forall|x: K| #[trigger] a.dom().contains(x) implies c.insert(k, v).dom().contains(x)
        && a[x] == c.insert(k, v)[x] by {
        assert(b.insert(k, v).dom().contains(x));
        if x != k {
            assert(b.dom().contains(x));
        }
    }
}

/// The moka cache of owners, declared so that it can be held.
#[verifier::external_type_specification]
#[verifier::external_body]
#[verifier::reject_recursive_types(K)]
#[verifier::reject_recursive_types(V)]
#[verifier::reject_recursive_types(S)]
pub struct ExSegmentedCache<K, V, S>(SegmentedCache<K, V, S>);

/// The cache of object owners: the last known version of each object and
/// whether it is address-owned.
pub type OwnerCache = SegmentedCache<ObjectID, (u64, bool)>;

/// What the owner cache holds: for each object, its last known version and
/// whether it is address-owned.
pub uninterp spec fn owner_cache_contents(cache: OwnerCache) -> Map<ObjectID, (u64, bool)>;

/// Calls `moka::sync::SegmentedCache::new(max_capacity, num_segments)`, which
/// panics when `num_segments` is 0: a cache that holds nothing.
#[verifier::external_body]
fn new_owner_cache(max_capacity: u64, num_segments: usize) -> (r: OwnerCache)
    requires
        num_segments > 0,
    ensures
        owner_cache_contents(r).dom() == Set::<ObjectID>::empty(),
{
    SegmentedCache::new(max_capacity, num_segments)
}

/// Calls `moka::sync::SegmentedCache::get`: a copy of the value held for
/// `key`, if one is held. A bounded cache may drop entries at any time and
/// adds none by itself, so only that is stated of what it holds afterwards.
#[verifier::external_body]
fn owner_cache_get(cache: &mut OwnerCache, key: ObjectID) -> (r: Option<(u64, bool)>)
    ensures
        owner_cache_contents(*final(cache)).submap_of(owner_cache_contents(*old(cache))),
        r matches Some(v) ==> owner_cache_contents(*old(cache)).contains_key(key)
            && owner_cache_contents(*old(cache))[key] == v,
        r is None ==> !owner_cache_contents(*final(cache)).contains_key(key),
{
    cache.get(&key)
}

/// Calls `moka::sync::SegmentedCache::insert`: `key` now maps to `value`, though a
/// bounded cache may drop that entry, or any other, at any time.
#[verifier::external_body]
fn owner_cache_insert(cache: &mut OwnerCache, key: ObjectID, value: (u64, bool))
    ensures
        owner_cache_contents(*final(cache)).submap_of(owner_cache_contents(*old(cache)).insert(key, value)),
{
    cache.insert(key, value)
}

/// What the cache says of some objects: the address-owned ones it knows, and
/// the objects to ask the owners of, each with the version the transaction gives.
pub struct LockPlan {
    pub owned: Vec<ObjectID>,
    pub to_query: Vec<(ObjectID, u64)>,
}

impl LockPlan {
    /// Each object is queried once.
    pub open spec fn wf(&self) -> bool {
        keys_unique(self.to_query@, query_key())
    }

    /// The version asked for each queried object.
    pub open spec fn query(&self) -> Map<ObjectID, u64> {
        query_map(self.to_query@)
    }

    /// The objects whose owners must be fetched.
    pub fn query_ids(&self) -> (r: Vec<ObjectID>)
        ensures
            r@ == self.to_query@.map_values(|e: (ObjectID, u64)| e.0),
    {
        let mut r: Vec<ObjectID> = Vec::new();
        let mut i: usize = 0;
        while i < self.to_query.len()
            invariant
                i <= self.to_query@.len(),
                r@ == self.to_query@.take(i as int).map_values(|e: (ObjectID, u64)| e.0),
            decreases self.to_query.len() - i,
        {
            r.push(self.to_query[i].0);
            proof {
                assert(self.to_query@.take(i as int + 1).map_values(|e: (ObjectID, u64)| e.0)
                    =~= r@);
            }
            i = i + 1;
        }
        proof {
            assert(self.to_query@.take(i as int) =~= self.to_query@);
        }
        r
    }
}

/// Finds the entry of the query for `id`.
fn find_query(entries: &Vec<(ObjectID, u64)>, id: ObjectID) -> (r: Option<usize>)
    requires
        keys_unique(entries@, query_key()),
    ensures
        r matches Some(i) ==> i < entries@.len() && entries@[i as int].0 == id
            && query_map(entries@).contains_key(id) && query_map(entries@)[id] == entries@[i as int].1,
        r is None ==> !query_map(entries@).contains_key(id),
{
    let mut i: usize = 0;
    while i < entries.len()
        invariant
            i <= entries@.len(),
            keys_unique(entries@, query_key()),
            forall|j: int| 0 <= j < i ==> (query_key())(#[trigger] entries@[j]) != id,
        decreases entries.len() - i,
    {
        if entries[i].0 == id {
            proof {
                lemma_entry_at_index(entries@, query_key(), i as int);
            }
            return Some(i);
        }
        i = i + 1;
    }
    None
}

/// Asks for `id` at `version`, replacing an earlier ask for it.
fn put_query(entries: &mut Vec<(ObjectID, u64)>, id: ObjectID, version: u64)
    requires
        keys_unique(old(entries)@, query_key()),
    ensures
        keys_unique(final(entries)@, query_key()),
        query_map(final(entries)@) == query_map(old(entries)@).insert(id, version),
{
    let ghost e0 = entries@;
    match find_query(entries, id) {
        Some(i) => {
            entries.set(i, (id, version));
            proof {
                lemma_keyed_update(e0, query_key(), i as int, (id, version));
                crate::keyed::lemma_map_values_insert(keyed_map(e0, query_key()), id, (id, version), |e: (ObjectID, u64)| e.1);
            }
        },
        None => {
            entries.push((id, version));
            proof {
                assert(e0.insert(e0.len() as int, (id, version)) =~= entries@);
                assert(!has_key(e0, query_key(), id));
                lemma_keyed_insert(e0, query_key(), e0.len() as int, (id, version));
                crate::keyed::lemma_map_values_insert(keyed_map(e0, query_key()), id, (id, version), |e: (ObjectID, u64)| e.1);
            }
        },
    }
}

/// Sorts objects by what the cache says of them (`cached[i]` for
/// `objects[i]`): known address-owned objects, objects to query, or the first
/// object given at an older version than the cached one.
pub fn classify_objects(objects: &[(ObjectID, u64)], cached: &[Option<(u64, bool)>]) -> (r: Result<LockPlan, ObjectLockError>)
    requires
        cached@.len() == objects@.len(),
    ensures
        match (r, classify(objects@, cached@)) {
            (Ok(plan), Ok((owned, query))) => plan.wf() && plan.owned@ == owned && plan.query() == query,
            (Err(e), Err(e2)) => e == e2,
            _ => false,
        },
{
    let mut owned: Vec<ObjectID> = Vec::new();
    let mut to_query: Vec<(ObjectID, u64)> = Vec::new();
    let mut i: usize = 0;
    proof {
        assert(query_map(to_query@) =~= Map::<ObjectID, u64>::empty());
    }
    while i < objects.len()
        invariant
            i <= objects@.len(),
            cached@.len() == objects@.len(),
            keys_unique(to_query@, query_key()),
            classify(objects@.take(i as int), cached@.take(i as int)) == Ok::<(Seq<ObjectID>, Map<ObjectID, u64>), ObjectLockError>((owned@, query_map(to_query@))),
        decreases objects.len() - i,
    {
        let (id, version) = objects[i];
        proof {
            assert(objects@.take(i as int + 1).drop_last() =~= objects@.take(i as int));
            assert(cached@.take(i as int + 1).take(i as int) =~= cached@.take(i as int));
            assert(objects@.take(i as int + 1).last() == objects@[i as int]);
            assert(cached@.take(i as int + 1)[i as int] == cached@[i as int]);
        }
        match cached[i] {
            Some((cached_version, is_address_owned)) => {
                if version < cached_version {
                    proof {
                        lemma_classify_err_stays(objects@, cached@, i as int + 1, objects@.len() as int);
                        assert(objects@.take(objects@.len() as int) =~= objects@);
                        assert(cached@.take(objects@.len() as int) =~= cached@);
                    }
                    return Err(ObjectLockError::VersionOutOfDate { id, provided: version, latest: cached_version });
                } else if version == cached_version {
                    if is_address_owned {
                        owned.push(id);
                    }
                } else {
                    put_query(&mut to_query, id, version);
                }
            },
            None => {
                put_query(&mut to_query, id, version);
            },
        }
        i = i + 1;
    }
    proof {
        assert(objects@.take(i as int) =~= objects@);
        assert(cached@.take(i as int) =~= cached@);
    }
    Ok(LockPlan { owned, to_query })
}

/// The locks of a transaction on its address-owned objects, released by
/// `ObjectLockManager::release_locks`.
pub struct ObjectLocks {
    pub reservation_id: u64,
    pub locked_objects: Vec<ObjectID>,
}

/// The owner cache and the locked objects, as specification.
pub struct ObjectLocksView {
    pub cache: Map<ObjectID, (u64, bool)>,
    pub locked: Set<ObjectID>,
}

/// The cache of object owners and the set of objects locked by transactions
/// being executed.
pub struct ObjectLockManager {
    address_owned_cache: OwnerCache,
    locked_owned_objects: Vec<ObjectID>,
}

impl View for ObjectLockManager {
    type V = ObjectLocksView;

    closed spec fn view(&self) -> ObjectLocksView {
        ObjectLocksView {
            cache: owner_cache_contents(self.address_owned_cache),
            locked: self.locked_owned_objects@.to_set(),
        }
    }
}

/// Whether `id` is among `v`.
fn contains_id(v: &Vec<ObjectID>, id: ObjectID) -> (r: bool)
    ensures
        r == v@.contains(id),
{
    let mut i: usize = 0;
    while i < v.len()
        invariant
            i <= v@.len(),
            forall|j: int| 0 <= j < i ==> v@[j] != id,
        decreases v.len() - i,
    {
        if v[i] == id {
            return true;
        }
        i = i + 1;
    }
    false
}

impl ObjectLockManager {
    /// Each locked object is held once.
    pub closed spec fn wf(&self) -> bool {
        self.locked_owned_objects@.no_duplicates()
    }

    /// An empty cache of `CACHE_SIZE` entries in 8 segments, and no lock.
    pub fn new() -> (r: Self)
        ensures
            r.wf(),
            r@.cache.dom() == Set::<ObjectID>::empty(),
            r@.locked == Set::<ObjectID>::empty(),
    {
        let r = ObjectLockManager { address_owned_cache: new_owner_cache(CACHE_SIZE, 8), locked_owned_objects: Vec::new() };
        proof {
            assert(r@.locked =~= Set::<ObjectID>::empty());
        }
        r
    }

    /// Whether `id` is locked.
    pub fn is_locked(&self, id: ObjectID) -> (r: bool)
        ensures
            r == self@.locked.contains(id),
    {
        contains_id(&self.locked_owned_objects, id)
    }

    /// The immutable or owned input objects of a transaction, with their
    /// versions, leaving out its gas coins: the gas pool provides those, and
    /// they never need a lock.
    pub fn get_imm_or_owned_non_gas_objects(&self, inputs: &[InputObjectKind], gas_payment: &[ObjectRef])
        -> (r: Vec<(ObjectID, u64)>)
        ensures
            r@ == imm_or_owned_non_gas(inputs@, gas_payment@.map_values(|g: ObjectRef| g.0).to_set()),
    {
        let ghost gas = gas_payment@.map_values(|g: ObjectRef| g.0).to_set();
        let mut r: Vec<(ObjectID, u64)> = Vec::new();
        let mut i: usize = 0;
        while i < inputs.len()
            invariant
                i <= inputs@.len(),
                gas == gas_payment@.map_values(|g: ObjectRef| g.0).to_set(),
                r@ == imm_or_owned_non_gas(inputs@.take(i as int), gas),
            decreases inputs.len() - i,
        {
            proof {
                assert(inputs@.take(i as int + 1).drop_last() =~= inputs@.take(i as int));
                assert(inputs@.take(i as int + 1).last() == inputs@[i as int]);
            }
            match inputs[i] {
                InputObjectKind::ImmOrOwnedMoveObject(obj_ref) => {
                    let mut is_gas = false;
                    let mut k: usize = 0;
                    while k < gas_payment.len()
                        invariant
                            k <= gas_payment@.len(),
                            gas == gas_payment@.map_values(|g: ObjectRef| g.0).to_set(),
                            is_gas == gas.contains(obj_ref.0) || (!is_gas && forall|j: int| 0 <= j < k ==> gas_payment@[j].0 != obj_ref.0),
                            is_gas ==> gas.contains(obj_ref.0),
                        decreases gas_payment.len() - k,
                    {
                        if gas_payment[k].0 == obj_ref.0 {
                            proof {
                                assert(gas_payment@.map_values(|g: ObjectRef| g.0)[k as int] == obj_ref.0);
                            }
                            is_gas = true;
                        }
                        k = k + 1;
                    }
                    proof {
                        if !is_gas && gas.contains(obj_ref.0) {
                            let gids = gas_payment@.map_values(|g: ObjectRef| g.0);
                            let j = choose|j: int| 0 <= j < gids.len() && gids[j] == obj_ref.0;
                            assert(gas_payment@[j].0 == obj_ref.0);
                        }
                    }
                    if !is_gas {
                        r.push((obj_ref.0, obj_ref.1));
                    }
                },
                _ => {},
            }
            i = i + 1;
        }
        proof {
            assert(inputs@.take(i as int) =~= inputs@);
        }
        r
    }
    /// The first of `objects` that is locked, as an error.
    pub fn check_not_locked(&self, objects: &[(ObjectID, u64)]) -> (r: Result<(), ObjectLockError>)
        ensures
            r == match first_locked(self@.locked, ids_of(objects@)) {
                Some(id) => Err(ObjectLockError::AlreadyLocked(id)),
                None => Ok(()),
            },
    {
        let ghost ids = ids_of(objects@);
        let mut i: usize = 0;
        while i < objects.len()
            invariant
                i <= objects@.len(),
                ids == ids_of(objects@),
                first_locked(self@.locked, ids.take(i as int)) is None,
            decreases objects.len() - i,
        {
            proof {
                assert(ids.take(i as int + 1).drop_last() =~= ids.take(i as int));
                assert(ids.take(i as int + 1).last() == objects@[i as int].0);
            }
            if self.is_locked(objects[i].0) {
                proof {
                    lemma_first_locked_stays(self@.locked, ids, i as int + 1, ids.len() as int);
                    assert(ids.take(ids.len() as int) =~= ids);
                }
                return Err(ObjectLockError::AlreadyLocked(objects[i].0));
            }
            i = i + 1;
        }
        proof {
            assert(ids.take(i as int) =~= ids);
        }
        Ok(())
    }

    /// Looks each object up in the cache.
    fn lookup_cached(&mut self, objects: &[(ObjectID, u64)]) -> (r: Vec<Option<(u64, bool)>>)
        ensures
            final(self)@.locked == old(self)@.locked,
            final(self).locked_owned_objects@ == old(self).locked_owned_objects@,
            final(self)@.cache.submap_of(old(self)@.cache),
            r@.len() == objects@.len(),
            forall|i: int| 0 <= i < r@.len() ==> (#[trigger] r@[i] matches Some(v) ==>
                old(self)@.cache.contains_key(objects@[i].0) && old(self)@.cache[objects@[i].0] == v),
    {
        let mut r: Vec<Option<(u64, bool)>> = Vec::new();
        let mut i: usize = 0;
        while i < objects.len()
            invariant
                i <= objects@.len(),
                r@.len() == i,
                self.locked_owned_objects@ == old(self).locked_owned_objects@,
                self@.cache.submap_of(old(self)@.cache),
                forall|j: int| 0 <= j < r@.len() ==> (#[trigger] r@[j] matches Some(v) ==>
                    old(self)@.cache.contains_key(objects@[j].0) && old(self)@.cache[objects@[j].0] == v),
            decreases objects.len() - i,
        {
            let ghost before = self@.cache;
            let c = owner_cache_get(&mut self.address_owned_cache, objects[i].0);
            proof {
                lemma_submap_trans(self@.cache, before, old(self)@.cache);
                if let Some(v) = c {
                    assert(before.contains_key(objects@[i as int].0));
                }
            }
            let ghost r0 = r@;
            r.push(c);
            proof {
                assert forall|j: int| 0 <= j < r@.len() implies (#[trigger] r@[j] matches Some(v) ==>
                    old(self)@.cache.contains_key(objects@[j].0) && old(self)@.cache[objects@[j].0] == v) by {
                    if j < r0.len() {
                        assert(r@[j] == r0[j]);
                    }
                }
            }
            i = i + 1;
        }
        r
    }

    /// The first step of acquiring the locks of a transaction's immutable or
    /// owned objects (`objects`, from `get_imm_or_owned_non_gas_objects`):
    /// refuses if any of them is locked, then reads what the cache knows of
    /// them. The owners of the objects of `to_query` in the plan are then
    /// fetched, and handed to `finish_locks`.
    pub fn prepare_locks(&mut self, objects: &[(ObjectID, u64)]) -> (r: Result<LockPlan, ObjectLockError>)
        requires
            old(self).wf(),
        ensures
            final(self).wf(),
            final(self)@.locked == old(self)@.locked,
            final(self)@.cache.submap_of(old(self)@.cache),
            first_locked(old(self)@.locked, ids_of(objects@)) matches Some(id)
                ==> r == Err::<LockPlan, ObjectLockError>(ObjectLockError::AlreadyLocked(id)),
            first_locked(old(self)@.locked, ids_of(objects@)) is None ==> exists|cached: Seq<Option<(u64, bool)>>| {
                &&& cached.len() == objects@.len()
                &&& forall|i: int| 0 <= i < cached.len() ==> (#[trigger] cached[i] matches Some(v) ==>
                    old(self)@.cache.contains_key(objects@[i].0) && old(self)@.cache[objects@[i].0] == v)
                &&& match (r, #[trigger] classify(objects@, cached)) {
                    (Ok(plan), Ok((owned, query))) => plan.wf() && plan.owned@ == owned && plan.query() == query,
                    (Err(e), Err(e2)) => e == e2,
                    _ => false,
                }
            },
    {
        match self.check_not_locked(objects) {
            Err(e) => {
                return Err(e);
            },
            Ok(()) => {},
        }
        let cached = self.lookup_cached(objects);
        classify_objects(objects, cached.as_slice())
    }

    /// The second step of acquiring locks: takes the owners fetched for the
    /// objects of `plan.to_query` (each fetched object must be one of them),
    /// records them in the cache, refuses an object given at a version older
    /// than the one fetched, and locks every address-owned object, unless one
    /// of them is locked already.
    pub fn finish_locks(&mut self, reservation_id: u64, plan: &LockPlan, fetched: &[(ObjectID, Owner, u64)])
        -> (r: Result<ObjectLocks, ObjectLockError>)
        requires
            old(self).wf(),
            plan.wf(),
            forall|j: int| 0 <= j < fetched@.len() ==> plan.query().contains_key((#[trigger] fetched@[j]).0),
        ensures
            final(self).wf(),
            final(self)@.cache.submap_of(old(self)@.cache.union_prefer_right(fetched_records(plan.query(), fetched@))),
            match fetched_outcome(plan.query(), fetched@) {
                Err(e) => r == Err::<ObjectLocks, ObjectLockError>(e) && final(self)@.locked == old(self)@.locked,
                Ok(fetched_owned) => match first_locked(old(self)@.locked, plan.owned@ + fetched_owned) {
                    Some(id) => r == Err::<ObjectLocks, ObjectLockError>(ObjectLockError::AlreadyLocked(id))
                        && final(self)@.locked == old(self)@.locked,
                    None => r matches Ok(locks) && locks.reservation_id == reservation_id
                        && locks.locked_objects@ == plan.owned@ + fetched_owned
                        && final(self)@.locked == old(self)@.locked + (plan.owned@ + fetched_owned).to_set(),
                },
            },
    {
        let ghost q = plan.query();
        let ghost cache0 = self@.cache;
        let mut fetched_owned: Vec<ObjectID> = Vec::new();
        let mut j: usize = 0;
        proof {
            assert(fetched@.take(0) =~= Seq::<(ObjectID, Owner, u64)>::empty());
            assert(cache0.union_prefer_right(fetched_records(q, fetched@.take(0))) =~= cache0);
        }
        while j < fetched.len()
            invariant
                j <= fetched@.len(),
                q == plan.query(),
                plan.wf(),
                forall|k: int| 0 <= k < fetched@.len() ==> q.contains_key((#[trigger] fetched@[k]).0),
                self.wf(),
                self.locked_owned_objects@ == old(self).locked_owned_objects@,
                cache0 == old(self)@.cache,
                fetched_outcome(q, fetched@.take(j as int)) == Ok::<Seq<ObjectID>, ObjectLockError>(fetched_owned@),
                self@.cache.submap_of(cache0.union_prefer_right(fetched_records(q, fetched@.take(j as int)))),
            decreases fetched.len() - j,
        {
            let (id, owner, version) = fetched[j];
            proof {
                assert(fetched@.take(j as int + 1).drop_last() =~= fetched@.take(j as int));
                assert(fetched@.take(j as int + 1).last() == fetched@[j as int]);
                assert(q.contains_key(fetched@[j as int].0));
            }
            let input_version = match find_query(&plan.to_query, id) {
                Some(k) => plan.to_query[k].1,
                None => {
                    proof {
                        assert(false);
                    }
                    0
                },
            };
            if version > input_version {
                proof {
                    assert(fetched_outcome(q, fetched@.take(j as int + 1)) is Err);
                    assert(fetched_records(q, fetched@.take(j as int + 1)) == fetched_records(q, fetched@.take(j as int)));
                    lemma_fetched_err_stays(q, fetched@, j as int + 1, fetched@.len() as int);
                    assert(fetched@.take(fetched@.len() as int) =~= fetched@);
                }
                return Err(ObjectLockError::VersionOutOfDate { id, provided: input_version, latest: version });
            }
            let is_address_owned = owner.is_address_owned();
            let ghost before = self@.cache;
            owner_cache_insert(&mut self.address_owned_cache, id, (version, is_address_owned));
            proof {
                let recs = fetched_records(q, fetched@.take(j as int));
                assert(fetched_records(q, fetched@.take(j as int + 1)) == recs.insert(id, (version, is_address_owned)));
                lemma_submap_insert(self@.cache, before, cache0.union_prefer_right(recs), id, (version, is_address_owned));
                assert(cache0.union_prefer_right(recs).insert(id, (version, is_address_owned))
                    =~= cache0.union_prefer_right(recs.insert(id, (version, is_address_owned))));
            }
            if is_address_owned {
                fetched_owned.push(id);
            }
            j = j + 1;
        }
        proof {
            assert(fetched@.take(j as int) =~= fetched@);
        }
        let mut owned: Vec<ObjectID> = Vec::new();
        let mut i: usize = 0;
        while i < plan.owned.len()
            invariant
                i <= plan.owned@.len(),
                owned@ == plan.owned@.take(i as int),
                self.wf(),
                cache0 == old(self)@.cache,
                q == plan.query(),
                fetched_outcome(q, fetched@) == Ok::<Seq<ObjectID>, ObjectLockError>(fetched_owned@),
                self.locked_owned_objects@ == old(self).locked_owned_objects@,
                self@.cache.submap_of(cache0.union_prefer_right(fetched_records(q, fetched@))),
            decreases plan.owned.len() - i,
        {
            owned.push(plan.owned[i]);
            proof {
                assert(plan.owned@.take(i as int + 1) =~= plan.owned@.take(i as int).push(plan.owned@[i as int]));
            }
            i = i + 1;
        }
        let mut k: usize = 0;
        while k < fetched_owned.len()
            invariant
                k <= fetched_owned@.len(),
                i == plan.owned@.len(),
                owned@ == plan.owned@ + fetched_owned@.take(k as int),
                self.wf(),
                cache0 == old(self)@.cache,
                q == plan.query(),
                fetched_outcome(q, fetched@) == Ok::<Seq<ObjectID>, ObjectLockError>(fetched_owned@),
                self.locked_owned_objects@ == old(self).locked_owned_objects@,
                self@.cache.submap_of(cache0.union_prefer_right(fetched_records(q, fetched@))),
            decreases fetched_owned.len() - k,
        {
            owned.push(fetched_owned[k]);
            proof {
                assert(plan.owned@ + fetched_owned@.take(k as int + 1)
                    =~= (plan.owned@ + fetched_owned@.take(k as int)).push(fetched_owned@[k as int]));
            }
            k = k + 1;
        }
        proof {
            assert(plan.owned@.take(i as int) =~= plan.owned@);
            assert(fetched_owned@.take(k as int) =~= fetched_owned@);
        }
        let ghost locked0 = self@.locked;
        let mut n: usize = 0;
        while n < owned.len()
            invariant
                n <= owned@.len(),
                self@.locked == locked0,
                first_locked(locked0, owned@.take(n as int)) is None,
                locked0 == old(self)@.locked,
                owned@ == plan.owned@ + fetched_owned@,
                self.wf(),
                cache0 == old(self)@.cache,
                q == plan.query(),
                fetched_outcome(q, fetched@) == Ok::<Seq<ObjectID>, ObjectLockError>(fetched_owned@),
                self.locked_owned_objects@ == old(self).locked_owned_objects@,
                self@.cache.submap_of(cache0.union_prefer_right(fetched_records(q, fetched@))),
            decreases owned.len() - n,
        {
            proof {
                assert(owned@.take(n as int + 1).drop_last() =~= owned@.take(n as int));
                assert(owned@.take(n as int + 1).last() == owned@[n as int]);
            }
            if self.is_locked(owned[n]) {
                proof {
                    lemma_first_locked_stays(locked0, owned@, n as int + 1, owned@.len() as int);
                    assert(owned@.take(owned@.len() as int) =~= owned@);
                }
                return Err(ObjectLockError::AlreadyLocked(owned[n]));
            }
            n = n + 1;
        }
        proof {
            assert(owned@.take(n as int) =~= owned@);
        }
        let mut m: usize = 0;
        while m < owned.len()
            invariant
                m <= owned@.len(),
                self.wf(),
                self@.cache.submap_of(cache0.union_prefer_right(fetched_records(q, fetched@))),
                self@.locked == locked0 + owned@.take(m as int).to_set(),
                cache0 == old(self)@.cache,
                q == plan.query(),
                locked0 == old(self)@.locked,
                owned@ == plan.owned@ + fetched_owned@,
                fetched_outcome(q, fetched@) == Ok::<Seq<ObjectID>, ObjectLockError>(fetched_owned@),
            decreases owned.len() - m,
        {
            let id = owned[m];
            let ghost l0 = self.locked_owned_objects@;
            if !contains_id(&self.locked_owned_objects, id) {
                self.locked_owned_objects.push(id);
                proof {
                    lemma_push_contains(l0, id);
                    assert forall|a: int, b: int| 0 <= a < b < self.locked_owned_objects@.len()
                        implies self.locked_owned_objects@[a] != self.locked_owned_objects@[b] by {
                        if b == l0.len() {
                            assert(l0.contains(l0[a]));
                        }
                    }
                }
            }
            proof {
                assert(owned@.take(m as int + 1) =~= owned@.take(m as int).push(id));
                lemma_push_contains(owned@.take(m as int), id);
                lemma_push_contains(l0, id);
                assert forall|x: ObjectID| self.locked_owned_objects@.contains(x) <==> (l0.contains(x) || x == id) by {
                    if self.locked_owned_objects@ == l0 {
                        if x == id {
                            assert(l0.contains(id));
                        }
                    }
                }
                assert forall|x: ObjectID| #[trigger] self@.locked.contains(x) <==> (locked0 + owned@.take(m as int + 1).to_set()).contains(x) by {
                    assert(l0.to_set().contains(x) == (locked0 + owned@.take(m as int).to_set()).contains(x));
                }
                assert(self@.locked =~= locked0 + owned@.take(m as int + 1).to_set());
            }
            m = m + 1;
        }
        proof {
            assert(owned@.take(m as int) =~= owned@);
        }
        Ok(ObjectLocks { reservation_id, locked_objects: owned })
    }

    /// Releases the locks of a transaction.
    pub fn release_locks(&mut self, locks: &ObjectLocks)
        requires
            old(self).wf(),
        ensures
            final(self).wf(),
            final(self)@.cache == old(self)@.cache,
            final(self)@.locked == old(self)@.locked - locks.locked_objects@.to_set(),
    {
        let ghost locked0 = self@.locked;
        let mut i: usize = 0;
        while i < locks.locked_objects.len()
            invariant
                i <= locks.locked_objects@.len(),
                self.wf(),
                self@.cache == old(self)@.cache,
                self@.locked == locked0 - locks.locked_objects@.take(i as int).to_set(),
            decreases locks.locked_objects.len() - i,
        {
            let id = locks.locked_objects[i];
            let ghost l0 = self.locked_owned_objects@;
            let mut k: usize = 0;
            while k < self.locked_owned_objects.len() && self.locked_owned_objects[k] != id
                invariant
                    k <= self.locked_owned_objects@.len(),
                    self.locked_owned_objects@ == l0,
                    forall|j: int| 0 <= j < k ==> l0[j] != id,
                decreases self.locked_owned_objects.len() - k,
            {
                k = k + 1;
            }
            if k < self.locked_owned_objects.len() {
                self.locked_owned_objects.remove(k);
                proof {
                    let l1 = self.locked_owned_objects@;
                    assert forall|a: int, b: int| 0 <= a < b < l1.len() implies l1[a] != l1[b] by {
                        let a0 = if a < k { a } else { a + 1 };
                        let b0 = if b < k { b } else { b + 1 };
                        assert(l1[a] == l0[a0] && l1[b] == l0[b0]);
                    }
                    assert forall|x: ObjectID| l1.contains(x) <==> (l0.contains(x) && x != id) by {
                        if l1.contains(x) {
                            let a = choose|a: int| 0 <= a < l1.len() && l1[a] == x;
                            let a0 = if a < k { a } else { a + 1 };
                            assert(l1[a] == l0[a0]);
                        }
                        if l0.contains(x) && x != id {
                            let a = choose|a: int| 0 <= a < l0.len() && l0[a] == x;
                            assert(a != k);
                            let a1 = if a < k { a } else { a - 1 };
                            assert(l1[a1] == x);
                        }
                    }
                }
            }
            proof {
                if k >= l0.len() {
                    assert(!l0.contains(id));
                }
                let t = locks.locked_objects@;
                assert(t.take(i as int + 1) =~= t.take(i as int).push(id));
                lemma_push_contains(t.take(i as int), id);
                assert forall|x: ObjectID| #[trigger] self@.locked.contains(x) <==> (locked0 - t.take(i as int + 1).to_set()).contains(x) by {
                    assert(l0.to_set().contains(x) == (locked0 - t.take(i as int).to_set()).contains(x));
                    if k >= l0.len() {
                        assert(self.locked_owned_objects@ == l0);
                    }
                }
                assert(self@.locked =~= locked0 - t.take(i as int + 1).to_set());
            }
            i = i + 1;
        }
        proof {
            assert(locks.locked_objects@.take(i as int) =~= locks.locked_objects@);
        }
    }

    /// After a transaction ran, records in the cache the new version and
    /// ownership of each object it changed that was one of its immutable or
    /// owned inputs other than gas (`effects_mutated_objects` comes from the
    /// transaction's effects).
    pub fn update_cache_post_execution(
        &mut self,
        inputs: &[InputObjectKind],
        gas_payment: &[ObjectRef],
        effects_mutated_objects: &[(ObjectID, Owner, u64)],
    )
        requires
            old(self).wf(),
        ensures
            final(self).wf(),
            final(self)@.locked == old(self)@.locked,
            final(self)@.cache.submap_of(old(self)@.cache.union_prefer_right(post_execution_records(
                ids_of(imm_or_owned_non_gas(inputs@, gas_payment@.map_values(|g: ObjectRef| g.0).to_set())).to_set(),
                effects_mutated_objects@,
            ))),
    {
        let objects = self.get_imm_or_owned_non_gas_objects(inputs, gas_payment);
        let ghost ids = ids_of(objects@).to_set();
        let mut input_ids: Vec<ObjectID> = Vec::new();
        let mut i: usize = 0;
        while i < objects.len()
            invariant
                i <= objects@.len(),
                input_ids@ == ids_of(objects@).take(i as int),
            decreases objects.len() - i,
        {
            input_ids.push(objects[i].0);
            proof {
                assert(ids_of(objects@).take(i as int + 1) =~= input_ids@);
            }
            i = i + 1;
        }
        proof {
            assert(ids_of(objects@).take(i as int) =~= ids_of(objects@));
        }
        let ghost cache0 = self@.cache;
        let ghost muts = effects_mutated_objects@;
        let mut j: usize = 0;
        proof {
            assert(muts.take(0) =~= Seq::<(ObjectID, Owner, u64)>::empty());
            assert(cache0.union_prefer_right(post_execution_records(ids, muts.take(0))) =~= cache0);
        }
        while j < effects_mutated_objects.len()
            invariant
                j <= muts.len(),
                muts == effects_mutated_objects@,
                input_ids@.to_set() == ids,
                self.wf(),
                self@.locked == old(self)@.locked,
                self@.cache.submap_of(cache0.union_prefer_right(post_execution_records(ids, muts.take(j as int)))),
            decreases effects_mutated_objects.len() - j,
        {
            let (id, owner, version) = effects_mutated_objects[j];
            proof {
                assert(muts.take(j as int + 1).drop_last() =~= muts.take(j as int));
                assert(muts.take(j as int + 1).last() == muts[j as int]);
            }
            if contains_id(&input_ids, id) {
                let is_address_owned = owner.is_address_owned();
                let ghost before = self@.cache;
                owner_cache_insert(&mut self.address_owned_cache, id, (version, is_address_owned));
                proof {
                    let recs = post_execution_records(ids, muts.take(j as int));
                    assert(ids.contains(id));
                    lemma_submap_insert(self@.cache, before, cache0.union_prefer_right(recs), id, (version, is_address_owned));
                    assert(cache0.union_prefer_right(recs).insert(id, (version, is_address_owned))
                        =~= cache0.union_prefer_right(recs.insert(id, (version, is_address_owned))));
                }
            }
            j = j + 1;
        }
        proof {
            assert(muts.take(j as int) =~= muts);
        }
    }
}

} // verus!
