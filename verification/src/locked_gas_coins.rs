//! Gas coins locked by a sponsored transaction until it runs or its lock
//! expires. A lock covers the coins of one reservation; the queue of locks is
//! kept in order of unlock time, so that expired locks leave from its front.

use vstd::prelude::*;
use crate::base_types::{GasCoin, ObjectID, SuiAddress};
use crate::clock::{duration_as_millis, instant_elapsed, instant_now};
use crate::keyed::{has_key, keyed_map, keys_unique, lemma_entry_at_index, lemma_keyed_insert, lemma_keyed_remove,
    lemma_keyed_update, lemma_map_values_insert, lemma_map_values_remove, lemma_push_contains};

verus! {

/// The lock of the coins of one reservation.
#[derive(Debug)]
pub struct CoinLockInfo {
    pub sponsor: SuiAddress,
    /// The locked coins, as a set: order and repetition do not matter.
    pub objects: Vec<ObjectID>,
    /// When the lock expires, in milliseconds.
    pub unlock_time: u64,
}

/// A lock, as specification.
#[verifier::ext_equal]
pub struct LockView {
    pub sponsor: SuiAddress,
    pub objects: Set<ObjectID>,
    pub unlock_time: u64,
}

impl View for CoinLockInfo {
    type V = LockView;

    open spec fn view(&self) -> LockView {
        LockView { sponsor: self.sponsor, objects: self.objects@.to_set(), unlock_time: self.unlock_time }
    }
}

#[derive(Clone, Copy, Debug, PartialEq, Eq)]
pub enum LockError {
    /// No gas coin was named.
    NoGasCoin,
    /// The coin is not locked.
    NotLocked(ObjectID),
    /// The coins named are locked by different transactions.
    LockedByDifferentTransactions,
    /// The coins named are not exactly those of their lock.
    InconsistentWithLock,
}

#[verifier::ext_equal]
/// The locks, as specification: the lock of each locked coin, and the queue of
/// locks in order of unlock time.
pub struct LocksView {
    pub locked: Map<ObjectID, LockView>,
    pub queue: Seq<LockView>,
}

/// Coin `i` of `coins` stops a removal: it is not locked, or not by the lock of
/// the first coin.
pub open spec fn is_bad(locked: Map<ObjectID, LockView>, coins: Seq<ObjectID>, i: int) -> bool {
    !locked.contains_key(coins[i]) || locked[coins[i]] != locked[coins[0]]
}

/// The first coin, from index `i` on, that stops a removal.
pub open spec fn first_bad_from(locked: Map<ObjectID, LockView>, coins: Seq<ObjectID>, i: int) -> Option<int>
    decreases coins.len() - i,
{
    if i >= coins.len() || i < 0 {
        None
    } else if is_bad(locked, coins, i) {
        Some(i)
    } else {
        first_bad_from(locked, coins, i + 1)
    }
}

/// What removing the locks of `coins` answers: an error for an empty list, for
/// the first coin that is not locked, or not by the lock of the first coin, and
/// for a list that is not exactly the coins of that lock.
pub open spec fn remove_outcome(locked: Map<ObjectID, LockView>, coins: Seq<ObjectID>) -> Result<(), LockError> {
    if coins.len() == 0 {
        Err(LockError::NoGasCoin)
    } else {
        match first_bad_from(locked, coins, 0) {
            Some(i) => if !locked.contains_key(coins[i]) {
                Err(LockError::NotLocked(coins[i]))
            } else {
                Err(LockError::LockedByDifferentTransactions)
            },
            None => if locked[coins[0]].objects != coins.to_set() {
                Err(LockError::InconsistentWithLock)
            } else {
                Ok(())
            },
        }
    }
}

/// The locked coins after removing the locks of `coins`.
pub open spec fn after_remove(locked: Map<ObjectID, LockView>, coins: Seq<ObjectID>) -> Map<ObjectID, LockView> {
    if remove_outcome(locked, coins) is Ok {
        locked.remove_keys(coins.to_set())
    } else {
        locked
    }
}

/// The set `s` is nonempty and all of its coins are locked by one lock whose
/// coins are exactly `s`.
pub open spec fn removable(locked: Map<ObjectID, LockView>, s: Set<ObjectID>) -> bool {
    exists|l: LockView| #[trigger] lock_of_all(locked, s, l)
}

/// Every coin of `s` is locked by `l`, whose coins are `s`, and `s` is nonempty.
pub open spec fn lock_of_all(locked: Map<ObjectID, LockView>, s: Set<ObjectID>, l: LockView) -> bool {
    &&& l.objects == s
    &&& s != Set::<ObjectID>::empty()
    &&& forall|c: ObjectID| #[trigger] s.contains(c) ==> locked.contains_key(c) && locked[c] == l
}

/// The lock `l` taken on top of `locked`: each of its coins now points to it.
pub open spec fn with_lock(locked: Map<ObjectID, LockView>, l: LockView) -> Map<ObjectID, LockView> {
    locked.union_prefer_right(Map::new(|c: ObjectID| l.objects.contains(c), |c: ObjectID| l))
}

/// The queue with `l` put after every lock that expires no later.
pub open spec fn queue_insert(q: Seq<LockView>, l: LockView) -> Seq<LockView>
    decreases q.len(),
{
    if q.len() == 0 {
        seq![l]
    } else if q.last().unlock_time <= l.unlock_time {
        q.push(l)
    } else {
        queue_insert(q.drop_last(), l).push(q.last())
    }
}

/// The queue is in order of unlock time.
pub open spec fn queue_sorted(q: Seq<LockView>) -> bool {
    forall|i: int, j: int| 0 <= i <= j < q.len() ==> #[trigger] q[i].unlock_time <= #[trigger] q[j].unlock_time
}

/// Popping the locks whose time has come (`unlock_time <= now`) from the front
/// of the queue: each popped lock whose coins can all still be released
/// together is released, and the others have been released already. Gives the
/// locked coins, the queue and the released locks, in order.
pub open spec fn unlock_from(locked: Map<ObjectID, LockView>, queue: Seq<LockView>, now: u64)
    -> (Map<ObjectID, LockView>, Seq<LockView>, Seq<LockView>)
    decreases queue.len(),
{
    if queue.len() == 0 || queue[0].unlock_time > now {
        (locked, queue, Seq::empty())
    } else {
        let l = queue[0];
        let ok = removable(locked, l.objects);
        let locked1 = if ok { locked.remove_keys(l.objects) } else { locked };
        let rest = unlock_from(locked1, queue.drop_first(), now);
        (rest.0, rest.1, if ok { seq![l] + rest.2 } else { rest.2 })
    }
}

impl LocksView {
    /// The locks after a lock is taken on `coins` for `sponsor` until `unlock_time`.
    pub open spec fn add(self, sponsor: SuiAddress, coins: Seq<GasCoin>, unlock_time: u64) -> LocksView {
        let l = LockView { sponsor, objects: coins.map_values(|c: GasCoin| c.id()).to_set(), unlock_time };
        LocksView { locked: with_lock(self.locked, l), queue: queue_insert(self.queue, l) }
    }
}

proof fn lemma_first_bad_none(locked: Map<ObjectID, LockView>, coins: Seq<ObjectID>, i: int)
    requires
        0 <= i,
    ensures
        first_bad_from(locked, coins, i) is None <==> forall|j: int| i <= j < coins.len() ==> !#[trigger] is_bad(locked, coins, j),
        first_bad_from(locked, coins, i) matches Some(k) ==> i <= k < coins.len() && is_bad(locked, coins, k),
    decreases coins.len() - i,
{
    if i < coins.len() {
        lemma_first_bad_none(locked, coins, i + 1);
    }
}

/// Removing by a list succeeds exactly when its set of coins is removable, and
/// then removes those coins.
pub proof fn lemma_remove_by_set(locked: Map<ObjectID, LockView>, coins: Seq<ObjectID>)
    ensures
        remove_outcome(locked, coins) is Ok <==> removable(locked, coins.to_set()),
{
    lemma_first_bad_none(locked, coins, 0);
    let s = coins.to_set();
    if remove_outcome(locked, coins) is Ok {
        let l = locked[coins[0]];
        assert(s.contains(coins[0]));
        assert forall|c: ObjectID| #[trigger] s.contains(c) implies locked.contains_key(c) && locked[c] == l by {
            let j = choose|j: int| 0 <= j < coins.len() && coins[j] == c;
            assert(!is_bad(locked, coins, j));
        }
        assert(lock_of_all(locked, s, l));
    }
    if removable(locked, s) {
        let l = choose|l: LockView| #[trigger] lock_of_all(locked, s, l);
        if coins.len() == 0 {
            assert(s =~= Set::<ObjectID>::empty());
        } else {
            assert(s.contains(coins[0]));
            assert forall|j: int| 0 <= j < coins.len() implies !#[trigger] is_bad(locked, coins, j) by {
                assert(s.contains(coins[j]));
            }
        }
    }
}

/// Inserting into a sorted queue keeps it sorted and adds one lock.
pub proof fn lemma_queue_insert(q: Seq<LockView>, l: LockView)
    requires
        queue_sorted(q),
    ensures
        queue_sorted(queue_insert(q, l)),
        queue_insert(q, l).len() == q.len() + 1,
        forall|x: LockView| #[trigger] queue_insert(q, l).contains(x) <==> (q.contains(x) || x == l),
    decreases q.len(),
{
    if q.len() == 0 {
        assert(seq![l][0] == l);
    } else if q.last().unlock_time <= l.unlock_time {
        lemma_push_contains(q, l);
    } else {
        let p = q.drop_last();
        lemma_queue_insert(p, l);
        let r = queue_insert(p, l);
        lemma_push_contains(r, q.last());
        assert(q =~= p.push(q.last()));
        lemma_push_contains(p, q.last());
        assert forall|i: int| 0 <= i < r.len() implies #[trigger] r[i].unlock_time <= q.last().unlock_time by {
            assert(r.contains(r[i]));
            if r[i] != l {
                let j = choose|j: int| 0 <= j < p.len() && p[j] == r[i];
                assert(q[j] == p[j]);
            }
        }
        let t = r.push(q.last());
        assert forall|i: int, j: int| 0 <= i <= j < t.len() implies #[trigger] t[i].unlock_time <= #[trigger] t[j].unlock_time by {
            if j < r.len() {
                assert(t[i] == r[i] && t[j] == r[j]);
            } else if i < r.len() {
                assert(t[i] == r[i]);
            }
        }
    }
}

/// The first bad coin is found where the scan meets it.
proof fn lemma_first_bad_is(locked: Map<ObjectID, LockView>, coins: Seq<ObjectID>, k: int, i: int)
    requires
        0 <= k <= i < coins.len(),
        forall|j: int| k <= j < i ==> !#[trigger] is_bad(locked, coins, j),
        is_bad(locked, coins, i),
    ensures
        first_bad_from(locked, coins, k) == Some(i),
    decreases i - k,
{
    if k < i {
        lemma_first_bad_is(locked, coins, k + 1, i);
    }
}

/// Inserting at the first place whose lock expires later than `l` is the
/// insertion of the queue's order.
proof fn lemma_queue_insert_at(q: Seq<LockView>, l: LockView, p: int)
    requires
        queue_sorted(q),
        0 <= p <= q.len(),
        forall|j: int| 0 <= j < p ==> (#[trigger] q[j]).unlock_time <= l.unlock_time,
        forall|j: int| p <= j < q.len() ==> (#[trigger] q[j]).unlock_time > l.unlock_time,
    ensures
        queue_insert(q, l) == q.insert(p, l),
    decreases q.len(),
{
    if q.len() == 0 {
        assert(q.insert(p, l) =~= seq![l]);
    } else if q.last().unlock_time <= l.unlock_time {
        assert(p == q.len());
        assert(q.insert(p, l) =~= q.push(l));
    } else {
        let d = q.drop_last();
        assert(p < q.len());
        lemma_queue_insert_at(d, l, p);
        assert(queue_insert(d, l).push(q.last()) =~= q.insert(p, l));
    }
}

/// The key of an entry of the table of locked coins: its coin.
pub open spec fn entry_key() -> spec_fn((ObjectID, CoinLockInfo)) -> ObjectID {
    |e: (ObjectID, CoinLockInfo)| e.0
}

/// The lock of each locked coin, read from the table.
pub open spec fn lock_table(s: Seq<(ObjectID, CoinLockInfo)>) -> Map<ObjectID, LockView> {
    keyed_map(s, entry_key()).map_values(|e: (ObjectID, CoinLockInfo)| e.1@)
}

impl CoinLockInfo {
    /// A copy of the lock.
    pub fn duplicate(&self) -> (r: CoinLockInfo)
        ensures
            r@ == self@,
            r.objects@ == self.objects@,
    {
        let mut objects: Vec<ObjectID> = Vec::new();
        let mut i: usize = 0;
        while i < self.objects.len()
            invariant
                i <= self.objects@.len(),
                objects@ == self.objects@.take(i as int),
            decreases self.objects.len() - i,
        {
            objects.push(self.objects[i]);
            proof {
                assert(self.objects@.take(i as int + 1) =~= self.objects@.take(i as int).push(self.objects@[i as int]));
            }
            i = i + 1;
        }
        proof {
            assert(self.objects@.take(i as int) =~= self.objects@);
        }
        CoinLockInfo { sponsor: self.sponsor, objects, unlock_time: self.unlock_time }
    }
}

/// Whether every coin of `a` is among `b`.
fn all_among(a: &[ObjectID], b: &[ObjectID]) -> (r: bool)
    ensures
        r == (forall|i: int| 0 <= i < a@.len() ==> b@.contains(#[trigger] a@[i])),
{
    let mut i: usize = 0;
    while i < a.len()
        invariant
            i <= a@.len(),
            forall|k: int| 0 <= k < i ==> b@.contains(#[trigger] a@[k]),
        decreases a.len() - i,
    {
        let mut found = false;
        let mut j: usize = 0;
        while j < b.len()
            invariant
                j <= b@.len(),
                i < a@.len(),
                found ==> b@.contains(a@[i as int]),
                !found ==> forall|k: int| 0 <= k < j ==> b@[k] != a@[i as int],
            decreases b.len() - j,
        {
            if b[j] == a[i] {
                found = true;
            }
            j = j + 1;
        }
        if !found {
            proof {
                assert(!b@.contains(a@[i as int]));
            }
            return false;
        }
        i = i + 1;
    }
    true
}

/// Whether `a` and `b` hold the same coins, ignoring order and repetition.
fn same_objects(a: &[ObjectID], b: &[ObjectID]) -> (r: bool)
    ensures
        r == (a@.to_set() == b@.to_set()),
{
    let ab = all_among(a, b);
    let ba = all_among(b, a);
    proof {
        if ab && ba {
            assert forall|x: ObjectID| a@.to_set().contains(x) <==> b@.to_set().contains(x) by {
                if a@.contains(x) {
                    let i = choose|i: int| 0 <= i < a@.len() && a@[i] == x;
                    assert(b@.contains(a@[i]));
                }
                if b@.contains(x) {
                    let i = choose|i: int| 0 <= i < b@.len() && b@[i] == x;
                    assert(a@.contains(b@[i]));
                }
            }
            assert(a@.to_set() =~= b@.to_set());
        }
        if !ab {
            let i = choose|i: int| 0 <= i < a@.len() && !b@.contains(#[trigger] a@[i]);
            assert(a@.to_set().contains(a@[i]));
            assert(!b@.to_set().contains(a@[i]));
        }
        if !ba {
            let i = choose|i: int| 0 <= i < b@.len() && !a@.contains(#[trigger] b@[i]);
            assert(b@.to_set().contains(b@[i]));
            assert(!a@.to_set().contains(b@[i]));
        }
    }
    ab && ba
}

/// Whether two locks are the same: sponsor, coins and unlock time.
fn same_lock(a: &CoinLockInfo, b: &CoinLockInfo) -> (r: bool)
    ensures
        r == (a@ == b@),
{
    if a.sponsor != b.sponsor || a.unlock_time != b.unlock_time {
        return false;
    }
    same_objects(a.objects.as_slice(), b.objects.as_slice())
}

/// The entry of the table that holds coin `c`.
fn find_entry(entries: &Vec<(ObjectID, CoinLockInfo)>, c: ObjectID) -> (r: Option<usize>)
    requires
        keys_unique(entries@, entry_key()),
    ensures
        r matches Some(i) ==> i < entries@.len() && entries@[i as int].0 == c
            && lock_table(entries@).contains_key(c) && lock_table(entries@)[c] == entries@[i as int].1@,
        r is None ==> !lock_table(entries@).contains_key(c),
{
    let mut i: usize = 0;
    while i < entries.len()
        invariant
            i <= entries@.len(),
            keys_unique(entries@, entry_key()),
            forall|j: int| 0 <= j < i ==> (entry_key())(#[trigger] entries@[j]) != c,
        decreases entries.len() - i,
    {
        if entries[i].0 == c {
            proof {
                lemma_entry_at_index(entries@, entry_key(), i as int);
            }
            return Some(i);
        }
        i = i + 1;
    }
    None
}

/// Points coin `c` to `lock`, replacing the lock it had.
fn put_entry(entries: &mut Vec<(ObjectID, CoinLockInfo)>, c: ObjectID, lock: CoinLockInfo)
    requires
        keys_unique(old(entries)@, entry_key()),
    ensures
        keys_unique(final(entries)@, entry_key()),
        lock_table(final(entries)@) == lock_table(old(entries)@).insert(c, lock@),
{
    let ghost e0 = entries@;
    let ghost ev = (c, lock);
    match find_entry(entries, c) {
        Some(i) => {
            entries.set(i, (c, lock));
            proof {
                lemma_keyed_update(e0, entry_key(), i as int, ev);
                lemma_map_values_insert(keyed_map(e0, entry_key()), c, ev, |e: (ObjectID, CoinLockInfo)| e.1@);
            }
        },
        None => {
            entries.push((c, lock));
            proof {
                assert(e0.insert(e0.len() as int, ev) =~= entries@);
                assert(!has_key(e0, entry_key(), c));
                lemma_keyed_insert(e0, entry_key(), e0.len() as int, ev);
                lemma_map_values_insert(keyed_map(e0, entry_key()), c, ev, |e: (ObjectID, CoinLockInfo)| e.1@);
            }
        },
    }
}

/// Takes coin `c` out of the table.
fn drop_entry(entries: &mut Vec<(ObjectID, CoinLockInfo)>, c: ObjectID)
    requires
        keys_unique(old(entries)@, entry_key()),
    ensures
        keys_unique(final(entries)@, entry_key()),
        lock_table(final(entries)@) == lock_table(old(entries)@).remove(c),
{
    let ghost e0 = entries@;
    match find_entry(entries, c) {
        Some(i) => {
            entries.remove(i);
            proof {
                lemma_keyed_remove(e0, entry_key(), i as int);
                lemma_map_values_remove(keyed_map(e0, entry_key()), c, |e: (ObjectID, CoinLockInfo)| e.1@);
            }
        },
        None => {
            proof {
                assert(lock_table(e0).remove(c) =~= lock_table(e0));
            }
        },
    }
}

/// `a + b`, or the largest `u64` where the sum does not fit.
pub open spec fn saturating_sum(a: u64, b: u64) -> u64 {
    if a + b > u64::MAX { u64::MAX } else { (a + b) as u64 }
}

/// The locked coins: the lock of each, and the queue of locks in order of
/// unlock time, measured in milliseconds of the monotonic clock since the
/// table was made.
pub struct LockedGasCoinsInner {
    locked_gas_coins: Vec<(ObjectID, CoinLockInfo)>,
    unlock_queue: Vec<CoinLockInfo>,
    origin: std::time::Instant,
    /// The latest reading of the clock, in milliseconds since `origin`.
    last_reading: u64,
}

impl View for LockedGasCoinsInner {
    type V = LocksView;

    closed spec fn view(&self) -> LocksView {
        LocksView {
            locked: lock_table(self.locked_gas_coins@),
            queue: self.unlock_queue@.map_values(|l: CoinLockInfo| l@),
        }
    }
}

impl LockedGasCoinsInner {
    /// The table holds each coin once and its queue is in order of unlock time.
    pub closed spec fn wf(&self) -> bool {
        &&& keys_unique(self.locked_gas_coins@, entry_key())
        &&& queue_sorted(self@.queue)
    }

    /// No coin locked.
    pub fn new() -> (r: Self)
        ensures
            r.wf(),
            r@.locked == Map::<ObjectID, LockView>::empty(),
            r@.queue == Seq::<LockView>::empty(),
            r.spec_clock() == 0,
    {
        let r = LockedGasCoinsInner {
            locked_gas_coins: Vec::new(),
            unlock_queue: Vec::new(),
            origin: instant_now(),
            last_reading: 0,
        };
        proof {
            assert(r@.locked =~= Map::<ObjectID, LockView>::empty());
            assert(r@.queue =~= Seq::<LockView>::empty());
        }
        r
    }

    /// The latest reading of the monotonic clock.
    pub closed spec fn spec_clock(&self) -> u64 {
        self.last_reading
    }

    /// Milliseconds of the monotonic clock since the table was made. The clock
    /// never goes back, so neither does the reading, which is remembered.
    fn clock_millis(&mut self) -> (r: u64)
        ensures
            r >= old(self).spec_clock(),
            final(self).spec_clock() == r,
            final(self)@ == old(self)@,
            final(self).wf() == old(self).wf(),
    {
        let ms = duration_as_millis(&instant_elapsed(&self.origin));
        let reading: u64 = if ms > 0xFFFF_FFFF_FFFF_FFFFu128 {
            0xFFFF_FFFF_FFFF_FFFFu64
        } else {
            ms as u64
        };
        let r = if reading < self.last_reading { self.last_reading } else { reading };
        self.last_reading = r;
        r
    }

    /// Locks `gas_coins` for `sponsor` until `unlock_time`.
    fn lock_until(&mut self, sponsor: SuiAddress, gas_coins: &[GasCoin], unlock_time: u64)
        requires
            old(self).wf(),
        ensures
            final(self).wf(),
            final(self).spec_clock() == old(self).spec_clock(),
            final(self)@ == old(self)@.add(sponsor, gas_coins@, unlock_time),
    {
        let ghost ids = gas_coins@.map_values(|c: GasCoin| c.id());
        let mut objects: Vec<ObjectID> = Vec::new();
        let mut i: usize = 0;
        while i < gas_coins.len()
            invariant
                self.last_reading == old(self).last_reading,
                i <= gas_coins@.len(),
                ids == gas_coins@.map_values(|c: GasCoin| c.id()),
                objects@ == ids.take(i as int),
            decreases gas_coins.len() - i,
        {
            objects.push(gas_coins[i].object_ref.0);
            proof {
                assert(ids.take(i as int + 1) =~= ids.take(i as int).push(ids[i as int]));
            }
            i = i + 1;
        }
        proof {
            assert(ids.take(i as int) =~= ids);
        }
        let lock = CoinLockInfo { sponsor, objects, unlock_time };
        let ghost l = lock@;
        let ghost locked0 = self@.locked;
        let mut k: usize = 0;
        while k < gas_coins.len()
            invariant
                self.last_reading == old(self).last_reading,
                k <= gas_coins@.len(),
                ids == gas_coins@.map_values(|c: GasCoin| c.id()),
                lock@ == l,
                l.objects == ids.to_set(),
                keys_unique(self.locked_gas_coins@, entry_key()),
                self.unlock_queue@ == old(self).unlock_queue@,
                lock_table(self.locked_gas_coins@) == locked0.union_prefer_right(
                    Map::new(|c: ObjectID| ids.take(k as int).contains(c), |c: ObjectID| l)),
            decreases gas_coins.len() - k,
        {
            let c = gas_coins[k].object_ref.0;
            let copy = lock.duplicate();
            put_entry(&mut self.locked_gas_coins, c, copy);
            proof {
                assert(ids[k as int] == c);
                assert(ids.take(k as int + 1) =~= ids.take(k as int).push(c));
                lemma_push_contains(ids.take(k as int), c);
                assert(lock_table(self.locked_gas_coins@) =~= locked0.union_prefer_right(
                    Map::new(|x: ObjectID| ids.take(k as int + 1).contains(x), |x: ObjectID| l)));
            }
            k = k + 1;
        }
        proof {
            assert(ids.take(k as int) =~= ids);
            assert(lock_table(self.locked_gas_coins@) =~= with_lock(locked0, l));
        }
        let ghost q0 = self@.queue;
        let mut p: usize = 0;
        while p < self.unlock_queue.len() && self.unlock_queue[p].unlock_time <= unlock_time
            invariant
                self.last_reading == old(self).last_reading,
                p <= self.unlock_queue@.len(),
                self.unlock_queue@ == old(self).unlock_queue@,
                q0 == self.unlock_queue@.map_values(|x: CoinLockInfo| x@),
                queue_sorted(q0),
                forall|j: int| 0 <= j < p ==> (#[trigger] q0[j]).unlock_time <= unlock_time,
            decreases self.unlock_queue.len() - p,
        {
            p = p + 1;
        }
        proof {
            assert forall|j: int| p <= j < q0.len() implies (#[trigger] q0[j]).unlock_time > unlock_time by {
                assert(q0[p as int].unlock_time <= q0[j].unlock_time);
            }
            lemma_queue_insert_at(q0, l, p as int);
            lemma_queue_insert(q0, l);
        }
        let ghost uq = self.unlock_queue@;
        self.unlock_queue.insert(p, lock);
        proof {
            assert(self.unlock_queue@.map_values(|x: CoinLockInfo| x@) =~= q0.insert(p as int, l));
        }
    }

    /// Locks `gas_coins` for `sponsor` for `lock_duration_ms` from `now`.
    pub fn add_locked_coins_at(&mut self, sponsor: SuiAddress, gas_coins: &[GasCoin], lock_duration_ms: u64, now: u64)
        requires
            old(self).wf(),
            now + lock_duration_ms <= u64::MAX,
        ensures
            final(self).wf(),
            final(self).spec_clock() == old(self).spec_clock(),
            final(self)@ == old(self)@.add(sponsor, gas_coins@, (now + lock_duration_ms) as u64),
    {
        self.lock_until(sponsor, gas_coins, now + lock_duration_ms);
    }

    /// Locks `gas_coins` for `sponsor` for `lock_duration_ms` from now on the
    /// monotonic clock. A lock whose end lies past the clock's range never
    /// expires.
    pub fn add_locked_coins(&mut self, sponsor: SuiAddress, gas_coins: &[GasCoin], lock_duration_ms: u64)
        requires
            old(self).wf(),
        ensures
            final(self).wf(),
            exists|t: u64| t >= lock_duration_ms && final(self)@ == #[trigger] old(self)@.add(sponsor, gas_coins@, t),
            final(self).spec_clock() >= old(self).spec_clock(),
            final(self)@ == old(self)@.add(sponsor, gas_coins@, saturating_sum(final(self).spec_clock(), lock_duration_ms)),
    {
        let now = self.clock_millis();
        let t: u64 = if now > u64::MAX - lock_duration_ms { u64::MAX } else { now + lock_duration_ms };
        self.lock_until(sponsor, gas_coins, t);
    }

    /// Releases the coins `gas_coins`, which must be exactly the coins of one
    /// lock. The queue keeps the lock: it leaves when its time comes.
    pub fn remove_locked_coins(&mut self, gas_coins: &[ObjectID]) -> (r: Result<(), LockError>)
        requires
            old(self).wf(),
        ensures
            final(self).wf(),
            final(self).spec_clock() == old(self).spec_clock(),
            r == remove_outcome(old(self)@.locked, gas_coins@),
            final(self)@.locked == after_remove(old(self)@.locked, gas_coins@),
            final(self)@.queue == old(self)@.queue,
    {
        let ghost locked0 = self@.locked;
        let ghost coins = gas_coins@;
        if gas_coins.len() == 0 {
            return Err(LockError::NoGasCoin);
        }
        let mut first: usize = 0;
        let mut i: usize = 0;
        while i < gas_coins.len()
            invariant
                self.last_reading == old(self).last_reading,
                0 < coins.len(),
                coins == gas_coins@,
                self@ == old(self)@,
                self.wf(),
                locked0 == self@.locked,
                i <= coins.len(),
                i > 0 ==> first < self.locked_gas_coins@.len() && locked0.contains_key(coins[0])
                    && locked0[coins[0]] == self.locked_gas_coins@[first as int].1@,
                forall|j: int| 0 <= j < i ==> !#[trigger] is_bad(locked0, coins, j),
            decreases gas_coins.len() - i,
        {
            match find_entry(&self.locked_gas_coins, gas_coins[i]) {
                None => {
                    proof {
                        assert(is_bad(locked0, coins, i as int));
                        lemma_first_bad_is(locked0, coins, 0, i as int);
                    }
                    return Err(LockError::NotLocked(gas_coins[i]));
                },
                Some(j) => {
                    if i == 0 {
                        first = j;
                    } else if !same_lock(&self.locked_gas_coins[j].1, &self.locked_gas_coins[first].1) {
                        proof {
                            assert(is_bad(locked0, coins, i as int));
                            lemma_first_bad_is(locked0, coins, 0, i as int);
                        }
                        return Err(LockError::LockedByDifferentTransactions);
                    }
                },
            }
            i = i + 1;
        }
        proof {
            lemma_first_bad_none(locked0, coins, 0);
        }
        if !same_objects(self.locked_gas_coins[first].1.objects.as_slice(), gas_coins) {
            return Err(LockError::InconsistentWithLock);
        }
        let mut k: usize = 0;
        while k < gas_coins.len()
            invariant
                self.last_reading == old(self).last_reading,
                coins == gas_coins@,
                k <= coins.len(),
                keys_unique(self.locked_gas_coins@, entry_key()),
                self.unlock_queue@ == old(self).unlock_queue@,
                lock_table(self.locked_gas_coins@) == locked0.remove_keys(coins.take(k as int).to_set()),
            decreases gas_coins.len() - k,
        {
            drop_entry(&mut self.locked_gas_coins, gas_coins[k]);
            proof {
                assert(coins.take(k as int + 1) =~= coins.take(k as int).push(coins[k as int]));
                lemma_push_contains(coins.take(k as int), coins[k as int]);
                assert(lock_table(self.locked_gas_coins@) =~= locked0.remove_keys(coins.take(k as int + 1).to_set()));
            }
            k = k + 1;
        }
        proof {
            assert(coins.take(k as int) =~= coins);
        }
        Ok(())
    }

    /// Pops from the queue every lock whose time has come by `now` and releases
    /// its coins, unless they were released already; gives the released locks.
    pub fn unlock_if_expired_at(&mut self, now: u64) -> (r: Vec<CoinLockInfo>)
        requires
            old(self).wf(),
        ensures
            final(self).wf(),
            final(self).spec_clock() == old(self).spec_clock(),
            final(self)@.locked == unlock_from(old(self)@.locked, old(self)@.queue, now).0,
            final(self)@.queue == unlock_from(old(self)@.locked, old(self)@.queue, now).1,
            r@.map_values(|l: CoinLockInfo| l@) == unlock_from(old(self)@.locked, old(self)@.queue, now).2,
    {
        let ghost u0 = unlock_from(old(self)@.locked, old(self)@.queue, now);
        let mut released: Vec<CoinLockInfo> = Vec::new();
        while self.unlock_queue.len() > 0 && self.unlock_queue[0].unlock_time <= now
            invariant
                self.last_reading == old(self).last_reading,
                self.wf(),
                u0.0 == unlock_from(self@.locked, self@.queue, now).0,
                u0.1 == unlock_from(self@.locked, self@.queue, now).1,
                u0.2 == released@.map_values(|l: CoinLockInfo| l@) + unlock_from(self@.locked, self@.queue, now).2,
            decreases self.unlock_queue.len(),
        {
            let ghost before = self@;
            let lock = self.unlock_queue.remove(0);
            proof {
                assert(self@.queue =~= before.queue.drop_first());
                assert forall|i: int, j: int| 0 <= i <= j < self@.queue.len() implies
                    #[trigger] self@.queue[i].unlock_time <= #[trigger] self@.queue[j].unlock_time by {
                    assert(self@.queue[i] == before.queue[i + 1]);
                    assert(self@.queue[j] == before.queue[j + 1]);
                }
                assert(lock@ == before.queue[0]);
                lemma_remove_by_set(before.locked, lock.objects@);
            }
            let res = self.remove_locked_coins(lock.objects.as_slice());
            let ghost rel0 = released@.map_values(|l: CoinLockInfo| l@);
            if res.is_ok() {
                released.push(lock);
                proof {
                    assert(released@.map_values(|l: CoinLockInfo| l@) =~= rel0.push(lock@));
                    assert(rel0 + (seq![lock@] + unlock_from(self@.locked, self@.queue, now).2)
                        =~= rel0.push(lock@) + unlock_from(self@.locked, self@.queue, now).2);
                }
            }
        }
        released
    }

    /// Pops from the queue every lock whose time has come on the monotonic clock
    /// and releases its coins, unless they were released already; gives the
    /// released locks.
    pub fn unlock_if_expired(&mut self) -> (r: Vec<CoinLockInfo>)
        requires
            old(self).wf(),
        ensures
            final(self).wf(),
            final(self).spec_clock() >= old(self).spec_clock(),
            final(self)@.locked == unlock_from(old(self)@.locked, old(self)@.queue, final(self).spec_clock()).0,
            final(self)@.queue == unlock_from(old(self)@.locked, old(self)@.queue, final(self).spec_clock()).1,
            r@.map_values(|l: CoinLockInfo| l@) == unlock_from(old(self)@.locked, old(self)@.queue, final(self).spec_clock()).2,
            exists|now: u64| {
                &&& final(self)@.locked == (#[trigger] unlock_from(old(self)@.locked, old(self)@.queue, now)).0
                &&& final(self)@.queue == unlock_from(old(self)@.locked, old(self)@.queue, now).1
                &&& r@.map_values(|l: CoinLockInfo| l@) == unlock_from(old(self)@.locked, old(self)@.queue, now).2
            },
    {
        let now = self.clock_millis();
        self.unlock_if_expired_at(now)
    }
}

} // verus!
