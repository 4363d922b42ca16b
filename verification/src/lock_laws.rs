//! What holds of the locked coins across operations.

use vstd::prelude::*;
use crate::base_types::{GasCoin, ObjectID, SuiAddress};
use crate::object_locks::{classify, fetched_outcome, first_locked, lemma_first_locked_none, LockPlan, Owner};
use crate::locked_gas_coins::{
    after_remove, first_bad_from, lemma_queue_insert, saturating_sum, with_lock, lemma_remove_by_set, lock_of_all, queue_sorted, remove_outcome, removable, unlock_from,
    LockError, LockView, LocksView,
};

verus! {

/// Coins locked together are released together: after a lock is taken on a
/// nonempty list of coins, naming exactly those coins, in any order and with
/// any repetition, releases the lock, and none of them stays locked; the queue
/// of locks is left as it was.
pub proof fn law_lock_then_release(
    v: LocksView,
    sponsor: SuiAddress,
    coins: Seq<GasCoin>,
    unlock_time: u64,
    names: Seq<ObjectID>,
)
    requires
        coins.len() > 0,
        names.to_set() == coins.map_values(|c: GasCoin| c.id()).to_set(),
    ensures
        remove_outcome(v.add(sponsor, coins, unlock_time).locked, names) is Ok,
        forall|c: ObjectID| #[trigger] names.contains(c) ==>
            !after_remove(v.add(sponsor, coins, unlock_time).locked, names).contains_key(c),
{
    let ids = coins.map_values(|c: GasCoin| c.id());
    let l = LockView { sponsor, objects: ids.to_set(), unlock_time };
    let w = v.add(sponsor, coins, unlock_time);
    assert(ids.to_set().contains(ids[0]));
    assert(lock_of_all(w.locked, names.to_set(), l));
    lemma_remove_by_set(w.locked, names);
}

/// Locking coins and releasing them restores the table: when none of the coins
/// was locked, taking a lock on them and then releasing them by name leaves
/// the locked coins as they were; releasing them a second time is refused,
/// the first coin named not being locked; and releasing only some of them is
/// refused and changes nothing.
pub proof fn law_lock_release_round_trip(
    v: LocksView,
    sponsor: SuiAddress,
    coins: Seq<GasCoin>,
    unlock_time: u64,
    names: Seq<ObjectID>,
    part: Seq<ObjectID>,
)
    requires
        coins.len() > 0,
        names.to_set() == coins.map_values(|c: GasCoin| c.id()).to_set(),
        forall|c: ObjectID| #[trigger] names.contains(c) ==> !v.locked.contains_key(c),
        part.len() > 0,
        part.to_set() != names.to_set(),
        part.to_set().subset_of(names.to_set()),
    ensures
        after_remove(v.add(sponsor, coins, unlock_time).locked, names) == v.locked,
        names.len() > 0,
        remove_outcome(after_remove(v.add(sponsor, coins, unlock_time).locked, names), names)
            == Err::<(), LockError>(LockError::NotLocked(names[0])),
        remove_outcome(v.add(sponsor, coins, unlock_time).locked, part) is Err,
        after_remove(v.add(sponsor, coins, unlock_time).locked, part) == v.add(sponsor, coins, unlock_time).locked,
{
    let ids = coins.map_values(|c: GasCoin| c.id());
    let s = ids.to_set();
    let l = LockView { sponsor, objects: s, unlock_time };
    let w = v.add(sponsor, coins, unlock_time);
    law_lock_then_release(v, sponsor, coins, unlock_time, names);
    assert(s.contains(ids[0]));
    assert(names.len() > 0) by {
        if names.len() == 0 {
            assert(names.to_set().contains(ids[0]));
        }
    }
    assert(w.locked.remove_keys(names.to_set()) =~= v.locked) by {
        assert forall|c: ObjectID| names.to_set().contains(c) implies !v.locked.contains_key(c) by {
            assert(names.contains(c));
        }
    }
    assert(names.to_set().contains(names[0]));
    assert(names.contains(names[0]));
    assert(first_bad_from(v.locked, names, 0) == Some(0int));
    lemma_remove_by_set(w.locked, part);
    let ps = part.to_set();
    if removable(w.locked, ps) {
        let l2 = choose|l2: LockView| #[trigger] lock_of_all(w.locked, ps, l2);
        assert(ps.contains(part[0]));
        let c = part[0];
        assert(names.to_set().contains(c));
        assert(w.locked[c] == l);
        assert(ps == s);
    }
}

/// An expiry sweep before a lock's time leaves it alone: neither released nor
/// its coins freed, unless a lock due by then names exactly its coins.
proof fn lemma_sweep_keeps_lock(locked: Map<ObjectID, LockView>, queue: Seq<LockView>, now: u64, l: LockView)
    requires
        now < l.unlock_time,
        forall|c: ObjectID| #[trigger] l.objects.contains(c) ==> locked.contains_key(c) && locked[c] == l,
        forall|k: int| 0 <= k < queue.len() && (#[trigger] queue[k]).unlock_time <= now ==> queue[k].objects != l.objects,
    ensures
        !unlock_from(locked, queue, now).2.contains(l),
        forall|c: ObjectID| #[trigger] l.objects.contains(c) ==>
            unlock_from(locked, queue, now).0.contains_key(c) && unlock_from(locked, queue, now).0[c] == l,
    decreases queue.len(),
{
    if queue.len() > 0 && queue[0].unlock_time <= now {
        let l0 = queue[0];
        let ok = removable(locked, l0.objects);
        let locked1 = if ok { locked.remove_keys(l0.objects) } else { locked };
        if ok {
            let l2 = choose|l2: LockView| #[trigger] lock_of_all(locked, l0.objects, l2);
            assert forall|c: ObjectID| #[trigger] l.objects.contains(c) implies !l0.objects.contains(c) by {
                if l0.objects.contains(c) {
                    assert(locked[c] == l2);
                    assert(l0.objects == l.objects);
                }
            }
        }
        let rest = queue.drop_first();
        assert forall|k: int| 0 <= k < rest.len() && (#[trigger] rest[k]).unlock_time <= now implies
            rest[k].objects != l.objects by {
            assert(rest[k] == queue[k + 1]);
        }
        lemma_sweep_keeps_lock(locked1, rest, now, l);
        let u = unlock_from(locked1, rest, now);
        if ok {
            assert(seq![l0] + u.2 == unlock_from(locked, queue, now).2);
            if (seq![l0] + u.2).contains(l) {
                let k = choose|k: int| 0 <= k < (seq![l0] + u.2).len() && (seq![l0] + u.2)[k] == l;
                if k > 0 {
                    assert(u.2[k - 1] == l);
                }
            }
        }
    }
}

/// A lock lasts its whole duration: a lock taken when the clock reads `clock`,
/// for `duration` milliseconds, unlocks at `clock + duration` (the largest
/// time where that does not fit); an expiry sweep at any reading before then
/// neither releases it nor frees its coins, unless a lock due by then names
/// exactly the same coins (an earlier lock on them, still queued).
pub proof fn law_lock_lasts_its_duration(
    v: LocksView,
    sponsor: SuiAddress,
    coins: Seq<GasCoin>,
    clock: u64,
    duration: u64,
    now: u64,
)
    requires
        queue_sorted(v.queue),
        now < saturating_sum(clock, duration),
        forall|k: int| 0 <= k < v.queue.len() && (#[trigger] v.queue[k]).unlock_time <= now
            ==> v.queue[k].objects != coins.map_values(|c: GasCoin| c.id()).to_set(),
    ensures
        ({
            let l = LockView {
                sponsor,
                objects: coins.map_values(|c: GasCoin| c.id()).to_set(),
                unlock_time: saturating_sum(clock, duration),
            };
            let w = v.add(sponsor, coins, saturating_sum(clock, duration));
            &&& saturating_sum(clock, duration) >= clock
            &&& (clock + duration <= u64::MAX ==> saturating_sum(clock, duration) == clock + duration)
            &&& !unlock_from(w.locked, w.queue, now).2.contains(l)
            &&& forall|c: ObjectID| #[trigger] l.objects.contains(c) ==>
                unlock_from(w.locked, w.queue, now).0.contains_key(c) && unlock_from(w.locked, w.queue, now).0[c] == l
        }),
{
    let t = saturating_sum(clock, duration);
    let l = LockView { sponsor, objects: coins.map_values(|c: GasCoin| c.id()).to_set(), unlock_time: t };
    let w = v.add(sponsor, coins, t);
    lemma_queue_insert(v.queue, l);
    assert(w.locked == with_lock(v.locked, l));
    assert forall|k: int| 0 <= k < w.queue.len() && (#[trigger] w.queue[k]).unlock_time <= now implies
        w.queue[k].objects != l.objects by {
        assert(w.queue.contains(w.queue[k]));
        if w.queue[k] != l {
            let k2 = choose|k2: int| 0 <= k2 < v.queue.len() && v.queue[k2] == w.queue[k];
            assert(v.queue[k2].unlock_time <= now);
        }
    }
    lemma_sweep_keeps_lock(w.locked, w.queue, now, l);
}

/// A release succeeds exactly when the coins named are, as a set, all the
/// coins of one lock, and at least one is named.
pub proof fn law_release_needs_whole_lock(locked: Map<ObjectID, LockView>, names: Seq<ObjectID>)
    ensures
        remove_outcome(locked, names) is Ok <==> removable(locked, names.to_set()),
        !(remove_outcome(locked, names) is Ok) ==> after_remove(locked, names) == locked,
{
    lemma_remove_by_set(locked, names);
}

/// A release that names no coin is refused as such.
pub proof fn law_release_of_nothing_refused(locked: Map<ObjectID, LockView>)
    ensures
        remove_outcome(locked, Seq::<ObjectID>::empty()) == Err::<(), LockError>(LockError::NoGasCoin),
{
}

/// Expired locks leave the queue, and only they: every lock released at `now`
/// had its unlock time no later than `now`, every lock left in the queue has
/// it later, the queue left is what followed the popped locks, no coin becomes
/// locked, and no coin of a released lock stays locked.
pub proof fn law_unlock_releases_expired(locked: Map<ObjectID, LockView>, queue: Seq<LockView>, now: u64)
    requires
        queue_sorted(queue),
    ensures
        forall|i: int| 0 <= i < unlock_from(locked, queue, now).2.len() ==>
            (#[trigger] unlock_from(locked, queue, now).2[i]).unlock_time <= now,
        forall|i: int| 0 <= i < unlock_from(locked, queue, now).1.len() ==>
            (#[trigger] unlock_from(locked, queue, now).1[i]).unlock_time > now,
        unlock_from(locked, queue, now).1.len() <= queue.len(),
        unlock_from(locked, queue, now).1 == queue.skip(queue.len() - unlock_from(locked, queue, now).1.len()),
        forall|c: ObjectID| #[trigger] unlock_from(locked, queue, now).0.contains_key(c) ==>
            locked.contains_key(c) && unlock_from(locked, queue, now).0[c] == locked[c],
        forall|i: int, c: ObjectID| 0 <= i < unlock_from(locked, queue, now).2.len()
            && #[trigger] unlock_from(locked, queue, now).2[i].objects.contains(c) ==>
            !unlock_from(locked, queue, now).0.contains_key(c),
    decreases queue.len(),
{
    let u = unlock_from(locked, queue, now);
    if queue.len() == 0 || queue[0].unlock_time > now {
        assert forall|i: int| 0 <= i < queue.len() implies (#[trigger] queue[i]).unlock_time > now by {
            assert(queue[0].unlock_time <= queue[i].unlock_time);
        }
        assert(queue.skip(0) =~= queue);
    } else {
        let l = queue[0];
        let ok = removable(locked, l.objects);
        let locked1 = if ok { locked.remove_keys(l.objects) } else { locked };
        let rest = queue.drop_first();
        assert forall|i: int, j: int| 0 <= i <= j < rest.len() implies
            #[trigger] rest[i].unlock_time <= #[trigger] rest[j].unlock_time by {
            assert(rest[i] == queue[i + 1] && rest[j] == queue[j + 1]);
        }
        law_unlock_releases_expired(locked1, rest, now);
        let r = unlock_from(locked1, rest, now);
        assert(rest.skip(rest.len() - r.1.len()) =~= queue.skip(queue.len() - r.1.len()));
        if ok {
            assert forall|i: int, c: ObjectID| 0 <= i < u.2.len() && #[trigger] u.2[i].objects.contains(c)
                implies !u.0.contains_key(c) by {
                if i == 0 {
                    assert(u.2[0] == l);
                    assert(!locked1.contains_key(c));
                } else {
                    assert(u.2[i] == r.2[i - 1]);
                }
            }
            assert forall|i: int| 0 <= i < u.2.len() implies (#[trigger] u.2[i]).unlock_time <= now by {
                if i > 0 {
                    assert(u.2[i] == r.2[i - 1]);
                }
            }
        }
    }
}

/// No object is locked twice: object locks are taken only when none of the
/// objects is locked, and a refusal names a locked object of the request.
pub proof fn law_object_locks_exclusive(locked: Set<ObjectID>, owned: Seq<ObjectID>)
    ensures
        first_locked(locked, owned) is None <==> owned.to_set().disjoint(locked),
        first_locked(locked, owned) matches Some(id) ==> locked.contains(id) && owned.contains(id),
{
    lemma_first_locked_none(locked, owned);
    if first_locked(locked, owned) is None {
        assert forall|x: ObjectID| owned.to_set().contains(x) implies !locked.contains(x) by {
            let i = choose|i: int| 0 <= i < owned.len() && owned[i] == x;
            assert(!locked.contains(owned[i]));
        }
    } else {
        if let Some(id) = first_locked(locked, owned) {
            assert(owned.to_set().contains(id));
        }
    }
}

/// Acquiring object locks never takes a held object. With `locked` held, the
/// objects that `finish_locks` would lock for `plan` and `fetched` (the owned
/// objects of the plan, then the address-owned ones fetched) are granted
/// exactly when none of them is held, and an owned object of the plan that is
/// held always refuses the grant.
pub proof fn law_lock_acquisition(locked: Set<ObjectID>, plan: LockPlan, fetched: Seq<(ObjectID, Owner, u64)>)
    requires
        fetched_outcome(plan.query(), fetched) is Ok,
    ensures
        ({
            let objects = plan.owned@ + fetched_outcome(plan.query(), fetched)->Ok_0;
            &&& first_locked(locked, objects) is None <==> objects.to_set().disjoint(locked)
            &&& forall|x: ObjectID| locked.contains(x) && plan.owned@.contains(x)
                ==> first_locked(locked, objects) is Some
        }),
{
    let objects = plan.owned@ + fetched_outcome(plan.query(), fetched)->Ok_0;
    law_object_locks_exclusive(locked, objects);
    assert forall|x: ObjectID| locked.contains(x) && plan.owned@.contains(x)
        implies first_locked(locked, objects) is Some by {
        let i = choose|i: int| 0 <= i < plan.owned@.len() && plan.owned@[i] == x;
        assert(objects[i] == x);
        assert(objects.to_set().contains(x));
    }
}

/// Releasing the locks of a transaction gives back the locked set it found:
/// taking locks on objects none of which was locked, then releasing them,
/// leaves the set as it was.
pub proof fn law_object_lock_then_release(locked: Set<ObjectID>, owned: Seq<ObjectID>)
    requires
        first_locked(locked, owned) is None,
    ensures
        (locked + owned.to_set()) - owned.to_set() == locked,
{
    law_object_locks_exclusive(locked, owned);
    assert((locked + owned.to_set()) - owned.to_set() =~= locked);
}

/// An object given at an older version than the cached one is refused, unless
/// an earlier object was refused first.
pub proof fn law_older_version_refused(
    objects: Seq<(ObjectID, u64)>,
    cached: Seq<Option<(u64, bool)>>,
    i: int,
)
    requires
        objects.len() == cached.len(),
        0 <= i < objects.len(),
        cached[i] matches Some((v, _)) && objects[i].1 < v,
    ensures
        classify(objects, cached) is Err,
    decreases objects.len(),
{
    if i < objects.len() - 1 {
        let d = objects.drop_last();
        let c = cached.take(objects.len() - 1);
        assert(d[i] == objects[i]);
        assert(c[i] == cached[i]);
        law_older_version_refused(d, c, i);
    }
}

} // verus!
