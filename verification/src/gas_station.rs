//! The decisions of a gas station with several sponsors: which sponsor a
//! reservation is for, and which coins go back to which sponsor when their
//! locks expire.

use vstd::prelude::*;
use crate::base_types::{GasCoin, ObjectID, SuiAddress};
use crate::locked_gas_coins::CoinLockInfo;

verus! {

#[derive(Clone, Copy, Debug, PartialEq, Eq, Structural)]
pub enum SponsorError {
    /// The requested sponsor is not registered.
    NotRegistered(SuiAddress),
    /// No sponsor is registered.
    NoSponsorRegistered,
}

/// The sponsor of a reservation: the requested one if it is registered, else
/// the first registered one.
pub open spec fn spec_select_sponsor(request_sponsor: Option<SuiAddress>, registered: Seq<SuiAddress>)
    -> Result<SuiAddress, SponsorError>
{
    match request_sponsor {
        Some(s) => if registered.contains(s) { Ok(s) } else { Err(SponsorError::NotRegistered(s)) },
        None => if registered.len() > 0 { Ok(registered[0]) } else { Err(SponsorError::NoSponsorRegistered) },
    }
}

/// Which sponsor a reservation goes to: a requested sponsor is taken exactly
/// when it is one of the registered ones, and refused as not registered
/// otherwise; with no request, the first registered sponsor is taken, and
/// only an empty registry refuses. The sponsor taken is always registered.
pub proof fn law_select_sponsor(registered: Seq<SuiAddress>, s: SuiAddress)
    ensures
        forall|i: int| 0 <= i < registered.len() ==>
            spec_select_sponsor(Some(#[trigger] registered[i]), registered) == Ok::<SuiAddress, SponsorError>(registered[i]),
        (forall|i: int| 0 <= i < registered.len() ==> registered[i] != s)
            ==> spec_select_sponsor(Some(s), registered) == Err::<SuiAddress, SponsorError>(SponsorError::NotRegistered(s)),
        registered.len() > 0 ==> spec_select_sponsor(None, registered) == Ok::<SuiAddress, SponsorError>(registered[0]),
        registered.len() == 0 ==> spec_select_sponsor(None, registered)
            == Err::<SuiAddress, SponsorError>(SponsorError::NoSponsorRegistered),
        forall|req: Option<SuiAddress>| #[trigger] spec_select_sponsor(req, registered) is Ok
            ==> exists|i: int| 0 <= i < registered.len() && registered[i] == spec_select_sponsor(req, registered)->Ok_0,
{
    assert forall|i: int| 0 <= i < registered.len() implies
        spec_select_sponsor(Some(#[trigger] registered[i]), registered) == Ok::<SuiAddress, SponsorError>(registered[i]) by {
        assert(registered.contains(registered[i]));
    }
    assert forall|req: Option<SuiAddress>| #[trigger] spec_select_sponsor(req, registered) is Ok
        implies exists|i: int| 0 <= i < registered.len() && registered[i] == spec_select_sponsor(req, registered)->Ok_0 by {
        match req {
            Some(t) => {
                if registered.contains(t) {
                    let i = choose|i: int| 0 <= i < registered.len() && registered[i] == t;
                }
            },
            None => {
                assert(registered[0] == registered[0]);
            },
        }
    }
}

/// Picks the sponsor of a reservation.
pub fn select_sponsor(request_sponsor: Option<SuiAddress>, registered: &[SuiAddress]) -> (r: Result<SuiAddress, SponsorError>)
    ensures
        r == spec_select_sponsor(request_sponsor, registered@),
{
    match request_sponsor {
        Some(s) => {
            let mut i: usize = 0;
            while i < registered.len()
                invariant
                    i <= registered@.len(),
                    request_sponsor == Some(s),
                    forall|j: int| 0 <= j < i ==> registered@[j] != s,
                decreases registered.len() - i,
            {
                if registered[i] == s {
                    proof {
                        assert(registered@[i as int] == s);
                    }
                    return Ok(s);
                }
                i = i + 1;
            }
            proof {
                assert(!registered@.contains(s));
            }
            Err(SponsorError::NotRegistered(s))
        },
        None => {
            if registered.len() > 0 {
                Ok(registered[0])
            } else {
                Err(SponsorError::NoSponsorRegistered)
            }
        },
    }
}

/// The coins of the locks of `sponsor`, in the order of the locks.
pub open spec fn coins_of_sponsor(locks: Seq<CoinLockInfo>, sponsor: SuiAddress) -> Seq<ObjectID>
    decreases locks.len(),
{
    if locks.len() == 0 {
        Seq::empty()
    } else {
        coins_of_sponsor(locks.drop_last(), sponsor) + if locks.last().sponsor == sponsor {
            locks.last().objects@
        } else {
            Seq::empty()
        }
    }
}

/// The sponsors of the locks, each once, in the order they first appear.
pub open spec fn sponsors_of(locks: Seq<CoinLockInfo>) -> Seq<SuiAddress>
    decreases locks.len(),
{
    if locks.len() == 0 {
        Seq::empty()
    } else {
        let before = sponsors_of(locks.drop_last());
        if before.contains(locks.last().sponsor) { before } else { before.push(locks.last().sponsor) }
    }
}

/// Grouping released locks by sponsor loses and misplaces nothing: every
/// lock's sponsor has exactly one group, only those sponsors do, and a
/// sponsor's group holds exactly the coins of that sponsor's locks.
pub proof fn law_group_by_sponsor(locks: Seq<CoinLockInfo>)
    ensures
        sponsors_of(locks).no_duplicates(),
        forall|i: int| 0 <= i < locks.len() ==> sponsors_of(locks).contains(#[trigger] locks[i].sponsor),
        forall|s: SuiAddress| #[trigger] sponsors_of(locks).contains(s) ==>
            exists|i: int| 0 <= i < locks.len() && locks[i].sponsor == s,
        forall|i: int, j: int| 0 <= i < locks.len() && 0 <= j < locks[i].objects@.len() ==>
            coins_of_sponsor(locks, locks[i].sponsor).contains(#[trigger] locks[i].objects@[j]),
        forall|s: SuiAddress, c: ObjectID| #[trigger] coins_of_sponsor(locks, s).contains(c) ==>
            exists|i: int, j: int| 0 <= i < locks.len() && 0 <= j < locks[i].objects@.len()
                && locks[i].sponsor == s && locks[i].objects@[j] == c,
    decreases locks.len(),
{
    if locks.len() > 0 {
        let d = locks.drop_last();
        let n = locks.len() - 1;
        let last = locks[n];
        law_group_by_sponsor(d);
        assert forall|i: int| 0 <= i < n implies #[trigger] d[i] == locks[i] by {}
        let before = sponsors_of(d);
        assert forall|i: int| 0 <= i < locks.len() implies sponsors_of(locks).contains(#[trigger] locks[i].sponsor) by {
            if i < n {
                assert(d[i] == locks[i]);
                assert(before.contains(d[i].sponsor));
                if !before.contains(last.sponsor) {
                    let k = choose|k: int| 0 <= k < before.len() && before[k] == locks[i].sponsor;
                    assert(before.push(last.sponsor)[k] == locks[i].sponsor);
                }
            } else {
                if !before.contains(last.sponsor) {
                    assert(before.push(last.sponsor)[before.len() as int] == last.sponsor);
                }
            }
        }
        assert forall|s: SuiAddress| #[trigger] sponsors_of(locks).contains(s) implies
            exists|i: int| 0 <= i < locks.len() && locks[i].sponsor == s by {
            if before.contains(s) {
                let i = choose|i: int| 0 <= i < d.len() && d[i].sponsor == s;
                assert(locks[i] == d[i]);
            } else {
                let k = choose|k: int| 0 <= k < sponsors_of(locks).len() && sponsors_of(locks)[k] == s;
                assert(locks[n].sponsor == s);
            }
        }
        assert forall|i: int, j: int| 0 <= i < locks.len() && 0 <= j < locks[i].objects@.len() implies
            coins_of_sponsor(locks, locks[i].sponsor).contains(#[trigger] locks[i].objects@[j]) by {
            let sp = locks[i].sponsor;
            let pre = coins_of_sponsor(d, sp);
            let add = if last.sponsor == sp { last.objects@ } else { Seq::<ObjectID>::empty() };
            assert(coins_of_sponsor(locks, sp) == pre + add);
            if i < n {
                assert(d[i] == locks[i]);
                assert(d[i].objects@[j] == locks[i].objects@[j]);
                assert(pre.contains(locks[i].objects@[j]));
                let k = choose|k: int| 0 <= k < pre.len() && pre[k] == locks[i].objects@[j];
                assert((pre + add)[k] == pre[k]);
            } else {
                assert((pre + add)[pre.len() + j] == add[j]);
            }
        }
        assert forall|s: SuiAddress, c: ObjectID| #[trigger] coins_of_sponsor(locks, s).contains(c) implies
            exists|i: int, j: int| 0 <= i < locks.len() && 0 <= j < locks[i].objects@.len()
                && locks[i].sponsor == s && locks[i].objects@[j] == c by {
            let pre = coins_of_sponsor(d, s);
            let add = if last.sponsor == s { last.objects@ } else { Seq::<ObjectID>::empty() };
            assert(coins_of_sponsor(locks, s) == pre + add);
            let k = choose|k: int| 0 <= k < (pre + add).len() && (pre + add)[k] == c;
            if k < pre.len() {
                assert(pre[k] == c);
                assert(pre.contains(c));
                let (i, j) = choose|i: int, j: int| 0 <= i < d.len() && 0 <= j < d[i].objects@.len()
                    && d[i].sponsor == s && d[i].objects@[j] == c;
                assert(locks[i] == d[i]);
            } else {
                assert(add[k - pre.len()] == c);
                assert(locks[n].objects@[k - pre.len()] == c);
            }
        }
        if !before.contains(last.sponsor) {
            assert forall|a: int, b: int| 0 <= a < b < sponsors_of(locks).len() implies
                sponsors_of(locks)[a] != sponsors_of(locks)[b] by {
                if b == before.len() {
                    assert(before.contains(before[a]));
                }
            }
        }
    }
}

/// Groups the coins of released locks by sponsor: one entry per sponsor, in
/// the order sponsors first appear, holding the coins of that sponsor's locks
/// in order.
pub fn group_by_sponsor(locks: &[CoinLockInfo]) -> (r: Vec<(SuiAddress, Vec<ObjectID>)>)
    ensures
        r@.len() == sponsors_of(locks@).len(),
        forall|i: int| 0 <= i < r@.len() ==> (#[trigger] r@[i]).0 == sponsors_of(locks@)[i]
            && r@[i].1@ == coins_of_sponsor(locks@, r@[i].0),
{
    let mut r: Vec<(SuiAddress, Vec<ObjectID>)> = Vec::new();
    let mut i: usize = 0;
    while i < locks.len()
        invariant
            i <= locks@.len(),
            r@.len() == sponsors_of(locks@.take(i as int)).len(),
            forall|k: int| 0 <= k < r@.len() ==> (#[trigger] r@[k]).0 == sponsors_of(locks@.take(i as int))[k]
                && r@[k].1@ == coins_of_sponsor(locks@.take(i as int), r@[k].0),
            sponsors_of(locks@.take(i as int)).no_duplicates(),
        decreases locks.len() - i,
    {
        let ghost t0 = locks@.take(i as int);
        let ghost t1 = locks@.take(i as int + 1);
        let ghost s0 = sponsors_of(t0);
        proof {
            assert(t1.drop_last() =~= t0);
            assert(t1.last() == locks@[i as int]);
        }
        let sponsor = locks[i].sponsor;
        let mut k: usize = 0;
        while k < r.len() && r[k].0 != sponsor
            invariant
                k <= r@.len(),
                forall|j: int| 0 <= j < k ==> r@[j].0 != sponsor,
            decreases r.len() - k,
        {
            k = k + 1;
        }
        if k < r.len() {
            let ghost r0 = r@;
            let mut entry = r.remove(k);
            let mut j: usize = 0;
            let ghost objs0 = entry.1@;
            while j < locks[i].objects.len()
                invariant
                    i < locks@.len(),
                    j <= locks@[i as int].objects@.len(),
                    entry.1@ == objs0 + locks@[i as int].objects@.take(j as int),
                    entry.0 == sponsor,
                decreases locks@[i as int].objects@.len() - j,
            {
                entry.1.push(locks[i].objects[j]);
                proof {
                    assert(objs0 + locks@[i as int].objects@.take(j as int + 1)
                        =~= (objs0 + locks@[i as int].objects@.take(j as int)).push(locks@[i as int].objects@[j as int]));
                }
                j = j + 1;
            }
            proof {
                assert(locks@[i as int].objects@.take(j as int) =~= locks@[i as int].objects@);
                assert(s0.contains(sponsor)) by {
                    assert(s0[k as int] == sponsor);
                }
            }
            r.insert(k, entry);
            proof {
                assert(sponsors_of(t1) == s0);
                assert forall|m: int| 0 <= m < r@.len() implies (#[trigger] r@[m]).0 == sponsors_of(t1)[m]
                    && r@[m].1@ == coins_of_sponsor(t1, r@[m].0) by {
                    if m != k {
                        assert(r@[m] == r0[m]);
                        assert(r0[m].0 != sponsor) by {
                            assert(s0[m] != s0[k as int]);
                        }
                    }
                }
            }
        } else {
            let mut objs: Vec<ObjectID> = Vec::new();
            let mut j: usize = 0;
            while j < locks[i].objects.len()
                invariant
                    i < locks@.len(),
                    j <= locks@[i as int].objects@.len(),
                    objs@ == locks@[i as int].objects@.take(j as int),
                decreases locks@[i as int].objects@.len() - j,
            {
                objs.push(locks[i].objects[j]);
                proof {
                    assert(locks@[i as int].objects@.take(j as int + 1) =~= objs@);
                }
                j = j + 1;
            }
            proof {
                assert(locks@[i as int].objects@.take(j as int) =~= locks@[i as int].objects@);
                assert(!s0.contains(sponsor)) by {
                    if s0.contains(sponsor) {
                        let m = choose|m: int| 0 <= m < s0.len() && s0[m] == sponsor;
                        assert(r@[m].0 == sponsor);
                    }
                }
                lemma_coins_of_new_sponsor(t0, sponsor);
            }
            let ghost r0 = r@;
            r.push((sponsor, objs));
            proof {
                assert(sponsors_of(t1) == s0.push(sponsor));
                assert forall|m: int| 0 <= m < r@.len() implies (#[trigger] r@[m]).0 == sponsors_of(t1)[m]
                    && r@[m].1@ == coins_of_sponsor(t1, r@[m].0) by {
                    if m < r0.len() {
                        assert(r@[m] == r0[m]);
                        assert(r0[m].0 != sponsor);
                    }
                }
                assert forall|a: int, b: int| 0 <= a < b < sponsors_of(t1).len() implies
                    sponsors_of(t1)[a] != sponsors_of(t1)[b] by {
                    if b == s0.len() {
                        assert(s0.contains(s0[a]));
                    }
                }
            }
        }
        i = i + 1;
    }
    proof {
        assert(locks@.take(i as int) =~= locks@);
    }
    r
}

/// A sponsor that no lock names has no coins.
proof fn lemma_coins_of_new_sponsor(locks: Seq<CoinLockInfo>, sponsor: SuiAddress)
    requires
        !sponsors_of(locks).contains(sponsor),
    ensures
        coins_of_sponsor(locks, sponsor) == Seq::<ObjectID>::empty(),
    decreases locks.len(),
{
    if locks.len() > 0 {
        let before = sponsors_of(locks.drop_last());
        crate::keyed::lemma_push_contains(before, locks.last().sponsor);
        lemma_coins_of_new_sponsor(locks.drop_last(), sponsor);
        if locks.last().sponsor == sponsor {
            if !before.contains(locks.last().sponsor) {
                assert(before.push(sponsor)[before.len() as int] == sponsor);
            }
        }
        assert(coins_of_sponsor(locks, sponsor) =~= Seq::<ObjectID>::empty());
    }
}

/// The latest state of some gas coins: those still alive, and those gone.
pub struct UpdatedGasCoins {
    pub live_gas_coins: Vec<GasCoin>,
    pub deleted_gas_coins: Vec<ObjectID>,
}

/// The live coins among what was read for each identifier.
pub open spec fn live_of(read: Seq<Option<GasCoin>>) -> Seq<GasCoin>
    decreases read.len(),
{
    if read.len() == 0 {
        Seq::empty()
    } else {
        match read.last() {
            Some(c) => live_of(read.drop_last()).push(c),
            None => live_of(read.drop_last()),
        }
    }
}

/// The identifiers whose read gave no gas coin.
pub open spec fn deleted_of(ids: Seq<ObjectID>, read: Seq<Option<GasCoin>>) -> Seq<ObjectID>
    decreases read.len(),
{
    if read.len() == 0 || ids.len() == 0 {
        Seq::empty()
    } else {
        let rest = deleted_of(ids.drop_last(), read.drop_last());
        match read.last() {
            Some(_) => rest,
            None => rest.push(ids.last()),
        }
    }
}

/// Sorting what was read loses and invents nothing: each coin read is among
/// the live coins, each identifier read as no gas coin is among the deleted
/// ones, every live coin and every deleted identifier comes from such a
/// read, and there are as many of both together as reads.
pub proof fn law_partition_latest_gas(object_ids: Seq<ObjectID>, read: Seq<Option<GasCoin>>)
    requires
        object_ids.len() == read.len(),
    ensures
        live_of(read).len() + deleted_of(object_ids, read).len() == read.len(),
        forall|i: int| 0 <= i < read.len() && (#[trigger] read[i]) is Some ==> live_of(read).contains(read[i]->Some_0),
        forall|i: int| 0 <= i < read.len() && (#[trigger] read[i]) is None ==> deleted_of(object_ids, read).contains(object_ids[i]),
        forall|c: GasCoin| #[trigger] live_of(read).contains(c) ==> exists|i: int| 0 <= i < read.len() && read[i] == Some(c),
        forall|x: ObjectID| #[trigger] deleted_of(object_ids, read).contains(x) ==>
            exists|i: int| 0 <= i < read.len() && read[i] is None && object_ids[i] == x,
    decreases read.len(),
{
    if read.len() > 0 {
        let ids0 = object_ids.drop_last();
        let r0 = read.drop_last();
        let n = read.len() - 1;
        law_partition_latest_gas(ids0, r0);
        assert forall|i: int| 0 <= i < n implies #[trigger] r0[i] == read[i] && ids0[i] == object_ids[i] by {}
        let l0 = live_of(r0);
        let d0 = deleted_of(ids0, r0);
        assert forall|i: int| 0 <= i < read.len() && (#[trigger] read[i]) is Some implies
            live_of(read).contains(read[i]->Some_0) by {
            if i < n {
                assert(r0[i] == read[i]);
                let k = choose|k: int| 0 <= k < l0.len() && l0[k] == read[i]->Some_0;
                if read[n] is Some {
                    assert(l0.push(read[n]->Some_0)[k] == l0[k]);
                }
            } else {
                assert(l0.push(read[n]->Some_0)[l0.len() as int] == read[n]->Some_0);
            }
        }
        assert forall|i: int| 0 <= i < read.len() && (#[trigger] read[i]) is None implies
            deleted_of(object_ids, read).contains(object_ids[i]) by {
            if i < n {
                assert(r0[i] == read[i]);
                let k = choose|k: int| 0 <= k < d0.len() && d0[k] == ids0[i];
                if read[n] is None {
                    assert(d0.push(object_ids[n])[k] == d0[k]);
                }
            } else {
                assert(d0.push(object_ids[n])[d0.len() as int] == object_ids[n]);
            }
        }
        assert forall|c: GasCoin| #[trigger] live_of(read).contains(c) implies
            exists|i: int| 0 <= i < read.len() && read[i] == Some(c) by {
            let k = choose|k: int| 0 <= k < live_of(read).len() && live_of(read)[k] == c;
            if k < l0.len() {
                assert(live_of(read)[k] == l0[k]);
                assert(l0.contains(c));
                let i = choose|i: int| 0 <= i < r0.len() && r0[i] == Some(c);
                assert(read[i] == r0[i]);
            } else {
                assert(read[n] == Some(c));
            }
        }
        assert forall|x: ObjectID| #[trigger] deleted_of(object_ids, read).contains(x) implies
            exists|i: int| 0 <= i < read.len() && read[i] is None && object_ids[i] == x by {
            let k = choose|k: int| 0 <= k < deleted_of(object_ids, read).len() && deleted_of(object_ids, read)[k] == x;
            if k < d0.len() {
                assert(deleted_of(object_ids, read)[k] == d0[k]);
                assert(d0.contains(x));
                let i = choose|i: int| 0 <= i < r0.len() && r0[i] is None && ids0[i] == x;
                assert(read[i] == r0[i]);
            } else {
                assert(read[n] is None && object_ids[n] == x);
            }
        }
    }
}

/// Every coin in `live_of(read)` was read under an identifier of `object_ids`
/// and carries that identifier.
proof fn lemma_live_ids(object_ids: Seq<ObjectID>, read: Seq<Option<GasCoin>>)
    requires
        object_ids.len() == read.len(),
        forall|i: int| 0 <= i < read.len() ==> (#[trigger] read[i] matches Some(c) ==> c.object_ref.0 == object_ids[i]),
    ensures
        forall|j: int| 0 <= j < live_of(read).len() ==> object_ids.contains((#[trigger] live_of(read)[j]).object_ref.0),
    decreases read.len(),
{
    if read.len() > 0 {
        let ids0 = object_ids.drop_last();
        let r0 = read.drop_last();
        assert forall|i: int| 0 <= i < r0.len() implies (#[trigger] r0[i] matches Some(c) ==> c.object_ref.0 == ids0[i]) by {
            assert(read[i] == r0[i]);
        }
        lemma_live_ids(ids0, r0);
        let n = read.len() - 1;
        assert forall|j: int| 0 <= j < live_of(read).len() implies object_ids.contains((#[trigger] live_of(read)[j]).object_ref.0) by {
            if j < live_of(r0).len() {
                let k = choose|k: int| 0 <= k < ids0.len() && ids0[k] == live_of(r0)[j].object_ref.0;
                assert(object_ids[k] == ids0[k]);
            } else {
                assert(read[n] matches Some(c) && c.object_ref.0 == object_ids[n]);
            }
        }
    }
}

/// Sorts what was read of each coin (`read[i]` for `object_ids[i]`, which
/// carries that identifier when it is a gas coin): a gas coin read is alive,
/// an object that reads as no gas coin is gone. Every live coin is one of the
/// coins asked for.
pub fn partition_latest_gas(object_ids: &[ObjectID], read: &[Option<GasCoin>]) -> (r: UpdatedGasCoins)
    requires
        object_ids@.len() == read@.len(),
        forall|i: int| 0 <= i < read@.len() ==> (#[trigger] read@[i] matches Some(c) ==> c.object_ref.0 == object_ids@[i]),
    ensures
        r.live_gas_coins@ == live_of(read@),
        r.deleted_gas_coins@ == deleted_of(object_ids@, read@),
        forall|j: int| 0 <= j < r.live_gas_coins@.len() ==> object_ids@.contains((#[trigger] r.live_gas_coins@[j]).object_ref.0),
{
    proof {
        lemma_live_ids(object_ids@, read@);
    }
    let mut live: Vec<GasCoin> = Vec::new();
    let mut deleted: Vec<ObjectID> = Vec::new();
    let mut i: usize = 0;
    while i < read.len()
        invariant
            i <= read@.len(),
            object_ids@.len() == read@.len(),
            live@ == live_of(read@.take(i as int)),
            deleted@ == deleted_of(object_ids@.take(i as int), read@.take(i as int)),
        decreases read.len() - i,
    {
        proof {
            assert(read@.take(i as int + 1).drop_last() =~= read@.take(i as int));
            assert(object_ids@.take(i as int + 1).drop_last() =~= object_ids@.take(i as int));
            assert(read@.take(i as int + 1).last() == read@[i as int]);
            assert(object_ids@.take(i as int + 1).last() == object_ids@[i as int]);
        }
        match read[i] {
            Some(c) => {
                live.push(c);
            },
            None => {
                deleted.push(object_ids[i]);
            },
        }
        i = i + 1;
    }
    proof {
        assert(read@.take(i as int) =~= read@);
        assert(object_ids@.take(i as int) =~= object_ids@);
    }
    UpdatedGasCoins { live_gas_coins: live, deleted_gas_coins: deleted }
}

} // verus!
