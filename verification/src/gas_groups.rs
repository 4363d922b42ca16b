//! Groups of gas coins: those reserved together, and those handed back together
//! after a transaction ran.

use vstd::prelude::*;
use crate::base_types::{ExpirationTimeMs, GasCoin, GasGroupKey, ObjectID};

verus! {

/// The coins of one reservation after the transaction that used them ran:
/// the coins that still exist, with their new references and balances, and the
/// identifiers of those that were deleted.
#[derive(Clone, Debug)]
pub struct UpdatedGasGroup {
    pub updated_gas_coins: Vec<GasCoin>,
    pub deleted_gas_coins: Vec<ObjectID>,
}

/// A reservation: the identifiers of the coins reserved together, and when the
/// reservation expires.
#[derive(Clone, Debug)]
pub struct ReservedGasGroup {
    pub objects: Vec<ObjectID>,
    pub expiration_time: ExpirationTimeMs,
}

/// The identifiers of a sequence of gas coins.
pub open spec fn coin_ids(coins: Seq<GasCoin>) -> Seq<ObjectID> {
    coins.map_values(|c: GasCoin| c.object_ref.0)
}

/// `r` is the smallest identifier of `ids`.
pub open spec fn is_min_id(r: ObjectID, ids: Seq<ObjectID>) -> bool {
    &&& ids.contains(r)
    &&& forall|i: int| 0 <= i < ids.len() ==> r.num() <= #[trigger] ids[i].num()
}

/// The identifiers are strictly increasing.
pub open spec fn ids_sorted(ids: Seq<ObjectID>) -> bool {
    forall|i: int, j: int| 0 <= i < j < ids.len() ==> #[trigger] ids[i].num() < #[trigger] ids[j].num()
}

/// The smallest identifier of a nonempty sequence.
pub fn min_object_id(ids: &Vec<ObjectID>) -> (r: ObjectID)
    requires
        ids.len() > 0,
    ensures
        is_min_id(r, ids@),
{
    let mut best = ids[0];
    let mut i: usize = 1;
    assert(ids@.subrange(0, 1)[0] == best);
    while i < ids.len()
        invariant
            1 <= i <= ids.len(),
            ids@.subrange(0, i as int).contains(best),
            forall|k: int| 0 <= k < i ==> best.num() <= #[trigger] ids@[k].num(),
        decreases ids.len() - i,
    {
        let cand = ids[i];
        if cand.lt(&best) {
            best = cand;
            assert(ids@.subrange(0, i + 1)[i as int] == cand);
        } else {
            assert(ids@.subrange(0, i as int) =~= ids@.subrange(0, i + 1).subrange(0, i as int));
            proof {
                let k = choose|k: int| 0 <= k < i && ids@.subrange(0, i as int)[k] == best;
                assert(ids@.subrange(0, i + 1)[k] == best);
            }
        }
        i = i + 1;
    }
    assert(ids@.subrange(0, ids.len() as int) =~= ids@);
    best
}

impl UpdatedGasGroup {
    pub fn new(updated_gas_coins: Vec<GasCoin>, deleted_gas_coins: Vec<ObjectID>) -> (r: Self)
        ensures
            r.updated_gas_coins@ == updated_gas_coins@,
            r.deleted_gas_coins@ == deleted_gas_coins@,
    {
        UpdatedGasGroup { updated_gas_coins, deleted_gas_coins }
    }

    /// All identifiers of the group: the updated coins' first, then the deleted.
    pub open spec fn all_ids(self) -> Seq<ObjectID> {
        coin_ids(self.updated_gas_coins@) + self.deleted_gas_coins@
    }

    /// The key of the group: its smallest identifier. A group must be nonempty
    /// and name each coin once.
    pub fn get_group_key(&self) -> (r: GasGroupKey)
        requires
            self.all_ids().len() > 0,
            self.all_ids().no_duplicates(),
        ensures
            is_min_id(r, self.all_ids()),
    {
        let mut all: Vec<ObjectID> = Vec::new();
        let mut i: usize = 0;
        while i < self.updated_gas_coins.len()
            invariant
                i <= self.updated_gas_coins.len(),
                all@ == coin_ids(self.updated_gas_coins@).subrange(0, i as int),
            decreases self.updated_gas_coins.len() - i,
        {
            all.push(self.updated_gas_coins[i].object_ref.0);
            i = i + 1;
            assert(all@ =~= coin_ids(self.updated_gas_coins@).subrange(0, i as int));
        }
        let mut j: usize = 0;
        while j < self.deleted_gas_coins.len()
            invariant
                i == self.updated_gas_coins.len(),
                j <= self.deleted_gas_coins.len(),
                all@ == coin_ids(self.updated_gas_coins@) + self.deleted_gas_coins@.subrange(0, j as int),
            decreases self.deleted_gas_coins.len() - j,
        {
            all.push(self.deleted_gas_coins[j]);
            j = j + 1;
            assert(all@ =~= coin_ids(self.updated_gas_coins@) + self.deleted_gas_coins@.subrange(0, j as int));
        }
        assert(self.deleted_gas_coins@.subrange(0, j as int) =~= self.deleted_gas_coins@);
        min_object_id(&all)
    }
}

impl ReservedGasGroup {
    /// The key of the reservation: its smallest identifier.
    pub fn get_key(&self) -> (r: GasGroupKey)
        requires
            self.objects.len() > 0,
        ensures
            is_min_id(r, self.objects@),
    {
        min_object_id(&self.objects)
    }
}

} // verus!
