//! The execution of a sponsored transaction, as a sequence of decisions
//! between outside steps: checking the sponsor, readying the reservation,
//! reading the gas balance, fetching object owners, signing, executing,
//! reading the gas coins back and releasing them.
//!
//! The caller performs each action `step` returns and hands back what came of
//! it as the next event. Once the reservation is ready for execution, its gas
//! coins are always released before the execution finishes, whatever fails,
//! and the object locks taken for the transaction are released before that.

use vstd::prelude::*;
use crate::base_types::{GasCoin, ObjectID, ObjectRef, SuiAddress};
use crate::gas_pool_core::{
    owner_change_sum, partial_sums_fit, spec_net_usage, validity, BalanceChange, GasPool, GasPoolError,
    TransactionData,
};
use crate::gas_usage_cap::GasUsageView;
use crate::object_locks::{
    classify, fetched_outcome, first_locked, ids_of, lemma_first_locked_none, imm_or_owned_non_gas, post_execution_records, LockPlan,
    ObjectLockError, ObjectLocks, Owner,
};

verus! {

/// What the effects of an executed transaction tell the pool.
pub struct EffectsSummary {
    /// The gas used, net of storage rebates, from the gas cost summary.
    pub net_gas_usage: i64,
    /// The gas coin after the transaction, and its owner.
    pub gas_object: ObjectRef,
    pub gas_object_owner: Owner,
    /// The objects the transaction changed, with their new owners and versions.
    pub mutated: Vec<(ObjectID, Owner, u64)>,
}

/// The response to an executed transaction, as far as the pool reads it.
pub struct ExecutedTx {
    pub effects: Option<EffectsSummary>,
    pub balance_changes: Option<Vec<BalanceChange>>,
}

/// Why an execution failed.
#[derive(Debug)]
pub enum ExecError {
    SponsorNotRegistered(SuiAddress),
    InvalidTransaction(GasPoolError),
    Storage(String),
    ObjectLocks(ObjectLockError),
    OwnersUnavailable(String),
    Signing(String),
    Execution(String),
    NoEffects,
    NetUsage(GasPoolError),
}

/// What the caller reports back.
pub enum ExecEvent {
    /// Whether the pool signs for the sponsor.
    SponsorChecked(bool),
    /// The storage moved the reservation to execution, or failed to.
    ReadyForExecution(Result<(), String>),
    /// The total balance of the gas coins before execution.
    GasBalance(u64),
    /// The owners and versions of the objects asked for.
    OwnersFetched(Result<Vec<(ObjectID, Owner, u64)>, String>),
    /// The sponsor signed the transaction, or failed to.
    Signed(Result<(), String>),
    /// The transaction ran, or failed to.
    Executed(Result<ExecutedTx, String>),
    /// The latest state of the gas coins.
    LatestGas(Vec<GasCoin>),
    /// The gas coins are back in the pool.
    Released,
}

/// What the caller is to do next.
pub enum ExecAction {
    /// Check whether the pool signs for this sponsor.
    CheckSponsor(SuiAddress),
    /// Move the reservation of these coins to execution.
    ReadyForExecution(Vec<ObjectID>),
    /// Read the total balance of these coins.
    ReadGasBalance(Vec<ObjectID>),
    /// Fetch the owners and versions of these objects.
    FetchOwners(Vec<ObjectID>),
    /// Have the sponsor sign the transaction.
    Sign,
    /// Execute the transaction, with the sponsor's signature or, in faucet
    /// mode, with the user's alone.
    Execute { sponsor_signs: bool },
    /// Read the latest state of these coins.
    QueryLatestGas(Vec<ObjectID>),
    /// Put these coins back in the pool.
    Release(Vec<GasCoin>),
    /// The execution is over: it succeeded, or failed with this error.
    Finish(Option<ExecError>),
}

/// Where an execution stands: what it waits for.
#[derive(Clone, Copy, Debug, PartialEq, Eq, Structural)]
pub enum ExecStage {
    AwaitSponsor,
    AwaitReady,
    AwaitBalance,
    AwaitOwners,
    AwaitSignature,
    AwaitExecution,
    AwaitLatestGas,
    AwaitRelease,
    Done,
}

impl ExecStage {
    /// The reservation is ready for execution and its coins not yet released.
    pub open spec fn holds_coins(self) -> bool {
        self is AwaitBalance || self is AwaitOwners || self is AwaitSignature || self is AwaitExecution
            || self is AwaitLatestGas
    }

    /// Object locks may be held.
    pub open spec fn may_hold_locks(self) -> bool {
        self is AwaitSignature || self is AwaitExecution
    }
}

/// The event is the one the stage waits for.
pub open spec fn event_fits_stage(stage: ExecStage, event: ExecEvent) -> bool {
    match stage {
        ExecStage::AwaitSponsor => event is SponsorChecked,
        ExecStage::AwaitReady => event is ReadyForExecution,
        ExecStage::AwaitBalance => event is GasBalance,
        ExecStage::AwaitOwners => event is OwnersFetched,
        ExecStage::AwaitSignature => event is Signed,
        ExecStage::AwaitExecution => event is Executed,
        ExecStage::AwaitLatestGas => event is LatestGas,
        ExecStage::AwaitRelease => event is Released,
        ExecStage::Done => false,
    }
}

/// The identifiers of the gas coins a transaction pays with.
pub open spec fn payment_ids(tx: TransactionData) -> Seq<ObjectID> {
    tx.gas_payment@.map_values(|r: ObjectRef| r.0)
}

/// The owned or immutable inputs of a transaction other than its gas coins,
/// with the versions it gives: the objects it may lock.
pub open spec fn lock_objects(tx: TransactionData) -> Seq<(ObjectID, u64)> {
    imm_or_owned_non_gas(tx.input_objects@, payment_ids(tx).to_set())
}

/// The identifiers of the objects a transaction may lock.
pub open spec fn lock_candidates(tx: TransactionData) -> Seq<ObjectID> {
    ids_of(lock_objects(tx))
}

/// What the cache knew of the objects when the locks were prepared: for each
/// object, nothing, or what `cache` holds for it.
pub open spec fn cache_reading(cache: Map<ObjectID, (u64, bool)>, objects: Seq<(ObjectID, u64)>,
    cached: Seq<Option<(u64, bool)>>) -> bool
{
    &&& cached.len() == objects.len()
    &&& forall|i: int| 0 <= i < cached.len() ==> (#[trigger] cached[i] matches Some(v) ==>
        cache.contains_key(objects[i].0) && cache[objects[i].0] == v)
}

/// The plan that takes the locks classified from the cache: the objects it
/// locks at once, and those whose owners it fetches.
pub open spec fn plan_matches(p: LockPlan, owned: Seq<ObjectID>, query: Map<ObjectID, u64>) -> bool {
    p.wf() && p.owned@ == owned && p.query() == query
}

/// The objects locked when `plan`'s locks are granted on the owners fetched:
/// its owned objects, then the address-owned ones fetched.
pub open spec fn granted_objects(plan: LockPlan, fetched: Seq<(ObjectID, Owner, u64)>) -> Seq<ObjectID> {
    plan.owned@ + fetched_outcome(plan.query(), fetched)->Ok_0
}

/// Objects none of which is locked are disjoint from the locked set.
proof fn lemma_disjoint_when_none_locked(locked: Set<ObjectID>, objects: Seq<ObjectID>)
    ensures
        first_locked(locked, objects) is None ==> objects.to_set().disjoint(locked),
{
    lemma_first_locked_none(locked, objects);
    if first_locked(locked, objects) is None {
        assert forall|x: ObjectID| objects.to_set().contains(x) implies !locked.contains(x) by {
            let i = choose|i: int| 0 <= i < objects.len() && objects[i] == x;
            assert(!locked.contains(objects[i]));
        }
    }
}

/// The shape of one step: before the reservation is ready, a refusal
/// finishes at once with an error and nothing is signed, executed or
/// released; once it is ready, the flow does not finish before the coins are
/// released; and after the release it finishes.
pub open spec fn step_shape(before: ExecStage, r: ExecAction, after: ExecStage) -> bool {
    match before {
        ExecStage::AwaitSponsor => (r matches ExecAction::Finish(Some(_)) && after is Done)
            || (r is ReadyForExecution && after is AwaitReady),
        ExecStage::AwaitReady => (r matches ExecAction::Finish(Some(_)) && after is Done)
            || (r is ReadGasBalance && after is AwaitBalance),
        ExecStage::AwaitLatestGas => r is Release && after is AwaitRelease,
        ExecStage::AwaitRelease => r is Finish && after is Done,
        ExecStage::Done => false,
        _ => !(r is Finish) && ((r is Release && after is AwaitRelease) || (!(r is Release) && after.holds_coins())),
    }
}

/// Whether the owners fetched for `plan` let its locks be taken while
/// `locked` is held: every fetched object is as expected and none of the
/// objects to lock is locked already.
pub open spec fn locks_granted(locked: Set<ObjectID>, plan: LockPlan, fetched: Seq<(ObjectID, Owner, u64)>) -> bool {
    match fetched_outcome(plan.query(), fetched) {
        Err(_) => false,
        Ok(fetched_owned) => first_locked(locked, plan.owned@ + fetched_owned) is None,
    }
}

/// The action that reads the latest state of the transaction's gas coins, so
/// that they go back to the pool.
pub open spec fn query_payment(r: ExecAction, tx: TransactionData) -> bool {
    r matches ExecAction::QueryLatestGas(ids) && ids@ == payment_ids(tx)
}

/// The net usage of an executed transaction with effects.
pub open spec fn executed_net_usage(mode: bool, e: EffectsSummary, changes: Option<Vec<BalanceChange>>) -> Result<i64, GasPoolError> {
    spec_net_usage(mode, e.net_gas_usage, e.gas_object_owner, match changes { Some(c) => Some(c@), None => None })
}

/// A run of steps: `actions[i]` is what the step from `stages[i]` gave, and
/// `stages[i + 1]` where it left the flow.
pub open spec fn is_run(stages: Seq<ExecStage>, actions: Seq<ExecAction>) -> bool {
    &&& stages.len() == actions.len() + 1
    &&& forall|i: int| 0 <= i < actions.len() ==> step_shape(#[trigger] stages[i], actions[i], stages[i + 1])
}

/// Some action of the run releases coins.
pub open spec fn releases(actions: Seq<ExecAction>) -> bool {
    exists|j: int| 0 <= j < actions.len() && #[trigger] actions[j] is Release
}

/// From a stage that holds the coins, a run that finishes releases them.
proof fn lemma_held_coins_released(stages: Seq<ExecStage>, actions: Seq<ExecAction>, i: int)
    requires
        is_run(stages, actions),
        stages.last() is Done,
        0 <= i < stages.len(),
        stages[i].holds_coins(),
    ensures
        exists|j: int| i <= j < actions.len() && #[trigger] actions[j] is Release,
    decreases stages.len() - i,
{
    assert(i < actions.len());
    assert(step_shape(stages[i], actions[i], stages[i + 1]));
    if !(actions[i] is Release) {
        lemma_held_coins_released(stages, actions, i + 1);
    }
}

/// A stage that holds the coins was reached through the reading of the gas
/// balance.
proof fn lemma_held_coins_after_balance(stages: Seq<ExecStage>, actions: Seq<ExecAction>, k: int)
    requires
        is_run(stages, actions),
        stages[0] is AwaitSponsor,
        0 <= k < stages.len(),
        stages[k].holds_coins(),
    ensures
        exists|m: int| 0 <= m <= k && #[trigger] stages[m] is AwaitBalance,
    decreases k,
{
    if !(stages[k] is AwaitBalance) {
        assert(k > 0);
        assert(step_shape(stages[k - 1], actions[k - 1], stages[k]));
        lemma_held_coins_after_balance(stages, actions, k - 1);
    }
}

/// Over a whole execution, the gas coins are given back exactly when the
/// reservation became ready: a run from the start that finishes releases
/// coins if and only if it went on to read the gas balance, which it does
/// only once the reservation is ready for execution. A run that finishes
/// without releasing them was refused with an error, and never had the
/// transaction signed or executed.
pub proof fn law_coins_released_iff_ready(stages: Seq<ExecStage>, actions: Seq<ExecAction>)
    requires
        is_run(stages, actions),
        stages[0] is AwaitSponsor,
        stages.last() is Done,
    ensures
        (exists|i: int| 0 <= i < stages.len() && #[trigger] stages[i] is AwaitBalance) <==> releases(actions),
        !releases(actions) ==> actions.last() matches ExecAction::Finish(Some(_)),
        !releases(actions) ==> forall|j: int| 0 <= j < actions.len()
            ==> !(#[trigger] actions[j] is Sign) && !(actions[j] is Execute),
{
    if exists|i: int| 0 <= i < stages.len() && #[trigger] stages[i] is AwaitBalance {
        let i = choose|i: int| 0 <= i < stages.len() && #[trigger] stages[i] is AwaitBalance;
        lemma_held_coins_released(stages, actions, i);
    }
    if releases(actions) {
        let j = choose|j: int| 0 <= j < actions.len() && #[trigger] actions[j] is Release;
        assert(step_shape(stages[j], actions[j], stages[j + 1]));
        lemma_held_coins_after_balance(stages, actions, j);
    } else {
        // No stage holds the coins or waits for their release: every step
        // but the last is before readiness.
        assert forall|k: int| 0 <= k < actions.len() implies
            (#[trigger] stages[k] is AwaitSponsor || stages[k] is AwaitReady) by {
            assert(step_shape(stages[k], actions[k], stages[k + 1]));
            if stages[k].holds_coins() {
                lemma_held_coins_released(stages, actions, k);
            }
            if stages[k] is AwaitRelease {
                assert(k > 0);
                assert(step_shape(stages[k - 1], actions[k - 1], stages[k]));
                assert(actions[k - 1] is Release);
            }
        }
        assert forall|j: int| 0 <= j < actions.len() implies
            !(#[trigger] actions[j] is Sign) && !(actions[j] is Execute) by {
            assert(stages[j] is AwaitSponsor || stages[j] is AwaitReady);
            assert(step_shape(stages[j], actions[j], stages[j + 1]));
        }
        let n = actions.len() - 1;
        assert(n >= 0) by {
            if actions.len() == 0 {
                assert(stages.last() == stages[0]);
            }
        }
        assert(stages[n] is AwaitSponsor || stages[n] is AwaitReady);
        assert(step_shape(stages[n], actions[n], stages[n + 1]));
        assert(stages[n + 1] == stages.last());
    }
}

/// One transaction's execution.
pub struct ExecFlow {
    reservation_id: u64,
    tx_data: TransactionData,
    stage: ExecStage,
    payment: Vec<ObjectID>,
    total_gas_coin_balance: u64,
    plan: Option<LockPlan>,
    locks: Option<ObjectLocks>,
    failure: Option<ExecError>,
}

/// The identifiers of the payment coins.
fn payment_of(tx_data: &TransactionData) -> (r: Vec<ObjectID>)
    ensures
        r@ == payment_ids(*tx_data),
{
    let mut r: Vec<ObjectID> = Vec::new();
    let mut i: usize = 0;
    while i < tx_data.gas_payment.len()
        invariant
            i <= tx_data.gas_payment@.len(),
            r@ == tx_data.gas_payment@.take(i as int).map_values(|g: ObjectRef| g.0),
        decreases tx_data.gas_payment.len() - i,
    {
        r.push(tx_data.gas_payment[i].0);
        proof {
            assert(tx_data.gas_payment@.take(i as int + 1).map_values(|g: ObjectRef| g.0) =~= r@);
        }
        i = i + 1;
    }
    proof {
        assert(tx_data.gas_payment@.take(i as int) =~= tx_data.gas_payment@);
    }
    r
}

/// A copy of a list of identifiers.
fn copy_ids(v: &Vec<ObjectID>) -> (r: Vec<ObjectID>)
    ensures
        r@ == v@,
{
    let mut r: Vec<ObjectID> = Vec::new();
    let mut i: usize = 0;
    while i < v.len()
        invariant
            i <= v@.len(),
            r@ == v@.take(i as int),
        decreases v.len() - i,
    {
        r.push(v[i]);
        proof {
            assert(v@.take(i as int + 1) =~= r@);
        }
        i = i + 1;
    }
    proof {
        assert(v@.take(i as int) =~= v@);
    }
    r
}

impl ExecFlow {
    pub closed spec fn spec_stage(&self) -> ExecStage {
        self.stage
    }

    pub closed spec fn spec_reservation_id(&self) -> u64 {
        self.reservation_id
    }

    pub closed spec fn spec_tx_data(&self) -> TransactionData {
        self.tx_data
    }

    /// The reservation being executed.
    pub fn reservation_id(&self) -> (r: u64)
        ensures
            r == self.spec_reservation_id(),
    {
        self.reservation_id
    }

    /// The failure recorded, if any: it is what the execution finishes with.
    pub closed spec fn spec_failure(&self) -> Option<ExecError> {
        self.failure
    }

    /// The flow's own facts: the payment is the transaction's, object locks
    /// are held only while signing and executing, and a failure is recorded
    /// only once the flow has turned to giving the coins back.
    pub closed spec fn wf(&self) -> bool {
        &&& self.payment@ == payment_ids(self.tx_data)
        &&& self.stage is AwaitOwners ==> (self.plan matches Some(p) && p.wf())
        &&& (self.locks is Some <==> self.stage.may_hold_locks())
        &&& !(self.stage is AwaitLatestGas || self.stage is AwaitRelease || self.stage is Done) ==> self.failure is None
    }

    /// The locks the flow holds, if any.
    pub closed spec fn held_locks(&self) -> Option<Seq<ObjectID>> {
        match self.locks {
            Some(l) => Some(l.locked_objects@),
            None => None,
        }
    }

    /// The plan of the lock acquisition under way.
    pub closed spec fn lock_plan(&self) -> Option<LockPlan> {
        self.plan
    }

    /// The total balance of the gas coins read before execution.
    pub closed spec fn spec_total_gas_coin_balance(&self) -> u64 {
        self.total_gas_coin_balance
    }

    /// An execution of `tx_data` for the reservation `reservation_id`; its
    /// first action is to check the sponsor.
    pub fn new(reservation_id: u64, tx_data: TransactionData) -> (r: (ExecFlow, ExecAction))
        ensures
            r.0.wf(),
            r.0.spec_stage() is AwaitSponsor,
            r.0.spec_reservation_id() == reservation_id,
            r.0.spec_tx_data() == tx_data,
            r.0.spec_failure() is None,
            r.1 == ExecAction::CheckSponsor(tx_data.gas_owner),
    {
        let payment = payment_of(&tx_data);
        let sponsor = tx_data.gas_owner;
        let flow = ExecFlow {
            reservation_id,
            tx_data,
            stage: ExecStage::AwaitSponsor,
            payment,
            total_gas_coin_balance: 0,
            plan: None,
            locks: None,
            failure: None,
        };
        (flow, ExecAction::CheckSponsor(sponsor))
    }

    /// The stage the flow is at.
    pub fn stage(&self) -> (r: ExecStage)
        ensures
            r == self.spec_stage(),
    {
        self.stage
    }

    /// Gives up the locks held, if any, and goes on to read the latest state of
    /// the gas coins, remembering why.
    fn fail_after_ready(&mut self, pool: &mut GasPool, failure: ExecError) -> (r: ExecAction)
        requires
            old(pool).object_lock_manager.wf(),
            old(self).payment@ == payment_ids(old(self).spec_tx_data()),
        ensures
            final(pool).object_lock_manager.wf(),
            final(pool).object_lock_manager@.locked == match old(self).held_locks() {
                Some(l) => old(pool).object_lock_manager@.locked - l.to_set(),
                None => old(pool).object_lock_manager@.locked,
            },
            final(pool).object_lock_manager@.cache == old(pool).object_lock_manager@.cache,
            final(pool).gas_usage_cap@ == old(pool).gas_usage_cap@,
            final(pool).advanced_faucet_mode == old(pool).advanced_faucet_mode,
            final(self).stage is AwaitLatestGas,
            final(self).locks is None,
            final(self).total_gas_coin_balance == old(self).total_gas_coin_balance,
            final(self).wf(),
            final(self).spec_reservation_id() == old(self).spec_reservation_id(),
            final(self).spec_tx_data() == old(self).spec_tx_data(),
            final(self).spec_failure() == Some(failure),
            query_payment(r, old(self).spec_tx_data()),
    {
        let held = self.locks.take();
        match held {
            Some(l) => {
                pool.object_lock_manager.release_locks(&l);
            },
            None => {
                proof {
                    assert(old(pool).object_lock_manager@.locked == pool.object_lock_manager@.locked);
                }
            },
        }
        self.failure = Some(failure);
        self.stage = ExecStage::AwaitLatestGas;
        ExecAction::QueryLatestGas(copy_ids(&self.payment))
    }

    /// Takes the next event and says what to do next.
    pub fn step(&mut self, pool: &mut GasPool, event: ExecEvent) -> (r: ExecAction)
        requires
            old(self).wf(),
            old(pool).object_lock_manager.wf(),
            event_fits_stage(old(self).spec_stage(), event),
            event matches ExecEvent::OwnersFetched(Ok(f)) ==> (old(self).lock_plan() matches Some(p) &&
                forall|j: int| 0 <= j < f@.len() ==> p.query().contains_key((#[trigger] f@[j]).0)),
            event matches ExecEvent::Executed(Ok(t)) ==> (t.effects matches Some(e) ==> {
                &&& (t.balance_changes matches Some(c) ==> partial_sums_fit(c@, e.gas_object_owner)
                    && owner_change_sum(c@, e.gas_object_owner) != i128::MIN)
                &&& (executed_net_usage(old(pool).advanced_faucet_mode, e, t.balance_changes) matches Ok(n) ==> {
                    &&& i64::MIN <= old(pool).gas_usage_cap@.cur_daily_usage + n <= i64::MAX
                    &&& i64::MIN <= (old(self).spec_total_gas_coin_balance() as i64) - n <= i64::MAX
                })
            }),
        ensures
            final(self).wf(),
            final(pool).object_lock_manager.wf(),
            final(self).spec_reservation_id() == old(self).spec_reservation_id(),
            final(self).spec_tx_data() == old(self).spec_tx_data(),
            final(pool).advanced_faucet_mode == old(pool).advanced_faucet_mode,
            // Before the reservation is ready, a refusal finishes at once.
            old(self).spec_stage() is AwaitSponsor ==> match event {
                ExecEvent::SponsorChecked(false) => (r matches ExecAction::Finish(Some(ExecError::SponsorNotRegistered(s)))
                    && s == old(self).spec_tx_data().gas_owner) && final(self).spec_stage() is Done,
                ExecEvent::SponsorChecked(true) => match validity(old(pool).advanced_faucet_mode, old(self).spec_tx_data()) {
                    Err(e) => (r matches ExecAction::Finish(Some(ExecError::InvalidTransaction(e2))) && e2 == e)
                        && final(self).spec_stage() is Done,
                    Ok(()) => (r matches ExecAction::ReadyForExecution(ids) && ids@ == payment_ids(old(self).spec_tx_data()))
                        && final(self).spec_stage() is AwaitReady,
                },
                _ => true,
            },
            old(self).spec_stage() is AwaitReady ==> match event {
                ExecEvent::ReadyForExecution(Err(m)) => (r matches ExecAction::Finish(Some(ExecError::Storage(m2))) && m2@ == m@)
                    && final(self).spec_stage() is Done,
                ExecEvent::ReadyForExecution(Ok(())) => (r matches ExecAction::ReadGasBalance(ids) && ids@ == payment_ids(old(self).spec_tx_data()))
                    && final(self).spec_stage() is AwaitBalance,
                _ => true,
            },
            old(self).spec_stage() is AwaitBalance ==> match event {
                ExecEvent::GasBalance(t) => final(self).spec_total_gas_coin_balance() == t
                    && (final(self).spec_stage() is AwaitOwners || final(self).spec_stage() is AwaitLatestGas),
                _ => true,
            },
            // Once the reservation is ready, the coins are released before the end.
            old(self).spec_stage().holds_coins() ==> !(r is Finish) && final(self).spec_stage() != ExecStage::Done,
            old(self).spec_stage() is AwaitLatestGas ==> match event {
                ExecEvent::LatestGas(coins) => (r matches ExecAction::Release(c) && c@ == coins@)
                    && final(self).spec_stage() is AwaitRelease,
                _ => true,
            },
            // The execution finishes with the failure recorded, if any.
            old(self).spec_stage() is AwaitRelease ==> r == ExecAction::Finish(old(self).spec_failure())
                && final(self).spec_stage() is Done,
            old(self).spec_stage() is AwaitLatestGas ==> final(self).spec_failure() == old(self).spec_failure(),
            // Reading the gas balance starts taking the object locks; an input
            // locked already turns the flow to giving the coins back.
            step_shape(old(self).spec_stage(), r, final(self).spec_stage()),
            old(self).spec_stage() is AwaitBalance ==> match event {
                ExecEvent::GasBalance(_) => match first_locked(old(pool).object_lock_manager@.locked,
                    lock_candidates(old(self).spec_tx_data())) {
                    Some(id) => query_payment(r, old(self).spec_tx_data())
                        && final(self).spec_failure() == Some(ExecError::ObjectLocks(ObjectLockError::AlreadyLocked(id))),
                    None => exists|cached: Seq<Option<(u64, bool)>>| {
                        &&& cache_reading(old(pool).object_lock_manager@.cache, lock_objects(old(self).spec_tx_data()), cached)
                        &&& match #[trigger] classify(lock_objects(old(self).spec_tx_data()), cached) {
                            Ok((owned, query)) => final(self).lock_plan() matches Some(p)
                                && plan_matches(p, owned, query)
                                && (r matches ExecAction::FetchOwners(ids)
                                    && ids@ == p.to_query@.map_values(|e: (ObjectID, u64)| e.0))
                                && final(self).spec_stage() is AwaitOwners && final(self).spec_failure() is None,
                            Err(e) => query_payment(r, old(self).spec_tx_data())
                                && final(self).spec_failure() == Some(ExecError::ObjectLocks(e)),
                        }
                    },
                },
                _ => true,
            },
            old(self).spec_stage() is AwaitBalance && event is GasBalance
                ==> final(pool).object_lock_manager@.locked == old(pool).object_lock_manager@.locked,
            // Once the owners are fetched and the locks taken, the sponsor signs,
            // but in faucet mode, where the transaction runs on the user's
            // signature alone; otherwise the coins go back.
            old(self).spec_stage() is AwaitOwners ==> match event {
                ExecEvent::OwnersFetched(Err(m)) => query_payment(r, old(self).spec_tx_data())
                    && final(self).spec_failure() == Some(ExecError::OwnersUnavailable(m)),
                ExecEvent::OwnersFetched(Ok(f)) => if old(self).lock_plan() matches Some(p)
                    && locks_granted(old(pool).object_lock_manager@.locked, p, f@) {
                    &&& final(self).spec_failure() is None
                    &&& granted_objects(old(self).lock_plan().unwrap(), f@).to_set().disjoint(old(pool).object_lock_manager@.locked)
                    &&& final(pool).object_lock_manager@.locked
                        == old(pool).object_lock_manager@.locked + granted_objects(old(self).lock_plan().unwrap(), f@).to_set()
                    &&& final(self).held_locks() == Some(granted_objects(old(self).lock_plan().unwrap(), f@))
                    &&& !old(pool).advanced_faucet_mode ==> r is Sign && final(self).spec_stage() is AwaitSignature
                    &&& old(pool).advanced_faucet_mode ==> r == (ExecAction::Execute { sponsor_signs: false })
                        && final(self).spec_stage() is AwaitExecution
                } else {
                    query_payment(r, old(self).spec_tx_data())
                        && final(self).spec_failure() matches Some(ExecError::ObjectLocks(_))
                },
                _ => true,
            },
            old(self).spec_stage() is AwaitSignature ==> match event {
                ExecEvent::Signed(Ok(())) => r == (ExecAction::Execute { sponsor_signs: true })
                    && final(self).spec_stage() is AwaitExecution && final(self).spec_failure() is None,
                ExecEvent::Signed(Err(m)) => query_payment(r, old(self).spec_tx_data())
                    && final(self).spec_failure() == Some(ExecError::Signing(m)),
                _ => true,
            },
            r is Release ==> final(self).spec_stage() is AwaitRelease,
            r is QueryLatestGas ==> final(self).spec_stage() is AwaitLatestGas,
            // Locks are held only while signing and executing, and are given
            // back when the flow moves on.
            !final(self).spec_stage().may_hold_locks() ==> final(self).held_locks() is None,
            old(self).spec_stage().may_hold_locks() && !final(self).spec_stage().may_hold_locks() ==>
                (old(self).held_locks() matches Some(l) && final(pool).object_lock_manager@.locked
                    == old(pool).object_lock_manager@.locked - l.to_set()),
            // A successful execution is counted and releases the new gas coin.
            old(self).spec_stage() is AwaitExecution ==> match event {
                ExecEvent::Executed(Ok(t)) => match t.effects {
                    Some(e) => match executed_net_usage(old(pool).advanced_faucet_mode, e, t.balance_changes) {
                        Ok(n) => final(self).spec_failure() is None
                            && final(pool).object_lock_manager@.cache.submap_of(
                                old(pool).object_lock_manager@.cache.union_prefer_right(post_execution_records(
                                    lock_candidates(old(self).spec_tx_data()).to_set(), e.mutated@)))
                            && (r matches ExecAction::Release(coins) && coins@.len() == 1
                            && coins@[0].object_ref == e.gas_object
                            && coins@[0].balance == ((((old(self).spec_total_gas_coin_balance() as i64) - n) as i64) as u64))
                            && (exists|today: i32| #[trigger] old(pool).gas_usage_cap@.usage_on(today) + n
                                == final(pool).gas_usage_cap@.cur_daily_usage
                                && final(pool).gas_usage_cap@ == (GasUsageView {
                                    daily_cap: old(pool).gas_usage_cap@.daily_cap,
                                    cur_daily_usage: final(pool).gas_usage_cap@.cur_daily_usage,
                                    cur_date: today,
                                })),
                        Err(err) => query_payment(r, old(self).spec_tx_data())
                            && final(self).spec_failure() == Some(ExecError::NetUsage(err)),
                    },
                    None => query_payment(r, old(self).spec_tx_data())
                        && final(self).spec_failure() == Some(ExecError::NoEffects),
                },
                ExecEvent::Executed(Err(m)) => query_payment(r, old(self).spec_tx_data())
                    && final(self).spec_failure() == Some(ExecError::Execution(m)),
                _ => true,
            },
    {
        match event {
            ExecEvent::SponsorChecked(valid) => {
                if !valid {
                    self.stage = ExecStage::Done;
                    return ExecAction::Finish(Some(ExecError::SponsorNotRegistered(self.tx_data.gas_owner)));
                }
                match pool.check_transaction_validity(&self.tx_data) {
                    Err(e) => {
                        self.stage = ExecStage::Done;
                        ExecAction::Finish(Some(ExecError::InvalidTransaction(e)))
                    },
                    Ok(()) => {
                        self.stage = ExecStage::AwaitReady;
                        ExecAction::ReadyForExecution(copy_ids(&self.payment))
                    },
                }
            },
            ExecEvent::ReadyForExecution(res) => {
                match res {
                    Err(m) => {
                        self.stage = ExecStage::Done;
                        ExecAction::Finish(Some(ExecError::Storage(m)))
                    },
                    Ok(()) => {
                        self.stage = ExecStage::AwaitBalance;
                        ExecAction::ReadGasBalance(copy_ids(&self.payment))
                    },
                }
            },
            ExecEvent::GasBalance(total) => {
                self.total_gas_coin_balance = total;
                let objects = pool.object_lock_manager.get_imm_or_owned_non_gas_objects(
                    self.tx_data.input_objects.as_slice(),
                    self.tx_data.gas_payment.as_slice(),
                );
                match pool.object_lock_manager.prepare_locks(objects.as_slice()) {
                    Err(e) => self.fail_after_ready(pool, ExecError::ObjectLocks(e)),
                    Ok(plan) => {
                        let ids = plan.query_ids();
                        self.plan = Some(plan);
                        self.stage = ExecStage::AwaitOwners;
                        ExecAction::FetchOwners(ids)
                    },
                }
            },
            ExecEvent::OwnersFetched(res) => {
                let plan = self.plan.take();
                match (res, plan) {
                    (Err(m), _) => self.fail_after_ready(pool, ExecError::OwnersUnavailable(m)),
                    (Ok(fetched), Some(plan)) => {
                        let ghost locked0 = pool.object_lock_manager@.locked;
                        proof {
                            if fetched_outcome(plan.query(), fetched@) is Ok {
                                lemma_disjoint_when_none_locked(locked0, granted_objects(plan, fetched@));
                            }
                        }
                        match pool.object_lock_manager.finish_locks(self.reservation_id, &plan, fetched.as_slice()) {
                            Err(e) => self.fail_after_ready(pool, ExecError::ObjectLocks(e)),
                            Ok(locks) => {
                                self.locks = Some(locks);
                                if pool.advanced_faucet_mode {
                                    self.stage = ExecStage::AwaitExecution;
                                    ExecAction::Execute { sponsor_signs: false }
                                } else {
                                    self.stage = ExecStage::AwaitSignature;
                                    ExecAction::Sign
                                }
                            },
                        }
                    },
                    (Ok(_), None) => {
                        proof {
                            assert(false);
                        }
                        self.fail_after_ready(pool, ExecError::NoEffects)
                    },
                }
            },
            ExecEvent::Signed(res) => {
                match res {
                    Err(m) => self.fail_after_ready(pool, ExecError::Signing(m)),
                    Ok(()) => {
                        self.stage = ExecStage::AwaitExecution;
                        ExecAction::Execute { sponsor_signs: true }
                    },
                }
            },
            ExecEvent::Executed(res) => {
                match res {
                    Err(m) => self.fail_after_ready(pool, ExecError::Execution(m)),
                    Ok(t) => {
                        match t.effects {
                            None => self.fail_after_ready(pool, ExecError::NoEffects),
                            Some(e) => {
                                let n = match &t.balance_changes {
                                    Some(c) => pool.net_usage(e.net_gas_usage, e.gas_object_owner, Some(c)),
                                    None => pool.net_usage(e.net_gas_usage, e.gas_object_owner, None),
                                };
                                match n {
                                    Err(err) => self.fail_after_ready(pool, ExecError::NetUsage(err)),
                                    Ok(n) => {
                                        pool.gas_usage_cap.update_usage(n);
                                        pool.object_lock_manager.update_cache_post_execution(
                                            self.tx_data.input_objects.as_slice(),
                                            self.tx_data.gas_payment.as_slice(),
                                            e.mutated.as_slice(),
                                        );
                                        let held = self.locks.take();
                                        match held {
                                            Some(l) => {
                                                pool.object_lock_manager.release_locks(&l);
                                            },
                                            None => {},
                                        }
                                        let coin = pool.coin_after_tx(self.total_gas_coin_balance, n, e.gas_object);
                                        self.stage = ExecStage::AwaitRelease;
                                        let mut coins: Vec<GasCoin> = Vec::new();
                                        coins.push(coin);
                                        ExecAction::Release(coins)
                                    },
                                }
                            },
                        }
                    },
                }
            },
            ExecEvent::LatestGas(coins) => {
                self.stage = ExecStage::AwaitRelease;
                ExecAction::Release(coins)
            },
            ExecEvent::Released => {
                self.stage = ExecStage::Done;
                ExecAction::Finish(self.failure.take())
            },
        }
    }
}

} // verus!
