use sui_gas_pool::base_types::{GasCoin, ObjectDigest, ObjectID, ObjectRef, SuiAddress};
use sui_gas_pool::execute_flow::{EffectsSummary, ExecAction, ExecError, ExecEvent, ExecFlow, ExecStage, ExecutedTx};
use sui_gas_pool::gas_pool_core::{Argument, Command, GasPool, TransactionData};
use sui_gas_pool::object_locks::{InputObjectKind, Owner};

fn addr(n: u128) -> SuiAddress {
    SuiAddress { hi: 0, lo: n }
}

fn oref(n: u128, version: u64) -> ObjectRef {
    ObjectRef(ObjectID { hi: 0, lo: n }, version, ObjectDigest { hi: 0, lo: 0 })
}

fn tx(commands: Vec<Command>, inputs: Vec<InputObjectKind>) -> TransactionData {
    TransactionData {
        sender: addr(1),
        gas_owner: addr(2),
        gas_payment: vec![oref(100, 1)],
        first_signer: addr(1),
        commands,
        input_objects: inputs,
        funds_withdrawals: vec![],
    }
}

#[test]
fn execution_flow_success_releases_new_coin() {
    let mut pool = GasPool::new(10_000, false);
    let (mut flow, action) = ExecFlow::new(7, tx(vec![], vec![InputObjectKind::ImmOrOwnedMoveObject(oref(5, 3))]));
    assert!(matches!(action, ExecAction::CheckSponsor(a) if a == addr(2)));
    let a = flow.step(&mut pool, ExecEvent::SponsorChecked(true));
    assert!(matches!(a, ExecAction::ReadyForExecution(ref ids) if *ids == vec![oref(100, 1).0]));
    let a = flow.step(&mut pool, ExecEvent::ReadyForExecution(Ok(())));
    assert!(matches!(a, ExecAction::ReadGasBalance(_)));
    let a = flow.step(&mut pool, ExecEvent::GasBalance(1_000));
    assert!(matches!(a, ExecAction::FetchOwners(ref ids) if *ids == vec![oref(5, 3).0]));
    let a = flow.step(&mut pool, ExecEvent::OwnersFetched(Ok(vec![(oref(5, 3).0, Owner::AddressOwner(addr(1)), 3)])));
    assert!(matches!(a, ExecAction::Sign));
    assert!(pool.object_lock_manager.is_locked(oref(5, 3).0));
    let a = flow.step(&mut pool, ExecEvent::Signed(Ok(())));
    assert!(matches!(a, ExecAction::Execute { sponsor_signs: true }));
    let effects = EffectsSummary {
        net_gas_usage: 100,
        gas_object: oref(100, 2),
        gas_object_owner: Owner::AddressOwner(addr(2)),
        mutated: vec![(oref(5, 3).0, Owner::AddressOwner(addr(1)), 4)],
    };
    let a = flow.step(&mut pool, ExecEvent::Executed(Ok(ExecutedTx { effects: Some(effects), balance_changes: None })));
    match a {
        ExecAction::Release(coins) => {
            assert_eq!(coins, vec![GasCoin { object_ref: oref(100, 2), balance: 900 }]);
        }
        _ => panic!("expected the new gas coin to be released"),
    }
    assert!(!pool.object_lock_manager.is_locked(oref(5, 3).0));
    assert_eq!(pool.gas_usage_cap.cur_daily_usage(), 100);
    let a = flow.step(&mut pool, ExecEvent::Released);
    assert!(matches!(a, ExecAction::Finish(None)));
    assert_eq!(flow.stage(), ExecStage::Done);
}

#[test]
fn execution_flow_failure_still_releases_coins() {
    let mut pool = GasPool::new(10_000, false);
    let (mut flow, _) = ExecFlow::new(8, tx(vec![], vec![InputObjectKind::ImmOrOwnedMoveObject(oref(5, 3))]));
    flow.step(&mut pool, ExecEvent::SponsorChecked(true));
    flow.step(&mut pool, ExecEvent::ReadyForExecution(Ok(())));
    flow.step(&mut pool, ExecEvent::GasBalance(1_000));
    flow.step(&mut pool, ExecEvent::OwnersFetched(Ok(vec![(oref(5, 3).0, Owner::AddressOwner(addr(1)), 3)])));
    let a = flow.step(&mut pool, ExecEvent::Signed(Err("signer down".to_string())));
    assert!(matches!(a, ExecAction::QueryLatestGas(ref ids) if *ids == vec![oref(100, 1).0]));
    assert!(!pool.object_lock_manager.is_locked(oref(5, 3).0));
    let latest = vec![GasCoin { object_ref: oref(100, 1), balance: 1_000 }];
    let a = flow.step(&mut pool, ExecEvent::LatestGas(latest.clone()));
    assert!(matches!(a, ExecAction::Release(ref c) if *c == latest));
    let a = flow.step(&mut pool, ExecEvent::Released);
    assert!(matches!(a, ExecAction::Finish(Some(ExecError::Signing(ref m))) if m == "signer down"));
}

#[test]
fn execution_flow_refuses_before_ready() {
    let mut pool = GasPool::new(10_000, false);
    let (mut flow, _) = ExecFlow::new(9, tx(vec![], vec![]));
    let a = flow.step(&mut pool, ExecEvent::SponsorChecked(false));
    assert!(matches!(a, ExecAction::Finish(Some(ExecError::SponsorNotRegistered(s))) if s == addr(2)));

    let bad = vec![Command::MoveCall { arguments: vec![Argument::GasCoin] }];
    let (mut flow, _) = ExecFlow::new(10, tx(bad, vec![]));
    let a = flow.step(&mut pool, ExecEvent::SponsorChecked(true));
    assert!(matches!(a, ExecAction::Finish(Some(ExecError::InvalidTransaction(_)))));

    let (mut flow, _) = ExecFlow::new(11, tx(vec![], vec![]));
    flow.step(&mut pool, ExecEvent::SponsorChecked(true));
    let a = flow.step(&mut pool, ExecEvent::ReadyForExecution(Err("not reserved".to_string())));
    assert!(matches!(a, ExecAction::Finish(Some(ExecError::Storage(_)))));
}

#[test]
fn execution_flow_without_effects_queries_latest() {
    let mut pool = GasPool::new(10_000, true);
    let mut t = tx(vec![], vec![]);
    t.gas_owner = addr(1);
    let (mut flow, _) = ExecFlow::new(12, t);
    flow.step(&mut pool, ExecEvent::SponsorChecked(true));
    flow.step(&mut pool, ExecEvent::ReadyForExecution(Ok(())));
    flow.step(&mut pool, ExecEvent::GasBalance(500));
    // In faucet mode the sponsor does not sign.
    let a = flow.step(&mut pool, ExecEvent::OwnersFetched(Ok(vec![])));
    assert!(matches!(a, ExecAction::Execute { sponsor_signs: false }));
    let a = flow.step(&mut pool, ExecEvent::Executed(Ok(ExecutedTx { effects: None, balance_changes: None })));
    assert!(matches!(a, ExecAction::QueryLatestGas(ref ids) if *ids == vec![oref(100, 1).0]));
    let a = flow.step(&mut pool, ExecEvent::LatestGas(vec![]));
    assert!(matches!(a, ExecAction::Release(ref c) if c.is_empty()));
    let a = flow.step(&mut pool, ExecEvent::Released);
    assert!(matches!(a, ExecAction::Finish(Some(ExecError::NoEffects))));
}

#[test]
fn execution_flow_failed_execution_gives_payment_back() {
    let mut pool = GasPool::new(10_000, false);
    let (mut flow, _) = ExecFlow::new(13, tx(vec![], vec![]));
    flow.step(&mut pool, ExecEvent::SponsorChecked(true));
    flow.step(&mut pool, ExecEvent::ReadyForExecution(Ok(())));
    flow.step(&mut pool, ExecEvent::GasBalance(1_000));
    let a = flow.step(&mut pool, ExecEvent::OwnersFetched(Ok(vec![])));
    assert!(matches!(a, ExecAction::Sign));
    flow.step(&mut pool, ExecEvent::Signed(Ok(())));
    let a = flow.step(&mut pool, ExecEvent::Executed(Err("invalid transaction".to_string())));
    assert!(matches!(a, ExecAction::QueryLatestGas(ref ids) if *ids == vec![oref(100, 1).0]));
    let latest = vec![GasCoin { object_ref: oref(100, 1), balance: 1_000 }];
    let a = flow.step(&mut pool, ExecEvent::LatestGas(latest.clone()));
    assert!(matches!(a, ExecAction::Release(ref c) if *c == latest));
    let a = flow.step(&mut pool, ExecEvent::Released);
    assert!(matches!(a, ExecAction::Finish(Some(ExecError::Execution(ref m))) if m == "invalid transaction"));
}

#[test]
fn execution_flow_faucet_mode_success_finishes_without_error() {
    let mut pool = GasPool::new(10_000, true);
    let mut t = tx(vec![], vec![]);
    t.sender = addr(2);
    t.first_signer = addr(2);
    let (mut flow, _) = ExecFlow::new(14, t);
    flow.step(&mut pool, ExecEvent::SponsorChecked(true));
    flow.step(&mut pool, ExecEvent::ReadyForExecution(Ok(())));
    flow.step(&mut pool, ExecEvent::GasBalance(1_000));
    let a = flow.step(&mut pool, ExecEvent::OwnersFetched(Ok(vec![])));
    assert!(matches!(a, ExecAction::Execute { sponsor_signs: false }));
    let effects = EffectsSummary {
        net_gas_usage: 100,
        gas_object: oref(100, 2),
        gas_object_owner: Owner::AddressOwner(addr(2)),
        mutated: vec![],
    };
    let changes = vec![sui_gas_pool::gas_pool_core::BalanceChange { owner: Owner::AddressOwner(addr(2)), amount: -300 }];
    let a = flow.step(&mut pool, ExecEvent::Executed(Ok(ExecutedTx { effects: Some(effects), balance_changes: Some(changes) })));
    assert!(matches!(a, ExecAction::Release(ref c) if *c == vec![GasCoin { object_ref: oref(100, 2), balance: 700 }]));
    let a = flow.step(&mut pool, ExecEvent::Released);
    assert!(matches!(a, ExecAction::Finish(None)));
}

#[test]
fn execution_flow_refuses_sponsor_funds_withdrawal() {
    let mut pool = GasPool::new(10_000, false);
    let mut t = tx(vec![], vec![]);
    t.funds_withdrawals = vec![sui_gas_pool::gas_pool_core::WithdrawFrom::Sponsor];
    let (mut flow, _) = ExecFlow::new(15, t);
    let a = flow.step(&mut pool, ExecEvent::SponsorChecked(true));
    assert!(matches!(a, ExecAction::Finish(Some(ExecError::InvalidTransaction(e))) if e.message().contains("Funds withdrawal from sponsor is not supported")));
}
