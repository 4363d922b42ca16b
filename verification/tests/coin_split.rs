use sui_gas_pool::base_types::{GasCoin, ObjectDigest, ObjectID, ObjectRef};
use sui_gas_pool::coin_split::{balance_threshold, CoinSplitEnv, NEW_COIN_BALANCE_FACTOR_THRESHOLD};

fn oref(n: u128) -> ObjectRef {
    ObjectRef(ObjectID { hi: 0, lo: n }, 2, ObjectDigest { hi: 0, lo: n })
}

fn coin(balance: u64) -> GasCoin {
    GasCoin { object_ref: oref(0), balance }
}

#[test]
fn split_threshold_depends_on_first_run() {
    assert_eq!(balance_threshold(100_000_000, true), 0);
    assert_eq!(balance_threshold(100_000_000, false), 100_000_000 * NEW_COIN_BALANCE_FACTOR_THRESHOLD);
}

#[test]
fn small_coins_are_kept() {
    let env = CoinSplitEnv { target_init_coin_balance: 100, gas_cost_per_object: 10 };
    assert!(!env.needs_split(&coin(220)));
    assert!(env.needs_split(&coin(221)));
}

#[test]
fn split_plan_counts_units() {
    let env = CoinSplitEnv { target_init_coin_balance: 100, gas_cost_per_object: 10 };
    let plan = env.split_plan(1_000);
    assert_eq!(plan.split_count, 9);
    assert_eq!(plan.budget, 90);
    let each = env.new_coin_balance(&plan, 1_000);
    assert_eq!(each, 101);
    assert!(each >= env.target_init_coin_balance);
    // The coin keeps what the 8 new coins do not take, less the gas used.
    assert_eq!(env.remaining_coin_balance(&plan, 1_000, each, 50), Some(1_000 - 8 * 101 - 50));
}

#[test]
fn split_plan_caps_at_two_thousand() {
    let env = CoinSplitEnv { target_init_coin_balance: 1, gas_cost_per_object: 1 };
    let plan = env.split_plan(1_000_000);
    assert_eq!(plan.split_count, 2000);
    assert_eq!(plan.budget, 2000);
}

#[test]
fn split_results_resplit_large_coins() {
    let env = CoinSplitEnv { target_init_coin_balance: 100, gas_cost_per_object: 10 };
    let out = env.split_results(&[oref(1), oref(2)], 150, oref(3), 5_000);
    assert_eq!(out.kept.len(), 2);
    assert_eq!(out.kept[0].object_ref, oref(1));
    assert_eq!(out.kept[1].balance, 150);
    assert_eq!(out.to_split.len(), 1);
    assert_eq!(out.to_split[0].object_ref, oref(3));
    assert_eq!(out.to_split[0].balance, 5_000);
}

#[test]
fn remaining_balance_reads_back_unsigned() {
    let env = CoinSplitEnv { target_init_coin_balance: 100, gas_cost_per_object: 10 };
    let plan = env.split_plan(1_000);
    // A storage rebate larger than the cost makes the net usage negative.
    assert_eq!(env.remaining_coin_balance(&plan, 1_000, 101, -20), Some(1_000 - 8 * 101 + 20));
    assert_eq!(env.remaining_coin_balance(&plan, 1_000, 101, i64::MIN), None);
}
