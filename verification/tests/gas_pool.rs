use sui_gas_pool::base_types::{ObjectDigest, ObjectID, ObjectRef, SuiAddress};
use sui_gas_pool::gas_pool_core::{Argument, BalanceChange, Command, GasPool, GasPoolError, TransactionData, WithdrawFrom};
use sui_gas_pool::object_locks::Owner;

fn addr(n: u128) -> SuiAddress {
    SuiAddress { hi: 0, lo: n }
}

fn oref(n: u128) -> ObjectRef {
    ObjectRef(ObjectID { hi: 0, lo: n }, 1, ObjectDigest { hi: 0, lo: 0 })
}

fn tx(sender: SuiAddress, sponsor: SuiAddress, commands: Vec<Command>) -> TransactionData {
    TransactionData {
        sender,
        gas_owner: sponsor,
        gas_payment: vec![oref(1)],
        first_signer: sender,
        commands,
        input_objects: vec![],
        funds_withdrawals: vec![],
    }
}

#[test]
fn valid_transaction_is_sponsored() {
    let pool = GasPool::new(1000, false);
    let t = tx(addr(1), addr(2), vec![Command::MoveCall { arguments: vec![Argument::Input(0)] }]);
    assert_eq!(pool.check_transaction_validity(&t), Ok(()));
}

#[test]
fn gas_coin_misuse_rejected_when_not_in_faucet_mode() {
    let pool = GasPool::new(1000, false);
    let t = tx(addr(1), addr(2), vec![Command::TransferObjects(vec![Argument::GasCoin], Argument::Input(0))]);
    let err = pool.check_transaction_validity(&t).unwrap_err();
    assert_eq!(err, GasPoolError::GasCoinUsedInCommand);
    assert!(err.message().contains("Gas coin can only be used to pay gas"));
    let t = tx(addr(1), addr(2), vec![Command::MergeCoins(Argument::Input(0), vec![Argument::Input(1), Argument::GasCoin])]);
    assert_eq!(pool.check_transaction_validity(&t), Err(GasPoolError::GasCoinUsedInCommand));
    // The amounts of a split and the recipient of a transfer are not looked at.
    let t = tx(addr(1), addr(2), vec![Command::SplitCoins(Argument::Input(0), vec![Argument::GasCoin])]);
    assert_eq!(pool.check_transaction_validity(&t), Ok(()));
    let t = tx(addr(1), addr(2), vec![Command::TransferObjects(vec![Argument::Input(0)], Argument::GasCoin)]);
    assert_eq!(pool.check_transaction_validity(&t), Ok(()));
}

#[test]
fn faucet_mode_needs_sender_as_sponsor() {
    let pool = GasPool::new(1000, true);
    let t = tx(addr(1), addr(2), vec![]);
    let err = pool.check_transaction_validity(&t).unwrap_err();
    assert_eq!(err, GasPoolError::SignerNotSender);
    assert_eq!(err.message(), "Expected that the transaction signer is the same as the sender");
    // In faucet mode the gas coin may be used.
    let t = tx(addr(1), addr(1), vec![Command::SplitCoins(Argument::GasCoin, vec![Argument::Input(0)])]);
    assert_eq!(pool.check_transaction_validity(&t), Ok(()));
}

#[test]
fn net_usage_in_normal_mode_is_gas_summary() {
    let pool = GasPool::new(1000, false);
    assert_eq!(pool.net_usage(1234, Owner::AddressOwner(addr(1)), None), Ok(1234));
}

#[test]
fn net_usage_in_faucet_mode_sums_owner_changes() {
    let pool = GasPool::new(1000, true);
    let owner = Owner::AddressOwner(addr(1));
    let other = Owner::AddressOwner(addr(2));
    let changes = vec![
        BalanceChange { owner, amount: -500 },
        BalanceChange { owner: other, amount: 300 },
        BalanceChange { owner, amount: -20 },
    ];
    assert_eq!(pool.net_usage(7, owner, Some(&changes)), Ok(520));
    assert_eq!(pool.net_usage(7, owner, None), Err(GasPoolError::NoBalanceChanges));
    let big = vec![BalanceChange { owner, amount: i64::MAX as i128 + 1 }];
    assert_eq!(pool.net_usage(7, owner, Some(&big)), Err(GasPoolError::NetUsageOverflow));
}

#[test]
fn coin_after_tx_subtracts_usage() {
    let pool = GasPool::new(1000, false);
    let c = pool.coin_after_tx(1_000, 250, oref(5));
    assert_eq!(c.object_ref, oref(5));
    assert_eq!(c.balance, 750);
    // A rebate larger than the cost adds to the balance.
    assert_eq!(pool.coin_after_tx(1_000, -30, oref(5)).balance, 1_030);
}

#[test]
fn rejects_same_sender_as_sponsor_when_not_in_faucet_mode() {
    let pool = GasPool::new(1000, false);
    let t = tx(addr(2), addr(2), vec![]);
    let err = pool.check_transaction_validity(&t).unwrap_err();
    assert_eq!(err, GasPoolError::SenderIsSponsor);
    assert!(err.message().contains("Sender cannot match sponsor"));
}

#[test]
fn rejects_sponsor_funds_withdrawal_in_both_modes() {
    let pool = GasPool::new(1000, false);
    let mut t = tx(addr(1), addr(2), vec![]);
    t.funds_withdrawals = vec![WithdrawFrom::Sender, WithdrawFrom::Sponsor];
    let err = pool.check_transaction_validity(&t).unwrap_err();
    assert_eq!(err, GasPoolError::SponsorFundsWithdrawal);
    assert!(err.message().contains("Funds withdrawal from sponsor is not supported"));
    let faucet = GasPool::new(1000, true);
    let mut t = tx(addr(2), addr(2), vec![]);
    t.funds_withdrawals = vec![WithdrawFrom::Sponsor];
    assert_eq!(faucet.check_transaction_validity(&t), Err(GasPoolError::SponsorFundsWithdrawal));
    // A withdrawal from the sender's own balance is allowed.
    let mut t = tx(addr(1), addr(2), vec![]);
    t.funds_withdrawals = vec![WithdrawFrom::Sender];
    assert_eq!(pool.check_transaction_validity(&t), Ok(()));
}
