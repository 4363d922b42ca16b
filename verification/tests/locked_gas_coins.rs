use sui_gas_pool::base_types::{GasCoin, ObjectDigest, ObjectID, ObjectRef, SuiAddress};
use sui_gas_pool::locked_gas_coins::{LockError, LockedGasCoinsInner};

fn id(n: u128) -> ObjectID {
    ObjectID { hi: 3, lo: n }
}

fn coin(n: u128) -> GasCoin {
    GasCoin { object_ref: ObjectRef(id(n), 1, ObjectDigest { hi: 0, lo: 0 }), balance: 10 }
}

fn sponsor() -> SuiAddress {
    SuiAddress { hi: 0, lo: 42 }
}

#[test]
fn locked_coins_release_together() {
    let mut locks = LockedGasCoinsInner::new();
    locks.add_locked_coins_at(sponsor(), &[coin(1), coin(2), coin(3)], 1000, 0);
    // Any order works.
    assert_eq!(locks.remove_locked_coins(&[id(3), id(1), id(2)]), Ok(()));
    // They are no longer locked.
    assert_eq!(locks.remove_locked_coins(&[id(1)]), Err(LockError::NotLocked(id(1))));
}

#[test]
fn locked_coins_partial_release_refused() {
    let mut locks = LockedGasCoinsInner::new();
    locks.add_locked_coins_at(sponsor(), &[coin(1), coin(2)], 1000, 0);
    assert_eq!(locks.remove_locked_coins(&[id(1)]), Err(LockError::InconsistentWithLock));
    assert_eq!(locks.remove_locked_coins(&[]), Err(LockError::NoGasCoin));
    // Still locked: the full set releases.
    assert_eq!(locks.remove_locked_coins(&[id(1), id(2)]), Ok(()));
}

#[test]
fn locked_coins_of_different_transactions_refused() {
    let mut locks = LockedGasCoinsInner::new();
    locks.add_locked_coins_at(sponsor(), &[coin(1)], 1000, 0);
    locks.add_locked_coins_at(sponsor(), &[coin(2)], 1000, 5);
    assert_eq!(locks.remove_locked_coins(&[id(1), id(2)]), Err(LockError::LockedByDifferentTransactions));
    assert_eq!(locks.remove_locked_coins(&[id(1), id(9)]), Err(LockError::NotLocked(id(9))));
}

#[test]
fn expired_locks_unlock_in_time_order() {
    let mut locks = LockedGasCoinsInner::new();
    locks.add_locked_coins_at(sponsor(), &[coin(1)], 300, 0);
    locks.add_locked_coins_at(sponsor(), &[coin(2), coin(3)], 100, 0);
    locks.add_locked_coins_at(sponsor(), &[coin(4)], 200, 0);
    assert!(locks.unlock_if_expired_at(99).is_empty());
    let released = locks.unlock_if_expired_at(250);
    assert_eq!(released.len(), 2);
    assert_eq!(released[0].objects, vec![id(2), id(3)]);
    assert_eq!(released[0].unlock_time, 100);
    assert_eq!(released[1].objects, vec![id(4)]);
    // A lock released by hand is not released again when it expires.
    assert_eq!(locks.remove_locked_coins(&[id(1)]), Ok(()));
    assert!(locks.unlock_if_expired_at(1000).is_empty());
}

#[test]
fn lock_with_clock_can_be_released() {
    let mut locks = LockedGasCoinsInner::new();
    locks.add_locked_coins(sponsor(), &[coin(7)], 60_000);
    assert!(locks.unlock_if_expired().is_empty());
    assert_eq!(locks.remove_locked_coins(&[id(7)]), Ok(()));
}
