use sui_gas_pool::base_types::{GasCoin, ObjectDigest, ObjectID, ObjectRef, SuiAddress};
use sui_gas_pool::gas_groups::UpdatedGasGroup;
use sui_gas_pool::gas_store::{RocksDBStorage, StorageError, MAX_GAS_PER_QUERY};

fn sponsor(n: u128) -> SuiAddress {
    SuiAddress { hi: 1, lo: n }
}

fn coin(sponsor_no: u128, n: u128, balance: u64) -> GasCoin {
    GasCoin {
        object_ref: ObjectRef(ObjectID { hi: sponsor_no, lo: n }, 1, ObjectDigest { hi: 0, lo: n }),
        balance,
    }
}

fn setup(pools: &[(u128, Vec<u64>)]) -> RocksDBStorage {
    let mut storage = RocksDBStorage::new();
    for (s, amounts) in pools {
        let coins: Vec<GasCoin> = amounts.iter().enumerate().map(|(i, b)| coin(*s, i as u128, *b)).collect();
        for chunk in coins.chunks(5000) {
            storage.add_new_coins(sponsor(*s), chunk.to_vec());
        }
    }
    storage
}

fn ids_sorted(coins: &[GasCoin]) -> Vec<ObjectID> {
    let mut ids: Vec<ObjectID> = coins.iter().map(|c| c.object_ref.0).collect();
    ids.sort_by_key(|i| (i.hi, i.lo));
    ids
}

fn assert_coin_count(storage: &RocksDBStorage, s: u128, available: usize, reserved: usize) {
    assert_eq!(storage.get_available_coin_count(sponsor(s)), available);
    assert_eq!(storage.get_reserved_coin_count(), reserved);
}

#[test]
fn storage_successful_reservations() {
    let mut storage = setup(&[(1, vec![1; 100000])]);
    assert_coin_count(&storage, 1, 100000, 0);
    let mut cur_available = 100000;
    for i in 1..=MAX_GAS_PER_QUERY {
        let reserved = storage.reserve_gas_coins_at(sponsor(1), i as u64, 1000, 0).unwrap();
        assert_eq!(reserved.len(), i);
        cur_available -= i;
    }
    assert_coin_count(&storage, 1, cur_available, 100000 - cur_available);
}

#[test]
fn test_max_gas_coin_per_query() {
    let mut storage = setup(&[(1, vec![1; MAX_GAS_PER_QUERY + 1])]);
    assert_eq!(
        storage.reserve_gas_coins_at(sponsor(1), (MAX_GAS_PER_QUERY + 1) as u64, 1000, 0),
        Err(StorageError::InsufficientGasCoins)
    );
    assert_coin_count(&storage, 1, MAX_GAS_PER_QUERY + 1, 0);
}

#[test]
fn test_insufficient_pool_budget() {
    let mut storage = setup(&[(1, vec![1; 100])]);
    assert!(storage.reserve_gas_coins_at(sponsor(1), 101, 1000, 0).is_err());
    assert_coin_count(&storage, 1, 100, 0);
}

#[test]
fn test_coin_release() {
    let mut storage = setup(&[(1, vec![1; 100])]);
    for _ in 0..100 {
        let reserved = storage.reserve_gas_coins_at(sponsor(1), 99, 1000, 0).unwrap();
        assert_eq!(reserved.len(), 99);
        assert_coin_count(&storage, 1, 1, 99);
        storage.read_for_execution(sponsor(1), ids_sorted(&reserved)).unwrap();
        storage
            .update_gas_coins(sponsor(1), vec![UpdatedGasGroup::new(reserved, vec![])])
            .unwrap();
        assert_coin_count(&storage, 1, 100, 0);
    }
}

#[test]
fn test_coin_release_with_updated_balance() {
    let mut storage = setup(&[(1, vec![1; 100])]);
    for _ in 0..10 {
        let mut reserved = storage.reserve_gas_coins_at(sponsor(1), 10, 1000, 0).unwrap();
        assert_eq!(reserved.iter().map(|c| c.balance).sum::<u64>(), 10);
        for c in reserved.iter_mut() {
            if c.balance > 0 {
                c.balance -= 1;
            }
        }
        storage.read_for_execution(sponsor(1), ids_sorted(&reserved)).unwrap();
        storage
            .update_gas_coins(sponsor(1), vec![UpdatedGasGroup::new(reserved, vec![])])
            .unwrap();
    }
    assert_coin_count(&storage, 1, 100, 0);
    assert_eq!(storage.get_total_available_coin_balance(sponsor(1)), 0);
    assert!(storage.reserve_gas_coins_at(sponsor(1), 1, 1000, 0).is_err());
}

#[test]
fn test_deleted_objects() {
    let mut storage = setup(&[(1, vec![1; 100])]);
    let mut reserved = storage.reserve_gas_coins_at(sponsor(1), 100, 1000, 0).unwrap();
    assert_eq!(reserved.len(), 100);
    storage.read_for_execution(sponsor(1), ids_sorted(&reserved)).unwrap();
    let deleted: Vec<ObjectID> = reserved.drain(0..50).map(|c| c.object_ref.0).collect();
    storage
        .update_gas_coins(sponsor(1), vec![UpdatedGasGroup::new(reserved, deleted)])
        .unwrap();
    assert_coin_count(&storage, 1, 50, 0);
}

#[test]
fn storage_coin_expiration() {
    let mut storage = setup(&[(1, vec![1; 100])]);
    let r1 = storage.reserve_gas_coins_at(sponsor(1), 10, 900, 1_000).unwrap();
    assert_eq!(r1.len(), 10);
    let r2 = storage.reserve_gas_coins_at(sponsor(1), 30, 1900, 1_000).unwrap();
    assert_eq!(r2.len(), 30);
    let r3 = storage.reserve_gas_coins_at(sponsor(1), 50, 1900, 1_001).unwrap();
    assert_eq!(r3.len(), 50);
    assert_coin_count(&storage, 1, 10, 90);

    assert!(storage.expire_coins_at(sponsor(1), 1_000).unwrap().is_empty());
    assert_coin_count(&storage, 1, 10, 90);

    let expired1 = storage.expire_coins_at(sponsor(1), 2_000).unwrap();
    assert_eq!(expired1.len(), 1);
    assert_eq!(expired1[0], ids_sorted(&r1));
    assert_coin_count(&storage, 1, 10, 80);
    // An expired group waits, pending, for its coins to be put back.
    assert_eq!(storage.get_pending_update_coin_count(), 1);

    assert!(storage.expire_coins_at(sponsor(1), 2_000).unwrap().is_empty());
    let mut expired2: Vec<ObjectID> = storage.expire_coins_at(sponsor(1), 3_001).unwrap().concat();
    expired2.sort_by_key(|i| (i.hi, i.lo));
    let mut both = r2.clone();
    both.extend(r3.clone());
    assert_eq!(expired2, ids_sorted(&both));
    assert_coin_count(&storage, 1, 10, 0);
    assert_eq!(storage.get_pending_update_coin_count(), 3);
}

#[test]
fn test_multiple_sponsors() {
    let pools: Vec<(u128, Vec<u64>)> = (0..10).map(|s| (s, vec![1; 100])).collect();
    let mut storage = setup(&pools);
    let mut reserved_total = 0;
    for s in 0..10 {
        let coins = storage.reserve_gas_coins_at(sponsor(s), 50, 1000, 0).unwrap();
        assert_eq!(coins.len(), 50);
        reserved_total += 50;
        assert_eq!(storage.get_available_coin_count(sponsor(s)), 50);
        assert_eq!(storage.get_reserved_coin_count(), reserved_total);
    }
}

#[test]
fn test_invalid_sponsor() {
    let mut storage = setup(&[(1, vec![1; 100])]);
    assert_eq!(
        storage.reserve_gas_coins_at(sponsor(2), 1, 1000, 0),
        Err(StorageError::InvalidSponsor)
    );
    assert_eq!(storage.reserve_gas_coins_at(sponsor(1), 1, 1000, 0).unwrap().len(), 1);
}

#[test]
fn storage_reservations_never_share_coins() {
    let mut storage = setup(&[(1, vec![1; 3000])]);
    let mut all = vec![];
    for _ in 0..1000 {
        all.extend(storage.reserve_gas_coins_at(sponsor(1), 3, 1000, 0).unwrap());
    }
    let count = all.len();
    let mut ids = ids_sorted(&all);
    ids.dedup();
    assert_eq!(ids.len(), count);
    assert_coin_count(&storage, 1, 3000 - count, count);
}

#[test]
fn storage_error_variants() {
    let mut storage = setup(&[(1, vec![5; 10])]);
    assert_eq!(storage.reserve_gas_coins_at(sponsor(1), 0, 1000, 0), Err(StorageError::ZeroBudget));
    assert_eq!(
        storage.reserve_gas_coins_at(sponsor(1), 5, u64::MAX, 1),
        Err(StorageError::ExpirationOverflow)
    );
    assert_eq!(storage.read_for_execution(sponsor(1), vec![]), Err(StorageError::EmptyGasCoins));
    let reserved = storage.reserve_gas_coins_at(sponsor(1), 10, 1000, 0).unwrap();
    assert_eq!(reserved.len(), 2);
    let ids = ids_sorted(&reserved);
    assert_eq!(storage.read_for_execution(sponsor(1), vec![ids[1]]), Err(StorageError::NotReserved));
    assert_eq!(
        storage.read_for_execution(sponsor(1), vec![ids[0]]),
        Err(StorageError::ReservationMismatch)
    );
    assert_eq!(
        storage.update_gas_coins(sponsor(1), vec![UpdatedGasGroup::new(reserved.clone(), vec![])]),
        Err(StorageError::NotPending(ids[0]))
    );
    storage.read_for_execution(sponsor(1), ids).unwrap();
    assert_eq!(storage.get_pending_update_coin_count(), 1);
    storage
        .update_gas_coins(sponsor(1), vec![UpdatedGasGroup::new(reserved, vec![])])
        .unwrap();
    assert_eq!(storage.get_available_coin_count(sponsor(1)), 10);
    assert!(storage.check_health().is_ok());
    assert!(storage.initialized(sponsor(1)));
    assert!(!storage.initialized(sponsor(2)));
}
