use sui_gas_pool::base_types::{GasCoin, ObjectDigest, ObjectID, ObjectRef, SuiAddress};
use sui_gas_pool::gas_station::{group_by_sponsor, partition_latest_gas, select_sponsor, SponsorError};
use sui_gas_pool::locked_gas_coins::CoinLockInfo;
use sui_gas_pool::rocksdb_storage::RocksDBStorage;

fn coin(n: u128, balance: u64) -> GasCoin {
    GasCoin { object_ref: ObjectRef(ObjectID { hi: 5, lo: n }, 1, ObjectDigest { hi: 0, lo: n }), balance }
}

#[test]
fn queue_takes_from_front_and_puts_back_last() {
    let mut storage = RocksDBStorage::new();
    storage.add_gas_coins((0..10).map(|i| coin(i, 10)).collect());
    assert_eq!(storage.get_available_coin_count(), 10);
    let taken = storage.reserve_gas_coins(25);
    assert_eq!(taken, vec![coin(0, 10), coin(1, 10), coin(2, 10)]);
    assert_eq!(storage.get_reserved_coin_count(), 3);
    assert_eq!(storage.get_available_coin_count(), 7);
    storage.add_gas_coins(taken);
    assert_eq!(storage.get_reserved_coin_count(), 0);
    assert_eq!(storage.get_total_available_coin_balance(), 100);
    // The coins put back come after the others.
    let taken = storage.reserve_gas_coins(70);
    assert_eq!(taken[0], coin(3, 10));
    assert_eq!(taken[6], coin(9, 10));
}

#[test]
fn queue_gives_nothing_when_budget_is_out_of_reach() {
    let mut storage = RocksDBStorage::new();
    storage.add_gas_coins(vec![coin(0, 1), coin(1, 1)]);
    assert!(storage.reserve_gas_coins(3).is_empty());
    assert_eq!(storage.get_available_coin_count(), 2);
    assert_eq!(storage.get_reserved_coin_count(), 0);
}

#[test]
fn queue_takes_at_most_max_per_query() {
    let mut storage = RocksDBStorage::new();
    storage.add_gas_coins((0..300).map(|i| coin(i, 1)).collect());
    assert!(storage.reserve_gas_coins(257).is_empty());
    assert_eq!(storage.reserve_gas_coins(256).len(), 256);
}

#[test]
fn sponsor_selection() {
    let a = SuiAddress { hi: 0, lo: 1 };
    let b = SuiAddress { hi: 0, lo: 2 };
    assert_eq!(select_sponsor(Some(b), &[a, b]), Ok(b));
    assert_eq!(select_sponsor(None, &[a, b]), Ok(a));
    assert_eq!(select_sponsor(Some(SuiAddress { hi: 0, lo: 3 }), &[a]), Err(SponsorError::NotRegistered(SuiAddress { hi: 0, lo: 3 })));
    assert_eq!(select_sponsor(None, &[]), Err(SponsorError::NoSponsorRegistered));
}

#[test]
fn released_coins_grouped_by_sponsor() {
    let a = SuiAddress { hi: 0, lo: 1 };
    let b = SuiAddress { hi: 0, lo: 2 };
    let id = |n: u128| ObjectID { hi: 5, lo: n };
    let locks = vec![
        CoinLockInfo { sponsor: a, objects: vec![id(1), id(2)], unlock_time: 1 },
        CoinLockInfo { sponsor: b, objects: vec![id(3)], unlock_time: 2 },
        CoinLockInfo { sponsor: a, objects: vec![id(4)], unlock_time: 3 },
    ];
    let groups = group_by_sponsor(&locks);
    assert_eq!(groups, vec![(a, vec![id(1), id(2), id(4)]), (b, vec![id(3)])]);
}

#[test]
fn latest_gas_partitioned_into_live_and_deleted() {
    let ids: Vec<ObjectID> = (1..=3).map(|n| ObjectID { hi: 5, lo: n }).collect();
    let read = vec![Some(coin(1, 7)), None, Some(coin(3, 9))];
    let r = partition_latest_gas(&ids, &read);
    assert_eq!(r.live_gas_coins, vec![coin(1, 7), coin(3, 9)]);
    assert_eq!(r.deleted_gas_coins, vec![ObjectID { hi: 5, lo: 2 }]);
}
