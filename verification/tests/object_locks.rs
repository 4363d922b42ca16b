use std::collections::HashMap;
use sui_gas_pool::base_types::{ObjectDigest, ObjectID, ObjectRef, SuiAddress};
use sui_gas_pool::object_locks::{
    classify_objects, InputObjectKind, ObjectLockError, ObjectLockManager, ObjectLocks, Owner,
};

fn id(n: u128) -> ObjectID {
    ObjectID { hi: 0, lo: n }
}

fn addr(n: u128) -> SuiAddress {
    SuiAddress { hi: 7, lo: n }
}

fn oref(obj: ObjectID, version: u64) -> ObjectRef {
    ObjectRef(obj, version, ObjectDigest { hi: 1, lo: 2 })
}

/// A transaction's inputs: address-owned or immutable objects at versions,
/// and shared objects.
fn inputs(owned: &[(ObjectID, u64)], shared: &[ObjectID]) -> Vec<InputObjectKind> {
    let mut v: Vec<InputObjectKind> = owned
        .iter()
        .map(|(o, ver)| InputObjectKind::ImmOrOwnedMoveObject(oref(*o, *ver)))
        .collect();
    for s in shared {
        v.push(InputObjectKind::SharedMoveObject { id: *s, initial_shared_version: 1, mutable: true });
    }
    v
}

/// Acquires locks as a gas pool does: prepare, fetch the owners the cache
/// cannot answer for from `chain`, finish.
fn acquire(
    manager: &mut ObjectLockManager,
    chain: &HashMap<ObjectID, (Owner, u64)>,
    reservation_id: u64,
    tx_inputs: &[InputObjectKind],
    gas: &[ObjectRef],
) -> Result<ObjectLocks, ObjectLockError> {
    let objects = manager.get_imm_or_owned_non_gas_objects(tx_inputs, gas);
    let plan = manager.prepare_locks(&objects)?;
    let fetched: Vec<(ObjectID, Owner, u64)> = plan
        .query_ids()
        .into_iter()
        .filter_map(|i| chain.get(&i).map(|(o, v)| (i, *o, *v)))
        .collect();
    manager.finish_locks(reservation_id, &plan, &fetched)
}

fn owned_by_someone(version: u64) -> (Owner, u64) {
    (Owner::AddressOwner(addr(9)), version)
}

#[test]
fn test_empty_lock_acquisition() {
    let chain = HashMap::new();
    let mut manager = ObjectLockManager::new();
    let gas = vec![oref(id(1000), 1)];
    let tx = inputs(&[(id(1000), 1)], &[]);
    let locks = acquire(&mut manager, &chain, 1, &tx, &gas).unwrap();
    // Nothing is locked, not even the gas coin.
    assert!(locks.locked_objects.is_empty());
    manager.release_locks(&locks);
}

#[test]
fn test_basic_lock_and_release() {
    let obj = id(1);
    let chain = HashMap::from([(obj, owned_by_someone(1))]);
    let mut manager = ObjectLockManager::new();
    let tx = inputs(&[(obj, 1)], &[]);
    let locks = acquire(&mut manager, &chain, 1, &tx, &[]).unwrap();
    assert_eq!(locks.locked_objects.len(), 1);
    assert_eq!(locks.locked_objects[0], obj);
    assert!(manager.is_locked(obj));
    manager.release_locks(&locks);
    assert!(!manager.is_locked(obj));
}

#[test]
fn test_concurrent_lock_acquisition() {
    let obj = id(1);
    let chain = HashMap::from([(obj, owned_by_someone(1))]);
    let mut manager = ObjectLockManager::new();
    let tx = inputs(&[(obj, 1)], &[]);
    let locks = acquire(&mut manager, &chain, 1, &tx, &[]).unwrap();
    assert_eq!(locks.locked_objects.len(), 1);
    assert_eq!(acquire(&mut manager, &chain, 2, &tx, &[]).err(), Some(ObjectLockError::AlreadyLocked(obj)));
    manager.release_locks(&locks);
    let locks = acquire(&mut manager, &chain, 2, &tx, &[]).unwrap();
    assert_eq!(locks.locked_objects.len(), 1);
    manager.release_locks(&locks);
}

#[test]
fn test_version_based_cache_behavior() {
    let obj = id(1);
    let mut chain = HashMap::from([(obj, owned_by_someone(1))]);
    let mut manager = ObjectLockManager::new();

    let tx = inputs(&[(obj, 1)], &[]);
    let locks = acquire(&mut manager, &chain, 1, &tx, &[]).unwrap();
    assert_eq!(locks.locked_objects.len(), 1);
    manager.release_locks(&locks);

    manager.update_cache_post_execution(&tx, &[], &[(obj, Owner::AddressOwner(addr(3)), 2)]);

    // Version 1 is out of date.
    let tx = inputs(&[(obj, 1)], &[]);
    assert!(acquire(&mut manager, &chain, 2, &tx, &[]).is_err());

    // Version 2 is answered by the cache.
    let tx = inputs(&[(obj, 2)], &[]);
    let locks = acquire(&mut manager, &chain, 3, &tx, &[]).unwrap();
    assert_eq!(locks.locked_objects.len(), 1);
    manager.release_locks(&locks);

    // Version 3 is asked for again.
    chain.insert(obj, owned_by_someone(3));
    let tx = inputs(&[(obj, 3)], &[]);
    let locks = acquire(&mut manager, &chain, 4, &tx, &[]).unwrap();
    assert_eq!(locks.locked_objects.len(), 1);
}

#[test]
fn test_lock_acquisition_version_mismatch() {
    let obj = id(1);
    let chain = HashMap::from([(obj, owned_by_someone(1))]);
    let mut manager = ObjectLockManager::new();

    // A newer version than the chain knows is still locked.
    let tx = inputs(&[(obj, 2)], &[]);
    let locks = acquire(&mut manager, &chain, 1, &tx, &[]).unwrap();
    assert_eq!(locks.locked_objects.len(), 1);
    manager.release_locks(&locks);

    // Version 1 is what was cached.
    let tx = inputs(&[(obj, 1)], &[]);
    let locks = acquire(&mut manager, &chain, 2, &tx, &[]).unwrap();
    assert_eq!(locks.locked_objects.len(), 1);
    manager.release_locks(&locks);

    // Version 0 is out of date.
    let tx = inputs(&[(obj, 0)], &[]);
    assert_eq!(
        acquire(&mut manager, &chain, 3, &tx, &[]).err(),
        Some(ObjectLockError::VersionOutOfDate { id: obj, provided: 0, latest: 1 })
    );
}

#[test]
fn test_cache_update_when_object_frozen() {
    let obj = id(1);
    let chain = HashMap::from([(obj, owned_by_someone(1))]);
    let mut manager = ObjectLockManager::new();
    let tx = inputs(&[(obj, 1)], &[]);
    let locks = acquire(&mut manager, &chain, 1, &tx, &[]).unwrap();
    assert_eq!(locks.locked_objects.len(), 1);
    manager.release_locks(&locks);

    manager.update_cache_post_execution(&tx, &[], &[(obj, Owner::Immutable, 2)]);

    let tx = inputs(&[(obj, 1)], &[]);
    assert!(acquire(&mut manager, &chain, 2, &tx, &[]).is_err());

    let tx = inputs(&[(obj, 2)], &[]);
    let locks = acquire(&mut manager, &chain, 3, &tx, &[]).unwrap();
    assert!(locks.locked_objects.is_empty());
}

#[test]
fn test_cache_update_shared_then_owned() {
    let obj = id(1);
    let mut chain = HashMap::from([(obj, owned_by_someone(1))]);
    let mut manager = ObjectLockManager::new();
    let tx = inputs(&[(obj, 1)], &[]);
    let locks = acquire(&mut manager, &chain, 1, &tx, &[]).unwrap();
    assert_eq!(locks.locked_objects.len(), 1);
    manager.release_locks(&locks);

    manager.update_cache_post_execution(&tx, &[], &[(obj, Owner::Shared { initial_shared_version: 0 }, 2)]);

    let tx = inputs(&[(obj, 1)], &[]);
    assert!(acquire(&mut manager, &chain, 2, &tx, &[]).is_err());

    let tx = inputs(&[(obj, 2)], &[]);
    let locks = acquire(&mut manager, &chain, 3, &tx, &[]).unwrap();
    assert!(locks.locked_objects.is_empty());
    manager.release_locks(&locks);

    chain.insert(obj, owned_by_someone(3));
    let tx = inputs(&[(obj, 3)], &[]);
    let locks = acquire(&mut manager, &chain, 4, &tx, &[]).unwrap();
    assert_eq!(locks.locked_objects.len(), 1);
}

#[test]
fn gas_and_shared_inputs_are_not_locked() {
    let manager = ObjectLockManager::new();
    let tx = inputs(&[(id(1), 4), (id(2), 5)], &[id(3)]);
    let objects = manager.get_imm_or_owned_non_gas_objects(&tx, &[oref(id(2), 5)]);
    assert_eq!(objects, vec![(id(1), 4)]);
}

#[test]
fn classify_uses_cache_at_same_version() {
    let objects = vec![(id(1), 3), (id(2), 3), (id(3), 3), (id(4), 3)];
    let cached = vec![Some((3, true)), Some((3, false)), Some((2, true)), None];
    let plan = classify_objects(&objects, &cached).unwrap();
    assert_eq!(plan.owned, vec![id(1)]);
    assert_eq!(plan.query_ids(), vec![id(3), id(4)]);
}

#[test]
fn classify_refuses_older_version() {
    let objects = vec![(id(1), 1)];
    let cached = vec![Some((2, true))];
    assert_eq!(
        classify_objects(&objects, &cached).err(),
        Some(ObjectLockError::VersionOutOfDate { id: id(1), provided: 1, latest: 2 })
    );
}

#[test]
fn finish_refuses_fetched_newer_version() {
    let mut manager = ObjectLockManager::new();
    let plan = manager.prepare_locks(&[(id(1), 1)]).unwrap();
    let r = manager.finish_locks(1, &plan, &[(id(1), Owner::AddressOwner(addr(1)), 5)]);
    assert_eq!(r.err(), Some(ObjectLockError::VersionOutOfDate { id: id(1), provided: 1, latest: 5 }));
    assert!(!manager.is_locked(id(1)));
}
