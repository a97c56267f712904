use plasma::account::{Account, AccountMap};
use plasma::storage::{StorageConnection, StoreError};
use serde_json::Value;

fn acc(balance: u64, nonce: u32) -> Account {
    Account { balance, nonce, pub_x: 0, pub_y: 0 }
}

fn delta(entries: &[(u32, Account)]) -> AccountMap {
    let mut m = AccountMap::new();
    for (id, a) in entries {
        m.insert(*id, *a);
    }
    m
}

#[test]
fn storage_test() {
    let mut store = StorageConnection::new();
    assert_eq!(store.commit_state_update(1, &delta(&[(0, acc(1, 1))])), Ok(()));
    assert_eq!(store.apply_state_update(1), Ok(()));
    let state = store.load_verified_state();
    assert_eq!(state.get(0), Some(acc(1, 1)));
    let op = store.commit_op(Value::Null, "addr".to_string(), 1, 0).unwrap();
    assert_eq!(op.id, 1);
}

#[test]
fn new_store_is_empty() {
    let store = StorageConnection::new();
    assert_eq!(store.last_recorded_block(), 0);
    assert_eq!(store.applied_block(), 0);
    assert_eq!(store.load_verified_state().len(), 0);
}

#[test]
fn record_rejects_lower_block() {
    let mut store = StorageConnection::new();
    store.commit_state_update(5, &delta(&[(7, acc(10, 0))])).unwrap();
    let r = store.commit_state_update(4, &delta(&[(7, acc(99, 0))]));
    assert_eq!(r, Err(StoreError::OrderingViolation(4)));
    assert_eq!(store.account_updates(7).len(), 1);
    assert_eq!(store.last_recorded_block(), 5);
}

#[test]
fn record_rejects_same_block() {
    let mut store = StorageConnection::new();
    store.commit_state_update(5, &delta(&[(7, acc(10, 0))])).unwrap();
    let r = store.commit_state_update(5, &delta(&[(7, acc(10, 0))]));
    assert_eq!(r, Err(StoreError::OrderingViolation(5)));
    assert_eq!(store.account_updates(7).len(), 1);
}

#[test]
fn record_rejects_block_zero_and_applied_blocks() {
    let mut store = StorageConnection::new();
    assert_eq!(
        store.commit_state_update(0, &delta(&[(1, acc(1, 0))])),
        Err(StoreError::OrderingViolation(0))
    );
    store.apply_state_update(9).unwrap();
    assert_eq!(
        store.commit_state_update(9, &delta(&[(1, acc(1, 0))])),
        Err(StoreError::OrderingViolation(9))
    );
    assert_eq!(store.commit_state_update(10, &delta(&[(1, acc(1, 0))])), Ok(()));
}

#[test]
fn record_appends_one_row_per_account() {
    let mut store = StorageConnection::new();
    store
        .commit_state_update(3, &delta(&[(1, acc(5, 0)), (2, acc(6, 0))]))
        .unwrap();
    let rows = store.account_updates(2);
    assert_eq!(rows.len(), 1);
    assert_eq!(rows[0].block_number, 3);
    assert_eq!(rows[0].data, acc(6, 0));
    assert_eq!(store.last_recorded_block(), 3);
    // recorded but not applied: the verified state does not see it yet
    assert_eq!(store.load_verified_state().get(2), None);
}

#[test]
fn fold_later_block_wins() {
    let mut store = StorageConnection::new();
    store.commit_state_update(1, &delta(&[(7, acc(10, 1))])).unwrap();
    store.commit_state_update(2, &delta(&[(7, acc(15, 2))])).unwrap();
    store.apply_state_update(2).unwrap();
    assert_eq!(store.load_verified_state().get(7), Some(acc(15, 2)));
}

#[test]
fn apply_stops_at_height() {
    let mut store = StorageConnection::new();
    store.commit_state_update(1, &delta(&[(7, acc(10, 1))])).unwrap();
    store.commit_state_update(2, &delta(&[(7, acc(15, 2)), (8, acc(3, 0))])).unwrap();
    store.apply_state_update(1).unwrap();
    let state = store.load_verified_state();
    assert_eq!(state.get(7), Some(acc(10, 1)));
    assert_eq!(state.get(8), None);
    assert_eq!(store.applied_block(), 1);
}

#[test]
fn apply_lower_height_changes_nothing() {
    let mut store = StorageConnection::new();
    store.commit_state_update(1, &delta(&[(7, acc(10, 1))])).unwrap();
    store.commit_state_update(2, &delta(&[(7, acc(15, 2))])).unwrap();
    store.apply_state_update(2).unwrap();
    assert_eq!(store.apply_state_update(1), Ok(()));
    assert_eq!(store.applied_block(), 2);
    assert_eq!(store.load_verified_state().get(7), Some(acc(15, 2)));
}

#[test]
fn commit_op_assigns_sequential_ids() {
    let mut store = StorageConnection::new();
    let a = store
        .commit_op(Value::String("deposit".to_string()), "alice".to_string(), 3, 1000)
        .unwrap();
    let b = store.commit_op(Value::Bool(true), "bob".to_string(), 1, 2000).unwrap();
    assert_eq!(a.id, 1);
    assert_eq!(b.id, 2);
    assert_eq!(a.data, Value::String("deposit".to_string()));
    assert_eq!(a.addr, "alice");
    assert_eq!(a.nonce, 3);
    assert_eq!(a.created_at, 1000);
    assert_eq!(b.data, Value::Bool(true));
}

fn op_ids(ops: &[plasma::storage::Operation]) -> Vec<u64> {
    ops.iter().map(|o| o.id).collect()
}

#[test]
fn pending_ops_sorted_by_nonce() {
    let mut store = StorageConnection::new();
    store.commit_op(Value::Null, "a".to_string(), 3, 0).unwrap(); // id 1
    store.commit_op(Value::Null, "a".to_string(), 2, 0).unwrap(); // id 2
    store.commit_op(Value::Null, "b".to_string(), 1, 0).unwrap(); // id 3
    store.commit_op(Value::Null, "a".to_string(), 1, 0).unwrap(); // id 4
    let table = vec![("a".to_string(), 1u32)];
    let pending = store.load_pendings_ops(&table);
    assert_eq!(op_ids(&pending), vec![3, 2, 1]);
    let nonces: Vec<u32> = pending.iter().map(|o| o.nonce).collect();
    assert_eq!(nonces, vec![1, 2, 3]);
}

#[test]
fn pending_op_excluded_once_nonce_reflected() {
    let mut store = StorageConnection::new();
    store.commit_op(Value::Null, "a".to_string(), 5, 0).unwrap();
    let none: Vec<(String, u32)> = vec![];
    assert_eq!(store.load_pendings_ops(&none).len(), 1);
    assert_eq!(store.load_pendings_ops(&vec![("a".to_string(), 4)]).len(), 1);
    assert_eq!(store.load_pendings_ops(&vec![("a".to_string(), 5)]).len(), 0);
    assert_eq!(store.load_pendings_ops(&vec![("a".to_string(), 6)]).len(), 0);
    assert_eq!(store.load_pendings_ops(&vec![("b".to_string(), 9)]).len(), 1);
}

#[test]
fn pending_uses_first_table_entry() {
    let mut store = StorageConnection::new();
    store.commit_op(Value::Null, "a".to_string(), 5, 0).unwrap();
    let table = vec![("a".to_string(), 2), ("a".to_string(), 9)];
    assert_eq!(store.load_pendings_ops(&table).len(), 1);
}

#[test]
fn pending_empty_log() {
    let store = StorageConnection::new();
    assert!(store.load_pendings_ops(&vec![]).is_empty());
}

#[test]
fn account_map_insert_replaces() {
    let mut m = AccountMap::new();
    m.insert(4, acc(1, 0));
    m.insert(2, acc(2, 0));
    m.insert(4, acc(3, 0));
    assert_eq!(m.len(), 2);
    assert_eq!(m.get(4), Some(acc(3, 0)));
    assert_eq!(m.entry(0), (4, acc(3, 0)));
    assert_eq!(m.entry(1), (2, acc(2, 0)));
    assert_eq!(m.get(9), None);
    let d = m.duplicate();
    assert_eq!(d.get(2), Some(acc(2, 0)));
}
