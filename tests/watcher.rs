use plasma::account::{Account, AccountMap};
use plasma::storage::StorageConnection;
use plasma::watcher::{
    ChainEvent, ChainReport, GatewayError, PollOutcome, WatchAction, Watcher, WatcherRequest,
};

fn acc(balance: u64) -> Account {
    Account { balance, nonce: 0, pub_x: 0, pub_y: 0 }
}

fn ev(block_number: u32, account_id: u32, balance: u64) -> ChainEvent {
    ChainEvent { block_number, account_id, data: acc(balance) }
}

fn report(height: u32, events: Vec<ChainEvent>) -> Result<ChainReport, GatewayError> {
    Ok(ChainReport { height, events })
}

fn scenario_events() -> Vec<ChainEvent> {
    vec![ev(3, 7, 10), ev(5, 7, 15)]
}

#[test]
fn sync_scenario_two_blocks_one_account() {
    let mut w = Watcher::new(0);
    let mut store = StorageConnection::new();
    let out = w.sync_step(&mut store, report(5, scenario_events()));
    assert_eq!(out, PollOutcome::Synced(5));
    assert_eq!(store.load_verified_state().get(7).unwrap().balance, 15);
    assert_eq!(store.account_updates(7).len(), 2);
    assert_eq!(w.last_processed_height(), 5);
    assert_eq!(store.applied_block(), 5);
    assert_eq!(store.last_recorded_block(), 5);
}

#[test]
fn sync_twice_is_idempotent() {
    let mut w = Watcher::new(0);
    let mut store = StorageConnection::new();
    w.sync_step(&mut store, report(5, scenario_events()));
    let out = w.sync_step(&mut store, report(5, scenario_events()));
    assert_eq!(out, PollOutcome::UpToDate);
    assert_eq!(store.account_updates(7).len(), 2);
    assert_eq!(store.load_verified_state().get(7), Some(acc(15)));
    assert_eq!(w.last_processed_height(), 5);
}

#[test]
fn gateway_failure_then_success() {
    let mut w = Watcher::new(0);
    let mut store = StorageConnection::new();
    let out = w.sync_step(&mut store, Err(GatewayError::Transient));
    assert_eq!(out, PollOutcome::GatewayFailed);
    assert_eq!(w.last_processed_height(), 0);
    assert_eq!(store.account_updates(7).len(), 0);
    w.sync_step(&mut store, report(5, scenario_events()));

    let mut w2 = Watcher::new(0);
    let mut store2 = StorageConnection::new();
    w2.sync_step(&mut store2, report(5, scenario_events()));
    assert_eq!(w.last_processed_height(), w2.last_processed_height());
    assert_eq!(store.account_updates(7), store2.account_updates(7));
    assert_eq!(store.load_verified_state().get(7), store2.load_verified_state().get(7));
}

#[test]
fn height_never_decreases() {
    let mut w = Watcher::new(0);
    let mut store = StorageConnection::new();
    assert_eq!(w.sync_step(&mut store, report(4, vec![ev(2, 1, 1)])), PollOutcome::Synced(4));
    assert_eq!(w.last_processed_height(), 4);
    assert_eq!(w.sync_step(&mut store, report(3, vec![])), PollOutcome::UpToDate);
    assert_eq!(w.last_processed_height(), 4);
    assert_eq!(w.sync_step(&mut store, report(6, vec![ev(6, 1, 2)])), PollOutcome::Synced(6));
    assert_eq!(w.last_processed_height(), 6);
    assert_eq!(store.load_verified_state().get(1), Some(acc(2)));
}

#[test]
fn sync_without_events_advances_height() {
    let mut w = Watcher::new(2);
    let mut store = StorageConnection::new();
    assert_eq!(w.sync_step(&mut store, report(9, vec![])), PollOutcome::Synced(9));
    assert_eq!(w.last_processed_height(), 9);
    assert_eq!(store.applied_block(), 9);
}

#[test]
fn malformed_events_change_nothing() {
    let mut w = Watcher::new(0);
    let mut store = StorageConnection::new();
    let unordered = vec![ev(5, 1, 1), ev(3, 1, 2)];
    assert_eq!(w.sync_step(&mut store, report(5, unordered)), PollOutcome::Malformed);
    let above = vec![ev(6, 1, 1)];
    assert_eq!(w.sync_step(&mut store, report(5, above)), PollOutcome::Malformed);
    assert_eq!(w.last_processed_height(), 0);
    assert_eq!(store.account_updates(1).len(), 0);
    assert_eq!(store.applied_block(), 0);
}

#[test]
fn same_block_events_last_wins() {
    let mut w = Watcher::new(0);
    let mut store = StorageConnection::new();
    let events = vec![ev(2, 1, 1), ev(2, 4, 8), ev(2, 1, 3)];
    w.sync_step(&mut store, report(2, events));
    let rows = store.account_updates(1);
    assert_eq!(rows.len(), 1);
    assert_eq!(rows[0].data, acc(3));
    assert_eq!(store.load_verified_state().get(4), Some(acc(8)));
}

#[test]
fn blocks_already_recorded_are_skipped() {
    let mut w = Watcher::new(0);
    let mut store = StorageConnection::new();
    let mut d = AccountMap::new();
    d.insert(7, acc(10));
    store.commit_state_update(3, &d).unwrap();
    let out = w.sync_step(&mut store, report(5, scenario_events()));
    assert_eq!(out, PollOutcome::Synced(5));
    assert_eq!(store.account_updates(7).len(), 2);
    assert_eq!(store.load_verified_state().get(7), Some(acc(15)));
}

#[test]
fn events_below_start_are_skipped() {
    let mut w = Watcher::new(3);
    let mut store = StorageConnection::new();
    w.sync_step(&mut store, report(5, scenario_events()));
    let rows = store.account_updates(7);
    assert_eq!(rows.len(), 1);
    assert_eq!(rows[0].block_number, 5);
}

#[test]
fn range_to_query_follows_last_height() {
    let w = Watcher::new(4);
    assert_eq!(w.range_to_query(9), Some((5, 9)));
    assert_eq!(w.range_to_query(4), None);
    assert_eq!(w.range_to_query(2), None);
}

#[test]
fn poll_request_asks_for_height() {
    let w = Watcher::new(0);
    assert_eq!(w.handle(WatcherRequest::PollChainNode), WatchAction::QueryHeight);
}
