//! Tests of the expiration queue: deadline ordering, update and cancel
//! semantics, the expirer's wait decision, and the loader.
use bonsaidb::expiration::{ExpirationLoader, ExpirationQueue, ExpirerWait};
use bonsaidb::kv::{KeyValueStore, Timestamp, Value};

fn ts(micros: u64) -> Timestamp {
    Timestamp { micros }
}

#[test]
fn the_front_of_the_queue_is_the_soonest_deadline() {
    let mut queue = ExpirationQueue::new();
    queue.handle_update(String::from("a"), Some(ts(3_000)));
    queue.handle_update(String::from("c"), Some(ts(1_000)));
    queue.handle_update(String::from("b"), Some(ts(2_000)));
    assert_eq!(queue.next_deadline(), Some(ts(1_000)));
    assert_eq!(queue.len(), 3);
}

#[test]
fn updating_a_key_replaces_its_deadline() {
    let mut queue = ExpirationQueue::new();
    queue.handle_update(String::from("a"), Some(ts(100)));
    queue.handle_update(String::from("a"), Some(ts(1_000)));
    assert_eq!(queue.len(), 1);
    assert_eq!(queue.next_deadline(), Some(ts(1_000)));
}

#[test]
fn cancelling_stops_tracking() {
    let mut queue = ExpirationQueue::new();
    queue.handle_update(String::from("a"), Some(ts(100)));
    queue.handle_update(String::from("a"), None);
    assert_eq!(queue.len(), 0);
    let popped = queue.pop_expired(ts(u64::MAX));
    assert!(popped.is_empty());
}

#[test]
fn pop_removes_exactly_the_due_keys() {
    let mut queue = ExpirationQueue::new();
    queue.handle_update(String::from("a"), Some(ts(300)));
    queue.handle_update(String::from("b"), Some(ts(100)));
    queue.handle_update(String::from("c"), Some(ts(200)));
    let popped = queue.pop_expired(ts(200));
    let keys: Vec<String> = popped.into_iter().map(|e| e.key).collect();
    assert_eq!(keys, vec![String::from("b"), String::from("c")]);
    assert_eq!(queue.len(), 1);
    assert_eq!(queue.next_deadline(), Some(ts(300)));
}

#[test]
fn equal_deadlines_keep_insertion_order() {
    let mut queue = ExpirationQueue::new();
    queue.handle_update(String::from("first"), Some(ts(100)));
    queue.handle_update(String::from("second"), Some(ts(100)));
    let popped = queue.pop_expired(ts(100));
    let keys: Vec<String> = popped.into_iter().map(|e| e.key).collect();
    assert_eq!(keys, vec![String::from("first"), String::from("second")]);
}

#[test]
fn the_expirer_waits_for_the_front_deadline() {
    let mut queue = ExpirationQueue::new();
    assert!(matches!(queue.wait_decision(ts(0)), ExpirerWait::Idle));
    queue.handle_update(String::from("a"), Some(ts(500)));
    assert!(matches!(queue.wait_decision(ts(100)), ExpirerWait::Until(t) if t == ts(500)));
    assert!(matches!(queue.wait_decision(ts(500)), ExpirerWait::SweepNow));
}

#[test]
fn a_sweep_deletes_the_due_keys_from_the_store() {
    let mut store = KeyValueStore::new();
    let mut queue = ExpirationQueue::new();
    for (k, deadline) in [("a", 300u64), ("b", 100)] {
        store.set(
            &String::from(k),
            Value::Bytes(b"v".to_vec()),
            Some(ts(deadline)),
            false,
            None,
            false,
        );
        queue.handle_update(String::from(k), Some(ts(deadline)));
    }
    queue.remove_expired(&mut store, ts(150));
    assert!(store.get(&String::from("b")).is_none());
    assert!(store.get(&String::from("a")).is_some());
}

#[test]
fn the_loader_forwards_every_persisted_expiration() {
    let mut store = KeyValueStore::new();
    store.set(&String::from("a"), Value::Bytes(b"v".to_vec()), Some(ts(200)), false, None, false);
    store.set(&String::from("b"), Value::Bytes(b"v".to_vec()), None, false, None, false);
    store.set(&String::from("c"), Value::Bytes(b"v".to_vec()), Some(ts(100)), false, None, false);

    let mut queue = ExpirationQueue::new();
    let forwarded = ExpirationLoader::execute(&store, &mut queue);
    assert_eq!(forwarded.len(), 2);
    assert_eq!(queue.len(), 2);
    assert_eq!(queue.next_deadline(), Some(ts(100)));
}
