//! Tests of the pub/sub relay: fan-out order, unsubscription, idempotence,
//! and session-scoped cleanup.
use bonsaidb::pubsub::Relay;

fn payloads(relay: &mut Relay, id: u64) -> Vec<Vec<u8>> {
    relay
        .take_messages(id)
        .into_iter()
        .map(|m| m.payload)
        .collect()
}

#[test]
fn multiple_subscribers_receive_in_publish_order() {
    let mut relay = Relay::new();
    let a = relay.create_subscriber(None);
    let ab = relay.create_subscriber(None);
    relay.subscribe_to(a, String::from("a"));
    relay.subscribe_to(ab, String::from("a"));
    relay.subscribe_to(ab, String::from("b"));

    relay.publish(&String::from("a"), b"a1");
    relay.publish(&String::from("b"), b"b1");
    relay.publish(&String::from("a"), b"a2");

    assert_eq!(payloads(&mut relay, a), vec![b"a1".to_vec(), b"a2".to_vec()]);
    assert_eq!(
        payloads(&mut relay, ab),
        vec![b"a1".to_vec(), b"b1".to_vec(), b"a2".to_vec()]
    );
}

#[test]
fn messages_carry_their_topic() {
    let mut relay = Relay::new();
    let s = relay.create_subscriber(None);
    relay.subscribe_to(s, String::from("mytopic"));
    relay.publish(&String::from("mytopic"), b"test");
    let messages = relay.take_messages(s);
    assert_eq!(messages.len(), 1);
    assert_eq!(messages[0].topic, "mytopic");
    assert_eq!(messages[0].payload, b"test".to_vec());
    // The message is delivered once.
    assert_eq!(relay.take_messages(s).len(), 0);
}

#[test]
fn unsubscribing_stops_delivery() {
    let mut relay = Relay::new();
    let s = relay.create_subscriber(None);
    relay.subscribe_to(s, String::from("a"));
    relay.publish(&String::from("a"), b"a1");
    relay.unsubscribe_from(s, &String::from("a"));
    relay.publish(&String::from("a"), b"a2");
    relay.subscribe_to(s, String::from("a"));
    relay.publish(&String::from("a"), b"a3");
    assert_eq!(payloads(&mut relay, s), vec![b"a1".to_vec(), b"a3".to_vec()]);
}

#[test]
fn subscribing_twice_is_subscribing_once() {
    let mut relay = Relay::new();
    let s = relay.create_subscriber(None);
    relay.subscribe_to(s, String::from("a"));
    relay.subscribe_to(s, String::from("a"));
    relay.publish(&String::from("a"), b"m");
    assert_eq!(payloads(&mut relay, s).len(), 1);
    relay.unsubscribe_from(s, &String::from("a"));
    relay.unsubscribe_from(s, &String::from("a"));
    relay.publish(&String::from("a"), b"m");
    assert_eq!(payloads(&mut relay, s).len(), 0);
}

#[test]
fn subscriber_ids_are_fresh() {
    let mut relay = Relay::new();
    let a = relay.create_subscriber(None);
    let b = relay.create_subscriber(Some(1));
    assert_ne!(a, b);
}

#[test]
fn unregistering_removes_the_subscriber() {
    let mut relay = Relay::new();
    let s = relay.create_subscriber(None);
    relay.subscribe_to(s, String::from("a"));
    relay.unregister_subscriber(s);
    relay.publish(&String::from("a"), b"m");
    assert_eq!(relay.take_messages(s).len(), 0);
}

#[test]
fn purging_a_session_removes_exactly_its_subscribers() {
    let mut relay = Relay::new();
    let mine = relay.create_subscriber(Some(7));
    let other_session = relay.create_subscriber(Some(8));
    let anonymous = relay.create_subscriber(None);
    for id in [mine, other_session, anonymous] {
        relay.subscribe_to(id, String::from("t"));
    }
    relay.purge_session(7);
    relay.publish(&String::from("t"), b"m");
    assert_eq!(relay.take_messages(mine).len(), 0);
    assert_eq!(relay.take_messages(other_session).len(), 1);
    assert_eq!(relay.take_messages(anonymous).len(), 1);
}
