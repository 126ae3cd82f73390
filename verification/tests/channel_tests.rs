use rust_ws_chat::channel::{Broadcaster, Receive};
use rust_ws_chat::CHANNEL_CAPACITY;

fn expect_payload(r: Receive) -> String {
    match r {
        Receive::Payload(p) => p,
        other => panic!("expected a payload, got {:?}", other),
    }
}

#[test]
fn publish_with_zero_subscribers_succeeds() {
    let mut b = Broadcaster::new();
    assert!(b.try_publish("nobody listens".to_string()));
}

#[test]
fn late_joiner_sees_no_history() {
    let mut b = Broadcaster::new();
    for i in 1..=5 {
        b.publish(format!("p{}", i));
    }
    let mut h = b.subscribe();
    assert!(matches!(b.receive(&mut h), Receive::Pending));
    b.publish("p6".to_string());
    assert_eq!(expect_payload(b.receive(&mut h)), "p6");
}

#[test]
fn delivery_is_in_publish_order() {
    let mut b = Broadcaster::new();
    let mut h = b.subscribe();
    b.publish("first".to_string());
    b.publish("second".to_string());
    b.publish("third".to_string());
    assert_eq!(expect_payload(b.receive(&mut h)), "first");
    assert_eq!(expect_payload(b.receive(&mut h)), "second");
    assert_eq!(expect_payload(b.receive(&mut h)), "third");
    assert!(matches!(b.receive(&mut h), Receive::Pending));
}

#[test]
fn two_subscribers_each_get_every_payload() {
    let mut b = Broadcaster::new();
    let mut h1 = b.subscribe();
    let mut h2 = b.subscribe();
    b.publish("hello".to_string());
    assert_eq!(expect_payload(b.receive(&mut h1)), "hello");
    assert_eq!(expect_payload(b.receive(&mut h2)), "hello");
}

#[test]
fn lagged_subscriber_is_told_the_miss_and_resynchronized() {
    let mut b = Broadcaster::new();
    let mut h = b.subscribe();
    let extra = 5;
    for i in 0..CHANNEL_CAPACITY + extra {
        b.publish(format!("p{}", i));
    }
    match b.receive(&mut h) {
        Receive::Lagged(missed) => assert_eq!(missed, extra as u64),
        other => panic!("expected a lag report, got {:?}", other),
    }
    // The cursor now stands at the oldest retained payload, not at a
    // stale or skipped one.
    assert_eq!(expect_payload(b.receive(&mut h)), format!("p{}", extra));
}

#[test]
fn subscriber_at_the_window_edge_is_not_lagged() {
    let mut b = Broadcaster::new();
    let mut h = b.subscribe();
    for i in 0..CHANNEL_CAPACITY {
        b.publish(format!("p{}", i));
    }
    assert_eq!(expect_payload(b.receive(&mut h)), "p0");
}
