use msgboard::bus::{Bus, Delivery, PublishError};
use msgboard::state::Post;

fn post(text: &str, ts: i64) -> Post {
    Post { message: text.as_bytes().to_vec(), timestamp: ts }
}

fn expect_message(d: Option<Delivery>) -> Post {
    match d {
        Some(Delivery::Message(p)) => p,
        Some(Delivery::Lagged(n)) => panic!("expected a post, got Lagged({})", n),
        None => panic!("expected a post, got nothing"),
    }
}

#[test]
fn test_publish_without_subscribers_fails_benignly() {
    let mut bus = Bus::new(32);
    let r = bus.publish(&post("nobody listens", 1));
    assert_eq!(r, Err(PublishError::NoSubscribers));
}

#[test]
fn test_publish_to_subscriber() {
    let mut bus = Bus::new(32);
    let id = bus.subscribe();
    let r = bus.publish(&post("hi", 9));
    assert_eq!(r, Ok(1));
    let got = expect_message(bus.receive(id));
    assert_eq!(got.message, b"hi".to_vec());
    assert_eq!(got.timestamp, 9);
    assert!(bus.receive(id).is_none());
}

#[test]
fn test_no_historical_replay() {
    let mut bus = Bus::new(32);
    let early = bus.subscribe();
    for k in 0..3i64 {
        bus.publish(&post("old", k)).unwrap();
    }
    let late = bus.subscribe();
    assert!(bus.receive(late).is_none(), "a new subscriber must not see old posts");
    let first = expect_message(bus.receive(early));
    assert_eq!(first.timestamp, 0);
}

#[test]
fn test_fan_out_to_two_subscribers() {
    let mut bus = Bus::new(32);
    let a = bus.subscribe();
    let b = bus.subscribe();
    bus.publish(&post("one", 1)).unwrap();
    bus.publish(&post("two", 2)).unwrap();
    for id in [a, b] {
        let first = expect_message(bus.receive(id));
        let second = expect_message(bus.receive(id));
        assert_eq!(first.timestamp, 1);
        assert_eq!(second.timestamp, 2);
        assert!(bus.receive(id).is_none());
    }
}

#[test]
fn test_lagging_subscriber_is_isolated() {
    let mut bus = Bus::new(2);
    let lagger = bus.subscribe();
    let reader = bus.subscribe();
    for k in 0..5i64 {
        bus.publish(&post("m", k)).unwrap();
        let got = expect_message(bus.receive(reader));
        assert_eq!(got.timestamp, k, "the draining subscriber sees every post");
    }
    match bus.receive(lagger) {
        Some(Delivery::Lagged(n)) => assert_eq!(n, 3),
        other => panic!("expected a lag marker, got {:?}", other),
    }
    assert_eq!(expect_message(bus.receive(lagger)).timestamp, 3);
    assert_eq!(expect_message(bus.receive(lagger)).timestamp, 4);
    assert!(bus.receive(lagger).is_none());
}

#[test]
fn test_lag_counter_reports_exact_drops() {
    let mut bus = Bus::new(1);
    let id = bus.subscribe();
    bus.publish(&post("a", 1)).unwrap();
    bus.publish(&post("b", 2)).unwrap();
    bus.publish(&post("c", 3)).unwrap();
    match bus.receive(id) {
        Some(Delivery::Lagged(n)) => assert_eq!(n, 2),
        other => panic!("expected Lagged(2), got {:?}", other),
    }
    assert_eq!(expect_message(bus.receive(id)).timestamp, 3);
}

#[test]
fn test_unsubscribed_endpoint_takes_no_deliveries() {
    let mut bus = Bus::new(32);
    let id = bus.subscribe();
    bus.unsubscribe(id);
    let r = bus.publish(&post("x", 1));
    assert_eq!(r, Err(PublishError::NoSubscribers));
    assert!(bus.receive(id).is_none());
}
