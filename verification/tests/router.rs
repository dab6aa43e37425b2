use msgboard::router::{append_post, fetch_posts, sse_event, sse_keep_alive, stream_updates};
use msgboard::router::StreamStep;
use msgboard::bus::Delivery;
use msgboard::router::updates_step;
use msgboard::state::{AppState, Post};

#[test]
fn test_empty_get() {
    let state = AppState::new();
    let response = fetch_posts(&state);
    assert_eq!(response.status, 200);
    assert_eq!(response.body, b"[]".to_vec());
    assert_eq!(response.content_type, Some("application/json".to_string()));
}

#[test]
fn test_read_after_write() {
    let mut state = AppState::new();
    let body = b"{\"message\": \"This is a test.\", \"timestamp\": 42}".to_vec();
    let (response, _post) = append_post(&mut state, &body);
    assert_eq!(response.status, 204);
    assert_eq!(response.body, b"".to_vec());

    let response = fetch_posts(&state);
    assert_eq!(response.status, 200);
    assert_eq!(
        response.body,
        b"[{\"message\":\"This is a test.\",\"timestamp\":42}]".to_vec()
    );
}

#[test]
fn test_sse_headers() {
    let mut state = AppState::new();
    let (response, _id) = stream_updates(&mut state);
    assert_eq!(response.status, 200);
    assert_eq!(response.content_type, Some("text/event-stream".to_string()));
}

#[test]
fn test_post_without_subscribers_is_retained() {
    let mut state = AppState::new();
    let body = b"{\"message\":\"kept\",\"timestamp\":1}".to_vec();
    let (response, _post) = append_post(&mut state, &body);
    assert_eq!(response.status, 204);
    let response = fetch_posts(&state);
    assert_eq!(response.body, b"[{\"message\":\"kept\",\"timestamp\":1}]".to_vec());
}

#[test]
fn test_malformed_post_rejected() {
    let mut state = AppState::new();
    let (response, _post) = append_post(&mut state, &b"{not json".to_vec());
    assert_eq!(response.status, 400);
    let response = fetch_posts(&state);
    assert_eq!(response.body, b"[]".to_vec());
}

#[test]
fn test_missing_field_rejected() {
    let mut state = AppState::new();
    let (response, _post) = append_post(&mut state, &b"{\"message\":\"x\"}".to_vec());
    assert_eq!(response.status, 400);
}

#[test]
fn test_unknown_members_ignored() {
    let mut state = AppState::new();
    let body =
        b"{\"message\":\"a\",\"extra\":{\"nested\":[1,2.5,true,null,\"s\"]},\"timestamp\":1}"
            .to_vec();
    let (response, _post) = append_post(&mut state, &body);
    assert_eq!(response.status, 204);
    let response = fetch_posts(&state);
    assert_eq!(response.body, b"[{\"message\":\"a\",\"timestamp\":1}]".to_vec());
}

#[test]
fn test_invalid_utf8_rejected() {
    let mut state = AppState::new();
    let mut body = b"{\"message\":\"".to_vec();
    body.push(0xff);
    body.extend_from_slice(b"\",\"timestamp\":1}");
    let (response, _post) = append_post(&mut state, &body);
    assert_eq!(response.status, 400);
    let response = fetch_posts(&state);
    assert_eq!(response.body, b"[]".to_vec());
}

#[test]
fn test_duplicate_field_rejected() {
    let mut state = AppState::new();
    let body = b"{\"message\":\"a\",\"message\":\"b\"}".to_vec();
    let (response, _post) = append_post(&mut state, &body);
    assert_eq!(response.status, 400);
}

#[test]
fn test_field_order_insensitive() {
    let mut state = AppState::new();
    let body = b"{\"timestamp\":7,\"message\":\"hi\"}".to_vec();
    let (response, _post) = append_post(&mut state, &body);
    assert_eq!(response.status, 204);
    let response = fetch_posts(&state);
    assert_eq!(response.body, b"[{\"message\":\"hi\",\"timestamp\":7}]".to_vec());
}

#[test]
fn test_order_preservation_over_http() {
    let mut state = AppState::new();
    for k in 0..5i64 {
        let body = format!("{{\"message\":\"m{}\",\"timestamp\":{}}}", k, k).into_bytes();
        let (response, _post) = append_post(&mut state, &body);
        assert_eq!(response.status, 204);
    }
    let response = fetch_posts(&state);
    let expected = "[{\"message\":\"m0\",\"timestamp\":0},{\"message\":\"m1\",\"timestamp\":1},\
                    {\"message\":\"m2\",\"timestamp\":2},{\"message\":\"m3\",\"timestamp\":3},\
                    {\"message\":\"m4\",\"timestamp\":4}]";
    assert_eq!(response.body, expected.as_bytes().to_vec());
}

#[test]
fn test_sse_event_frame() {
    let post = Post { message: b"hello".to_vec(), timestamp: 3 };
    let frame = sse_event(&post);
    assert_eq!(frame, b"data: {\"message\":\"hello\",\"timestamp\":3}\n\n".to_vec());
}

#[test]
fn test_sse_keep_alive_is_comment() {
    let frame = sse_keep_alive();
    assert_eq!(frame, b":\n\n".to_vec());
    assert_eq!(frame[0], b':');
}

#[test]
fn test_updates_step_emits_posts_and_skips_lag() {
    let post = Post { message: b"x".to_vec(), timestamp: 0 };
    match updates_step(&Delivery::Message(post)) {
        StreamStep::Emit(f) => assert_eq!(f, b"{\"message\":\"x\",\"timestamp\":0}".to_vec()),
        StreamStep::Continue => panic!("a delivered post must become an event"),
    }
    match updates_step(&Delivery::Lagged(4)) {
        StreamStep::Emit(_) => panic!("a lag marker must not become an event"),
        StreamStep::Continue => {}
    }
}

#[test]
fn test_subscriber_before_post_gets_exactly_one_event() {
    let mut state = AppState::new();
    let (_response, id) = stream_updates(&mut state);
    let body = b"{\"message\":\"live\",\"timestamp\":8}".to_vec();
    let (response, _post) = append_post(&mut state, &body);
    assert_eq!(response.status, 204);
    match state.updates.receive(id) {
        Some(Delivery::Message(p)) => {
            assert_eq!(p.message, b"live".to_vec());
            assert_eq!(p.timestamp, 8);
            assert_eq!(
                sse_event(&p),
                b"data: {\"message\":\"live\",\"timestamp\":8}\n\n".to_vec()
            );
            match updates_step(&Delivery::Message(p)) {
                StreamStep::Emit(f) => {
                    assert_eq!(f, b"{\"message\":\"live\",\"timestamp\":8}".to_vec())
                }
                StreamStep::Continue => panic!("the delivered post must become an event"),
            }
        }
        other => panic!("expected the posted message, got {:?}", other),
    }
    assert!(state.updates.receive(id).is_none(), "exactly one event reaches the subscriber");
}
