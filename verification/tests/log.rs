use msgboard::errors::AppError;
use msgboard::state::{Log, Post};

#[test]
fn test_order_preserved() {
    let mut log = Log::new();
    for k in 0..4i64 {
        log.append(Post { message: format!("m{}", k).into_bytes(), timestamp: k });
    }
    let snap = log.snapshot();
    assert_eq!(snap.len(), 4);
    for k in 0..4usize {
        assert_eq!(snap[k].timestamp, k as i64);
        assert_eq!(snap[k].message, format!("m{}", k).into_bytes());
    }
}

#[test]
fn test_snapshot_stable_without_append() {
    let mut log = Log::new();
    log.append(Post { message: b"only".to_vec(), timestamp: 1 });
    let first: Vec<(Vec<u8>, i64)> =
        log.snapshot().iter().map(|p| (p.message.clone(), p.timestamp)).collect();
    let second: Vec<(Vec<u8>, i64)> =
        log.snapshot().iter().map(|p| (p.message.clone(), p.timestamp)).collect();
    assert_eq!(first, second);
}

#[test]
fn test_empty_log_len() {
    let log = Log::new();
    assert_eq!(log.len(), 0);
    assert!(log.snapshot().is_empty());
}

#[test]
fn test_app_error_response() {
    let err = AppError::new("boom".to_string());
    let response = err.into_response();
    assert_eq!(response.status, 500);
    assert_eq!(response.body, b"Something went wrong: boom".to_vec());
    assert_eq!(response.content_type, Some("text/plain; charset=utf-8".to_string()));
}
