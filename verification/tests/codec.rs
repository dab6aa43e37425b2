use msgboard::json::{encode_post, encode_posts, parse_post};
use msgboard::state::Post;

fn post(message: Vec<u8>, ts: i64) -> Post {
    Post { message, timestamp: ts }
}

#[test]
fn test_encode_empty_history() {
    let posts: Vec<Post> = Vec::new();
    assert_eq!(encode_posts(&posts), b"[]".to_vec());
}

#[test]
fn test_encode_one_post() {
    let posts = vec![post(b"This is a test.".to_vec(), 42)];
    assert_eq!(
        encode_posts(&posts),
        b"[{\"message\":\"This is a test.\",\"timestamp\":42}]".to_vec()
    );
}

#[test]
fn test_encode_escapes() {
    let p = post(vec![b'a', b'"', b'b', b'\\', b'c', 0x0a, b'd', 0x01], 0);
    assert_eq!(
        encode_post(&p),
        b"{\"message\":\"a\\\"b\\\\c\\nd\\u0001\",\"timestamp\":0}".to_vec()
    );
}

#[test]
fn test_encode_negative_timestamp() {
    let p = post(b"m".to_vec(), -7);
    assert_eq!(encode_post(&p), b"{\"message\":\"m\",\"timestamp\":-7}".to_vec());
}

#[test]
fn test_encode_timestamp_extremes() {
    let low = post(b"".to_vec(), i64::MIN);
    assert_eq!(
        encode_post(&low),
        b"{\"message\":\"\",\"timestamp\":-9223372036854775808}".to_vec()
    );
    let high = post(b"".to_vec(), i64::MAX);
    assert_eq!(
        encode_post(&high),
        b"{\"message\":\"\",\"timestamp\":9223372036854775807}".to_vec()
    );
}

#[test]
fn test_parse_round_trip() {
    let samples = vec![
        post(b"plain".to_vec(), 5),
        post(b"".to_vec(), 0),
        post(vec![b'q', b'"', b'\\', 0x09, 0x1f], -3),
        post("caf\u{e9}".as_bytes().to_vec(), i64::MAX),
        post(b"x".to_vec(), i64::MIN),
    ];
    for p in samples {
        let encoded = encode_post(&p);
        let back = parse_post(&encoded).expect("every encoded post parses back");
        assert_eq!(back.message, p.message);
        assert_eq!(back.timestamp, p.timestamp);
    }
}

#[test]
fn test_parse_accepts_whitespace_and_either_order() {
    let body = b" { \"timestamp\" : 5 , \"message\" : \"hi\" } ".to_vec();
    let p = parse_post(&body).expect("whitespace and field order are free");
    assert_eq!(p.message, b"hi".to_vec());
    assert_eq!(p.timestamp, 5);
}

#[test]
fn test_parse_unicode_escape() {
    let body = b"{\"message\":\"\\u0041\\u002f\",\"timestamp\":0}".to_vec();
    let p = parse_post(&body).expect("ASCII unicode escapes decode");
    assert_eq!(p.message, b"A/".to_vec());
    let wide = b"{\"message\":\"caf\\u00e9\",\"timestamp\":0}".to_vec();
    let p = parse_post(&wide).expect("escapes decode to the scalar's UTF-8 bytes");
    assert_eq!(p.message, "caf\u{e9}".as_bytes().to_vec());
    let three = b"{\"message\":\"\\u20ac\",\"timestamp\":0}".to_vec();
    let p = parse_post(&three).expect("three-byte scalars decode");
    assert_eq!(p.message, "\u{20ac}".as_bytes().to_vec());
}

#[test]
fn test_parse_surrogate_pairs() {
    let pair = b"{\"message\":\"\\ud83d\\ude00\",\"timestamp\":0}".to_vec();
    let p = parse_post(&pair).expect("a surrogate pair decodes to one scalar");
    assert_eq!(p.message, "\u{1f600}".as_bytes().to_vec());
    let lone_high = b"{\"message\":\"\\ud83d\",\"timestamp\":0}".to_vec();
    assert!(parse_post(&lone_high).is_none(), "a lone high surrogate is malformed");
    let lone_low = b"{\"message\":\"\\ude00\",\"timestamp\":0}".to_vec();
    assert!(parse_post(&lone_low).is_none(), "a lone low surrogate is malformed");
}

#[test]
fn test_parse_raw_utf8_and_invalid_utf8() {
    let raw = "{\"message\":\"caf\u{e9} \u{1f600}\",\"timestamp\":3}".as_bytes().to_vec();
    let p = parse_post(&raw).expect("well-formed raw UTF-8 passes through");
    assert_eq!(p.message, "caf\u{e9} \u{1f600}".as_bytes().to_vec());
    let mut bad = b"{\"message\":\"a".to_vec();
    bad.push(0xc3);
    bad.extend_from_slice(b"\",\"timestamp\":3}");
    assert!(parse_post(&bad).is_none(), "a truncated scalar is malformed");
    let mut overlong = b"{\"message\":\"".to_vec();
    overlong.extend_from_slice(&[0xc0, 0xaf]);
    overlong.extend_from_slice(b"\",\"timestamp\":3}");
    assert!(parse_post(&overlong).is_none(), "an overlong encoding is malformed");
}

#[test]
fn test_parse_skips_unknown_members() {
    let body = b"{\"a\":-1.5e+3,\"message\":\"m\",\"b\":[{},[],\"x\",false],\"timestamp\":2,\"c\":null}"
        .to_vec();
    let p = parse_post(&body).expect("unknown members are checked and ignored");
    assert_eq!(p.message, b"m".to_vec());
    assert_eq!(p.timestamp, 2);
    let bad = b"{\"message\":\"m\",\"timestamp\":2,\"x\":[1,}".to_vec();
    assert!(parse_post(&bad).is_none(), "an ill-formed unknown value is malformed");
    let trailing = b"{\"message\":\"m\",\"timestamp\":2,}".to_vec();
    assert!(parse_post(&trailing).is_none(), "a trailing comma is malformed");
}

#[test]
fn test_parse_simple_escapes() {
    let body = b"{\"message\":\"\\\"\\\\\\/\\b\\f\\n\\r\\t\",\"timestamp\":1}".to_vec();
    let p = parse_post(&body).expect("all simple escapes decode");
    assert_eq!(p.message, vec![0x22, 0x5c, 0x2f, 0x08, 0x0c, 0x0a, 0x0d, 0x09]);
}

#[test]
fn test_parse_rejects_malformed() {
    let cases: Vec<&[u8]> = vec![
        b"",
        b"null",
        b"[]",
        b"{}",
        b"{\"message\":\"x\"}",
        b"{\"timestamp\":1}",
        b"{\"message\":\"x\",\"timestamp\":}",
        b"{\"message\":\"x\",\"timestamp\":1",
        b"{\"message\":\"x\",\"timestamp\":1}tail",
        b"{\"message\":\"x\",\"timestamp\":01}",
        b"{\"message\":\"x\",\"timestamp\":1.5}",
        b"{\"message\":\"x\",\"timestamp\":\"42\"}",
        b"{\"message\":\"unterminated,\"timestamp\":1}",
        b"{\"message\":\"bad\\escape\",\"timestamp\":1}",
        b"{\"message\":x,\"timestamp\":1}",
    ];
    for body in cases {
        assert!(parse_post(&body.to_vec()).is_none(), "must reject {:?}", body);
    }
}

#[test]
fn test_parse_rejects_raw_control_byte() {
    let body = vec![
        b'{', b'"', b'm', b'e', b's', b's', b'a', b'g', b'e', b'"', b':', b'"', 0x01, b'"', b',',
        b'"', b't', b'i', b'm', b'e', b's', b't', b'a', b'm', b'p', b'"', b':', b'1', b'}',
    ];
    assert!(parse_post(&body).is_none());
}

#[test]
fn test_parse_timestamp_range() {
    let ok = b"{\"message\":\"\",\"timestamp\":-9223372036854775808}".to_vec();
    assert_eq!(parse_post(&ok).unwrap().timestamp, i64::MIN);
    let over = b"{\"message\":\"\",\"timestamp\":9223372036854775808}".to_vec();
    assert!(parse_post(&over).is_none(), "one past i64::MAX is out of range");
    let under = b"{\"message\":\"\",\"timestamp\":-9223372036854775809}".to_vec();
    assert!(parse_post(&under).is_none(), "one past i64::MIN is out of range");
    let zero = b"{\"message\":\"\",\"timestamp\":-0}".to_vec();
    assert_eq!(parse_post(&zero).unwrap().timestamp, 0);
}
