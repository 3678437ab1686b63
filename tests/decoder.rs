use rustyredis::{DecodeOutcome, ProtocolError, RedisObject, RedisReader};

fn decode_once(bytes: &[u8]) -> DecodeOutcome {
    let mut r = RedisReader::new();
    r.feed(bytes);
    r.process_reply()
}

fn complete(bytes: &[u8]) -> RedisObject {
    match decode_once(bytes) {
        DecodeOutcome::Complete(v) => v,
        other => panic!("expected a complete reply, got {:?}", other),
    }
}

fn failed(bytes: &[u8]) -> ProtocolError {
    match decode_once(bytes) {
        DecodeOutcome::Failed(k) => k,
        other => panic!("expected a protocol error, got {:?}", other),
    }
}

fn nested(arrays: usize) -> Vec<u8> {
    let mut b = Vec::new();
    for _ in 0..arrays {
        b.extend_from_slice(b"*1\r\n");
    }
    b.extend_from_slice(b":1\r\n");
    b
}

fn nested_value(arrays: usize) -> RedisObject {
    let mut v = RedisObject::RedisInteger(1);
    for _ in 0..arrays {
        v = RedisObject::RedisArray(vec![v]);
    }
    v
}

#[test]
fn status_reply() {
    assert_eq!(complete(b"+OK\r\n"), RedisObject::RedisStatus(b"OK".to_vec()));
}

#[test]
fn pong_status_reply() {
    assert_eq!(complete(b"+PONG\r\n"), RedisObject::RedisStatus(b"PONG".to_vec()));
}

#[test]
fn error_reply() {
    assert_eq!(
        complete(b"-ERR unknown command\r\n"),
        RedisObject::RedisError(b"ERR unknown command".to_vec())
    );
}

#[test]
fn integer_reply() {
    assert_eq!(complete(b":1000\r\n"), RedisObject::RedisInteger(1000));
}

#[test]
fn negative_and_extreme_integers() {
    assert_eq!(complete(b":-42\r\n"), RedisObject::RedisInteger(-42));
    assert_eq!(complete(b":0\r\n"), RedisObject::RedisInteger(0));
    assert_eq!(
        complete(b":9223372036854775807\r\n"),
        RedisObject::RedisInteger(i64::MAX)
    );
    assert_eq!(
        complete(b":-9223372036854775808\r\n"),
        RedisObject::RedisInteger(i64::MIN)
    );
}

#[test]
fn integer_out_of_range_is_bad_integer() {
    assert_eq!(failed(b":9223372036854775808\r\n"), ProtocolError::BadInteger);
    assert_eq!(failed(b":-9223372036854775809\r\n"), ProtocolError::BadInteger);
    assert_eq!(failed(b":99999999999999999999999\r\n"), ProtocolError::BadInteger);
}

#[test]
fn integer_not_a_number_is_bad_integer() {
    assert_eq!(failed(b":12a\r\n"), ProtocolError::BadInteger);
    assert_eq!(failed(b":\r\n"), ProtocolError::BadInteger);
    assert_eq!(failed(b":-\r\n"), ProtocolError::BadInteger);
}

#[test]
fn bulk_string_reply() {
    assert_eq!(
        complete(b"$6\r\nfoobar\r\n"),
        RedisObject::RedisString(b"foobar".to_vec())
    );
}

#[test]
fn empty_bulk_string() {
    assert_eq!(complete(b"$0\r\n\r\n"), RedisObject::RedisString(Vec::new()));
}

#[test]
fn nil_bulk_string() {
    assert_eq!(complete(b"$-1\r\n"), RedisObject::RedisNil);
}

#[test]
fn array_of_integers() {
    assert_eq!(
        complete(b"*3\r\n:1\r\n:2\r\n:3\r\n"),
        RedisObject::RedisArray(vec![
            RedisObject::RedisInteger(1),
            RedisObject::RedisInteger(2),
            RedisObject::RedisInteger(3),
        ])
    );
}

#[test]
fn nil_array() {
    assert_eq!(complete(b"*-1\r\n"), RedisObject::RedisNil);
}

#[test]
fn empty_array() {
    assert_eq!(complete(b"*0\r\n"), RedisObject::RedisArray(Vec::new()));
}

#[test]
fn mixed_nested_array() {
    assert_eq!(
        complete(b"*3\r\n$3\r\nfoo\r\n*2\r\n+OK\r\n$-1\r\n-ERR x\r\n"),
        RedisObject::RedisArray(vec![
            RedisObject::RedisString(b"foo".to_vec()),
            RedisObject::RedisArray(vec![
                RedisObject::RedisStatus(b"OK".to_vec()),
                RedisObject::RedisNil,
            ]),
            RedisObject::RedisError(b"ERR x".to_vec()),
        ])
    );
}

#[test]
fn bulk_in_two_chunks() {
    let mut r = RedisReader::new();
    r.feed(b"$3\r\nfo");
    assert!(matches!(r.process_reply(), DecodeOutcome::Incomplete));
    r.feed(b"o\r\n");
    match r.process_reply() {
        DecodeOutcome::Complete(v) => assert_eq!(v, RedisObject::RedisString(b"foo".to_vec())),
        other => panic!("expected a complete reply, got {:?}", other),
    }
}

#[test]
fn empty_buffer_is_incomplete() {
    assert!(matches!(decode_once(b""), DecodeOutcome::Incomplete));
}

#[test]
fn one_byte_at_a_time_matches_all_at_once() {
    let bytes: &[u8] = b"*3\r\n$5\r\na\r\nb\0\r\n*1\r\n:-7\r\n+fine\r\n";
    let whole = complete(bytes);
    let mut r = RedisReader::new();
    for (k, byte) in bytes.iter().enumerate() {
        r.feed(&[*byte]);
        let out = r.process_reply();
        if k + 1 < bytes.len() {
            assert!(matches!(out, DecodeOutcome::Incomplete), "at byte {}", k);
        } else {
            match out {
                DecodeOutcome::Complete(v) => assert_eq!(v, whole),
                other => panic!("expected a complete reply, got {:?}", other),
            }
        }
    }
}

#[test]
fn every_two_way_split_gives_the_same_reply() {
    let bytes: &[u8] = b"*2\r\n$4\r\nab\r\n\r\n:12\r\n";
    let whole = complete(bytes);
    for cut in 0..=bytes.len() {
        let mut r = RedisReader::new();
        r.feed(&bytes[..cut]);
        let first = r.process_reply();
        if cut < bytes.len() {
            assert!(matches!(first, DecodeOutcome::Incomplete));
            r.feed(&bytes[cut..]);
            match r.process_reply() {
                DecodeOutcome::Complete(v) => assert_eq!(v, whole),
                other => panic!("expected a complete reply, got {:?}", other),
            }
        } else {
            match first {
                DecodeOutcome::Complete(v) => assert_eq!(v, whole),
                other => panic!("expected a complete reply, got {:?}", other),
            }
        }
    }
}

#[test]
fn two_replies_in_one_feed() {
    let mut r = RedisReader::new();
    r.feed(b"+OK\r\n:5\r\n");
    match r.process_reply() {
        DecodeOutcome::Complete(v) => assert_eq!(v, RedisObject::RedisStatus(b"OK".to_vec())),
        other => panic!("expected a complete reply, got {:?}", other),
    }
    match r.process_reply() {
        DecodeOutcome::Complete(v) => assert_eq!(v, RedisObject::RedisInteger(5)),
        other => panic!("expected a complete reply, got {:?}", other),
    }
    assert!(matches!(r.process_reply(), DecodeOutcome::Incomplete));
}

#[test]
fn nesting_at_the_limit_decodes() {
    assert_eq!(complete(&nested(8)), nested_value(8));
}

#[test]
fn nine_empty_arrays_deep_decode() {
    let mut b = Vec::new();
    for _ in 0..8 {
        b.extend_from_slice(b"*1\r\n");
    }
    b.extend_from_slice(b"*0\r\n");
    let mut v = RedisObject::RedisArray(Vec::new());
    for _ in 0..8 {
        v = RedisObject::RedisArray(vec![v]);
    }
    assert_eq!(complete(&b), v);
}

#[test]
fn nesting_past_the_limit_is_rejected() {
    assert_eq!(failed(&nested(9)), ProtocolError::NestingTooDeep);
}

#[test]
fn bulk_payload_is_binary_safe() {
    assert_eq!(
        complete(b"$7\r\na\r\nb\0c\r\r\n"),
        RedisObject::RedisString(b"a\r\nb\0c\r".to_vec())
    );
}

#[test]
fn status_with_lone_line_feed_is_rejected() {
    assert_eq!(failed(b"+te\nst\r\n"), ProtocolError::MalformedTerminator);
    assert_eq!(failed(b"-a\rb\r\n"), ProtocolError::MalformedTerminator);
}

#[test]
fn bad_type_tag() {
    assert_eq!(failed(b"?what\r\n"), ProtocolError::BadTypeTag);
}

#[test]
fn bad_lengths() {
    assert_eq!(failed(b"$-2\r\n"), ProtocolError::BadLength);
    assert_eq!(failed(b"*-5\r\n"), ProtocolError::BadLength);
    assert_eq!(failed(b"$x\r\n"), ProtocolError::BadLength);
}

#[test]
fn bulk_without_terminator() {
    assert_eq!(failed(b"$3\r\nfooXY"), ProtocolError::MalformedTerminator);
}

#[test]
fn bad_element_inside_array() {
    assert_eq!(failed(b"*2\r\n:1\r\n!\r\n"), ProtocolError::BadTypeTag);
}

#[test]
fn failure_is_sticky() {
    let mut r = RedisReader::new();
    r.feed(b"!oops\r\n");
    assert!(matches!(r.process_reply(), DecodeOutcome::Failed(ProtocolError::BadTypeTag)));
    r.feed(b"+OK\r\n");
    assert!(matches!(r.process_reply(), DecodeOutcome::Failed(ProtocolError::BadTypeTag)));
}

#[test]
fn incomplete_array_waits() {
    let mut r = RedisReader::new();
    r.feed(b"*2\r\n:1\r\n");
    assert!(matches!(r.process_reply(), DecodeOutcome::Incomplete));
    r.feed(b":2\r\n");
    match r.process_reply() {
        DecodeOutcome::Complete(v) => assert_eq!(
            v,
            RedisObject::RedisArray(vec![RedisObject::RedisInteger(1), RedisObject::RedisInteger(2)])
        ),
        other => panic!("expected a complete reply, got {:?}", other),
    }
}
