use rustyredis::{ClientError, ProtocolError, RedisContext, RedisObject, Step};

#[test]
fn command_gives_the_request() {
    let c = RedisContext::new();
    let req = c.command(b"GET", &[b"notmykey".to_vec()]);
    assert_eq!(req, b"*2\r\n$3\r\nGET\r\n$8\r\nnotmykey\r\n".to_vec());
}

#[test]
fn reply_in_two_reads() {
    let mut c = RedisContext::new();
    assert!(matches!(c.block_for_reply(), Step::Read));
    c.buffer_read(b"+PO");
    assert!(matches!(c.block_for_reply(), Step::Read));
    c.buffer_read(b"NG\r\n");
    match c.block_for_reply() {
        Step::Reply(v) => assert_eq!(v, RedisObject::RedisStatus(b"PONG".to_vec())),
        other => panic!("expected a reply, got {:?}", other),
    }
    assert!(!c.check_error());
}

#[test]
fn nil_reply_through_the_driver() {
    let mut c = RedisContext::new();
    c.buffer_read(b"$-1\r\n");
    match c.block_for_reply() {
        Step::Reply(v) => assert_eq!(v, RedisObject::RedisNil),
        other => panic!("expected a reply, got {:?}", other),
    }
}

#[test]
fn over_read_reply_is_served_next() {
    let mut c = RedisContext::new();
    c.buffer_read(b":5\r\n$5\r\nte\nst\r\n");
    match c.block_for_reply() {
        Step::Reply(v) => assert_eq!(v, RedisObject::RedisInteger(5)),
        other => panic!("expected a reply, got {:?}", other),
    }
    match c.block_for_reply() {
        Step::Reply(v) => assert_eq!(v, RedisObject::RedisString(b"te\nst".to_vec())),
        other => panic!("expected a reply, got {:?}", other),
    }
}

#[test]
fn closed_connection_is_an_error() {
    let mut c = RedisContext::new();
    c.buffer_read(b"$3\r\nfo");
    assert!(matches!(c.block_for_reply(), Step::Read));
    c.buffer_read(b"");
    assert!(c.check_error());
    assert!(matches!(c.block_for_reply(), Step::Failed(ClientError::ConnectionClosed)));
}

#[test]
fn protocol_error_taints_the_connection() {
    let mut c = RedisContext::new();
    c.buffer_read(b"%bad\r\n");
    assert!(matches!(
        c.block_for_reply(),
        Step::Failed(ClientError::Protocol(ProtocolError::BadTypeTag))
    ));
    assert!(c.check_error());
    c.buffer_read(b"+OK\r\n");
    assert!(matches!(
        c.block_for_reply(),
        Step::Failed(ClientError::Protocol(ProtocolError::BadTypeTag))
    ));
}

#[test]
fn first_error_is_kept() {
    let mut c = RedisContext::new();
    c.set_error(ClientError::Io);
    c.set_error(ClientError::ConnectionClosed);
    assert!(matches!(c.block_for_reply(), Step::Failed(ClientError::Io)));
}
