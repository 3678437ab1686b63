use std::collections::HashMap;

use rustyredis::{ClientError, DecodeOutcome, RedisContext, RedisObject, RedisReader, Step};

/// A stand-in for a Redis server on 127.0.0.1:6379 that knows PING, APPEND,
/// GET and DEL, and answers in RESP.
struct FakeServer {
    store: HashMap<Vec<u8>, Vec<u8>>,
    requests: RedisReader,
}

impl FakeServer {
    fn new() -> FakeServer {
        FakeServer { store: HashMap::new(), requests: RedisReader::new() }
    }

    fn handle(&mut self, request: &[u8]) -> Vec<u8> {
        self.requests.feed(request);
        let parts = match self.requests.process_reply() {
            DecodeOutcome::Complete(RedisObject::RedisArray(items)) => items
                .into_iter()
                .map(|o| match o {
                    RedisObject::RedisString(b) => b,
                    other => panic!("request part is not a bulk string: {:?}", other),
                })
                .collect::<Vec<_>>(),
            other => panic!("request is not an array of bulk strings: {:?}", other),
        };
        match parts[0].as_slice() {
            b"PING" => b"+PONG\r\n".to_vec(),
            b"APPEND" => {
                let v = self.store.entry(parts[1].clone()).or_default();
                v.extend_from_slice(&parts[2]);
                format!(":{}\r\n", v.len()).into_bytes()
            }
            b"GET" => match self.store.get(&parts[1]) {
                Some(v) => {
                    let mut out = format!("${}\r\n", v.len()).into_bytes();
                    out.extend_from_slice(v);
                    out.extend_from_slice(b"\r\n");
                    out
                }
                None => b"$-1\r\n".to_vec(),
            },
            b"DEL" => match self.store.remove(&parts[1]) {
                Some(_) => b":1\r\n".to_vec(),
                None => b":0\r\n".to_vec(),
            },
            _ => b"-ERR unknown command\r\n".to_vec(),
        }
    }
}

/// A context and its server; replies reach the context three bytes a read.
struct Session {
    ctx: RedisContext,
    server: FakeServer,
}

fn connect(ip: &str, port: u16) -> Session {
    assert_eq!((ip, port), ("127.0.0.1", 6379));
    Session { ctx: RedisContext::new(), server: FakeServer::new() }
}

impl Session {
    fn command(&mut self, name: &str, args: &[&str]) -> Result<RedisObject, ClientError> {
        let args: Vec<Vec<u8>> = args.iter().map(|a| a.as_bytes().to_vec()).collect();
        let request = self.ctx.command(name.as_bytes(), &args);
        let reply = self.server.handle(&request);
        let mut chunks = reply.chunks(3);
        loop {
            match self.ctx.block_for_reply() {
                Step::Reply(v) => return Ok(v),
                Step::Failed(e) => return Err(e),
                Step::Read => self.ctx.buffer_read(chunks.next().unwrap_or(&[])),
            }
        }
    }
}

fn cleanup(mut c: Session) {
    match c.command("DEL", &["mykey"]) {
        Ok(RedisObject::RedisInteger(_)) => (),
        other => panic!("Failed to clean up: {:?}", other),
    }
}

fn check_append(r: Result<RedisObject, ClientError>) {
    match r {
        Ok(RedisObject::RedisInteger(i)) => assert!(i == 5),
        Ok(_) => panic!("INTEGER: Didn't return correct reply type."),
        Err(e) => panic!("INTEGER: {:?}", e),
    }
}

fn ping(c: &mut Session) {
    match c.command("PING", &[]) {
        Ok(RedisObject::RedisStatus(s)) => assert!(s == b"PONG".to_vec()),
        Ok(_) => panic!("Didn't return correct reply type."),
        Err(e) => panic!("{:?}", e),
    }
}

fn get_nil(c: &mut Session) {
    match c.command("GET", &["notmykey"]) {
        Ok(RedisObject::RedisNil) => (),
        Ok(_) => panic!("NIL: Didn't return correct reply type."),
        Err(e) => panic!("{:?}", e),
    }
}

fn append_get_del(c: &mut Session, value: &str) {
    match c.command("APPEND", &["mykey", value]) {
        Ok(RedisObject::RedisInteger(i)) => assert!(i == value.len() as i64),
        Ok(_) => panic!("INTEGER: Didn't return correct reply type."),
        Err(e) => panic!("INTEGER: {:?}", e),
    }
    match c.command("GET", &["mykey"]) {
        Ok(RedisObject::RedisString(s)) => assert!(s == value.as_bytes().to_vec()),
        Ok(_) => panic!("STRING: Didn't return correct reply type."),
        Err(e) => panic!("{:?}", e),
    }
    match c.command("DEL", &["mykey"]) {
        Ok(RedisObject::RedisInteger(i)) => assert!(i == 1),
        _ => panic!("DELETE: cleanup failed"),
    }
}

#[test]
fn lib_test_command() {
    let mut c = connect("127.0.0.1", 6379);
    ping(&mut c);
}

#[test]
fn lib_test_reply_types() {
    let mut c = connect("127.0.0.1", 6379);
    append_get_del(&mut c, "te\nst");
}

#[test]
fn lib_test_nil_reply() {
    let mut c = connect("127.0.0.1", 6379);
    get_nil(&mut c);
}

#[test]
fn redis_test_command() {
    let mut c = connect("127.0.0.1", 6379);
    ping(&mut c);
}

#[test]
fn redis_test_reply_types() {
    let mut c = connect("127.0.0.1", 6379);
    append_get_del(&mut c, "test");
}

#[test]
fn test_test_command() {
    let mut c = connect("127.0.0.1", 6379);
    ping(&mut c);
}

#[test]
fn test_line_item_reply() {
    let mut c = connect("127.0.0.1", 6379);
    let r = c.command("APPEND", &["mykey", "te\nst"]);
    check_append(r);
    cleanup(c);
}

#[test]
fn test_bulk_item_reply() {
    let mut c = connect("127.0.0.1", 6379);
    let r = c.command("APPEND", &["mykey", "te\nst"]);
    check_append(r);
    match c.command("GET", &["mykey"]) {
        Ok(RedisObject::RedisString(s)) => assert!(s == b"te\nst".to_vec()),
        Ok(_) => panic!("STRING: Didn't return correct reply type."),
        Err(e) => panic!("{:?}", e),
    }
    cleanup(c);
}

#[test]
fn test_test_nil_reply() {
    let mut c = connect("127.0.0.1", 6379);
    get_nil(&mut c);
}

#[test]
fn closed_before_reply_is_connection_closed() {
    let mut c = connect("127.0.0.1", 6379);
    let _request = c.ctx.command(b"GET", &[b"k".to_vec()]);
    c.ctx.buffer_read(b"$5\r\nab");
    assert!(matches!(c.ctx.block_for_reply(), Step::Read));
    c.ctx.buffer_read(&[]);
    assert!(matches!(c.ctx.block_for_reply(), Step::Failed(ClientError::ConnectionClosed)));
}
