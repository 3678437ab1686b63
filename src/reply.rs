use vstd::prelude::*;

verus! {

/// The mathematical form of a reply: what a decoded value means.
pub enum Reply {
    Bulk(Seq<u8>),
    Int(int),
    Array(Seq<Reply>),
    Nil,
    Status(Seq<u8>),
    Error(Seq<u8>),
}

/// A decoded reply.
#[derive(Debug, PartialEq)]
pub enum RedisObject {
    /// A binary-safe bulk string.
    RedisString(Vec<u8>),
    RedisInteger(i64),
    RedisArray(Vec<RedisObject>),
    /// A null bulk string or a null array.
    RedisNil,
    /// A status line, without its tag and its CR LF.
    RedisStatus(Vec<u8>),
    /// An error line, without its tag and its CR LF.
    RedisError(Vec<u8>),
}

impl RedisObject {
    pub open spec fn view(&self) -> Reply
        decreases self,
    {
        match self {
            RedisObject::RedisString(b) => Reply::Bulk(b@),
            RedisObject::RedisInteger(n) => Reply::Int(*n as int),
            RedisObject::RedisArray(items) => Reply::Array(
                Seq::new(
                    items.len() as nat,
                    |k: int|
                        if 0 <= k < items.len() {
                            items[k].view()
                        } else {
                            Reply::Nil
                        },
                ),
            ),
            RedisObject::RedisNil => Reply::Nil,
            RedisObject::RedisStatus(s) => Reply::Status(s@),
            RedisObject::RedisError(s) => Reply::Error(s@),
        }
    }
}

/// Why the bytes at the decoder's position are not a valid reply.
#[derive(Clone, Copy, Debug, PartialEq, Eq, Structural)]
pub enum ProtocolError {
    /// The first byte of a reply is none of `+ - : $ *`.
    BadTypeTag,
    /// An integer reply is not a base-10 signed 64-bit number.
    BadInteger,
    /// A bulk or array length is not a number, or is below -1.
    BadLength,
    /// A bulk payload is not followed by CR LF, or a status or error line
    /// holds a CR or an LF of its own.
    MalformedTerminator,
    /// Arrays are nested deeper than the decoder allows.
    NestingTooDeep,
}

} // verus!
