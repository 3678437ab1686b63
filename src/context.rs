use vstd::prelude::*;
use crate::encoder;
use crate::reader::{DecodeOutcome, RedisReader};
use crate::reply::{ProtocolError, RedisObject};
use crate::wire::{command_bytes, parse, Parsed};

verus! {

/// Why a command got no reply.
#[derive(Clone, Copy, Debug, PartialEq, Eq, Structural)]
pub enum ClientError {
    /// The transport failed to write or to read.
    Io,
    /// The peer closed the connection before a whole reply came.
    ConnectionClosed,
    /// The reply bytes are not valid RESP.
    Protocol(ProtocolError),
}

/// What the caller of a request/response cycle does next.
#[derive(Debug)]
pub enum Step {
    /// The reply has come: the cycle is over.
    Reply(RedisObject),
    /// Read once from the transport and hand the bytes to `buffer_read`.
    Read,
    /// The cycle failed; the connection should be closed.
    Failed(ClientError),
}

/// The state of one connection, apart from its transport: the decoder of
/// its replies and the first error it met.
pub struct RedisContext {
    err: Option<ClientError>,
    reader: RedisReader,
}

impl RedisContext {
    /// Bytes received and not yet consumed by a reply.
    pub closed spec fn pending(&self) -> Seq<u8> {
        self.reader.pending()
    }

    /// The first error this connection met, if any.
    pub closed spec fn error(&self) -> Option<ClientError> {
        self.err
    }

    /// A failed decoder is always recorded as this connection's error.
    pub closed spec fn wf(&self) -> bool {
        &&& self.reader.wf()
        &&& self.reader.failure() matches Some(k) ==> self.err == Some(ClientError::Protocol(k))
    }

    pub fn new() -> (r: RedisContext)
        ensures
            r.wf(),
            r.pending() == Seq::<u8>::empty(),
            r.error() is None,
    {
        RedisContext { err: None, reader: RedisReader::new() }
    }

    /// The request bytes of command `name` with `args`.
    pub fn format_command(name: &[u8], args: &[Vec<u8>]) -> (r: Vec<u8>)
        requires
            args@.len() < usize::MAX,
        ensures
            r@ == command_bytes(name@, args@.map_values(|a: Vec<u8>| a@)),
    {
        encoder::format_command(name, args)
    }

    /// Starts a command: the bytes to write, in full, to the transport.
    /// Then `block_for_reply` says what to do until the reply is there.
    pub fn command(&self, name: &[u8], args: &[Vec<u8>]) -> (r: Vec<u8>)
        requires
            args@.len() < usize::MAX,
        ensures
            r@ == command_bytes(name@, args@.map_values(|a: Vec<u8>| a@)),
    {
        Self::format_command(name, args)
    }

    /// Records `err` unless an error is recorded already.
    pub fn set_error(&mut self, err: ClientError)
        requires
            old(self).wf(),
        ensures
            final(self).wf(),
            final(self).pending() == old(self).pending(),
            final(self).error() == if old(self).error() is None {
                Some(err)
            } else {
                old(self).error()
            },
    {
        if self.err.is_none() {
            self.err = Some(err);
        }
    }

    /// Whether an error has been recorded.
    pub fn check_error(&self) -> (r: bool)
        ensures
            r == self.error() is Some,
    {
        self.err.is_some()
    }

    fn get_reply_reader(&mut self) -> (r: DecodeOutcome)
        requires
            old(self).reader.wf(),
            old(self).reader.failure() is None,
        ensures
            final(self).reader.wf(),
            final(self).err == old(self).err,
            match parse(old(self).pending()) {
                Parsed::Done(v, n) => r is Complete && r->Complete_0@ == v
                    && final(self).pending() == old(self).pending().skip(n)
                    && final(self).reader.failure() is None,
                Parsed::More => r is Incomplete && final(self).pending() == old(self).pending()
                    && final(self).reader.failure() is None,
                Parsed::Bad(k) => r == DecodeOutcome::Failed(k)
                    && final(self).pending() == old(self).pending()
                    && final(self).reader.failure() == Some(k),
            },
    {
        self.reader.process_reply()
    }

    /// Hands over what one read from the transport returned: no bytes means
    /// that the peer closed the connection.
    pub fn buffer_read(&mut self, data: &[u8])
        requires
            old(self).wf(),
        ensures
            final(self).wf(),
            data@.len() > 0 ==> final(self).pending() == old(self).pending() + data@
                && final(self).error() == old(self).error(),
            data@.len() == 0 ==> final(self).pending() == old(self).pending()
                && final(self).error() == if old(self).error() is None {
                    Some(ClientError::ConnectionClosed)
                } else {
                    old(self).error()
                },
    {
        if data.len() == 0 {
            self.set_error(ClientError::ConnectionClosed);
        } else {
            self.reader.feed(data);
        }
    }

    /// Decides the next step of a request/response cycle from the bytes
    /// received so far: the reply, once it is whole; another read while it
    /// is not; the error, once one is recorded or the bytes are not RESP.
    pub fn block_for_reply(&mut self) -> (r: Step)
        requires
            old(self).wf(),
        ensures
            final(self).wf(),
            old(self).error() matches Some(e) ==> r == Step::Failed(e)
                && final(self).pending() == old(self).pending()
                && final(self).error() == old(self).error(),
            old(self).error() is None ==> match parse(old(self).pending()) {
                Parsed::Done(v, n) => r is Reply && r->Reply_0@ == v
                    && final(self).pending() == old(self).pending().skip(n)
                    && final(self).error() is None,
                Parsed::More => r == Step::Read && final(self).pending() == old(self).pending()
                    && final(self).error() is None,
                Parsed::Bad(k) => r == Step::Failed(ClientError::Protocol(k))
                    && final(self).pending() == old(self).pending()
                    && final(self).error() == Some(ClientError::Protocol(k)),
            },
    {
        if let Some(e) = self.err {
            return Step::Failed(e);
        }
        match self.get_reply_reader() {
            DecodeOutcome::Complete(v) => Step::Reply(v),
            DecodeOutcome::Incomplete => Step::Read,
            DecodeOutcome::Failed(k) => {
                self.err = Some(ClientError::Protocol(k));
                Step::Failed(ClientError::Protocol(k))
            },
        }
    }
}

} // verus!
