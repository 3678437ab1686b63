//! A client for the Redis serialization protocol (RESP): a request encoder,
//! a resumable reply decoder, and the decisions of a request/response cycle.
pub mod reply;
pub mod wire;
pub mod reader;
pub mod encoder;
pub mod context;
pub mod laws;

pub use context::{ClientError, RedisContext, Step};
pub use encoder::format_command;
pub use reader::{DecodeOutcome, RedisReader};
pub use reply::{ProtocolError, RedisObject};
