//! A RESP (REdis Serialization Protocol) client core: a decoder from bytes to
//! reply values, and a typed extraction layer from reply values to Rust types.

pub mod connection;
pub mod serialize;
pub mod types;

pub use crate::connection::{command_line, command_result, ReplyReader};
pub use crate::serialize::{decode, is_crlf, parse_integer, DecodeError};
pub use crate::types::{failed_parsing_message, ParseFrom, RedisError, RedisResult, Value};
