//! An in-memory key-value store speaking the RESP wire format:
//! a byte-level codec for protocol values, a command interpreter,
//! and a store with lazy per-key time-to-live expiry.
//!
//! Per request: bytes are decoded into a protocol value
//! ([`resp::parse_message`]), interpreted as a command
//! ([`command::extract_command`]), run against the store
//! ([`command::handle_value`]), and the reply is encoded back into
//! bytes ([`resp::Value::serialise`]). The codec and the interpreter
//! are pure; the store takes its clock readings, in milliseconds, from
//! the caller.

pub mod cache;
pub mod command;
pub mod resp;
