//! A small in-memory key-value server core: the wire codec, the keyed store
//! with expiry, and the command handlers that tie them together.

pub mod resp;
