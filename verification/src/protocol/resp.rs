//! RESP2 messages: the value type, its bit-exact encoding, the incremental
//! decoder for one message, the request reader, and the round-trip laws.

pub mod encoder;
pub mod decoder;
pub mod parser;
pub mod laws;
