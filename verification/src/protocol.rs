//! The RESP2 wire protocol: value encoding, incremental decoding, the
//! request reader that turns a client frame into an argument list, and the
//! dispatcher that routes a parsed command.

pub mod resp;
pub mod parser;
