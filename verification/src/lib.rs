//! Core of an in-memory key-value server speaking the RESP2 wire protocol.
//!
//! The crate verifies the three layers that make up the server's logic:
//! the wire codec (incremental, binary-safe decoding of RESP2 messages and
//! bit-exact encoding of replies), the storage engine (a key/value mapping
//! with time-based expiration, lazy and active), and the command dispatcher
//! together with the per-connection framing state machine that makes
//! pipelining work. Socket handling, the scheduler, the lock around the
//! engine, and the metrics endpoint live outside this crate and hand plain
//! values in and out.

pub mod num;
pub mod protocol;
pub mod db;
pub mod text;
pub mod commands;
pub mod session;
pub mod client;
