//! The command handlers. Each validates its own arity, works the storage
//! engine, and returns a fully formed reply value: usage and domain errors
//! are replies, never failures, so a connection survives them.

pub mod set;
pub mod get;
pub mod incr;
pub mod del;
pub mod exists_cmd;
pub mod expire;
pub mod keys;
pub mod flushall;
