//! The storage engine: a mapping from key to value entry with time-based
//! expiration, and the active sweep that clears expired entries out.

pub mod value;
pub mod storage;
pub mod ttl_cleaner;
