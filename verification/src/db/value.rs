//! One stored key's payload: its bytes and an optional expiry instant on
//! the engine's monotonic clock.

use vstd::prelude::*;

verus! {

/// The mathematical shape of a stored entry.
pub struct EntryView {
    pub value: Seq<u8>,
    pub expire_at: Option<u64>,
}

/// One stored key's payload: the value bytes and, when set, the instant on
/// the engine's monotonic clock past which the entry counts as expired. An
/// entry with no expiry never expires.
#[derive(Debug)]
pub struct ValueEntry {
    pub value: Vec<u8>,
    pub expire_at: Option<u64>,
}

impl View for ValueEntry {
    type V = EntryView;

    open spec fn view(&self) -> EntryView {
        EntryView { value: self.value@, expire_at: self.expire_at }
    }
}

/// An entry is expired once the clock has moved strictly past its expiry.
pub open spec fn expired(e: EntryView, now: u64) -> bool {
    match e.expire_at {
        Some(t) => now > t,
        None => false,
    }
}

} // verus!
