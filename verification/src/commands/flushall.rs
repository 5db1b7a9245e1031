//! `FLUSHALL`: removes every entry unconditionally and confirms.

use vstd::prelude::*;
use crate::db::storage::Store;
use crate::db::value::EntryView;
use crate::protocol::resp::encoder::{RespValue, RespData, rv_view, ascii_bytes, ascii_msg};

verus! {

/// What `FLUSHALL` replies and how it changes the store.
pub open spec fn spec_flushall(args: Seq<Seq<u8>>, m: Seq<(Seq<u8>, EntryView)>) -> (
    RespData,
    Seq<(Seq<u8>, EntryView)>,
) {
    (RespData::Simple(ascii_bytes("OK"@)), Seq::empty())
}

/// `FLUSHALL`.
pub fn execute(parts: &Vec<Vec<u8>>, db: &mut Store) -> (r: RespValue)
    ensures
        (rv_view(r), final(db).model()) == spec_flushall(parts.deep_view(), old(db).model()),
{
    db.clear();
    proof {
        reveal_strlit("OK");
    }
    RespValue::SimpleString(ascii_msg("OK"))
}

} // verus!
