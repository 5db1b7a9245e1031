//! `DEL key`: removes the key, replying with how many entries went away —
//! one or zero. No lazy-expiration check: deleting a stale entry still
//! counts.

use vstd::prelude::*;
use crate::db::storage::{Store, find_key};
use crate::db::value::EntryView;
use crate::protocol::resp::encoder::{RespValue, RespData, rv_view, ascii_bytes, ascii_msg};
use crate::text::lemma_deep_view_bytes;

verus! {

/// What `DEL` replies and how it changes the store.
pub open spec fn spec_del(args: Seq<Seq<u8>>, m: Seq<(Seq<u8>, EntryView)>) -> (
    RespData,
    Seq<(Seq<u8>, EntryView)>,
) {
    if args.len() < 2 {
        (RespData::Error(ascii_bytes("ERR usage DEL key"@)), m)
    } else {
        let i = find_key(m, args[1]);
        if i == -1 {
            (RespData::Integer(0), m)
        } else {
            (RespData::Integer(1), m.remove(i))
        }
    }
}

/// `DEL key`.
pub fn execute(parts: &Vec<Vec<u8>>, db: &mut Store) -> (r: RespValue)
    ensures
        (rv_view(r), final(db).model()) == spec_del(parts.deep_view(), old(db).model()),
{
    proof {
        lemma_deep_view_bytes(*parts);
    }
    if parts.len() < 2 {
        proof {
            reveal_strlit("ERR usage DEL key");
        }
        return RespValue::Error(ascii_msg("ERR usage DEL key"));
    }
    if db.delete(parts[1].as_slice()) {
        RespValue::Integer(1)
    } else {
        RespValue::Integer(0)
    }
}

} // verus!
