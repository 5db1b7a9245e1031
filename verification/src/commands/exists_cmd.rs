//! `EXISTS key`: whether the key is stored, with the same lazy expiration
//! as `GET` — a stale entry is removed and counts as absent.

use vstd::prelude::*;
use crate::db::storage::{Store, lookup, find_key};
use crate::db::value::{EntryView, expired};
use crate::protocol::resp::encoder::{RespValue, RespData, rv_view, ascii_bytes, ascii_msg};
use crate::text::lemma_deep_view_bytes;

verus! {

/// What `EXISTS` replies and how it changes the store.
pub open spec fn spec_exists(args: Seq<Seq<u8>>, m: Seq<(Seq<u8>, EntryView)>, now: u64) -> (
    RespData,
    Seq<(Seq<u8>, EntryView)>,
) {
    if args.len() < 2 {
        (RespData::Error(ascii_bytes("ERR usage EXISTS key"@)), m)
    } else {
        match lookup(m, args[1]) {
            None => (RespData::Integer(0), m),
            Some(e) => if expired(e, now) {
                (RespData::Integer(0), m.remove(find_key(m, args[1])))
            } else {
                (RespData::Integer(1), m)
            },
        }
    }
}

/// `EXISTS key`.
pub fn execute(parts: &Vec<Vec<u8>>, db: &mut Store, now: u64) -> (r: RespValue)
    ensures
        (rv_view(r), final(db).model()) == spec_exists(parts.deep_view(), old(db).model(), now),
{
    proof {
        lemma_deep_view_bytes(*parts);
    }
    if parts.len() < 2 {
        proof {
            reveal_strlit("ERR usage EXISTS key");
        }
        return RespValue::Error(ascii_msg("ERR usage EXISTS key"));
    }
    if db.contains(parts[1].as_slice(), now) {
        RespValue::Integer(1)
    } else {
        RespValue::Integer(0)
    }
}

} // verus!
