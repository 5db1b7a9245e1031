//! `GET key`: the stored bytes as a bulk reply, nil when the key is absent
//! or its expiry has passed (removing the stale entry on the spot).

use vstd::prelude::*;
use crate::db::storage::{Store, lookup, find_key};
use crate::db::value::{EntryView, expired};
use crate::protocol::resp::encoder::{RespValue, RespData, rv_view, ascii_bytes, ascii_msg};
use crate::text::lemma_deep_view_bytes;

verus! {

/// What `GET` replies and how it changes the store.
pub open spec fn spec_get(args: Seq<Seq<u8>>, m: Seq<(Seq<u8>, EntryView)>, now: u64) -> (
    RespData,
    Seq<(Seq<u8>, EntryView)>,
) {
    if args.len() < 2 {
        (RespData::Error(ascii_bytes("ERR usage GET key"@)), m)
    } else {
        match lookup(m, args[1]) {
            None => (RespData::Bulk(None), m),
            Some(e) => if expired(e, now) {
                (RespData::Bulk(None), m.remove(find_key(m, args[1])))
            } else {
                (RespData::Bulk(Some(e.value)), m)
            },
        }
    }
}

/// `GET key`.
pub fn execute(parts: &Vec<Vec<u8>>, db: &mut Store, now: u64) -> (r: RespValue)
    ensures
        (rv_view(r), final(db).model()) == spec_get(parts.deep_view(), old(db).model(), now),
{
    proof {
        lemma_deep_view_bytes(*parts);
    }
    if parts.len() < 2 {
        proof {
            reveal_strlit("ERR usage GET key");
        }
        return RespValue::Error(ascii_msg("ERR usage GET key"));
    }
    match db.get(parts[1].as_slice(), now) {
        Some(v) => RespValue::Bulk(Some(v)),
        None => RespValue::Bulk(None),
    }
}

} // verus!
