//! `EXPIRE key seconds`: arms the key's expiry `seconds` from now, replying
//! `1` when the key was stored and `0` when not. Non-numeric seconds is a
//! usage error. Re-arming a stale, unswept entry revives it.

use vstd::prelude::*;
use crate::db::storage::{Store, find_key, sat_add, ticks_of_secs, secs_to_ticks};
use crate::db::value::EntryView;
use crate::num::{spec_parse_u64, parse_u64};
use crate::protocol::resp::encoder::{RespValue, RespData, rv_view, ascii_bytes, ascii_msg};
use crate::text::lemma_deep_view_bytes;

verus! {

/// What `EXPIRE` replies and how it changes the store.
pub open spec fn spec_expire_cmd(args: Seq<Seq<u8>>, m: Seq<(Seq<u8>, EntryView)>, now: u64) -> (
    RespData,
    Seq<(Seq<u8>, EntryView)>,
) {
    if args.len() < 3 {
        (RespData::Error(ascii_bytes("ERR usage EXPIRE key seconds"@)), m)
    } else {
        match spec_parse_u64(args[2]) {
            None => (RespData::Error(ascii_bytes("ERR invalid seconds"@)), m),
            Some(sec) => {
                let i = find_key(m, args[1]);
                if i == -1 {
                    (RespData::Integer(0), m)
                } else {
                    (
                        RespData::Integer(1),
                        m.update(
                            i,
                            (
                                m[i].0,
                                EntryView {
                                    value: m[i].1.value,
                                    expire_at: Some(sat_add(now, ticks_of_secs(sec))),
                                },
                            ),
                        ),
                    )
                }
            },
        }
    }
}

/// `EXPIRE key seconds`.
pub fn execute(parts: &Vec<Vec<u8>>, db: &mut Store, now: u64) -> (r: RespValue)
    ensures
        (rv_view(r), final(db).model()) == spec_expire_cmd(
            parts.deep_view(),
            old(db).model(),
            now,
        ),
{
    proof {
        lemma_deep_view_bytes(*parts);
    }
    if parts.len() < 3 {
        proof {
            reveal_strlit("ERR usage EXPIRE key seconds");
        }
        return RespValue::Error(ascii_msg("ERR usage EXPIRE key seconds"));
    }
    let sec = match parse_u64(parts[2].as_slice()) {
        Some(v) => v,
        None => {
            proof {
                reveal_strlit("ERR invalid seconds");
            }
            return RespValue::Error(ascii_msg("ERR invalid seconds"));
        },
    };
    if db.expire(parts[1].as_slice(), secs_to_ticks(sec), now) {
        RespValue::Integer(1)
    } else {
        RespValue::Integer(0)
    }
}

} // verus!
