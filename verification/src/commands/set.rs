//! `SET key value [EX seconds]`: stores the value, replacing any existing
//! entry wholesale. A malformed `EX` argument silently stores without
//! expiry — deliberate leniency, not an error.

use vstd::prelude::*;
use crate::db::storage::{Store, find_key, sat_add, ticks_of_secs, secs_to_ticks, clone_bytes};
use crate::db::value::EntryView;
use crate::num::{spec_parse_u64, parse_u64};
use crate::protocol::resp::encoder::{RespValue, RespData, rv_view, ascii_bytes, ascii_msg};
use crate::text::{upper_bytes, matches_upper, lemma_deep_view_bytes};

verus! {

/// The expiry a `SET` carries: present only with a well-formed trailing
/// `EX <seconds>` clause.
pub open spec fn spec_expiry(args: Seq<Seq<u8>>, now: u64) -> Option<u64> {
    if args.len() >= 5 && upper_bytes(args[3]) == ascii_bytes("EX"@) {
        match spec_parse_u64(args[4]) {
            Some(sec) => Some(sat_add(now, ticks_of_secs(sec))),
            None => None,
        }
    } else {
        None
    }
}

/// What `SET` replies and how it changes the store.
pub open spec fn spec_set(args: Seq<Seq<u8>>, m: Seq<(Seq<u8>, EntryView)>, now: u64) -> (
    RespData,
    Seq<(Seq<u8>, EntryView)>,
) {
    if args.len() < 3 {
        (RespData::Error(ascii_bytes("ERR usage SET key value [EX seconds]"@)), m)
    } else {
        let e = EntryView { value: args[2], expire_at: spec_expiry(args, now) };
        let i = find_key(m, args[1]);
        (
            RespData::Simple(ascii_bytes("OK"@)),
            if i == -1 {
                m.push((args[1], e))
            } else {
                m.update(i, (args[1], e))
            },
        )
    }
}

/// `SET key value [EX seconds]`.
pub fn execute(parts: &Vec<Vec<u8>>, db: &mut Store, now: u64) -> (r: RespValue)
    ensures
        (rv_view(r), final(db).model()) == spec_set(parts.deep_view(), old(db).model(), now),
{
    proof {
        lemma_deep_view_bytes(*parts);
    }
    if parts.len() < 3 {
        proof {
            reveal_strlit("ERR usage SET key value [EX seconds]");
        }
        return RespValue::Error(ascii_msg("ERR usage SET key value [EX seconds]"));
    }
    let mut expire: Option<u64> = None;
    if parts.len() >= 5 {
        proof {
            reveal_strlit("EX");
        }
        if matches_upper(&parts[3], "EX") {
            match parse_u64(parts[4].as_slice()) {
                Some(sec) => {
                    expire = Some(now.saturating_add(secs_to_ticks(sec)));
                },
                None => {},
            }
        }
    }
    let key = clone_bytes(&parts[1]);
    let value = clone_bytes(&parts[2]);
    db.set(key, value, expire);
    proof {
        reveal_strlit("OK");
    }
    RespValue::SimpleString(ascii_msg("OK"))
}

} // verus!
