//! The command dispatcher: a state-free router from a parsed argument list
//! to a handler, matched case-insensitively against the fixed command set.
//! Unknown names and empty lists yield error replies, never failures.

use vstd::prelude::*;
use crate::commands;
use crate::db::storage::Store;
use crate::db::value::EntryView;
use crate::protocol::resp::encoder::{
    RespValue, RespData, rv_view, ascii_bytes, ascii_msg, spec_encode,
};
use crate::text::{upper_bytes, matches_upper, spec_split_ws, split_ws, lemma_deep_view_bytes};

verus! {

/// What the dispatcher replies to an argument list and how the store
/// changes: the union of the command specifications.
pub open spec fn spec_process(args: Seq<Seq<u8>>, m: Seq<(Seq<u8>, EntryView)>, now: u64) -> (
    RespData,
    Seq<(Seq<u8>, EntryView)>,
) {
    if args.len() == 0 {
        (RespData::Error(ascii_bytes("ERR empty command"@)), m)
    } else {
        let c = upper_bytes(args[0]);
        if c == ascii_bytes("PING"@) {
            (RespData::Simple(ascii_bytes("PONG"@)), m)
        } else if c == ascii_bytes("SET"@) {
            commands::set::spec_set(args, m, now)
        } else if c == ascii_bytes("GET"@) {
            commands::get::spec_get(args, m, now)
        } else if c == ascii_bytes("INCR"@) {
            commands::incr::spec_incr(args, m, now)
        } else if c == ascii_bytes("DEL"@) {
            commands::del::spec_del(args, m)
        } else if c == ascii_bytes("EXISTS"@) {
            commands::exists_cmd::spec_exists(args, m, now)
        } else if c == ascii_bytes("EXPIRE"@) {
            commands::expire::spec_expire_cmd(args, m, now)
        } else if c == ascii_bytes("KEYS"@) {
            commands::keys::spec_keys(args, m)
        } else if c == ascii_bytes("FLUSHALL"@) {
            commands::flushall::spec_flushall(args, m)
        } else {
            (RespData::Error(ascii_bytes("ERR unknown command"@)), m)
        }
    }
}

/// Routes one parsed command to its handler; `now` is the instant on the
/// engine's monotonic clock at which the command executes.
pub fn process_parts(parts: &Vec<Vec<u8>>, db: &mut Store, now: u64) -> (r: RespValue)
    ensures
        (rv_view(r), final(db).model()) == spec_process(parts.deep_view(), old(db).model(), now),
{
    proof {
        lemma_deep_view_bytes(*parts);
    }
    if parts.len() == 0 {
        proof {
            reveal_strlit("ERR empty command");
        }
        return RespValue::Error(ascii_msg("ERR empty command"));
    }
    let name = &parts[0];
    proof {
        reveal_strlit("PING");
        reveal_strlit("SET");
        reveal_strlit("GET");
        reveal_strlit("INCR");
        reveal_strlit("DEL");
        reveal_strlit("EXISTS");
        reveal_strlit("EXPIRE");
        reveal_strlit("KEYS");
        reveal_strlit("FLUSHALL");
    }
    if matches_upper(name, "PING") {
        proof {
            reveal_strlit("PONG");
        }
        RespValue::SimpleString(ascii_msg("PONG"))
    } else if matches_upper(name, "SET") {
        commands::set::execute(parts, db, now)
    } else if matches_upper(name, "GET") {
        commands::get::execute(parts, db, now)
    } else if matches_upper(name, "INCR") {
        commands::incr::execute(parts, db, now)
    } else if matches_upper(name, "DEL") {
        commands::del::execute(parts, db)
    } else if matches_upper(name, "EXISTS") {
        commands::exists_cmd::execute(parts, db, now)
    } else if matches_upper(name, "EXPIRE") {
        commands::expire::execute(parts, db, now)
    } else if matches_upper(name, "KEYS") {
        commands::keys::execute(parts, db)
    } else if matches_upper(name, "FLUSHALL") {
        commands::flushall::execute(parts, db)
    } else {
        proof {
            reveal_strlit("ERR unknown command");
        }
        RespValue::Error(ascii_msg("ERR unknown command"))
    }
}

/// A plain command line processed end to end: split on whitespace, routed,
/// and the reply serialized to its wire bytes.
pub open spec fn spec_process_line(input: Seq<u8>, m: Seq<(Seq<u8>, EntryView)>, now: u64) -> (
    Seq<u8>,
    Seq<(Seq<u8>, EntryView)>,
) {
    let out = spec_process(spec_split_ws(input), m, now);
    (spec_encode(out.0), out.1)
}

/// Runs one plain-mode line against the store and returns the encoded
/// reply.
pub fn process(input: &[u8], db: &mut Store, now: u64) -> (r: Vec<u8>)
    ensures
        (r@, final(db).model()) == spec_process_line(input@, old(db).model(), now),
{
    let parts = split_ws(input);
    let resp = process_parts(&parts, db, now);
    resp.to_bytes()
}

} // verus!
