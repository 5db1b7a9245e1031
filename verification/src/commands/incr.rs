//! `INCR key`: adds one to the integer stored under the key, initializing
//! an absent or just-expired key to zero first. A value that is not decimal
//! text, or one already at the largest representable integer, is refused
//! without touching the store.

use vstd::prelude::*;
use crate::db::storage::{
    Store, find_key, lookup, live_model, IncrError, lemma_lookup_push, lemma_lookup_update,
};
use crate::db::value::{EntryView, expired};
use crate::num::{i64_digits, spec_parse_i64};
use crate::protocol::resp::encoder::{RespValue, RespData, rv_view, ascii_bytes, ascii_msg};
use crate::text::lemma_deep_view_bytes;

verus! {

/// What `INCR` replies and how it changes the store.
pub open spec fn spec_incr(args: Seq<Seq<u8>>, m: Seq<(Seq<u8>, EntryView)>, now: u64) -> (
    RespData,
    Seq<(Seq<u8>, EntryView)>,
) {
    if args.len() < 2 {
        (RespData::Error(ascii_bytes("ERR usage INCR key"@)), m)
    } else {
        let m1 = live_model(m, args[1], now);
        let i = find_key(m1, args[1]);
        if i == -1 {
            (
                RespData::Integer(1),
                m1.push((args[1], EntryView { value: i64_digits(1), expire_at: None })),
            )
        } else {
            match spec_parse_i64(m1[i].1.value) {
                None => (RespData::Error(ascii_bytes("ERR value is not an integer"@)), m1),
                Some(n) => if n == i64::MAX {
                    (RespData::Error(ascii_bytes("ERR increment would overflow"@)), m1)
                } else {
                    (
                        RespData::Integer((n + 1) as i64),
                        m1.update(
                            i,
                            (
                                args[1],
                                EntryView {
                                    value: i64_digits((n + 1) as i64),
                                    expire_at: m1[i].1.expire_at,
                                },
                            ),
                        ),
                    )
                },
            }
        }
    }
}

/// Repeated increments of one key, each applied to the store the previous
/// one left.
pub open spec fn incr_chain(
    args: Seq<Seq<u8>>,
    m: Seq<(Seq<u8>, EntryView)>,
    now: u64,
    n: nat,
) -> Seq<(Seq<u8>, EntryView)>
    decreases n,
{
    if n == 0 {
        m
    } else {
        spec_incr(args, incr_chain(args, m, now, (n - 1) as nat), now).1
    }
}

/// Law (no lost updates): starting from an absent key, the `n`th of `n`
/// back-to-back increments replies exactly `n`, and the stored value is
/// then the decimal text of `n` — however the increments were interleaved
/// across connections, since each one runs under the engine's exclusive
/// borrow.
pub proof fn lemma_incr_chain(args: Seq<Seq<u8>>, m: Seq<(Seq<u8>, EntryView)>, now: u64, n: nat)
    requires
        args.len() >= 2,
        find_key(m, args[1]) == -1,
        1 <= n <= i64::MAX,
    ensures
        spec_incr(args, incr_chain(args, m, now, (n - 1) as nat), now).0 == RespData::Integer(
            n as i64,
        ),
        lookup(incr_chain(args, m, now, n), args[1]) == Some(
            EntryView { value: i64_digits(n as i64), expire_at: None },
        ),
    decreases n,
{
    let k = args[1];
    if n == 1 {
        assert(incr_chain(args, m, now, 0) == m);
        assert(live_model(m, k, now) == m);
        lemma_lookup_push(m, k, EntryView { value: i64_digits(1), expire_at: None });
    } else {
        lemma_incr_chain(args, m, now, (n - 1) as nat);
        let mprev = incr_chain(args, m, now, (n - 1) as nat);
        let i = find_key(mprev, k);
        assert(i != -1);
        assert(mprev[i].1 == EntryView { value: i64_digits((n - 1) as i64), expire_at: None });
        assert(!expired(mprev[i].1, now));
        assert(live_model(mprev, k, now) == mprev);
        crate::num::lemma_i64_digits_parse((n - 1) as i64);
        assert(spec_parse_i64(mprev[i].1.value) == Some((n - 1) as i64));
        lemma_lookup_update(mprev, k, EntryView { value: i64_digits(n as i64), expire_at: None });
        assert(mprev.update(i, (k, EntryView { value: i64_digits(n as i64), expire_at: None }))
            == incr_chain(args, m, now, n));
    }
}

/// `INCR key`.
pub fn execute(parts: &Vec<Vec<u8>>, db: &mut Store, now: u64) -> (r: RespValue)
    ensures
        (rv_view(r), final(db).model()) == spec_incr(parts.deep_view(), old(db).model(), now),
{
    proof {
        lemma_deep_view_bytes(*parts);
    }
    if parts.len() < 2 {
        proof {
            reveal_strlit("ERR usage INCR key");
        }
        return RespValue::Error(ascii_msg("ERR usage INCR key"));
    }
    match db.increment(parts[1].as_slice(), now) {
        Ok(n) => RespValue::Integer(n),
        Err(IncrError::NotAnInteger) => {
            proof {
                reveal_strlit("ERR value is not an integer");
            }
            RespValue::Error(ascii_msg("ERR value is not an integer"))
        },
        Err(IncrError::Overflow) => {
            proof {
                reveal_strlit("ERR increment would overflow");
            }
            RespValue::Error(ascii_msg("ERR increment would overflow"))
        },
    }
}

} // verus!
