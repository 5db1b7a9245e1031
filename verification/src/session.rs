//! The per-connection framing state machine.
//!
//! A session owns an accumulation buffer of bytes received but not yet
//! parsed. After every socket read the connection appends the new bytes and
//! calls `drain_buffer`, which repeatedly takes one complete command off the
//! front — strict RESP when the buffer starts with `*`, the legacy plain
//! line otherwise — dispatches it, and collects the encoded reply. It stops
//! on a partial command, leaving the buffer for the next read, and on a
//! malformed frame it answers one error and discards the whole buffer: a
//! bad frame desynchronizes byte boundaries, so the session drops rather
//! than guesses. This is what makes pipelining work: any number of commands
//! in one read are each answered exactly once, in arrival order. The socket
//! reads and writes around it live outside the crate.

use vstd::prelude::*;
use crate::db::storage::Store;
use crate::db::value::EntryView;
use crate::protocol::resp::encoder::{RespValue, RespData, ascii_bytes, ascii_msg, spec_encode};
use crate::protocol::resp::decoder::ProtocolError;
use crate::protocol::resp::parser::{
    ReqDecoded, spec_parse_request, parse_resp_one, lemma_parse_request_used_bounds,
};
use crate::protocol::resp::laws::{
    spec_encode_cmd, wf_args, lemma_request_round_trip, lemma_request_prefix_incomplete,
};
use crate::protocol::resp::decoder::copy_range;
use crate::protocol::parser::{spec_process, process_parts};
use crate::text::{spec_split_ws, split_ws};

verus! {

/// What one drain of the buffer produces: the encoded replies in order, the
/// bytes left unconsumed, and the store as the commands left it.
pub struct SessionOut {
    pub replies: Seq<Seq<u8>>,
    pub rest: Seq<u8>,
    pub store: Seq<(Seq<u8>, EntryView)>,
}

/// The error reply's text for each malformation.
pub open spec fn err_text(e: ProtocolError) -> Seq<u8> {
    match e {
        ProtocolError::UnknownPrefix => ascii_bytes("ERR unknown RESP prefix"@),
        ProtocolError::BadInteger => ascii_bytes("ERR invalid integer"@),
        ProtocolError::BadBulkLength => ascii_bytes("ERR invalid bulk length"@),
        ProtocolError::NegativeBulkLength => ascii_bytes("ERR bulk length < -1"@),
        ProtocolError::BadArrayLength => ascii_bytes("ERR invalid array length"@),
        ProtocolError::NegativeArrayLength => ascii_bytes("ERR array length < 0"@),
        ProtocolError::UnterminatedBulk => ascii_bytes("ERR bulk data not terminated"@),
        ProtocolError::ExpectedArray => ascii_bytes("ERR expected array header"@),
        ProtocolError::ExpectedBulk => ascii_bytes("ERR expected bulk header"@),
    }
}

/// Index of the first line-feed byte.
pub open spec fn spec_find_lf(s: Seq<u8>) -> Option<int>
    decreases s.len(),
{
    if s.len() == 0 {
        None
    } else if s[0] == 10 {
        Some(0int)
    } else {
        match spec_find_lf(s.drop_first()) {
            Some(i) => Some(i + 1),
            None => None,
        }
    }
}

/// What `spec_find_lf` reports is the first line feed, in bounds.
pub proof fn lemma_find_lf_props(s: Seq<u8>)
    ensures
        match spec_find_lf(s) {
            Some(k) => 0 <= k < s.len() && s[k] == 10 && forall|j: int|
                0 <= j < k ==> #[trigger] s[j] != 10,
            None => forall|j: int| 0 <= j < s.len() ==> #[trigger] s[j] != 10,
        },
    decreases s.len(),
{
    if s.len() > 0 && s[0] != 10 {
        let rest = s.drop_first();
        lemma_find_lf_props(rest);
        match spec_find_lf(rest) {
            Some(k) => {
                assert forall|j: int| 0 <= j < k + 1 implies #[trigger] s[j] != 10 by {
                    if j >= 1 {
                        assert(rest[j - 1] == s[j]);
                    }
                }
            },
            None => {
                assert forall|j: int| 0 <= j < s.len() implies #[trigger] s[j] != 10 by {
                    if j >= 1 {
                        assert(rest[j - 1] == s[j]);
                    }
                }
            },
        }
    }
}

/// A first line feed is what `spec_find_lf` reports.
pub proof fn lemma_find_lf_at(s: Seq<u8>, k: int)
    requires
        0 <= k < s.len(),
        s[k] == 10,
        forall|j: int| 0 <= j < k ==> #[trigger] s[j] != 10,
    ensures
        spec_find_lf(s) == Some(k),
    decreases k,
{
    if k > 0 {
        lemma_find_lf_at(s.drop_first(), k - 1);
    }
}

/// With no line feed anywhere, `spec_find_lf` reports none.
pub proof fn lemma_find_lf_none(s: Seq<u8>)
    requires
        forall|j: int| 0 <= j < s.len() ==> #[trigger] s[j] != 10,
    ensures
        spec_find_lf(s) is None,
    decreases s.len(),
{
    if s.len() > 0 {
        lemma_find_lf_none(s.drop_first());
    }
}

/// The framing state machine, run to quiescence on one buffer: every
/// complete command answered in order, a partial command left in place, a
/// malformed frame answered once with the rest of the buffer discarded.
pub open spec fn spec_session(acc: Seq<u8>, m: Seq<(Seq<u8>, EntryView)>, now: u64) -> SessionOut
    decreases acc.len(),
    via spec_session_decreases
{
    if acc.len() == 0 {
        SessionOut { replies: Seq::empty(), rest: acc, store: m }
    } else if acc[0] == 42 {
        match spec_parse_request(acc) {
            ReqDecoded::Incomplete => SessionOut { replies: Seq::empty(), rest: acc, store: m },
            ReqDecoded::Malformed(e) => SessionOut {
                replies: seq![spec_encode(RespData::Error(err_text(e)))],
                rest: Seq::empty(),
                store: m,
            },
            ReqDecoded::Complete { args, used } => {
                if 1 <= used <= acc.len() {
                    let out = spec_process(args, m, now);
                    let tail = spec_session(acc.skip(used), out.1, now);
                    SessionOut {
                        replies: seq![spec_encode(out.0)] + tail.replies,
                        rest: tail.rest,
                        store: tail.store,
                    }
                } else {
                    SessionOut { replies: Seq::empty(), rest: acc, store: m }
                }
            },
        }
    } else {
        match spec_find_lf(acc) {
            None => SessionOut { replies: Seq::empty(), rest: acc, store: m },
            Some(pos) => {
                let args = spec_split_ws(acc.subrange(0, pos));
                let tail_acc = acc.skip(pos + 1);
                if args.len() == 0 {
                    spec_session(tail_acc, m, now)
                } else {
                    let out = spec_process(args, m, now);
                    let tail = spec_session(tail_acc, out.1, now);
                    SessionOut {
                        replies: seq![spec_encode(out.0)] + tail.replies,
                        rest: tail.rest,
                        store: tail.store,
                    }
                }
            },
        }
    }
}

#[via_fn]
proof fn spec_session_decreases(acc: Seq<u8>, m: Seq<(Seq<u8>, EntryView)>, now: u64) {
    lemma_find_lf_props(acc);
}

/// Already-collected replies spliced in front of a later drain's outcome.
pub open spec fn glue_session(pre: Seq<Seq<u8>>, out: SessionOut) -> SessionOut {
    SessionOut { replies: pre + out.replies, rest: out.rest, store: out.store }
}

/// The byte stream of several commands sent back to back.
pub open spec fn encode_cmds(cmds: Seq<Seq<Seq<u8>>>) -> Seq<u8>
    decreases cmds.len(),
{
    if cmds.len() == 0 {
        Seq::empty()
    } else {
        spec_encode_cmd(cmds[0]) + encode_cmds(cmds.drop_first())
    }
}

/// The replies those commands earn, in order, against the evolving store.
pub open spec fn run_cmds(cmds: Seq<Seq<Seq<u8>>>, m: Seq<(Seq<u8>, EntryView)>, now: u64) -> (
    Seq<Seq<u8>>,
    Seq<(Seq<u8>, EntryView)>,
)
    decreases cmds.len(),
{
    if cmds.len() == 0 {
        (Seq::empty(), m)
    } else {
        let head = spec_process(cmds[0], m, now);
        let rest = run_cmds(cmds.drop_first(), head.1, now);
        (seq![spec_encode(head.0)] + rest.0, rest.1)
    }
}

/// Commands the wire can carry: each argument list and length in range.
pub open spec fn wf_cmds(cmds: Seq<Seq<Seq<u8>>>) -> bool {
    forall|i: int|
        0 <= i < cmds.len() ==> wf_args(#[trigger] cmds[i]) && cmds[i].len() <= usize::MAX
}

/// Law (pipelining): any number of commands concatenated into one buffer
/// are each answered exactly once, in arrival order, and the buffer is
/// drained to empty — one reply per command, none lost, none reordered.
pub proof fn lemma_pipelining(cmds: Seq<Seq<Seq<u8>>>, m: Seq<(Seq<u8>, EntryView)>, now: u64)
    requires
        wf_cmds(cmds),
    ensures
        spec_session(encode_cmds(cmds), m, now) == (SessionOut {
            replies: run_cmds(cmds, m, now).0,
            rest: Seq::<u8>::empty(),
            store: run_cmds(cmds, m, now).1,
        }),
    decreases cmds.len(),
{
    let full = encode_cmds(cmds);
    if cmds.len() == 0 {
        assert(full =~= Seq::<u8>::empty());
    } else {
        let e0 = spec_encode_cmd(cmds[0]);
        let rest_enc = encode_cmds(cmds.drop_first());
        lemma_request_round_trip(cmds[0], rest_enc);
        assert(full[0] == e0[0]);
        assert(e0[0] == 42);
        assert(spec_parse_request(full) == (ReqDecoded::Complete {
            args: cmds[0],
            used: e0.len() as int,
        }));
        lemma_parse_request_used_bounds(full);
        assert(full.skip(e0.len() as int) =~= rest_enc);
        let head = spec_process(cmds[0], m, now);
        assert(wf_cmds(cmds.drop_first()));
        lemma_pipelining(cmds.drop_first(), head.1, now);
        assert(seq![spec_encode(head.0)] + run_cmds(cmds.drop_first(), head.1, now).0
            == run_cmds(cmds, m, now).0);
    }
}

/// Law (split points): a valid command stream cut anywhere and delivered in
/// two reads yields the very same replies, in the same order, as one read —
/// the partial frame simply waits in the buffer.
pub proof fn lemma_split_resume(
    cmds: Seq<Seq<Seq<u8>>>,
    m: Seq<(Seq<u8>, EntryView)>,
    now: u64,
    cut: int,
)
    requires
        wf_cmds(cmds),
        0 <= cut <= encode_cmds(cmds).len(),
    ensures
        ({
            let full = encode_cmds(cmds);
            let first = spec_session(full.take(cut), m, now);
            let second = spec_session(first.rest + full.skip(cut), first.store, now);
            first.replies + second.replies == run_cmds(cmds, m, now).0 && second.rest
                == Seq::<u8>::empty() && second.store == run_cmds(cmds, m, now).1
        }),
    decreases cmds.len(),
{
    let full = encode_cmds(cmds);
    if cut == full.len() {
        lemma_pipelining(cmds, m, now);
        assert(full.take(cut) =~= full);
        let first = spec_session(full, m, now);
        assert(first.rest + full.skip(cut) =~= Seq::<u8>::empty());
        assert(run_cmds(cmds, m, now).0 + Seq::<Seq<u8>>::empty() =~= run_cmds(cmds, m, now).0);
    } else if cmds.len() == 0 {
        assert(full =~= Seq::<u8>::empty());
    } else {
        let e0 = spec_encode_cmd(cmds[0]);
        let rest_enc = encode_cmds(cmds.drop_first());
        let head = spec_process(cmds[0], m, now);
        if cut == 0 {
            let first = spec_session(full.take(0), m, now);
            assert(full.take(0).len() == 0);
            assert(first.replies =~= Seq::<Seq<u8>>::empty());
            assert(first.rest + full.skip(0) =~= full);
            lemma_pipelining(cmds, m, now);
            assert(Seq::<Seq<u8>>::empty() + run_cmds(cmds, m, now).0 =~= run_cmds(
                cmds,
                m,
                now,
            ).0);
        } else if cut < e0.len() {
            let s1 = full.take(cut);
            assert(s1 =~= e0.take(cut));
            assert(s1[0] == e0[0]);
            assert(e0[0] == 42);
            lemma_request_prefix_incomplete(cmds[0], cut);
            let first = spec_session(s1, m, now);
            assert(first == (SessionOut { replies: Seq::<Seq<u8>>::empty(), rest: s1, store: m }));
            assert(s1 + full.skip(cut) =~= full);
            lemma_pipelining(cmds, m, now);
            assert(Seq::<Seq<u8>>::empty() + run_cmds(cmds, m, now).0 =~= run_cmds(
                cmds,
                m,
                now,
            ).0);
        } else {
            let cut2 = cut - e0.len();
            let s1 = full.take(cut);
            assert(s1 =~= e0 + rest_enc.take(cut2));
            lemma_request_round_trip(cmds[0], rest_enc.take(cut2));
            assert(s1[0] == e0[0]);
            assert(e0[0] == 42);
            lemma_parse_request_used_bounds(s1);
            assert(s1.skip(e0.len() as int) =~= rest_enc.take(cut2));
            assert(wf_cmds(cmds.drop_first()));
            lemma_split_resume(cmds.drop_first(), head.1, now, cut2);
            let sub_first = spec_session(rest_enc.take(cut2), head.1, now);
            let first = spec_session(s1, m, now);
            assert(first.replies =~= seq![spec_encode(head.0)] + sub_first.replies);
            assert(first.rest == sub_first.rest && first.store == sub_first.store);
            assert(full.skip(cut) =~= rest_enc.skip(cut2));
            let second = spec_session(first.rest + full.skip(cut), first.store, now);
            assert((seq![spec_encode(head.0)] + sub_first.replies) + second.replies
                =~= seq![spec_encode(head.0)] + (sub_first.replies + second.replies));
            assert(seq![spec_encode(head.0)] + run_cmds(cmds.drop_first(), head.1, now).0
                == run_cmds(cmds, m, now).0);
        }
    }
}

/// The encoded error reply for a malformation.
fn err_reply(e: ProtocolError) -> (r: Vec<u8>)
    ensures
        r@ == spec_encode(RespData::Error(err_text(e))),
{
    let v = match e {
        ProtocolError::UnknownPrefix => {
            proof {
                reveal_strlit("ERR unknown RESP prefix");
            }
            RespValue::Error(ascii_msg("ERR unknown RESP prefix"))
        },
        ProtocolError::BadInteger => {
            proof {
                reveal_strlit("ERR invalid integer");
            }
            RespValue::Error(ascii_msg("ERR invalid integer"))
        },
        ProtocolError::BadBulkLength => {
            proof {
                reveal_strlit("ERR invalid bulk length");
            }
            RespValue::Error(ascii_msg("ERR invalid bulk length"))
        },
        ProtocolError::NegativeBulkLength => {
            proof {
                reveal_strlit("ERR bulk length < -1");
            }
            RespValue::Error(ascii_msg("ERR bulk length < -1"))
        },
        ProtocolError::BadArrayLength => {
            proof {
                reveal_strlit("ERR invalid array length");
            }
            RespValue::Error(ascii_msg("ERR invalid array length"))
        },
        ProtocolError::NegativeArrayLength => {
            proof {
                reveal_strlit("ERR array length < 0");
            }
            RespValue::Error(ascii_msg("ERR array length < 0"))
        },
        ProtocolError::UnterminatedBulk => {
            proof {
                reveal_strlit("ERR bulk data not terminated");
            }
            RespValue::Error(ascii_msg("ERR bulk data not terminated"))
        },
        ProtocolError::ExpectedArray => {
            proof {
                reveal_strlit("ERR expected array header");
            }
            RespValue::Error(ascii_msg("ERR expected array header"))
        },
        ProtocolError::ExpectedBulk => {
            proof {
                reveal_strlit("ERR expected bulk header");
            }
            RespValue::Error(ascii_msg("ERR expected bulk header"))
        },
    };
    v.to_bytes()
}

/// Index of the first line-feed byte in `buf`.
fn find_lf(buf: &[u8]) -> (r: Option<usize>)
    ensures
        match r {
            Some(i) => spec_find_lf(buf@) == Some(i as int),
            None => spec_find_lf(buf@) is None,
        },
{
    let mut i: usize = 0;
    while i < buf.len()
        invariant
            i <= buf@.len(),
            forall|j: int| 0 <= j < i ==> #[trigger] buf@[j] != 10,
        decreases buf@.len() - i,
    {
        if buf[i] == 10 {
            proof {
                lemma_find_lf_at(buf@, i as int);
            }
            return Some(i);
        }
        i = i + 1;
    }
    proof {
        lemma_find_lf_none(buf@);
    }
    None
}

/// Drains every complete command out of the accumulation buffer, in order,
/// returning their encoded replies. Computes `spec_session` exactly.
#[verifier::loop_isolation(false)]
pub fn drain_buffer(acc: &mut Vec<u8>, db: &mut Store, now: u64) -> (replies: Vec<Vec<u8>>)
    ensures
        ({
            let out = spec_session(old(acc)@, old(db).model(), now);
            replies.deep_view() == out.replies && final(acc)@ == out.rest && final(db).model()
                == out.store
        }),
{
    let ghost acc0 = acc@;
    let ghost m0 = db.model();
    let mut out: Vec<Vec<u8>> = Vec::new();
    proof {
        assert(out.deep_view() =~~= Seq::<Seq<u8>>::empty());
        assert(Seq::<Seq<u8>>::empty() + spec_session(acc@, db.model(), now).replies
            =~= spec_session(acc@, db.model(), now).replies);
    }
    loop
        invariant
            spec_session(acc0, m0, now) == glue_session(
                out.deep_view(),
                spec_session(acc@, db.model(), now),
            ),
        decreases acc@.len(),
    {
        if acc.len() == 0 {
            break;
        }
        let ghost cur = acc@;
        let ghost mcur = db.model();
        if acc[0] == 42 {
            match parse_resp_one(acc.as_slice()) {
                Ok(Some((args, used))) => {
                    proof {
                        lemma_parse_request_used_bounds(cur);
                    }
                    let reply = process_parts(&args, db, now);
                    let bytes = reply.to_bytes();
                    let ghost bv = bytes@;
                    let ghost pre = out.deep_view();
                    out.push(bytes);
                    let remaining = copy_range(acc.as_slice(), used, acc.len());
                    *acc = remaining;
                    proof {
                        assert(out.deep_view() =~~= pre.push(bv));
                        assert(acc@ =~= cur.skip(used as int));
                        let tail = spec_session(acc@, db.model(), now);
                        assert(spec_session(cur, mcur, now) == glue_session(seq![bv], tail));
                        assert(pre + (seq![bv] + tail.replies) =~= pre.push(bv) + tail.replies);
                    }
                },
                Ok(None) => {
                    break;
                },
                Err(e) => {
                    let bytes = err_reply(e);
                    let ghost bv = bytes@;
                    let ghost pre = out.deep_view();
                    out.push(bytes);
                    let empty: Vec<u8> = Vec::new();
                    *acc = empty;
                    proof {
                        assert(out.deep_view() =~~= pre.push(bv));
                        assert(acc@ =~= Seq::<u8>::empty());
                        assert(pre + (seq![bv] + Seq::<Seq<u8>>::empty()) =~= pre.push(bv)
                            + Seq::<Seq<u8>>::empty());
                        assert(spec_session(acc@, db.model(), now).replies
                            =~= Seq::<Seq<u8>>::empty());
                    }
                    break;
                },
            }
        } else {
            match find_lf(acc.as_slice()) {
                None => {
                    break;
                },
                Some(pos) => {
                    proof {
                        lemma_find_lf_props(cur);
                    }
                    let line = copy_range(acc.as_slice(), 0, pos);
                    let remaining = copy_range(acc.as_slice(), pos + 1, acc.len());
                    *acc = remaining;
                    proof {
                        assert(line@ =~= cur.subrange(0, pos as int));
                        assert(acc@ =~= cur.skip(pos + 1));
                    }
                    let parts = split_ws(line.as_slice());
                    if parts.len() > 0 {
                        let reply = process_parts(&parts, db, now);
                        let bytes = reply.to_bytes();
                        let ghost bv = bytes@;
                        let ghost pre = out.deep_view();
                        out.push(bytes);
                        proof {
                            assert(out.deep_view() =~~= pre.push(bv));
                            let tail = spec_session(acc@, db.model(), now);
                            assert(spec_session(cur, mcur, now) == glue_session(seq![bv], tail));
                            assert(pre + (seq![bv] + tail.replies) =~= pre.push(bv)
                                + tail.replies);
                        }
                    }
                },
            }
        }
    }
    out
}

} // verus!
