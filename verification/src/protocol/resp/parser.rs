//! The request reader: one client frame — an array of bulk strings — turned
//! into its list of arguments.
//!
//! This is the strict half of the session's two decoding modes. It accepts
//! exactly `*<n>\r\n` followed by `n` bulk strings, hands back the argument
//! bytes and the frame's length, asks for more bytes while the frame is
//! still arriving, and names the malformation otherwise. A nil bulk counts
//! as an empty argument.

use vstd::prelude::*;
use crate::num::{spec_parse_i64, spec_parse_u64, parse_i64, parse_u64};
use crate::protocol::resp::decoder::{
    ProtocolError, spec_find_crlf, lemma_find_crlf_props, read_line, copy_range,
};

verus! {

/// Outcome of reading one request frame.
pub enum ReqDecoded {
    Complete { args: Seq<Seq<u8>>, used: int },
    Incomplete,
    Malformed(ProtocolError),
}

/// Outcome of reading a run of bulk-string elements.
pub enum ReqListDecoded {
    Complete { args: Seq<Seq<u8>>, used: int },
    Incomplete,
    Malformed(ProtocolError),
}

/// Turns the outcome for the elements into the outcome for the frame whose
/// header occupied `start` bytes.
pub open spec fn finish_request(out: ReqListDecoded, start: int) -> ReqDecoded {
    match out {
        ReqListDecoded::Complete { args, used } => ReqDecoded::Complete {
            args,
            used: start + used,
        },
        ReqListDecoded::Incomplete => ReqDecoded::Incomplete,
        ReqListDecoded::Malformed(e) => ReqDecoded::Malformed(e),
    }
}

/// Puts one argument in front of the outcome for the rest.
pub open spec fn prepend_arg(arg: Seq<u8>, used: int, out: ReqListDecoded) -> ReqListDecoded {
    match out {
        ReqListDecoded::Complete { args, used: tail_used } => ReqListDecoded::Complete {
            args: seq![arg] + args,
            used: used + tail_used,
        },
        ReqListDecoded::Incomplete => ReqListDecoded::Incomplete,
        ReqListDecoded::Malformed(e) => ReqListDecoded::Malformed(e),
    }
}

/// The first complete request frame in `s`: its arguments and length, the
/// need for more bytes, or the malformation found.
pub open spec fn spec_parse_request(s: Seq<u8>) -> ReqDecoded {
    match spec_find_crlf(s) {
        None => ReqDecoded::Incomplete,
        Some(k) => {
            let header = s.subrange(0, k);
            if header.len() == 0 || header[0] != 42 {
                ReqDecoded::Malformed(ProtocolError::ExpectedArray)
            } else {
                match spec_parse_u64(header.drop_first()) {
                    None => ReqDecoded::Malformed(ProtocolError::BadArrayLength),
                    Some(n) => if n > usize::MAX as u64 {
                        ReqDecoded::Malformed(ProtocolError::BadArrayLength)
                    } else {
                        finish_request(spec_parse_req_elems(s.skip(k + 2), n as nat), k + 2)
                    },
                }
            }
        },
    }
}

/// The first `n` bulk-string elements in `s`, read in order.
pub open spec fn spec_parse_req_elems(s: Seq<u8>, n: nat) -> ReqListDecoded
    decreases s.len(), n,
        via spec_parse_req_elems_decreases
{
    if n == 0 {
        ReqListDecoded::Complete { args: Seq::empty(), used: 0 }
    } else {
        match spec_find_crlf(s) {
            None => ReqListDecoded::Incomplete,
            Some(k) => {
                let hdr = s.subrange(0, k);
                if hdr.len() == 0 || hdr[0] != 36 {
                    ReqListDecoded::Malformed(ProtocolError::ExpectedBulk)
                } else {
                    match spec_parse_i64(hdr.drop_first()) {
                        None => ReqListDecoded::Malformed(ProtocolError::BadBulkLength),
                        Some(len) => if len == -1 {
                            prepend_arg(
                                Seq::empty(),
                                k + 2,
                                spec_parse_req_elems(s.skip(k + 2), (n - 1) as nat),
                            )
                        } else if len < -1 {
                            ReqListDecoded::Malformed(ProtocolError::NegativeBulkLength)
                        } else if k + 2 + len + 2 > s.len() {
                            ReqListDecoded::Incomplete
                        } else if s[k + 2 + len] == 13 && s[k + 2 + len + 1] == 10 {
                            prepend_arg(
                                s.subrange(k + 2, k + 2 + len),
                                k + 2 + len + 2,
                                spec_parse_req_elems(s.skip(k + 2 + len + 2), (n - 1) as nat),
                            )
                        } else {
                            ReqListDecoded::Malformed(ProtocolError::UnterminatedBulk)
                        },
                    }
                }
            },
        }
    }
}

#[via_fn]
proof fn spec_parse_req_elems_decreases(s: Seq<u8>, n: nat) {
    lemma_find_crlf_props(s);
}

/// A complete frame occupies between one byte and the whole buffer.
pub proof fn lemma_parse_request_used_bounds(s: Seq<u8>)
    ensures
        match spec_parse_request(s) {
            ReqDecoded::Complete { used, .. } => 1 <= used <= s.len(),
            _ => true,
        },
{
    lemma_find_crlf_props(s);
    match spec_find_crlf(s) {
        Some(k) => {
            let header = s.subrange(0, k);
            if header.len() > 0 && header[0] == 42 {
                match crate::num::spec_parse_u64(header.drop_first()) {
                    Some(n) => {
                        if n <= usize::MAX as u64 {
                            lemma_parse_req_elems_used_bounds(s.skip(k + 2), n as nat);
                        }
                    },
                    None => {},
                }
            }
        },
        None => {},
    }
}

/// A complete element run occupies at most the whole buffer, one argument
/// per element.
pub proof fn lemma_parse_req_elems_used_bounds(s: Seq<u8>, n: nat)
    ensures
        match spec_parse_req_elems(s, n) {
            ReqListDecoded::Complete { used, args } => 0 <= used <= s.len() && args.len() == n,
            _ => true,
        },
    decreases s.len(), n,
{
    if n > 0 {
        lemma_find_crlf_props(s);
        match spec_find_crlf(s) {
            Some(k) => {
                let hdr = s.subrange(0, k);
                if hdr.len() > 0 && hdr[0] == 36 {
                    match crate::num::spec_parse_i64(hdr.drop_first()) {
                        Some(len) => {
                            if len == -1 {
                                lemma_parse_req_elems_used_bounds(s.skip(k + 2), (n - 1) as nat);
                            } else if len >= 0 && k + 2 + len + 2 <= s.len() && s[k + 2 + len]
                                == 13 && s[k + 2 + len + 1] == 10 {
                                lemma_parse_req_elems_used_bounds(
                                    s.skip(k + 2 + len + 2),
                                    (n - 1) as nat,
                                );
                            }
                        },
                        None => {},
                    }
                }
            },
            None => {},
        }
    }
}

/// Splices already-read arguments onto the outcome for the remaining
/// elements.
pub open spec fn glue_args(pre: Seq<Seq<u8>>, off: int, out: ReqListDecoded) -> ReqListDecoded {
    match out {
        ReqListDecoded::Complete { args, used } => ReqListDecoded::Complete {
            args: pre + args,
            used: off + used,
        },
        ReqListDecoded::Incomplete => ReqListDecoded::Incomplete,
        ReqListDecoded::Malformed(e) => ReqListDecoded::Malformed(e),
    }
}

proof fn lemma_glue_args_empty(out: ReqListDecoded)
    ensures
        glue_args(Seq::empty(), 0, out) == out,
{
    match out {
        ReqListDecoded::Complete { args, used } => {
            assert(Seq::<Seq<u8>>::empty() + args =~= args);
        },
        _ => {},
    }
}

/// One element folded into the glued form.
proof fn lemma_glue_args_step(pre: Seq<Seq<u8>>, off: int, s: Seq<u8>, arg: Seq<u8>, used: int, n: nat)
    requires
        n >= 1,
        spec_parse_req_elems(s, n) == prepend_arg(
            arg,
            used,
            spec_parse_req_elems(s.skip(used), (n - 1) as nat),
        ),
    ensures
        glue_args(pre, off, spec_parse_req_elems(s, n)) == glue_args(
            pre.push(arg),
            off + used,
            spec_parse_req_elems(s.skip(used), (n - 1) as nat),
        ),
{
    let tail = spec_parse_req_elems(s.skip(used), (n - 1) as nat);
    match tail {
        ReqListDecoded::Complete { args, used: tu } => {
            assert(pre + (seq![arg] + args) =~= pre.push(arg) + args);
        },
        _ => {},
    }
}

/// Reads one client frame from `input`: the argument list and the bytes the
/// frame occupied, `None` while the frame is still arriving, or the
/// malformation found. Computes `spec_parse_request` exactly.
#[verifier::loop_isolation(false)]
#[verifier::rlimit(80)]
#[verifier::spinoff_prover]
pub fn parse_resp_one(input: &[u8]) -> (r: Result<Option<(Vec<Vec<u8>>, usize)>, ProtocolError>)
    ensures
        match r {
            Ok(Some((args, n))) => spec_parse_request(input@) == (ReqDecoded::Complete {
                args: args.deep_view(),
                used: n as int,
            }),
            Ok(None) => spec_parse_request(input@) is Incomplete,
            Err(e) => spec_parse_request(input@) == ReqDecoded::Malformed(e),
        },
{
    let mut i: usize = 0;
    proof {
        assert(input@.skip(0) =~= input@);
    }
    let header = match read_line(input, &mut i) {
        Some(l) => l,
        None => {
            return Ok(None);
        },
    };
    proof {
        assert(input@.skip(0) =~= input@);
        lemma_find_crlf_props(input@);
        assert(header@ =~= input@.subrange(0, spec_find_crlf(input@)->Some_0));
    }
    if header.len() == 0 || header[0] != 42 {
        return Err(ProtocolError::ExpectedArray);
    }
    let count64 = match parse_u64(&header.as_slice()[1..header.len()]) {
        Some(v) => v,
        None => {
            proof {
                assert(header@.subrange(1, header@.len() as int) =~= header@.drop_first());
            }
            return Err(ProtocolError::BadArrayLength);
        },
    };
    proof {
        assert(header@.subrange(1, header@.len() as int) =~= header@.drop_first());
    }
    if count64 > usize::MAX as u64 {
        return Err(ProtocolError::BadArrayLength);
    }
    let count = count64 as usize;
    let ghost start = i as int;
    let mut parts: Vec<Vec<u8>> = Vec::new();
    let mut consumed: usize = i;
    let mut idx: usize = 0;
    proof {
        assert(input@.skip(0) =~= input@);
        assert(parts.deep_view() =~~= Seq::<Seq<u8>>::empty());
        lemma_glue_args_empty(spec_parse_req_elems(input@.skip(start), count as nat));
    }
    while idx < count
        invariant
            idx <= count,
            2 <= start <= consumed <= input@.len(),
            parts@.len() == idx,
            spec_parse_request(input@) == finish_request(
                glue_args(
                    parts.deep_view(),
                    consumed - start,
                    spec_parse_req_elems(input@.skip(consumed as int), (count - idx) as nat),
                ),
                start,
            ),
        decreases count - idx,
    {
        let ghost rem = input@.skip(consumed as int);
        let mut j: usize = consumed;
        let bulk_hdr = match read_line(input, &mut j) {
            Some(l) => l,
            None => {
                return Ok(None);
            },
        };
        proof {
            lemma_find_crlf_props(rem);
            let k = spec_find_crlf(rem)->Some_0;
            assert(bulk_hdr@ =~= rem.subrange(0, k));
        }
        if bulk_hdr.len() == 0 || bulk_hdr[0] != 36 {
            return Err(ProtocolError::ExpectedBulk);
        }
        let len_i64 = match parse_i64(&bulk_hdr.as_slice()[1..bulk_hdr.len()]) {
            Some(v) => v,
            None => {
                proof {
                    assert(bulk_hdr@.subrange(1, bulk_hdr@.len() as int)
                        =~= bulk_hdr@.drop_first());
                }
                return Err(ProtocolError::BadBulkLength);
            },
        };
        proof {
            assert(bulk_hdr@.subrange(1, bulk_hdr@.len() as int) =~= bulk_hdr@.drop_first());
        }
        let ghost k = spec_find_crlf(rem)->Some_0;
        if len_i64 == -1 {
            let ghost pre_deep = parts.deep_view();
            proof {
                lemma_glue_args_step(
                    pre_deep,
                    consumed - start,
                    rem,
                    Seq::empty(),
                    k + 2,
                    (count - idx) as nat,
                );
                assert(rem.skip(k + 2) =~= input@.skip(j as int));
            }
            parts.push(Vec::new());
            proof {
                assert(parts.deep_view() =~~= pre_deep.push(Seq::<u8>::empty()));
            }
            consumed = j;
        } else if len_i64 < -1 {
            return Err(ProtocolError::NegativeBulkLength);
        } else {
            let len_w = len_i64 as u64;
            let rem_w = (input.len() - j) as u64;
            if rem_w < 2 || len_w > rem_w - 2 {
                proof {
                    assert(k + 2 + len_i64 + 2 > rem.len());
                }
                return Ok(None);
            }
            let len_us = len_i64 as usize;
            if !(input[j + len_us] == 13 && input[j + len_us + 1] == 10) {
                proof {
                    assert(rem[k + 2 + len_i64] == input@[j + len_us]);
                    assert(rem[k + 2 + len_i64 + 1] == input@[j + len_us + 1]);
                }
                return Err(ProtocolError::UnterminatedBulk);
            }
            let data = copy_range(input, j, j + len_us);
            let ghost pre_deep = parts.deep_view();
            let ghost dv = data@;
            proof {
                assert(rem[k + 2 + len_i64] == input@[j + len_us]);
                assert(rem[k + 2 + len_i64 + 1] == input@[j + len_us + 1]);
                assert(dv =~= rem.subrange(k + 2, k + 2 + len_i64));
                lemma_glue_args_step(
                    pre_deep,
                    consumed - start,
                    rem,
                    dv,
                    k + 2 + len_i64 + 2,
                    (count - idx) as nat,
                );
                assert(rem.skip(k + 2 + len_i64 + 2) =~= input@.skip(j + len_us + 2));
            }
            parts.push(data);
            proof {
                assert(parts.deep_view() =~~= pre_deep.push(dv));
            }
            consumed = j + len_us + 2;
        }
        idx = idx + 1;
    }
    proof {
        assert(spec_parse_req_elems(input@.skip(consumed as int), 0) == (
        ReqListDecoded::Complete { args: Seq::<Seq<u8>>::empty(), used: 0 }));
        assert(parts.deep_view() + Seq::<Seq<u8>>::empty() =~~= parts.deep_view());
    }
    Ok(Some((parts, consumed)))
}

} // verus!
