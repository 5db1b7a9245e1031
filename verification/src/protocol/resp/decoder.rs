//! Incremental decoding of one RESP2 message from a byte buffer.
//!
//! `spec_decode` is the mathematical decoder: given the bytes received so
//! far it yields the first complete message and how many bytes it occupies,
//! or reports that more bytes are needed, or that the buffer is malformed.
//! `parse_resp_one` computes it. Decoding never consumes anything on an
//! incomplete buffer, which is what lets a session retry as bytes arrive.

use vstd::prelude::*;
use crate::num::{spec_parse_i64, parse_i64};
use crate::protocol::resp::encoder::{RespValue, RespData, rv_view, rv_list_view};

verus! {

/// Why a buffer cannot be parsed as a RESP2 message.
#[derive(Debug, Clone, Copy, PartialEq, Eq, Structural)]
pub enum ProtocolError {
    /// The first byte is none of `+ - : $ *`.
    UnknownPrefix,
    /// The text after `:` is not a signed 64-bit integer.
    BadInteger,
    /// The text after `$` is not a signed 64-bit integer.
    BadBulkLength,
    /// A bulk length below `-1`.
    NegativeBulkLength,
    /// The text after `*` is not a signed 64-bit integer.
    BadArrayLength,
    /// A negative array length.
    NegativeArrayLength,
    /// Bulk payload not followed by the line terminator.
    UnterminatedBulk,
    /// A client frame whose first byte is not `*`.
    ExpectedArray,
    /// A client frame element whose first byte is not `$`.
    ExpectedBulk,
}

/// Index of the first `\r\n` pair that lies wholly inside `s`.
pub open spec fn spec_find_crlf(s: Seq<u8>) -> Option<int>
    decreases s.len(),
{
    if s.len() < 2 {
        None
    } else if s[0] == 13 && s[1] == 10 {
        Some(0int)
    } else {
        match spec_find_crlf(s.drop_first()) {
            Some(i) => Some(i + 1),
            None => None,
        }
    }
}

/// Where `spec_find_crlf` finds a pair, that pair is first and in bounds.
pub proof fn lemma_find_crlf_props(s: Seq<u8>)
    ensures
        match spec_find_crlf(s) {
            Some(k) => 0 <= k && k + 1 < s.len() && s[k] == 13 && s[k + 1] == 10 && forall|
                j: int,
            |
                0 <= j < k ==> !(#[trigger] s[j] == 13 && s[j + 1] == 10),
            None => forall|j: int|
                0 <= j && j + 1 < s.len() ==> !(#[trigger] s[j] == 13 && s[j + 1] == 10),
        },
    decreases s.len(),
{
    if s.len() < 2 {
    } else if s[0] == 13 && s[1] == 10 {
    } else {
        let rest = s.drop_first();
        lemma_find_crlf_props(rest);
        match spec_find_crlf(rest) {
            Some(k) => {
                assert(s[k + 1] == rest[k] && s[k + 2] == rest[k + 1]);
                assert forall|j: int|
                    0 <= j < k + 1 implies !(#[trigger] s[j] == 13 && s[j + 1] == 10) by {
                    if j >= 1 {
                        assert(rest[j - 1] == s[j] && rest[j] == s[j + 1]);
                    }
                }
            },
            None => {
                assert forall|j: int|
                    0 <= j && j + 1 < s.len() implies !(#[trigger] s[j] == 13 && s[j + 1]
                    == 10) by {
                    if j >= 1 {
                        assert(rest[j - 1] == s[j] && rest[j] == s[j + 1]);
                    }
                }
            },
        }
    }
}

/// A pair at `k` with none before it is what `spec_find_crlf` reports.
pub proof fn lemma_find_crlf_at(s: Seq<u8>, k: int)
    requires
        0 <= k,
        k + 1 < s.len(),
        s[k] == 13,
        s[k + 1] == 10,
        forall|j: int| 0 <= j < k ==> !(#[trigger] s[j] == 13 && s[j + 1] == 10),
    ensures
        spec_find_crlf(s) == Some(k),
    decreases k,
{
    if k > 0 {
        lemma_find_crlf_at(s.drop_first(), k - 1);
    }
}

/// With no pair anywhere, `spec_find_crlf` reports none.
pub proof fn lemma_find_crlf_none(s: Seq<u8>)
    requires
        forall|j: int| 0 <= j && j + 1 < s.len() ==> !(#[trigger] s[j] == 13 && s[j + 1] == 10),
    ensures
        spec_find_crlf(s) is None,
    decreases s.len(),
{
    if s.len() >= 2 {
        lemma_find_crlf_none(s.drop_first());
    }
}

/// Outcome of decoding one message.
pub enum SpecDecoded {
    Complete { val: RespData, used: int },
    Incomplete,
    Malformed(ProtocolError),
}

/// Outcome of decoding a run of messages (the elements of an array).
pub enum SpecDecodedList {
    Complete { vals: Seq<RespData>, used: int },
    Incomplete,
    Malformed(ProtocolError),
}

/// Turns the outcome for an array's elements into the outcome for the whole
/// array, whose header occupied `start` bytes.
pub open spec fn finish_array(out: SpecDecodedList, start: int) -> SpecDecoded {
    match out {
        SpecDecodedList::Complete { vals, used } => SpecDecoded::Complete {
            val: RespData::Array(vals),
            used: start + used,
        },
        SpecDecodedList::Incomplete => SpecDecoded::Incomplete,
        SpecDecodedList::Malformed(e) => SpecDecoded::Malformed(e),
    }
}

/// Puts one decoded element in front of the outcome for the rest.
pub open spec fn prepend_elem(val: RespData, used: int, out: SpecDecodedList) -> SpecDecodedList {
    match out {
        SpecDecodedList::Complete { vals, used: tail_used } => SpecDecodedList::Complete {
            vals: seq![val] + vals,
            used: used + tail_used,
        },
        SpecDecodedList::Incomplete => SpecDecodedList::Incomplete,
        SpecDecodedList::Malformed(e) => SpecDecodedList::Malformed(e),
    }
}

/// The first complete RESP2 message in `s`: its shape and the bytes it
/// occupies, or the need for more bytes, or the malformation found.
pub open spec fn spec_decode(s: Seq<u8>) -> SpecDecoded
    decreases s.len(), 0nat, 0nat,
        via spec_decode_decreases
{
    if s.len() == 0 {
        SpecDecoded::Incomplete
    } else {
        let rest = s.drop_first();
        if s[0] == 43 || s[0] == 45 {
            match spec_find_crlf(rest) {
                None => SpecDecoded::Incomplete,
                Some(k) => {
                    let line = rest.subrange(0, k);
                    SpecDecoded::Complete {
                        val: if s[0] == 43 {
                            RespData::Simple(line)
                        } else {
                            RespData::Error(line)
                        },
                        used: k + 3,
                    }
                },
            }
        } else if s[0] == 58 {
            match spec_find_crlf(rest) {
                None => SpecDecoded::Incomplete,
                Some(k) => match spec_parse_i64(rest.subrange(0, k)) {
                    None => SpecDecoded::Malformed(ProtocolError::BadInteger),
                    Some(n) => SpecDecoded::Complete { val: RespData::Integer(n), used: k + 3 },
                },
            }
        } else if s[0] == 36 {
            match spec_find_crlf(rest) {
                None => SpecDecoded::Incomplete,
                Some(k) => match spec_parse_i64(rest.subrange(0, k)) {
                    None => SpecDecoded::Malformed(ProtocolError::BadBulkLength),
                    Some(len) => if len == -1 {
                        SpecDecoded::Complete { val: RespData::Bulk(None), used: k + 3 }
                    } else if len < -1 {
                        SpecDecoded::Malformed(ProtocolError::NegativeBulkLength)
                    } else {
                        let start = k + 3;
                        if start + len + 2 > s.len() {
                            SpecDecoded::Incomplete
                        } else if s[start + len] == 13 && s[start + len + 1] == 10 {
                            SpecDecoded::Complete {
                                val: RespData::Bulk(Some(s.subrange(start, start + len))),
                                used: start + len + 2,
                            }
                        } else {
                            SpecDecoded::Malformed(ProtocolError::UnterminatedBulk)
                        }
                    },
                },
            }
        } else if s[0] == 42 {
            match spec_find_crlf(rest) {
                None => SpecDecoded::Incomplete,
                Some(k) => match spec_parse_i64(rest.subrange(0, k)) {
                    None => SpecDecoded::Malformed(ProtocolError::BadArrayLength),
                    Some(n) => if n < 0 {
                        SpecDecoded::Malformed(ProtocolError::NegativeArrayLength)
                    } else {
                        finish_array(spec_decode_elems(s.skip(k + 3), n as nat), k + 3)
                    },
                },
            }
        } else {
            SpecDecoded::Malformed(ProtocolError::UnknownPrefix)
        }
    }
}

#[via_fn]
proof fn spec_decode_decreases(s: Seq<u8>) {
    if s.len() > 0 {
        lemma_find_crlf_props(s.drop_first());
    }
}

/// The first `n` messages in `s`, decoded in order.
pub open spec fn spec_decode_elems(s: Seq<u8>, n: nat) -> SpecDecodedList
    decreases s.len(), n, 1nat,
{
    if n == 0 {
        SpecDecodedList::Complete { vals: Seq::empty(), used: 0 }
    } else {
        match spec_decode(s) {
            SpecDecoded::Incomplete => SpecDecodedList::Incomplete,
            SpecDecoded::Malformed(e) => SpecDecodedList::Malformed(e),
            SpecDecoded::Complete { val, used } => if 1 <= used <= s.len() {
                prepend_elem(val, used, spec_decode_elems(s.skip(used), (n - 1) as nat))
            } else {
                SpecDecodedList::Malformed(ProtocolError::UnknownPrefix)
            },
        }
    }
}

/// A complete message occupies between one byte and the whole buffer, and a
/// complete element run occupies at most the whole buffer, one entry per
/// element.
pub proof fn lemma_decode_used_bounds(s: Seq<u8>)
    ensures
        match spec_decode(s) {
            SpecDecoded::Complete { used, .. } => 1 <= used <= s.len(),
            _ => true,
        },
    decreases s.len(), 0nat, 0nat,
{
    if s.len() > 0 {
        lemma_find_crlf_props(s.drop_first());
        if s[0] == 42 {
            match spec_find_crlf(s.drop_first()) {
                Some(k) => {
                    match spec_parse_i64(s.drop_first().subrange(0, k)) {
                        Some(n) => {
                            if n >= 0 {
                                lemma_decode_elems_used_bounds(s.skip(k + 3), n as nat);
                            }
                        },
                        None => {},
                    }
                },
                None => {},
            }
        }
    }
}

pub proof fn lemma_decode_elems_used_bounds(s: Seq<u8>, n: nat)
    ensures
        match spec_decode_elems(s, n) {
            SpecDecodedList::Complete { used, vals } => 0 <= used <= s.len() && vals.len() == n,
            _ => true,
        },
    decreases s.len(), n, 1nat,
{
    if n > 0 {
        lemma_decode_used_bounds(s);
        match spec_decode(s) {
            SpecDecoded::Complete { val, used } => {
                if 1 <= used <= s.len() {
                    lemma_decode_elems_used_bounds(s.skip(used), (n - 1) as nat);
                }
            },
            _ => {},
        }
    }
}

/// Copies `buf[from..to]` into a fresh vector.
pub fn copy_range(buf: &[u8], from: usize, to: usize) -> (r: Vec<u8>)
    requires
        from <= to <= buf@.len(),
    ensures
        r@ == buf@.subrange(from as int, to as int),
{
    let mut out: Vec<u8> = Vec::new();
    let mut j: usize = from;
    while j < to
        invariant
            from <= j <= to <= buf@.len(),
            out@ == buf@.subrange(from as int, j as int),
        decreases to - j,
    {
        out.push(buf[j]);
        proof {
            assert(out@ =~= buf@.subrange(from as int, j + 1 as int));
        }
        j = j + 1;
    }
    out
}

/// Scans for the next `\r\n` wholly inside `buf` at or after `*i`; on
/// success returns the line before it and advances `*i` past the
/// terminator, otherwise leaves `*i` where it was.
#[verifier::loop_isolation(false)]
pub fn read_line(buf: &[u8], i: &mut usize) -> (r: Option<Vec<u8>>)
    requires
        *old(i) <= buf@.len(),
    ensures
        match spec_find_crlf(buf@.skip(*old(i) as int)) {
            Some(k) => r matches Some(line) && line@ == buf@.subrange(
                *old(i) as int,
                *old(i) + k,
            ) && *final(i) == *old(i) + k + 2,
            None => r is None && *final(i) == *old(i),
        },
{
    let start = *i;
    let ghost tail = buf@.skip(start as int);
    let mut j: usize = start;
    while j < buf.len() && j + 1 < buf.len()
        invariant
            *i == start,
            start <= j,
            start <= buf@.len(),
            j <= buf@.len(),
            tail == buf@.skip(start as int),
            forall|t: int|
                0 <= t < j - start ==> !(#[trigger] tail[t] == 13 && tail[t + 1] == 10),
        decreases buf@.len() - j,
    {
        proof {
            assert(tail[j - start] == buf@[j as int]);
            assert(tail[j - start + 1] == buf@[j + 1 as int]);
        }
        if buf[j] == 13 && buf[j + 1] == 10 {
            let line = copy_range(buf, start, j);
            *i = j + 2;
            proof {
                lemma_find_crlf_at(tail, j - start);
            }
            return Some(line);
        }
        j = j + 1;
    }
    proof {
        lemma_find_crlf_none(tail);
    }
    None
}

/// Decodes the first complete RESP2 message in `buf`, returning the value
/// and the bytes it occupied, `None` when the buffer holds only a prefix of
/// a message, or the malformation found. Computes `spec_decode` exactly.
#[verifier::loop_isolation(false)]
pub fn parse_resp_one(buf: &[u8]) -> (r: Result<Option<(RespValue, usize)>, ProtocolError>)
    ensures
        match r {
            Ok(Some((v, n))) => spec_decode(buf@) == (SpecDecoded::Complete {
                val: rv_view(v),
                used: n as int,
            }),
            Ok(None) => spec_decode(buf@) is Incomplete,
            Err(e) => spec_decode(buf@) == SpecDecoded::Malformed(e),
        },
    decreases buf@.len(),
{
    if buf.len() == 0 {
        return Ok(None);
    }
    let tag = buf[0];
    let ghost rest = buf@.drop_first();
    let mut i: usize = 1;
    proof {
        assert(buf@.skip(1) =~= rest);
    }
    if tag == 43 || tag == 45 {
        match read_line(buf, &mut i) {
            Some(line) => {
                proof {
                    lemma_find_crlf_props(rest);
                    let k = spec_find_crlf(rest)->Some_0;
                    assert(line@ =~= rest.subrange(0, k));
                }
                let v = if tag == 43 {
                    RespValue::SimpleString(line)
                } else {
                    RespValue::Error(line)
                };
                Ok(Some((v, i)))
            },
            None => Ok(None),
        }
    } else if tag == 58 {
        match read_line(buf, &mut i) {
            Some(line) => {
                proof {
                    lemma_find_crlf_props(rest);
                    let k = spec_find_crlf(rest)->Some_0;
                    assert(line@ =~= rest.subrange(0, k));
                }
                match parse_i64(line.as_slice()) {
                    Some(n) => Ok(Some((RespValue::Integer(n), i))),
                    None => Err(ProtocolError::BadInteger),
                }
            },
            None => Ok(None),
        }
    } else if tag == 36 {
        match read_line(buf, &mut i) {
            Some(line) => {
                proof {
                    lemma_find_crlf_props(rest);
                    let k = spec_find_crlf(rest)->Some_0;
                    assert(line@ =~= rest.subrange(0, k));
                }
                match parse_i64(line.as_slice()) {
                    Some(len) => {
                        if len == -1 {
                            Ok(Some((RespValue::Bulk(None), i)))
                        } else if len < -1 {
                            Err(ProtocolError::NegativeBulkLength)
                        } else {
                            let len_w = len as u64;
                            let rem = (buf.len() - i) as u64;
                            if rem < 2 || len_w > rem - 2 {
                                Ok(None)
                            } else {
                                let len_us = len as usize;
                                if buf[i + len_us] == 13 && buf[i + len_us + 1] == 10 {
                                    let payload = copy_range(buf, i, i + len_us);
                                    Ok(Some((RespValue::Bulk(Some(payload)), i + len_us + 2)))
                                } else {
                                    Err(ProtocolError::UnterminatedBulk)
                                }
                            }
                        }
                    },
                    None => Err(ProtocolError::BadBulkLength),
                }
            },
            None => Ok(None),
        }
    } else if tag == 42 {
        match read_line(buf, &mut i) {
            Some(line) => {
                proof {
                    lemma_find_crlf_props(rest);
                    let k = spec_find_crlf(rest)->Some_0;
                    assert(line@ =~= rest.subrange(0, k));
                }
                match parse_i64(line.as_slice()) {
                    Some(n) => {
                        if n < 0 {
                            Err(ProtocolError::NegativeArrayLength)
                        } else {
                            let ghost start = i as int;
                            let mut items: Vec<RespValue> = Vec::new();
                            let mut consumed: usize = i;
                            let mut idx: u64 = 0;
                            let count = n as u64;
                            proof {
                                lemma_glue_empty(
                                    spec_decode_elems(buf@.skip(start), n as nat));
                            }
                            while idx < count
                                invariant
                                    idx <= count,
                                    count == n,
                                    1 <= start <= consumed <= buf@.len(),
                                    items@.len() == idx,
                                    spec_decode(buf@) == finish_array(
                                        glue_elems(
                                            rv_list_view(items@),
                                            consumed - start,
                                            spec_decode_elems(
                                                buf@.skip(consumed as int),
                                                (count - idx) as nat,
                                            ),
                                        ),
                                        start,
                                    ),
                                decreases count - idx,
                            {
                                let sub = &buf[consumed..buf.len()];
                                proof {
                                    assert(sub@ =~= buf@.skip(consumed as int));
                                }
                                match parse_resp_one(sub) {
                                    Ok(Some((v, used))) => {
                                        proof {
                                            lemma_decode_used_bounds(buf@.skip(consumed as int));
                                            lemma_glue_step(
                                                rv_list_view(items@),
                                                consumed - start,
                                                buf@.skip(consumed as int),
                                                rv_view(v),
                                                used as int,
                                                (count - idx) as nat,
                                            );
                                            assert(buf@.skip(consumed as int).skip(used as int)
                                                =~= buf@.skip(consumed + used));
                                            assert(items@.push(v).drop_last() =~= items@);
                                            assert(items@.push(v).last() == v);
                                            assert(rv_list_view(items@.push(v)) == rv_list_view(
                                                items@).push(rv_view(v)));
                                        }
                                        items.push(v);
                                        consumed = consumed + used;
                                    },
                                    Ok(None) => {
                                        return Ok(None);
                                    },
                                    Err(e) => {
                                        return Err(e);
                                    },
                                }
                                idx = idx + 1;
                            }
                            proof {
                                assert(spec_decode_elems(buf@.skip(consumed as int), 0)
                                    == (SpecDecodedList::Complete {
                                    vals: Seq::<RespData>::empty(),
                                    used: 0,
                                }));
                                assert(rv_list_view(items@) + Seq::<RespData>::empty()
                                    =~= rv_list_view(items@));
                            }
                            Ok(Some((RespValue::Array(items), consumed)))
                        }
                    },
                    None => Err(ProtocolError::BadArrayLength),
                }
            },
            None => Ok(None),
        }
    } else {
        Err(ProtocolError::UnknownPrefix)
    }
}

/// Splices a decoded prefix onto the outcome for the remaining elements.
pub open spec fn glue_elems(pre: Seq<RespData>, off: int, out: SpecDecodedList) -> SpecDecodedList {
    match out {
        SpecDecodedList::Complete { vals, used } => SpecDecodedList::Complete {
            vals: pre + vals,
            used: off + used,
        },
        SpecDecodedList::Incomplete => SpecDecodedList::Incomplete,
        SpecDecodedList::Malformed(e) => SpecDecodedList::Malformed(e),
    }
}

proof fn lemma_glue_empty(out: SpecDecodedList)
    ensures
        glue_elems(Seq::empty(), 0, out) == out,
{
    match out {
        SpecDecodedList::Complete { vals, used } => {
            assert(Seq::<RespData>::empty() + vals =~= vals);
        },
        _ => {},
    }
}

/// One decoding step folded into the glued form: consuming the next element
/// of the run extends the prefix and the offset in lockstep.
proof fn lemma_glue_step(
    pre: Seq<RespData>,
    off: int,
    s: Seq<u8>,
    val: RespData,
    used: int,
    n: nat,
)
    requires
        n >= 1,
        spec_decode(s) == (SpecDecoded::Complete { val, used }),
        1 <= used <= s.len(),
    ensures
        glue_elems(pre, off, spec_decode_elems(s, n)) == glue_elems(
            pre.push(val),
            off + used,
            spec_decode_elems(s.skip(used), (n - 1) as nat),
        ),
{
    let tail = spec_decode_elems(s.skip(used), (n - 1) as nat);
    assert(spec_decode_elems(s, n) == prepend_elem(val, used, tail));
    match tail {
        SpecDecodedList::Complete { vals, used: tu } => {
            assert(pre + (seq![val] + vals) =~= pre.push(val) + vals);
        },
        _ => {},
    }
}

} // verus!
