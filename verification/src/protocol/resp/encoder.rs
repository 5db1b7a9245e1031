//! The RESP2 value type and its encoding.
//!
//! `RespValue` is the wire-level reply and argument representation; its
//! mathematical shape is `RespData`, where byte vectors become sequences.
//! `spec_encode` defines the wire bytes of a value, and `to_bytes` produces
//! exactly those bytes.

use vstd::prelude::*;
use crate::num::{dec_digits, i64_digits, push_u64_digits, push_i64_digits};

verus! {

/// The mathematical shape of a RESP2 value.
pub enum RespData {
    Simple(Seq<u8>),
    Error(Seq<u8>),
    Integer(i64),
    Bulk(Option<Seq<u8>>),
    Array(Seq<RespData>),
}

/// One RESP2 value: a simple string, an error, an integer, a bulk string
/// (`None` is the protocol's nil), or an array of nested values.
#[derive(Debug)]
pub enum RespValue {
    SimpleString(Vec<u8>),
    Error(Vec<u8>),
    Integer(i64),
    Bulk(Option<Vec<u8>>),
    Array(Vec<RespValue>),
}

/// The shape of a value: byte vectors become byte sequences, recursively.
pub open spec fn rv_view(v: RespValue) -> RespData
    decreases v,
{
    match v {
        RespValue::SimpleString(s) => RespData::Simple(s@),
        RespValue::Error(s) => RespData::Error(s@),
        RespValue::Integer(n) => RespData::Integer(n),
        RespValue::Bulk(None) => RespData::Bulk(None),
        RespValue::Bulk(Some(p)) => RespData::Bulk(Some(p@)),
        RespValue::Array(items) => RespData::Array(rv_list_view(items@)),
    }
}

/// The shapes of a sequence of values, in order.
pub open spec fn rv_list_view(items: Seq<RespValue>) -> Seq<RespData>
    decreases items,
{
    if items.len() == 0 {
        Seq::empty()
    } else {
        rv_list_view(items.drop_last()).push(rv_view(items.last()))
    }
}

pub proof fn lemma_rv_list_view_index(items: Seq<RespValue>)
    ensures
        rv_list_view(items).len() == items.len(),
        forall|i: int|
            0 <= i < items.len() ==> rv_list_view(items)[i] == rv_view(#[trigger] items[i]),
    decreases items.len(),
{
    if items.len() > 0 {
        lemma_rv_list_view_index(items.drop_last());
        assert forall|i: int|
            0 <= i < items.len() implies rv_list_view(items)[i] == rv_view(
            #[trigger] items[i]) by {
            if i < items.len() - 1 {
                assert(items.drop_last()[i] == items[i]);
                assert(rv_list_view(items.drop_last())[i] == rv_view(items.drop_last()[i]));
            } else {
                assert(items[i] == items.last());
            }
        }
    }
}

/// The protocol's line terminator.
pub open spec fn crlf() -> Seq<u8> {
    seq![13u8, 10u8]
}

/// The wire bytes of a value: `+text\r\n`, `-text\r\n`, `:n\r\n`,
/// `$len\r\ndata\r\n` (`$-1\r\n` for nil), `*n\r\n` followed by the elements.
pub open spec fn spec_encode(d: RespData) -> Seq<u8>
    decreases d,
{
    match d {
        RespData::Simple(s) => seq![43u8] + s + crlf(),
        RespData::Error(s) => seq![45u8] + s + crlf(),
        RespData::Integer(n) => seq![58u8] + i64_digits(n) + crlf(),
        RespData::Bulk(None) => seq![36u8, 45u8, 49u8] + crlf(),
        RespData::Bulk(Some(p)) => seq![36u8] + dec_digits(p.len()) + crlf() + p + crlf(),
        RespData::Array(items) => seq![42u8] + dec_digits(items.len()) + crlf()
            + spec_encode_list(items),
    }
}

/// The concatenated encodings of a sequence of values.
pub open spec fn spec_encode_list(items: Seq<RespData>) -> Seq<u8>
    decreases items,
{
    if items.len() == 0 {
        Seq::empty()
    } else {
        spec_encode_list(items.drop_last()) + spec_encode(items.last())
    }
}

/// A value the protocol can carry faithfully: simple and error text holds no
/// line terminator bytes, and lengths fit the signed headers.
pub open spec fn wf_data(d: RespData) -> bool
    decreases d,
{
    match d {
        RespData::Simple(s) => no_line_break(s),
        RespData::Error(s) => no_line_break(s),
        RespData::Integer(_) => true,
        RespData::Bulk(None) => true,
        RespData::Bulk(Some(p)) => p.len() <= i64::MAX,
        RespData::Array(items) => items.len() <= i64::MAX && wf_list(items),
    }
}

pub open spec fn wf_list(items: Seq<RespData>) -> bool
    decreases items,
{
    if items.len() == 0 {
        true
    } else {
        wf_list(items.drop_last()) && wf_data(items.last())
    }
}

pub open spec fn no_line_break(s: Seq<u8>) -> bool {
    forall|i: int| 0 <= i < s.len() ==> s[i] != 13 && s[i] != 10
}

pub proof fn lemma_wf_list_index(items: Seq<RespData>)
    requires
        wf_list(items),
    ensures
        forall|i: int| 0 <= i < items.len() ==> wf_data(#[trigger] items[i]),
    decreases items.len(),
{
    if items.len() > 0 {
        lemma_wf_list_index(items.drop_last());
        assert forall|i: int| 0 <= i < items.len() implies wf_data(#[trigger] items[i]) by {
            if i < items.len() - 1 {
                assert(items.drop_last()[i] == items[i]);
                assert(wf_data(items.drop_last()[i]));
            } else {
                assert(items[i] == items.last());
            }
        }
    }
}

/// The bytes of ASCII text, character for character.
pub open spec fn ascii_bytes(s: Seq<char>) -> Seq<u8> {
    Seq::new(s.len(), |i: int| s[i] as u8)
}

/// Copies ASCII text into owned bytes.
pub fn ascii_msg(s: &str) -> (r: Vec<u8>)
    requires
        vstd::string::is_ascii(s),
    ensures
        r@ == ascii_bytes(s@),
{
    proof {
        vstd::string::is_ascii_spec_bytes(s);
    }
    let b = s.as_bytes();
    let mut out: Vec<u8> = Vec::new();
    let mut i: usize = 0;
    while i < b.len()
        invariant
            i <= b@.len(),
            b@ == ascii_bytes(s@),
            out@ == b@.subrange(0, i as int),
        decreases b@.len() - i,
    {
        out.push(b[i]);
        proof {
            assert(out@ =~= b@.subrange(0, i + 1 as int));
        }
        i = i + 1;
    }
    proof {
        assert(out@ =~= b@);
    }
    out
}

/// Appends the line terminator.
fn push_crlf(out: &mut Vec<u8>)
    ensures
        final(out)@ == old(out)@ + crlf(),
{
    out.push(13);
    out.push(10);
    proof {
        assert(out@ =~= old(out)@ + crlf());
    }
}

/// Appends the bytes of `src`.
fn push_bytes(out: &mut Vec<u8>, src: &Vec<u8>)
    ensures
        final(out)@ == old(out)@ + src@,
{
    let mut i: usize = 0;
    while i < src.len()
        invariant
            i <= src.len(),
            out@ == old(out)@ + src@.subrange(0, i as int),
        decreases src.len() - i,
    {
        out.push(src[i]);
        proof {
            assert(out@ =~= old(out)@ + src@.subrange(0, i + 1 as int));
        }
        i = i + 1;
    }
    proof {
        assert(src@.subrange(0, src@.len() as int) =~= src@);
    }
}

impl RespValue {
    /// Serializes the value to its exact wire bytes.
    pub fn to_bytes(&self) -> (r: Vec<u8>)
        ensures
            r@ == spec_encode(rv_view(*self)),
        decreases *self,
    {
        let mut out: Vec<u8> = Vec::new();
        match self {
            RespValue::SimpleString(s) => {
                out.push(43);
                push_bytes(&mut out, s);
                push_crlf(&mut out);
                proof {
                    assert(out@ =~= spec_encode(rv_view(*self)));
                }
            },
            RespValue::Error(s) => {
                out.push(45);
                push_bytes(&mut out, s);
                push_crlf(&mut out);
                proof {
                    assert(out@ =~= spec_encode(rv_view(*self)));
                }
            },
            RespValue::Integer(n) => {
                out.push(58);
                push_i64_digits(&mut out, *n);
                push_crlf(&mut out);
                proof {
                    assert(out@ =~= spec_encode(rv_view(*self)));
                }
            },
            RespValue::Bulk(None) => {
                out.push(36);
                out.push(45);
                out.push(49);
                push_crlf(&mut out);
                proof {
                    assert(out@ =~= spec_encode(rv_view(*self)));
                }
            },
            RespValue::Bulk(Some(p)) => {
                out.push(36);
                push_u64_digits(&mut out, p.len() as u64);
                push_crlf(&mut out);
                push_bytes(&mut out, p);
                push_crlf(&mut out);
                proof {
                    assert(p@.len() as u64 as nat == p@.len());
                    assert(out@ =~= spec_encode(rv_view(*self)));
                }
            },
            RespValue::Array(items) => {
                out.push(42);
                push_u64_digits(&mut out, items.len() as u64);
                push_crlf(&mut out);
                let ghost header = out@;
                let mut i: usize = 0;
                while i < items.len()
                    invariant
                        i <= items.len(),
                        *self == RespValue::Array(*items),
                        out@ == header + spec_encode_list(rv_list_view(items@.subrange(0, i as int))),
                    decreases items.len() - i,
                {
                    proof {
                        assert(*self == RespValue::Array(*items));
                        assert(decreases_to!(*self => self->Array_0@[i as int]));
                        assert(self->Array_0@[i as int] == items@[i as int]);
                    }
                    let piece = items[i].to_bytes();
                    push_bytes(&mut out, &piece);
                    proof {
                        let pre = items@.subrange(0, i as int);
                        let post = items@.subrange(0, i + 1 as int);
                        assert(post.drop_last() =~= pre);
                        assert(post.last() == items@[i as int]);
                        assert(rv_list_view(post).drop_last() =~= rv_list_view(pre));
                        assert(rv_list_view(post).last() == rv_view(items@[i as int]));
                        assert(spec_encode_list(rv_list_view(post)) == spec_encode_list(
                            rv_list_view(pre)) + spec_encode(rv_view(items@[i as int])));
                        assert(out@ =~= header + spec_encode_list(rv_list_view(post)));
                    }
                    i = i + 1;
                }
                proof {
                    assert(items@.subrange(0, items@.len() as int) =~= items@);
                    lemma_rv_list_view_index(items@);
                    assert(out@ =~= spec_encode(rv_view(*self)));
                }
            },
        }
        out
    }
}

} // verus!
