//! Round-trip laws of the codec: decoding an encoded value yields that
//! value and consumes exactly its encoding, and no strict prefix of an
//! encoding ever decodes to anything (the decoder asks for more bytes).

use vstd::prelude::*;
use crate::num::{
    dec_digits, i64_digits, spec_parse_i64, spec_parse_u64, lemma_dec_digits_val,
    lemma_i64_digits_parse, lemma_u64_digits_parse,
};
use crate::protocol::resp::encoder::{
    RespData, crlf, spec_encode, spec_encode_list, wf_data, wf_list, no_line_break,
    lemma_wf_list_index,
};
use crate::protocol::resp::decoder::{
    spec_find_crlf, lemma_find_crlf_at, lemma_find_crlf_none, SpecDecoded, SpecDecodedList,
    spec_decode, spec_decode_elems, prepend_elem, finish_array,
};
use crate::protocol::resp::parser::{
    ReqDecoded, ReqListDecoded, spec_parse_request, spec_parse_req_elems, prepend_arg,
    finish_request,
};

verus! {

/// A line with no terminator bytes, followed by `\r\n` and anything else:
/// the scan finds exactly the boundary.
proof fn lemma_find_crlf_line(line: Seq<u8>, tail: Seq<u8>)
    requires
        no_line_break(line),
    ensures
        spec_find_crlf(line + crlf() + tail) == Some(line.len() as int),
{
    let s = line + crlf() + tail;
    assert(s[line.len() as int] == 13);
    assert(s[line.len() as int + 1] == 10);
    assert forall|j: int| 0 <= j < line.len() implies !(#[trigger] s[j] == 13 && s[j + 1]
        == 10) by {
        assert(s[j] == line[j]);
    }
    lemma_find_crlf_at(s, line.len() as int);
}

/// The digits of a non-negative length contain no terminator bytes.
proof fn lemma_digits_line(n: nat)
    ensures
        no_line_break(dec_digits(n)),
{
    lemma_dec_digits_val(n);
}

/// Signed decimal text contains no terminator bytes.
proof fn lemma_i64_digits_line(n: i64)
    ensures
        no_line_break(i64_digits(n)),
{
    if n < 0 {
        lemma_dec_digits_val((-(n as int)) as nat);
        assert forall|i: int|
            0 <= i < i64_digits(n).len() implies i64_digits(n)[i] != 13 && i64_digits(n)[i]
            != 10 by {
            if i >= 1 {
                assert(i64_digits(n)[i] == dec_digits((-(n as int)) as nat)[i - 1]);
            }
        }
    } else {
        lemma_dec_digits_val(n as nat);
    }
}

/// Decoding an encoded well-formed value, with any bytes after it, yields
/// that value and consumes exactly the encoding.
#[verifier::rlimit(80)]
#[verifier::spinoff_prover]
pub proof fn lemma_decode_encode(d: RespData, tail: Seq<u8>)
    requires
        wf_data(d),
    ensures
        spec_decode(spec_encode(d) + tail) == (SpecDecoded::Complete {
            val: d,
            used: spec_encode(d).len() as int,
        }),
    decreases d, 0nat,
{
    let e = spec_encode(d);
    let s = e + tail;
    match d {
        RespData::Simple(line) => {
            assert(s.drop_first() =~= line + crlf() + tail);
            lemma_find_crlf_line(line, tail);
            assert(s[0] == 43);
            assert(s.drop_first().subrange(0, line.len() as int) =~= line);
        },
        RespData::Error(line) => {
            assert(s.drop_first() =~= line + crlf() + tail);
            lemma_find_crlf_line(line, tail);
            assert(s[0] == 45);
            assert(s.drop_first().subrange(0, line.len() as int) =~= line);
        },
        RespData::Integer(n) => {
            let digits = i64_digits(n);
            assert(s.drop_first() =~= digits + crlf() + tail);
            lemma_i64_digits_line(n);
            lemma_find_crlf_line(digits, tail);
            assert(s.drop_first().subrange(0, digits.len() as int) =~= digits);
            lemma_i64_digits_parse(n);
            assert(s[0] == 58);
        },
        RespData::Bulk(None) => {
            let line = seq![45u8, 49u8];
            assert(s.drop_first() =~= line + crlf() + tail);
            assert(no_line_break(line));
            lemma_find_crlf_line(line, tail);
            assert(s.drop_first().subrange(0, 2) =~= line);
            assert(line =~= i64_digits(-1i64)) by {
                assert(i64_digits(-1i64) == seq![45u8] + dec_digits(1));
                assert(dec_digits(1) == seq![49u8]);
            }
            lemma_i64_digits_parse(-1i64);
            assert(s[0] == 36);
            assert(spec_parse_i64(s.drop_first().subrange(0, 2)) == Some(-1i64));
        },
        RespData::Bulk(Some(p)) => {
            let digits = dec_digits(p.len());
            assert(s.drop_first() =~= digits + crlf() + (p + crlf() + tail)) by {
                assert(s.drop_first() =~= e.drop_first() + tail);
                assert(e.drop_first() =~= digits + crlf() + p + crlf());
            }
            lemma_digits_line(p.len());
            lemma_find_crlf_line(digits, p + crlf() + tail);
            let k = digits.len() as int;
            assert(s.drop_first().subrange(0, k) =~= digits);
            lemma_dec_digits_val(p.len());
            assert(i64_digits(p.len() as i64) == digits);
            lemma_i64_digits_parse(p.len() as i64);
            assert(spec_parse_i64(digits) == Some(p.len() as i64));
            let len = p.len() as int;
            let start = k + 3;
            assert(s.len() == 1 + k + 2 + len + 2 + tail.len());
            assert(s[0] == 36);
            assert(forall|t: int| 0 <= t < len ==> s[start + t] == p[t]);
            assert(s.subrange(start, start + len) =~= p);
            assert(s[start + len] == 13);
            assert(s[start + len + 1] == 10);
            assert(e.len() == start + len + 2);
        },
        RespData::Array(items) => {
            let digits = dec_digits(items.len());
            let body = spec_encode_list(items);
            assert(s.drop_first() =~= digits + crlf() + (body + tail)) by {
                assert(s.drop_first() =~= e.drop_first() + tail);
                assert(e.drop_first() =~= digits + crlf() + body);
            }
            lemma_digits_line(items.len());
            lemma_find_crlf_line(digits, body + tail);
            let k = digits.len() as int;
            assert(s.drop_first().subrange(0, k) =~= digits);
            lemma_dec_digits_val(items.len());
            assert(i64_digits(items.len() as i64) == digits);
            lemma_i64_digits_parse(items.len() as i64);
            let start = k + 3;
            assert(s.skip(start) =~= body + tail);
            lemma_decode_encode_list(items, tail);
            assert(spec_decode_elems(s.skip(start), items.len()) == (SpecDecodedList::Complete {
                vals: items,
                used: body.len() as int,
            }));
            assert(s[0] == 42);
            assert(e.len() == start + body.len());
        },
    }
}

/// Element runs decode back to themselves, element by element.
pub proof fn lemma_decode_encode_list(items: Seq<RespData>, tail: Seq<u8>)
    requires
        wf_list(items),
    ensures
        spec_decode_elems(spec_encode_list(items) + tail, items.len()) == (
        SpecDecodedList::Complete { vals: items, used: spec_encode_list(items).len() as int }),
    decreases items, 1nat,
{
    if items.len() == 0 {
        assert(spec_encode_list(items) + tail =~= tail);
        assert(spec_decode_elems(tail, 0) == (SpecDecodedList::Complete {
            vals: Seq::<RespData>::empty(),
            used: 0,
        }));
        assert(items =~= Seq::<RespData>::empty());
    } else {
        let first = items[0];
        let rest = items.drop_first();
        lemma_wf_list_index(items);
        lemma_wf_list_drop_first(items);
        lemma_encode_list_front(items);
        let e0 = spec_encode(first);
        let eb = spec_encode_list(rest);
        let s = spec_encode_list(items) + tail;
        assert(s =~= e0 + (eb + tail));
        lemma_decode_encode(first, eb + tail);
        assert(spec_decode(s) == (SpecDecoded::Complete { val: first, used: e0.len() as int }));
        assert(e0.len() >= 1) by {
            lemma_encode_len(first);
        }
        assert(s.skip(e0.len() as int) =~= eb + tail);
        lemma_decode_encode_list(rest, tail);
        assert(spec_decode_elems(s, items.len()) == prepend_elem(
            first,
            e0.len() as int,
            spec_decode_elems(eb + tail, rest.len()),
        ));
        assert(seq![first] + rest =~= items);
    }
}

/// Decoding the exact encoding of a well-formed value: the round trip.
pub proof fn lemma_round_trip(d: RespData)
    requires
        wf_data(d),
    ensures
        spec_decode(spec_encode(d)) == (SpecDecoded::Complete {
            val: d,
            used: spec_encode(d).len() as int,
        }),
{
    lemma_decode_encode(d, Seq::empty());
    assert(spec_encode(d) + Seq::<u8>::empty() =~= spec_encode(d));
}

/// No strict prefix of a header line reaches its terminator.
proof fn lemma_find_crlf_prefix_none(line: Seq<u8>, m: int)
    requires
        no_line_break(line),
        0 <= m < line.len() + 2,
    ensures
        spec_find_crlf((line + crlf()).take(m)) is None,
{
    let s = (line + crlf()).take(m);
    assert forall|j: int| 0 <= j && j + 1 < s.len() implies !(#[trigger] s[j] == 13 && s[j + 1]
        == 10) by {
        if j < line.len() {
            assert(s[j] == line[j]);
        }
    }
    lemma_find_crlf_none(s);
}

/// Any strict prefix of an encoded well-formed value decodes to `Incomplete`:
/// the decoder consumes nothing and waits for the rest.
pub proof fn lemma_prefix_incomplete(d: RespData, n: int)
    requires
        wf_data(d),
        0 <= n < spec_encode(d).len(),
    ensures
        spec_decode(spec_encode(d).take(n)) is Incomplete,
    decreases d, 0nat,
{
    let e = spec_encode(d);
    let s = e.take(n);
    if n == 0 {
        assert(s.len() == 0);
    } else {
        match d {
            RespData::Simple(line) => {
                lemma_line_prefix(43u8, line, e, n);
            },
            RespData::Error(line) => {
                lemma_line_prefix(45u8, line, e, n);
            },
            RespData::Integer(v) => {
                lemma_i64_digits_line(v);
                lemma_line_prefix(58u8, i64_digits(v), e, n);
            },
            RespData::Bulk(None) => {
                assert(no_line_break(seq![45u8, 49u8]));
                assert(e =~= seq![36u8] + seq![45u8, 49u8] + crlf());
                lemma_line_prefix(36u8, seq![45u8, 49u8], e, n);
            },
            RespData::Bulk(Some(p)) => {
                let digits = dec_digits(p.len());
                lemma_digits_line(p.len());
                let k = digits.len() as int;
                let h = k + 3;
                if n < h {
                    assert(e.drop_first() =~= digits + crlf() + (p + crlf()));
                    assert(s.drop_first() =~= (digits + crlf()).take(n - 1));
                    lemma_find_crlf_prefix_none(digits, n - 1);
                    assert(s[0] == 36);
                } else {
                    assert(s.drop_first() =~= digits + crlf() + (p + crlf()).take(n - h));
                    lemma_find_crlf_line(digits, (p + crlf()).take(n - h));
                    assert(s.drop_first().subrange(0, k) =~= digits);
                    lemma_dec_digits_val(p.len());
                    assert(i64_digits(p.len() as i64) == digits);
                    lemma_i64_digits_parse(p.len() as i64);
                    assert(s[0] == 36);
                    assert(e.len() == h + p.len() + 2);
                    assert(h + p.len() + 2 > s.len());
                }
            },
            RespData::Array(items) => {
                let digits = dec_digits(items.len());
                lemma_digits_line(items.len());
                let body = spec_encode_list(items);
                let k = digits.len() as int;
                let h = k + 3;
                if n < h {
                    assert(e.drop_first() =~= digits + crlf() + body);
                    assert(s.drop_first() =~= (digits + crlf()).take(n - 1));
                    lemma_find_crlf_prefix_none(digits, n - 1);
                    assert(s[0] == 42);
                } else {
                    assert(s.drop_first() =~= digits + crlf() + body.take(n - h));
                    lemma_find_crlf_line(digits, body.take(n - h));
                    assert(s.drop_first().subrange(0, k) =~= digits);
                    lemma_dec_digits_val(items.len());
                    assert(i64_digits(items.len() as i64) == digits);
                    lemma_i64_digits_parse(items.len() as i64);
                    assert(s[0] == 42);
                    assert(s.skip(h) =~= body.take(n - h));
                    assert(e.len() == h + body.len());
                    lemma_prefix_incomplete_list(items, n - h);
                }
            },
        }
    }
}

/// The header-line cases of `lemma_prefix_incomplete`: a strict prefix of
/// `tag line \r\n` never finds the terminator.
proof fn lemma_line_prefix(tag: u8, line: Seq<u8>, e: Seq<u8>, n: int)
    requires
        no_line_break(line),
        e == seq![tag] + line + crlf(),
        1 <= n < e.len(),
    ensures
        spec_find_crlf(e.take(n).drop_first()) is None,
        e.take(n)[0] == tag,
        e.take(n).len() >= 1,
{
    let s = e.take(n);
    assert(s.drop_first() =~= (line + crlf()).take(n - 1));
    lemma_find_crlf_prefix_none(line, n - 1);
}

/// A strict prefix of an encoded element run leaves the run incomplete.
pub proof fn lemma_prefix_incomplete_list(items: Seq<RespData>, m: int)
    requires
        wf_list(items),
        0 <= m < spec_encode_list(items).len(),
    ensures
        spec_decode_elems(spec_encode_list(items).take(m), items.len()) is Incomplete,
    decreases items, 1nat,
{
    let first = items[0];
    let rest = items.drop_first();
    lemma_wf_list_index(items);
    lemma_wf_list_drop_first(items);
    lemma_encode_list_front(items);
    let e0 = spec_encode(first);
    let eb = spec_encode_list(rest);
    let s = spec_encode_list(items).take(m);
    if m < e0.len() {
        assert(s =~= e0.take(m));
        lemma_prefix_incomplete(first, m);
    } else {
        assert(s =~= e0 + eb.take(m - e0.len()));
        lemma_decode_encode(first, eb.take(m - e0.len()));
        lemma_encode_len(first);
        assert(s.skip(e0.len() as int) =~= eb.take(m - e0.len()));
        lemma_prefix_incomplete_list(rest, m - e0.len());
    }
}

/// The shapes of a client command's arguments: an array of bulk strings.
pub open spec fn bulk_items(args: Seq<Seq<u8>>) -> Seq<RespData> {
    Seq::new(args.len(), |i: int| RespData::Bulk(Some(args[i])))
}

/// The wire bytes of a client command: its arguments as an array of bulks.
pub open spec fn spec_encode_cmd(args: Seq<Seq<u8>>) -> Seq<u8> {
    spec_encode(RespData::Array(bulk_items(args)))
}

/// Arguments the protocol can carry: each length fits the signed header.
pub open spec fn wf_args(args: Seq<Seq<u8>>) -> bool {
    args.len() <= i64::MAX && forall|i: int| 0 <= i < args.len() ==> (#[trigger] args[i]).len()
        <= i64::MAX
}

/// The request reader undoes the command encoder: an encoded command with
/// any bytes after it reads back as exactly its arguments, consuming
/// exactly the encoding.
pub proof fn lemma_request_round_trip(args: Seq<Seq<u8>>, tail: Seq<u8>)
    requires
        wf_args(args),
        args.len() <= usize::MAX,
    ensures
        spec_parse_request(spec_encode_cmd(args) + tail) == (ReqDecoded::Complete {
            args,
            used: spec_encode_cmd(args).len() as int,
        }),
{
    let items = bulk_items(args);
    let e = spec_encode_cmd(args);
    let s = e + tail;
    let digits = dec_digits(args.len());
    let body = spec_encode_list(items);
    lemma_digits_line(args.len());
    let line = seq![42u8] + digits;
    assert(no_line_break(line)) by {
        assert(forall|i: int|
            1 <= i < line.len() ==> line[i] == #[trigger] digits[i - 1]);
    }
    assert(s =~= line + crlf() + (body + tail));
    lemma_find_crlf_line(line, body + tail);
    let k = line.len() as int;
    assert(s.subrange(0, k) =~= line);
    assert(s.subrange(0, k)[0] == 42);
    assert(s.subrange(0, k).drop_first() =~= digits);
    lemma_dec_digits_val(args.len());
    assert(dec_digits((args.len() as u64) as nat) == digits);
    crate::num::lemma_u64_digits_parse(args.len() as u64);
    assert(spec_parse_u64(digits) == Some(args.len() as u64));
    assert(s.skip(k + 2) =~= body + tail);
    lemma_req_elems_round_trip(args, tail);
    assert(e.len() == k + 2 + body.len());
}

/// An array of bulk strings with in-range lengths is well-formed.
pub proof fn lemma_wf_bulk_items(args: Seq<Seq<u8>>)
    requires
        wf_args(args),
    ensures
        wf_list(bulk_items(args)),
        wf_data(RespData::Array(bulk_items(args))),
    decreases args.len(),
{
    let items = bulk_items(args);
    if args.len() > 0 {
        assert(wf_args(args.drop_last()));
        lemma_wf_bulk_items(args.drop_last());
        assert(bulk_items(args.drop_last()) =~= items.drop_last());
        assert(wf_list(items.drop_last()));
        assert(items.last() == RespData::Bulk(Some(args.last())));
        assert(args.last() == args[args.len() - 1]);
        assert(args.last().len() <= i64::MAX);
        assert(wf_data(items.last()));
        assert(wf_list(items));
    } else {
        assert(items.len() == 0);
        assert(wf_list(items));
    }
}

/// Element runs of bulk strings read back as their argument bytes.
pub proof fn lemma_req_elems_round_trip(args: Seq<Seq<u8>>, tail: Seq<u8>)
    requires
        wf_args(args),
    ensures
        spec_parse_req_elems(spec_encode_list(bulk_items(args)) + tail, args.len()) == (
        ReqListDecoded::Complete {
            args,
            used: spec_encode_list(bulk_items(args)).len() as int,
        }),
    decreases args.len(),
{
    let items = bulk_items(args);
    let body = spec_encode_list(items);
    let s = body + tail;
    if args.len() == 0 {
        assert(items =~= Seq::<RespData>::empty());
        assert(spec_encode_list(items) == Seq::<u8>::empty());
        assert(s =~= tail);
        assert(args =~= Seq::<Seq<u8>>::empty());
    } else {
        let arg0 = args[0];
        let first = items[0];
        assert(first == RespData::Bulk(Some(arg0)));
        lemma_encode_list_front(items);
        let e0 = spec_encode(first);
        let digits0 = dec_digits(arg0.len());
        lemma_digits_line(arg0.len());
        let hdr = seq![36u8] + digits0;
        assert(no_line_break(hdr)) by {
            assert(forall|i: int|
                1 <= i < hdr.len() ==> hdr[i] == #[trigger] digits0[i - 1]);
        }
        let rest_items = bulk_items(args.drop_first());
        assert(rest_items =~= items.drop_first());
        let eb = spec_encode_list(rest_items);
        let len0 = arg0.len() as int;
        assert(e0 =~= hdr + crlf() + (arg0 + crlf()));
        assert(s =~= hdr + crlf() + (arg0 + crlf() + (eb + tail)));
        lemma_find_crlf_line(hdr, arg0 + crlf() + (eb + tail));
        let k = hdr.len() as int;
        assert(s.subrange(0, k) =~= hdr);
        assert(s.subrange(0, k)[0] == 36);
        assert(s.subrange(0, k).drop_first() =~= digits0);
        lemma_dec_digits_val(arg0.len());
        assert(i64_digits(arg0.len() as i64) == digits0);
        lemma_i64_digits_parse(arg0.len() as i64);
        assert(spec_parse_i64(digits0) == Some(arg0.len() as i64));
        assert(s.len() >= k + 2 + len0 + 2);
        assert(forall|t: int| 0 <= t < len0 ==> s[k + 2 + t] == arg0[t]);
        assert(s.subrange(k + 2, k + 2 + len0) =~= arg0);
        assert(s[k + 2 + len0] == 13);
        assert(s[k + 2 + len0 + 1] == 10);
        assert(e0.len() == k + 2 + len0 + 2);
        assert(s.skip(e0.len() as int) =~= eb + tail);
        assert(wf_args(args.drop_first()));
        lemma_req_elems_round_trip(args.drop_first(), tail);
        assert(seq![arg0] + args.drop_first() =~= args);
        assert(body.len() == e0.len() + eb.len());
    }
}

/// One encoded bulk element at the head of a run: reading it yields its
/// argument and hands the rest of the buffer to the remaining elements.
pub proof fn lemma_req_elem_head(arg: Seq<u8>, tail: Seq<u8>, n: nat)
    requires
        arg.len() <= i64::MAX,
        n >= 1,
    ensures
        spec_parse_req_elems(spec_encode(RespData::Bulk(Some(arg))) + tail, n) == prepend_arg(
            arg,
            spec_encode(RespData::Bulk(Some(arg))).len() as int,
            spec_parse_req_elems(tail, (n - 1) as nat),
        ),
{
    let e0 = spec_encode(RespData::Bulk(Some(arg)));
    let s = e0 + tail;
    let digits0 = dec_digits(arg.len());
    lemma_digits_line(arg.len());
    let hdr = seq![36u8] + digits0;
    assert(no_line_break(hdr)) by {
        assert(forall|i: int| 1 <= i < hdr.len() ==> hdr[i] == #[trigger] digits0[i - 1]);
    }
    let len0 = arg.len() as int;
    assert(e0 =~= hdr + crlf() + (arg + crlf()));
    assert(s =~= hdr + crlf() + (arg + crlf() + tail));
    lemma_find_crlf_line(hdr, arg + crlf() + tail);
    let k = hdr.len() as int;
    assert(s.subrange(0, k) =~= hdr);
    assert(s.subrange(0, k)[0] == 36);
    assert(s.subrange(0, k).drop_first() =~= digits0);
    lemma_dec_digits_val(arg.len());
    assert(i64_digits(arg.len() as i64) == digits0);
    lemma_i64_digits_parse(arg.len() as i64);
    assert(spec_parse_i64(digits0) == Some(arg.len() as i64));
    assert(s.len() >= k + 2 + len0 + 2);
    assert(forall|t: int| 0 <= t < len0 ==> s[k + 2 + t] == arg[t]);
    assert(s.subrange(k + 2, k + 2 + len0) =~= arg);
    assert(s[k + 2 + len0] == 13);
    assert(s[k + 2 + len0 + 1] == 10);
    assert(e0.len() == k + 2 + len0 + 2);
    assert(s.skip(e0.len() as int) =~= tail);
}

/// A strict prefix of an encoded element run leaves the run incomplete.
pub proof fn lemma_req_elems_prefix(args: Seq<Seq<u8>>, m: int)
    requires
        wf_args(args),
        0 <= m < spec_encode_list(bulk_items(args)).len(),
    ensures
        spec_parse_req_elems(spec_encode_list(bulk_items(args)).take(m), args.len())
            is Incomplete,
    decreases args.len(),
{
    let items = bulk_items(args);
    let body = spec_encode_list(items);
    let s = body.take(m);
    let arg0 = args[0];
    assert(items[0] == RespData::Bulk(Some(arg0)));
    lemma_encode_list_front(items);
    let e0 = spec_encode(items[0]);
    let rest_items = bulk_items(args.drop_first());
    assert(rest_items =~= items.drop_first());
    let eb = spec_encode_list(rest_items);
    let digits0 = dec_digits(arg0.len());
    lemma_digits_line(arg0.len());
    let hdr = seq![36u8] + digits0;
    assert(no_line_break(hdr)) by {
        assert(forall|i: int| 1 <= i < hdr.len() ==> hdr[i] == #[trigger] digits0[i - 1]);
    }
    let len0 = arg0.len() as int;
    let k = hdr.len() as int;
    let h0 = k + 2;
    assert(e0 =~= hdr + crlf() + (arg0 + crlf()));
    if m < e0.len() {
        assert(s =~= e0.take(m));
        if m < h0 {
            assert(s =~= (hdr + crlf()).take(m));
            lemma_find_crlf_prefix_none(hdr, m);
        } else {
            assert(s =~= hdr + crlf() + (arg0 + crlf()).take(m - h0));
            lemma_find_crlf_line(hdr, (arg0 + crlf()).take(m - h0));
            assert(s.subrange(0, k) =~= hdr);
            assert(s.subrange(0, k)[0] == 36);
            assert(s.subrange(0, k).drop_first() =~= digits0);
            lemma_dec_digits_val(arg0.len());
            assert(i64_digits(arg0.len() as i64) == digits0);
            lemma_i64_digits_parse(arg0.len() as i64);
            assert(e0.len() == h0 + len0 + 2);
            assert(h0 + len0 + 2 > s.len());
        }
    } else {
        assert(s =~= e0 + eb.take(m - e0.len()));
        lemma_req_elem_head(arg0, eb.take(m - e0.len()), args.len());
        assert(wf_args(args.drop_first()));
        lemma_req_elems_prefix(args.drop_first(), m - e0.len());
        assert(body.len() == e0.len() + eb.len());
    }
}

/// A strict prefix of an encoded command frame reads as incomplete: the
/// request reader consumes nothing and waits for the rest.
pub proof fn lemma_request_prefix_incomplete(args: Seq<Seq<u8>>, n: int)
    requires
        wf_args(args),
        args.len() <= usize::MAX,
        0 <= n < spec_encode_cmd(args).len(),
    ensures
        spec_parse_request(spec_encode_cmd(args).take(n)) is Incomplete,
{
    let e = spec_encode_cmd(args);
    let s = e.take(n);
    let digits = dec_digits(args.len());
    lemma_digits_line(args.len());
    let line = seq![42u8] + digits;
    assert(no_line_break(line)) by {
        assert(forall|i: int| 1 <= i < line.len() ==> line[i] == #[trigger] digits[i - 1]);
    }
    let body = spec_encode_list(bulk_items(args));
    assert(e =~= line + crlf() + body);
    let k = line.len() as int;
    let h = k + 2;
    if n < h {
        assert(s =~= (line + crlf()).take(n));
        lemma_find_crlf_prefix_none(line, n);
    } else {
        assert(s =~= line + crlf() + body.take(n - h));
        lemma_find_crlf_line(line, body.take(n - h));
        assert(s.subrange(0, k) =~= line);
        assert(s.subrange(0, k)[0] == 42);
        assert(s.subrange(0, k).drop_first() =~= digits);
        lemma_dec_digits_val(args.len());
        assert(dec_digits((args.len() as u64) as nat) == digits);
        lemma_u64_digits_parse(args.len() as u64);
        assert(s.skip(h) =~= body.take(n - h));
        lemma_req_elems_prefix(args, n - h);
    }
}

/// Every encoding is at least one byte long.
pub proof fn lemma_encode_len(d: RespData)
    ensures
        spec_encode(d).len() >= 3,
{
    lemma_dec_digits_val_any(d);
}

/// Helper for `lemma_encode_len`: the length facts it needs.
proof fn lemma_dec_digits_val_any(d: RespData)
    ensures
        spec_encode(d).len() >= 3,
{
    match d {
        RespData::Integer(n) => {
            if n < 0 {
                lemma_dec_digits_val((-(n as int)) as nat);
            } else {
                lemma_dec_digits_val(n as nat);
            }
        },
        RespData::Bulk(Some(p)) => {
            lemma_dec_digits_val(p.len());
        },
        RespData::Array(items) => {
            lemma_dec_digits_val(items.len());
        },
        _ => {},
    }
}

/// Well-formedness passes to the elements after the first.
proof fn lemma_wf_list_drop_first(items: Seq<RespData>)
    requires
        wf_list(items),
        items.len() >= 1,
    ensures
        wf_list(items.drop_first()),
    decreases items.len(),
{
    if items.len() == 1 {
        assert(items.drop_first() =~= Seq::<RespData>::empty());
    } else {
        assert(items.drop_last().len() >= 1);
        lemma_wf_list_drop_first(items.drop_last());
        assert(items.drop_last().drop_first() =~= items.drop_first().drop_last());
        assert(items.drop_first().last() == items.last());
    }
}

/// Splitting the encoding of a non-empty run at its first element.
proof fn lemma_encode_list_front(items: Seq<RespData>)
    requires
        items.len() >= 1,
    ensures
        spec_encode_list(items) == spec_encode(items[0]) + spec_encode_list(items.drop_first()),
    decreases items.len(),
{
    if items.len() == 1 {
        assert(items.drop_last() =~= Seq::<RespData>::empty());
        assert(items.drop_first() =~= Seq::<RespData>::empty());
        assert(spec_encode_list(items) == spec_encode_list(items.drop_last()) + spec_encode(
            items.last()));
        assert(Seq::<u8>::empty() + spec_encode(items[0]) =~= spec_encode(items[0]));
        assert(spec_encode(items[0]) + Seq::<u8>::empty() =~= spec_encode(items[0]));
    } else {
        lemma_encode_list_front(items.drop_last());
        assert(items.drop_last()[0] == items[0]);
        assert(items.drop_last().drop_first() =~= items.drop_first().drop_last());
        assert(items.drop_first().last() == items.last());
        assert(spec_encode_list(items) == spec_encode_list(items.drop_last()) + spec_encode(
            items.last()));
        assert(spec_encode_list(items.drop_first()) == spec_encode_list(
            items.drop_first().drop_last()) + spec_encode(items.drop_first().last()));
        assert((spec_encode(items[0]) + spec_encode_list(items.drop_first().drop_last()))
            + spec_encode(items.last()) =~= spec_encode(items[0]) + (spec_encode_list(
            items.drop_first().drop_last()) + spec_encode(items.last())));
    }
}

} // verus!
