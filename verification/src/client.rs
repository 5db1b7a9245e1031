//! The client side of the protocol: encoding a command as an array of bulk
//! strings, and the interactive shell's argument splitter with quoting and
//! escapes. The sockets that carry the bytes live outside the crate.

use vstd::prelude::*;
use crate::protocol::resp::encoder::{
    RespValue, RespData, rv_view, rv_list_view, spec_encode, crlf,
};
use crate::protocol::resp::laws::{bulk_items, spec_encode_cmd};
use crate::protocol::resp::decoder::{
    copy_range, spec_find_crlf, lemma_find_crlf_props, lemma_find_crlf_at, lemma_find_crlf_none,
};
use crate::num::{spec_parse_u64, parse_u64, spec_parse_isize, parse_isize};
use crate::text::{is_ws, is_ws_byte, lemma_deep_view_bytes};
use vstd::string::StringSliceAdditionalSpecFns;

verus! {

/// Encodes a command's arguments as the wire frame the server reads: an
/// array of bulk strings.
#[verifier::loop_isolation(false)]
pub fn encode_cmd(parts: &Vec<Vec<u8>>) -> (r: Vec<u8>)
    ensures
        r@ == spec_encode_cmd(parts.deep_view()),
{
    proof {
        lemma_deep_view_bytes(*parts);
    }
    let ghost target = bulk_items(parts.deep_view());
    let mut items: Vec<RespValue> = Vec::new();
    let mut i: usize = 0;
    proof {
        assert(rv_list_view(items@) =~= target.subrange(0, 0));
    }
    while i < parts.len()
        invariant
            i <= parts@.len(),
            parts@.len() == target.len(),
            rv_list_view(items@) == target.subrange(0, i as int),
        decreases parts@.len() - i,
    {
        let b = copy_range(parts[i].as_slice(), 0, parts[i].len());
        let ghost bv = b@;
        let ghost pre = items@;
        items.push(RespValue::Bulk(Some(b)));
        proof {
            assert(bv =~= parts@[i as int]@);
            assert(items@.drop_last() =~= pre);
            assert(rv_list_view(items@) == rv_list_view(pre).push(rv_view(items@.last())));
            assert(rv_view(items@.last()) == RespData::Bulk(Some(bv)));
            assert(rv_list_view(items@) =~= target.subrange(0, i + 1 as int));
        }
        i = i + 1;
    }
    proof {
        assert(target.subrange(0, target.len() as int) =~= target);
    }
    let frame = RespValue::Array(items);
    frame.to_bytes()
}

/// Encodes one bulk string from text.
pub fn resp_bulk(s: &str) -> (r: Vec<u8>)
    ensures
        r@ == spec_encode(RespData::Bulk(Some(s.spec_bytes()))),
{
    let b = s.as_bytes();
    let payload = copy_range(b, 0, b.len());
    proof {
        assert(payload@ =~= s.spec_bytes());
    }
    let v = RespValue::Bulk(Some(payload));
    v.to_bytes()
}

/// The shapes of a command given as text arguments.
pub open spec fn str_bulk_items(cmd: Seq<&str>) -> Seq<RespData> {
    Seq::new(cmd.len(), |i: int| RespData::Bulk(Some(cmd[i].spec_bytes())))
}

/// Encodes a command given as text arguments: an array of bulk strings.
#[verifier::loop_isolation(false)]
pub fn resp_array(cmd: &[&str]) -> (r: Vec<u8>)
    ensures
        r@ == spec_encode(RespData::Array(str_bulk_items(cmd@))),
{
    let ghost target = str_bulk_items(cmd@);
    let mut items: Vec<RespValue> = Vec::new();
    let mut i: usize = 0;
    proof {
        assert(rv_list_view(items@) =~= target.subrange(0, 0));
    }
    while i < cmd.len()
        invariant
            i <= cmd@.len(),
            cmd@.len() == target.len(),
            rv_list_view(items@) == target.subrange(0, i as int),
        decreases cmd@.len() - i,
    {
        let part = cmd[i];
        let b = part.as_bytes();
        let payload = copy_range(b, 0, b.len());
        let ghost bv = payload@;
        let ghost pre = items@;
        items.push(RespValue::Bulk(Some(payload)));
        proof {
            assert(bv =~= cmd@[i as int].spec_bytes());
            assert(items@.drop_last() =~= pre);
            assert(rv_list_view(items@) == rv_list_view(pre).push(rv_view(items@.last())));
            assert(rv_view(items@.last()) == RespData::Bulk(Some(bv)));
            assert(rv_list_view(items@) =~= target.subrange(0, i + 1 as int));
        }
        i = i + 1;
    }
    proof {
        assert(target.subrange(0, target.len() as int) =~= target);
    }
    let frame = RespValue::Array(items);
    frame.to_bytes()
}

/// Relies on `memchr::memmem::find`: the index of the first occurrence of
/// `needle` inside `haystack`, or none when it never occurs.
#[verifier::external_body]
fn memmem_find(haystack: &[u8], needle: &[u8]) -> (r: Option<usize>)
    ensures
        match r {
            Some(i) => i + needle@.len() <= haystack@.len() && haystack@.subrange(
                i as int,
                i + needle@.len(),
            ) == needle@ && forall|j: int|
                0 <= j < i ==> #[trigger] haystack@.subrange(j, j + needle@.len()) != needle@,
            None => forall|j: int|
                0 <= j && j + needle@.len() <= haystack@.len() ==> #[trigger] haystack@.subrange(
                    j,
                    j + needle@.len(),
                ) != needle@,
        },
{
    memchr::memmem::find(haystack, needle)
}

/// Finds the next line terminator with the substring search, stated as the
/// terminator scan the decoders use.
fn find_crlf_from(buf: &[u8], pos: usize) -> (r: Option<usize>)
    requires
        pos <= buf@.len(),
    ensures
        match r {
            Some(i) => spec_find_crlf(buf@.skip(pos as int)) == Some(i as int),
            None => spec_find_crlf(buf@.skip(pos as int)) is None,
        },
{
    let mut needle: Vec<u8> = Vec::new();
    needle.push(13);
    needle.push(10);
    proof {
        assert(needle@ =~= crlf());
    }
    let sub = &buf[pos..buf.len()];
    let ghost s = buf@.skip(pos as int);
    proof {
        assert(sub@ =~= s);
    }
    match memmem_find(sub, needle.as_slice()) {
        Some(i) => {
            proof {
                assert(s.subrange(i as int, i + 2) == crlf());
                assert(s[i as int] == s.subrange(i as int, i + 2)[0]);
                assert(s[i + 1] == s.subrange(i as int, i + 2)[1]);
                assert forall|j: int| 0 <= j < i implies !(#[trigger] s[j] == 13 && s[j + 1]
                    == 10) by {
                    if s[j] == 13 && s[j + 1] == 10 {
                        assert(s.subrange(j, j + 2) =~= crlf());
                    }
                }
                lemma_find_crlf_at(s, i as int);
            }
            Some(i)
        },
        None => {
            proof {
                assert forall|j: int| 0 <= j && j + 1 < s.len() implies !(#[trigger] s[j] == 13
                    && s[j + 1] == 10) by {
                    if s[j] == 13 && s[j + 1] == 10 {
                        assert(s.subrange(j, j + 2) =~= crlf());
                    }
                }
                lemma_find_crlf_none(s);
            }
            None
        },
    }
}

/// Skips `n` bulk strings at the head of `s`, as the reply counter walks an
/// array's elements; none when the elements are not well-formed bulks or
/// run out of bytes.
pub open spec fn spec_skip_bulks(s: Seq<u8>, n: nat) -> Option<Seq<u8>>
    decreases s.len(), n,
    via spec_skip_bulks_decreases
{
    if n == 0 {
        Some(s)
    } else if s.len() == 0 || s[0] != 36 {
        None
    } else {
        match spec_find_crlf(s) {
            None => None,
            Some(i) => match spec_parse_isize(s.subrange(1, i)) {
                None => None,
                Some(l) => if l == -1 {
                    spec_skip_bulks(s.skip(i + 2), (n - 1) as nat)
                } else if l < 0 {
                    None
                } else if s.len() - (i + 2) < l + 2 {
                    None
                } else {
                    spec_skip_bulks(s.skip(i + 2 + l + 2), (n - 1) as nat)
                },
            },
        }
    }
}

#[via_fn]
proof fn spec_skip_bulks_decreases(s: Seq<u8>, n: nat) {
    lemma_find_crlf_props(s);
}

/// Whatever survives the skip is a suffix-sized remainder.
proof fn lemma_skip_bulks_len(s: Seq<u8>, n: nat)
    ensures
        match spec_skip_bulks(s, n) {
            Some(rest) => rest.len() <= s.len(),
            None => true,
        },
    decreases s.len(), n,
{
    if n > 0 && s.len() > 0 && s[0] == 36 {
        lemma_find_crlf_props(s);
        match spec_find_crlf(s) {
            Some(i) => {
                match spec_parse_isize(s.subrange(1, i)) {
                    Some(l) => {
                        if l == -1 {
                            lemma_skip_bulks_len(s.skip(i + 2), (n - 1) as nat);
                        } else if l >= 0 && s.len() - (i + 2) >= l + 2 {
                            lemma_skip_bulks_len(s.skip(i + 2 + l + 2), (n - 1) as nat);
                        }
                    },
                    None => {},
                }
            },
            None => {},
        }
    }
}

/// How many complete reply frames sit at the head of `s`: the load
/// generator's check that a pipelined burst was answered in full. Arrays
/// are counted when their elements are all bulks; anything else ends the
/// count.
pub open spec fn spec_count_replies(s: Seq<u8>) -> nat
    decreases s.len(),
    via spec_count_replies_decreases
{
    if s.len() == 0 {
        0
    } else if s[0] == 43 || s[0] == 45 || s[0] == 58 {
        match spec_find_crlf(s) {
            None => 0,
            Some(i) => 1 + spec_count_replies(s.skip(i + 2)),
        }
    } else if s[0] == 36 {
        match spec_find_crlf(s) {
            None => 0,
            Some(i) => match spec_parse_isize(s.subrange(1, i)) {
                None => 0,
                Some(l) => if l == -1 {
                    1 + spec_count_replies(s.skip(i + 2))
                } else if l < 0 {
                    0
                } else if s.len() - (i + 2) < l + 2 {
                    0
                } else {
                    1 + spec_count_replies(s.skip(i + 2 + l + 2))
                },
            },
        }
    } else if s[0] == 42 {
        match spec_find_crlf(s) {
            None => 0,
            Some(i) => match spec_parse_u64(s.subrange(1, i)) {
                None => 0,
                Some(cnt) => if cnt > usize::MAX as u64 {
                    0
                } else {
                    match spec_skip_bulks(s.skip(i + 2), cnt as nat) {
                        None => 0,
                        Some(rest) => 1 + spec_count_replies(rest),
                    }
                },
            },
        }
    } else {
        0
    }
}

#[via_fn]
proof fn spec_count_replies_decreases(s: Seq<u8>) {
    lemma_find_crlf_props(s);
    if s.len() > 0 && s[0] == 42 {
        match spec_find_crlf(s) {
            Some(i) => {
                match spec_parse_u64(s.subrange(1, i)) {
                    Some(cnt) => {
                        if cnt <= usize::MAX as u64 {
                            lemma_skip_bulks_len(s.skip(i + 2), cnt as nat);
                        }
                    },
                    None => {},
                }
            },
            None => {},
        }
    }
}

/// Counts the complete reply frames at the head of `buf`. Computes
/// `spec_count_replies` exactly.
#[verifier::loop_isolation(false)]
#[verifier::rlimit(80)]
pub fn count_replies(buf: &[u8]) -> (r: usize)
    ensures
        r == spec_count_replies(buf@),
{
    let mut n: usize = 0;
    let mut pos: usize = 0;
    proof {
        assert(buf@.skip(0) =~= buf@);
    }
    loop
        invariant
            pos <= buf@.len(),
            3 * n <= pos,
            spec_count_replies(buf@) == n + spec_count_replies(buf@.skip(pos as int)),
        decreases buf@.len() - pos,
    {
        let ghost s = buf@.skip(pos as int);
        if pos == buf.len() {
            return n;
        }
        let tag = buf[pos];
        proof {
            assert(s[0] == tag);
        }
        if tag == 43 || tag == 45 || tag == 58 {
            match find_crlf_from(buf, pos) {
                None => {
                    return n;
                },
                Some(i) => {
                    proof {
                        lemma_find_crlf_props(s);
                        assert(buf@.skip(pos + i + 2) =~= s.skip(i as int + 2));
                    }
                    pos = pos + i + 2;
                    n = n + 1;
                },
            }
        } else if tag == 36 {
            match find_crlf_from(buf, pos) {
                None => {
                    return n;
                },
                Some(i) => {
                    proof {
                        lemma_find_crlf_props(s);
                        assert(buf@.subrange(pos + 1, pos as int + i) =~= s.subrange(
                            1,
                            i as int,
                        ));
                    }
                    let header = copy_range(buf, pos + 1, pos + i);
                    match parse_isize(header.as_slice()) {
                        None => {
                            return n;
                        },
                        Some(l) => {
                            if l == -1 {
                                proof {
                                    assert(buf@.skip(pos + i + 2) =~= s.skip(i as int + 2));
                                }
                                pos = pos + i + 2;
                                n = n + 1;
                            } else if l < 0 {
                                return n;
                            } else {
                                let l_us = l as usize;
                                if buf.len() - (pos + i + 2) < 2 || l_us > buf.len() - (pos + i
                                    + 2) - 2 {
                                    proof {
                                        assert(s.len() - (i + 2) < l + 2);
                                    }
                                    return n;
                                }
                                proof {
                                    assert(buf@.skip(pos + i + 2 + l_us + 2) =~= s.skip(
                                        i as int + 2 + l + 2));
                                }
                                pos = pos + i + 2 + l_us + 2;
                                n = n + 1;
                            }
                        },
                    }
                },
            }
        } else if tag == 42 {
            match find_crlf_from(buf, pos) {
                None => {
                    return n;
                },
                Some(i) => {
                    proof {
                        lemma_find_crlf_props(s);
                        assert(buf@.subrange(pos + 1, pos as int + i) =~= s.subrange(
                            1,
                            i as int,
                        ));
                    }
                    let header = copy_range(buf, pos + 1, pos + i);
                    let cnt64 = match parse_u64(header.as_slice()) {
                        Some(v) => v,
                        None => {
                            return n;
                        },
                    };
                    if cnt64 > usize::MAX as u64 {
                        return n;
                    }
                    let cnt = cnt64 as usize;
                    let mut p2: usize = pos + i + 2;
                    let mut t: usize = 0;
                    proof {
                        assert(buf@.skip(pos + i + 2) =~= s.skip(i as int + 2));
                    }
                    let ghost elems0 = buf@.skip(pos + i + 2);
                    while t < cnt
                        invariant
                            t <= cnt,
                            pos + i + 2 <= p2 <= buf@.len(),
                            spec_skip_bulks(elems0, cnt as nat) == spec_skip_bulks(
                                buf@.skip(p2 as int),
                                (cnt - t) as nat,
                            ),
                        decreases cnt - t,
                    {
                        let ghost e = buf@.skip(p2 as int);
                        if p2 == buf.len() || buf[p2] != 36 {
                            proof {
                                assert(spec_skip_bulks(e, (cnt - t) as nat) is None);
                            }
                            return n;
                        }
                        match find_crlf_from(buf, p2) {
                            None => {
                                return n;
                            },
                            Some(j) => {
                                proof {
                                    lemma_find_crlf_props(e);
                                    assert(buf@.subrange(p2 + 1, p2 as int + j) =~= e.subrange(
                                        1,
                                        j as int,
                                    ));
                                }
                                let hdr2 = copy_range(buf, p2 + 1, p2 + j);
                                match parse_isize(hdr2.as_slice()) {
                                    None => {
                                        return n;
                                    },
                                    Some(l) => {
                                        if l == -1 {
                                            proof {
                                                assert(buf@.skip(p2 + j + 2) =~= e.skip(
                                                    j as int + 2));
                                            }
                                            p2 = p2 + j + 2;
                                        } else if l < 0 {
                                            return n;
                                        } else {
                                            let l_us = l as usize;
                                            if buf.len() - (p2 + j + 2) < 2 || l_us > buf.len() - (
                                            p2 + j + 2) - 2 {
                                                proof {
                                                    assert(e.len() - (j + 2) < l + 2);
                                                }
                                                return n;
                                            }
                                            proof {
                                                assert(buf@.skip(p2 + j + 2 + l_us + 2)
                                                    =~= e.skip(j as int + 2 + l + 2));
                                            }
                                            p2 = p2 + j + 2 + l_us + 2;
                                        }
                                    },
                                }
                            },
                        }
                        t = t + 1;
                    }
                    proof {
                        assert(spec_skip_bulks(buf@.skip(p2 as int), 0) == Some(
                            buf@.skip(p2 as int)));
                        lemma_skip_bulks_len(elems0, cnt as nat);
                    }
                    pos = p2;
                    n = n + 1;
                },
            }
        } else {
            return n;
        }
    }
}

/// Why an interactive line could not be split into arguments.
#[derive(Debug, Clone, Copy, PartialEq, Eq, Structural)]
pub enum SplitError {
    /// A lone backslash at the end of the line.
    DanglingEscape,
    /// A quote opened and never closed.
    UnclosedQuote,
}

/// One step at a time, the interactive splitter: a backslash escapes the
/// next byte, quotes toggle whether whitespace separates, and unquoted
/// whitespace ends the current argument.
pub open spec fn spec_split_args_from(
    s: Seq<u8>,
    i: int,
    cur: Seq<u8>,
    in_quotes: bool,
    escape: bool,
    out: Seq<Seq<u8>>,
) -> Result<Seq<Seq<u8>>, SplitError>
    decreases s.len() - i,
{
    if i < 0 || i >= s.len() {
        if escape {
            Err(SplitError::DanglingEscape)
        } else if in_quotes {
            Err(SplitError::UnclosedQuote)
        } else if cur.len() > 0 {
            Ok(out.push(cur))
        } else {
            Ok(out)
        }
    } else {
        let c = s[i];
        if escape {
            spec_split_args_from(s, i + 1, cur.push(c), in_quotes, false, out)
        } else if c == 92 {
            spec_split_args_from(s, i + 1, cur, in_quotes, true, out)
        } else if c == 34 {
            spec_split_args_from(s, i + 1, cur, !in_quotes, false, out)
        } else if !in_quotes && is_ws(c) {
            if cur.len() > 0 {
                spec_split_args_from(s, i + 1, Seq::empty(), in_quotes, false, out.push(cur))
            } else {
                spec_split_args_from(s, i + 1, cur, in_quotes, false, out)
            }
        } else {
            spec_split_args_from(s, i + 1, cur.push(c), in_quotes, false, out)
        }
    }
}

/// The arguments of one interactive line.
pub open spec fn spec_split_args(s: Seq<u8>) -> Result<Seq<Seq<u8>>, SplitError> {
    spec_split_args_from(s, 0, Seq::empty(), false, false, Seq::empty())
}

/// Splits an interactive line into arguments, honouring quotes and
/// backslash escapes.
#[verifier::loop_isolation(false)]
pub fn split_args(line: &[u8]) -> (r: Result<Vec<Vec<u8>>, SplitError>)
    ensures
        match r {
            Ok(v) => spec_split_args(line@) == Ok::<Seq<Seq<u8>>, SplitError>(v.deep_view()),
            Err(e) => spec_split_args(line@) == Err::<Seq<Seq<u8>>, SplitError>(e),
        },
{
    let mut out: Vec<Vec<u8>> = Vec::new();
    let mut cur: Vec<u8> = Vec::new();
    let mut in_quotes = false;
    let mut escape = false;
    let mut i: usize = 0;
    proof {
        assert(out.deep_view() =~~= Seq::<Seq<u8>>::empty());
        assert(cur@ =~= Seq::<u8>::empty());
    }
    while i < line.len()
        invariant
            i <= line@.len(),
            spec_split_args(line@) == spec_split_args_from(
                line@,
                i as int,
                cur@,
                in_quotes,
                escape,
                out.deep_view(),
            ),
        decreases line@.len() - i,
    {
        let c = line[i];
        if escape {
            cur.push(c);
            escape = false;
        } else if c == 92 {
            escape = true;
        } else if c == 34 {
            in_quotes = !in_quotes;
        } else if !in_quotes && is_ws_byte(c) {
            if cur.len() > 0 {
                let ghost pre = out.deep_view();
                let ghost cv = cur@;
                let mut done: Vec<u8> = Vec::new();
                core::mem::swap(&mut done, &mut cur);
                out.push(done);
                proof {
                    assert(out.deep_view() =~~= pre.push(cv));
                    assert(cur@ =~= Seq::<u8>::empty());
                }
            }
        } else {
            cur.push(c);
        }
        i = i + 1;
    }
    if escape {
        return Err(SplitError::DanglingEscape);
    }
    if in_quotes {
        return Err(SplitError::UnclosedQuote);
    }
    if cur.len() > 0 {
        let ghost pre = out.deep_view();
        let ghost cv = cur@;
        out.push(cur);
        proof {
            assert(out.deep_view() =~~= pre.push(cv));
        }
    }
    Ok(out)
}

} // verus!
