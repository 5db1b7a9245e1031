//! Byte-level text helpers: ASCII case folding for command names, the
//! whitespace split of the plain-line mode, and the bridge between a vector
//! of byte vectors and its sequence-of-sequences shape.

use vstd::prelude::*;

verus! {

/// ASCII upper-casing of one byte; other bytes pass through.
pub open spec fn upper_byte(b: u8) -> u8 {
    if 97 <= b && b <= 122 {
        (b - 32) as u8
    } else {
        b
    }
}

/// ASCII upper-casing of a byte string.
pub open spec fn upper_bytes(s: Seq<u8>) -> Seq<u8> {
    Seq::new(s.len(), |i: int| upper_byte(s[i]))
}

/// Compares `name`, upper-cased, against ASCII text: how command names are
/// matched case-insensitively.
#[verifier::loop_isolation(false)]
pub fn matches_upper(name: &Vec<u8>, lit: &str) -> (r: bool)
    requires
        vstd::string::is_ascii(lit),
    ensures
        r == (upper_bytes(name@) == crate::protocol::resp::encoder::ascii_bytes(lit@)),
{
    proof {
        vstd::string::is_ascii_spec_bytes(lit);
    }
    let lb = lit.as_bytes();
    let ghost target = crate::protocol::resp::encoder::ascii_bytes(lit@);
    if name.len() != lb.len() {
        return false;
    }
    let mut i: usize = 0;
    while i < name.len()
        invariant
            i <= name@.len(),
            name@.len() == lb@.len(),
            lb@ == target,
            forall|j: int| 0 <= j < i ==> upper_bytes(name@)[j] == target[j],
        decreases name@.len() - i,
    {
        let mut c = name[i];
        if 97 <= c && c <= 122 {
            c = c - 32;
        }
        if c != lb[i] {
            proof {
                assert(upper_bytes(name@)[i as int] == upper_byte(name@[i as int]));
                assert(c == upper_byte(name@[i as int]));
                assert(upper_bytes(name@)[i as int] != target[i as int]);
                assert(upper_bytes(name@) != target);
            }
            return false;
        }
        i = i + 1;
    }
    proof {
        assert(upper_bytes(name@) =~= target);
    }
    true
}

/// The plain-line mode's notion of whitespace: the ASCII spacing bytes.
pub open spec fn is_ws(b: u8) -> bool {
    b == 32 || b == 9 || b == 10 || b == 13 || b == 11 || b == 12
}

/// Length of the leading run of non-whitespace bytes.
pub open spec fn token_len(s: Seq<u8>) -> int
    decreases s.len(),
{
    if s.len() == 0 || is_ws(s[0]) {
        0
    } else {
        1 + token_len(s.drop_first())
    }
}

/// The leading token run stays inside the string and is maximal.
pub proof fn lemma_token_len_props(s: Seq<u8>)
    ensures
        0 <= token_len(s) <= s.len(),
        forall|j: int| 0 <= j < token_len(s) ==> !is_ws(#[trigger] s[j]),
        token_len(s) < s.len() ==> is_ws(s[token_len(s)]),
        s.len() > 0 && !is_ws(s[0]) ==> token_len(s) >= 1,
    decreases s.len(),
{
    if s.len() > 0 && !is_ws(s[0]) {
        let rest = s.drop_first();
        lemma_token_len_props(rest);
        assert forall|j: int| 0 <= j < token_len(s) implies !is_ws(#[trigger] s[j]) by {
            if j >= 1 {
                assert(rest[j - 1] == s[j]);
            }
        }
        if token_len(s) < s.len() {
            assert(rest[token_len(s) - 1] == s[token_len(s)]);
        }
    }
}

/// A maximal non-whitespace run is what `token_len` measures.
pub proof fn lemma_token_len_at(s: Seq<u8>, t: int)
    requires
        0 <= t <= s.len(),
        forall|j: int| 0 <= j < t ==> !is_ws(#[trigger] s[j]),
        t < s.len() ==> is_ws(s[t]),
    ensures
        token_len(s) == t,
    decreases t,
{
    if t > 0 {
        lemma_token_len_at(s.drop_first(), t - 1);
    }
}

/// The words of a line: maximal runs of non-whitespace bytes, in order.
pub open spec fn spec_split_ws(s: Seq<u8>) -> Seq<Seq<u8>>
    decreases s.len(),
    via spec_split_ws_decreases
{
    if s.len() == 0 {
        Seq::empty()
    } else if is_ws(s[0]) {
        spec_split_ws(s.drop_first())
    } else {
        seq![s.subrange(0, token_len(s))] + spec_split_ws(s.skip(token_len(s)))
    }
}

#[via_fn]
proof fn spec_split_ws_decreases(s: Seq<u8>) {
    lemma_token_len_props(s);
}

/// Splits a line into its whitespace-separated words.
#[verifier::loop_isolation(false)]
pub fn split_ws(line: &[u8]) -> (r: Vec<Vec<u8>>)
    ensures
        r.deep_view() == spec_split_ws(line@),
{
    let mut out: Vec<Vec<u8>> = Vec::new();
    let mut i: usize = 0;
    proof {
        assert(out.deep_view() =~~= Seq::<Seq<u8>>::empty());
        assert(line@.skip(0) =~= line@);
    }
    while i < line.len()
        invariant
            i <= line@.len(),
            spec_split_ws(line@) == out.deep_view() + spec_split_ws(line@.skip(i as int)),
        decreases line@.len() - i,
    {
        let ghost rem = line@.skip(i as int);
        if is_ws_byte(line[i]) {
            proof {
                assert(rem[0] == line@[i as int]);
                assert(rem.drop_first() =~= line@.skip(i + 1));
            }
            i = i + 1;
        } else {
            let mut j: usize = i;
            while j < line.len() && !is_ws_byte(line[j])
                invariant
                    i <= j <= line@.len(),
                    forall|t: int| i <= t < j ==> !is_ws(#[trigger] line@[t]),
                decreases line@.len() - j,
            {
                j = j + 1;
            }
            proof {
                assert(forall|t: int| 0 <= t < j - i ==> rem[t] == #[trigger] line@[t + i]);
                lemma_token_len_at(rem, j - i);
                assert(rem.subrange(0, j - i) =~= line@.subrange(i as int, j as int));
                assert(rem.skip(j - i) =~= line@.skip(j as int));
            }
            let word = crate::protocol::resp::decoder::copy_range(line, i, j);
            let ghost pre = out.deep_view();
            let ghost wv = word@;
            out.push(word);
            proof {
                assert(out.deep_view() =~~= pre.push(wv));
                assert(pre.push(wv) + spec_split_ws(line@.skip(j as int)) =~= pre + (seq![wv]
                    + spec_split_ws(line@.skip(j as int))));
            }
            i = j;
        }
    }
    proof {
        assert(line@.skip(line@.len() as int) =~= Seq::<u8>::empty());
        assert(out.deep_view() + Seq::<Seq<u8>>::empty() =~~= out.deep_view());
    }
    out
}

/// Whether a byte is plain-line whitespace.
pub fn is_ws_byte(b: u8) -> (r: bool)
    ensures
        r == is_ws(b),
{
    b == 32 || b == 9 || b == 10 || b == 13 || b == 11 || b == 12
}

/// The sequence-of-sequences shape of a vector of byte vectors, element by
/// element.
pub proof fn lemma_deep_view_bytes(v: Vec<Vec<u8>>)
    ensures
        v.deep_view().len() == v@.len(),
        forall|i: int| 0 <= i < v@.len() ==> v.deep_view()[i] == (#[trigger] v@[i])@,
{
    assert forall|i: int| 0 <= i < v@.len() implies v.deep_view()[i] == (#[trigger] v@[i])@ by {
        assert(v.deep_view()[i] =~= v@[i]@);
    }
}

} // verus!
