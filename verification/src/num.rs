//! Decimal text for integers: the digit strings that the RESP2 wire format
//! carries in integer replies, bulk/array length headers, and stored counter
//! values, together with the parsers the protocol and the INCR command use.

use vstd::prelude::*;

verus! {

/// Decimal digits of `n`, most significant first; `0` is written as a single
/// `'0'` byte.
pub open spec fn dec_digits(n: nat) -> Seq<u8>
    decreases n,
{
    if n < 10 {
        seq![(n + 48) as u8]
    } else {
        dec_digits(n / 10) + seq![(n % 10 + 48) as u8]
    }
}

/// Decimal text of a signed 64-bit integer, with a leading `'-'` when
/// negative.
pub open spec fn i64_digits(n: i64) -> Seq<u8> {
    if n < 0 {
        seq![45u8] + dec_digits((-(n as int)) as nat)
    } else {
        dec_digits(n as nat)
    }
}

pub open spec fn is_digit(b: u8) -> bool {
    48 <= b && b <= 57
}

pub open spec fn all_digits(s: Seq<u8>) -> bool {
    forall|i: int| 0 <= i < s.len() ==> is_digit(#[trigger] s[i])
}

/// The numeric value of one digit byte; non-digits count as zero so that
/// `dec_val` is total.
pub open spec fn digit_val(b: u8) -> nat {
    if is_digit(b) {
        (b - 48) as nat
    } else {
        0
    }
}

/// The value of a digit string read in base 10.
pub open spec fn dec_val(s: Seq<u8>) -> nat
    decreases s.len(),
{
    if s.len() == 0 {
        0
    } else {
        dec_val(s.drop_last()) * 10 + digit_val(s.last())
    }
}

/// What `str::parse::<u64>` accepts: an optional `'+'` sign followed by at
/// least one digit, with the value in range.
pub open spec fn spec_parse_u64(s: Seq<u8>) -> Option<u64> {
    let d = if s.len() >= 1 && s[0] == 43 {
        s.drop_first()
    } else {
        s
    };
    if d.len() >= 1 && all_digits(d) && dec_val(d) <= u64::MAX {
        Some(dec_val(d) as u64)
    } else {
        None
    }
}

/// What `str::parse::<i64>` accepts: an optional sign followed by at least
/// one digit, with the value in range.
pub open spec fn spec_parse_i64(s: Seq<u8>) -> Option<i64> {
    if s.len() >= 1 && s[0] == 45 {
        let d = s.drop_first();
        if d.len() >= 1 && all_digits(d) && dec_val(d) <= 0x8000000000000000 {
            Some((-(dec_val(d) as int)) as i64)
        } else {
            None
        }
    } else {
        let d = if s.len() >= 1 && s[0] == 43 {
            s.drop_first()
        } else {
            s
        };
        if d.len() >= 1 && all_digits(d) && dec_val(d) <= i64::MAX {
            Some(dec_val(d) as i64)
        } else {
            None
        }
    }
}

/// Appends the decimal digits of `n` to `out`.
pub fn push_u64_digits(out: &mut Vec<u8>, n: u64)
    ensures
        final(out)@ == old(out)@ + dec_digits(n as nat),
    decreases n,
{
    if n >= 10 {
        push_u64_digits(out, n / 10);
        out.push((n % 10) as u8 + 48);
        proof {
            assert(dec_digits(n as nat) == dec_digits(n as nat / 10) + seq![
                (n as nat % 10 + 48) as u8,
            ]);
            assert(out@ =~= old(out)@ + dec_digits(n as nat));
        }
    } else {
        out.push(n as u8 + 48);
        proof {
            assert(out@ =~= old(out)@ + dec_digits(n as nat));
        }
    }
}

/// Appends the decimal text of `n` to `out`, sign included.
pub fn push_i64_digits(out: &mut Vec<u8>, n: i64)
    ensures
        final(out)@ == old(out)@ + i64_digits(n),
{
    if n < 0 {
        out.push(45);
        let m: u64 = if n == i64::MIN {
            9223372036854775808u64
        } else {
            (-n) as u64
        };
        assert(m as nat == (-(n as int)) as nat);
        push_u64_digits(out, m);
        proof {
            assert(out@ =~= old(out)@ + i64_digits(n));
        }
    } else {
        push_u64_digits(out, n as u64);
    }
}

/// Every digit string denotes a value at least as large as any of its
/// prefixes.
proof fn lemma_dec_val_prefix(s: Seq<u8>, k: int)
    requires
        0 <= k <= s.len(),
    ensures
        dec_val(s.subrange(0, k)) <= dec_val(s),
    decreases s.len() - k,
{
    if k < s.len() {
        lemma_dec_val_prefix(s, k + 1);
        assert(s.subrange(0, k + 1).drop_last() =~= s.subrange(0, k));
        assert(s.subrange(0, k + 1).last() == s[k]);
        assert(dec_val(s.subrange(0, k)) <= dec_val(s.subrange(0, k + 1)));
    } else {
        assert(s.subrange(0, k) =~= s);
    }
}

/// Reads an unsigned decimal value from `s[from..to]`, reporting `None` on an
/// empty range, a non-digit, or overflow, exactly as `spec_parse_u64` does
/// for a sign-free string.
fn parse_digits_u64(s: &[u8], from: usize, to: usize) -> (r: Option<u64>)
    requires
        from <= to <= s@.len(),
    ensures
        ({
            let d = s@.subrange(from as int, to as int);
            if d.len() >= 1 && all_digits(d) && dec_val(d) <= u64::MAX {
                r == Some(dec_val(d) as u64)
            } else {
                r is None
            }
        }),
{
    let ghost d = s@.subrange(from as int, to as int);
    if from == to {
        return None;
    }
    let mut acc: u64 = 0;
    let mut j: usize = from;
    while j < to
        invariant
            from <= j <= to <= s@.len(),
            d == s@.subrange(from as int, to as int),
            all_digits(s@.subrange(from as int, j as int)),
            acc as nat == dec_val(s@.subrange(from as int, j as int)),
        decreases to - j,
    {
        let b = s[j];
        proof {
            assert(b == d[j - from]);
        }
        if !(48 <= b && b <= 57) {
            proof {
                assert(!is_digit(d[j - from]));
            }
            return None;
        }
        let digit: u64 = (b - 48) as u64;
        let ghost pre = s@.subrange(from as int, j as int);
        let ghost ext = s@.subrange(from as int, j + 1 as int);
        proof {
            assert(ext.drop_last() =~= pre);
            assert(ext.last() == b);
            assert(dec_val(ext) == dec_val(pre) * 10 + digit_val(b));
        }
        let stepped = match acc.checked_mul(10) {
            Some(t) => t.checked_add(digit),
            None => None,
        };
        match stepped {
            Some(next) => {
                acc = next;
            },
            None => {
                proof {
                    assert(dec_val(ext) > u64::MAX);
                    lemma_dec_val_prefix(d, j + 1 - from as int);
                    assert(d.subrange(0, j + 1 - from as int) =~= ext);
                    assert(dec_val(d) > u64::MAX);
                }
                return None;
            },
        }
        j = j + 1;
    }
    proof {
        assert(s@.subrange(from as int, j as int) =~= d);
    }
    Some(acc)
}

/// What `str::parse::<u64>` returns on the bytes of `s`.
pub fn parse_u64(s: &[u8]) -> (r: Option<u64>)
    ensures
        r == spec_parse_u64(s@),
{
    let mut from: usize = 0;
    if s.len() >= 1 && s[0] == 43 {
        from = 1;
        proof {
            assert(s@.subrange(1, s@.len() as int) =~= s@.drop_first());
        }
    } else {
        proof {
            assert(s@.subrange(0, s@.len() as int) =~= s@);
        }
    }
    parse_digits_u64(s, from, s.len())
}

/// What `str::parse::<i64>` returns on the bytes of `s`.
pub fn parse_i64(s: &[u8]) -> (r: Option<i64>)
    ensures
        r == spec_parse_i64(s@),
{
    if s.len() >= 1 && s[0] == 45 {
        proof {
            assert(s@.subrange(1, s@.len() as int) =~= s@.drop_first());
        }
        match parse_digits_u64(s, 1, s.len()) {
            Some(m) => {
                if m <= 9223372036854775808u64 {
                    let r: i64 = if m == 9223372036854775808u64 {
                        i64::MIN
                    } else {
                        -(m as i64)
                    };
                    Some(r)
                } else {
                    None
                }
            },
            None => None,
        }
    } else {
        let mut from: usize = 0;
        if s.len() >= 1 && s[0] == 43 {
            from = 1;
            proof {
                assert(s@.subrange(1, s@.len() as int) =~= s@.drop_first());
            }
        } else {
            proof {
                assert(s@.subrange(0, s@.len() as int) =~= s@);
            }
        }
        match parse_digits_u64(s, from, s.len()) {
            Some(m) => {
                if m <= i64::MAX as u64 {
                    Some(m as i64)
                } else {
                    None
                }
            },
            None => None,
        }
    }
}

/// What `str::parse::<isize>` accepts: a signed value that also fits the
/// platform's pointer width.
pub open spec fn spec_parse_isize(s: Seq<u8>) -> Option<int> {
    match spec_parse_i64(s) {
        Some(v) => if isize::MIN <= v <= isize::MAX {
            Some(v as int)
        } else {
            None
        },
        None => None,
    }
}

/// What `str::parse::<isize>` returns on the bytes of `s`.
pub fn parse_isize(s: &[u8]) -> (r: Option<isize>)
    ensures
        match r {
            Some(v) => spec_parse_isize(s@) == Some(v as int),
            None => spec_parse_isize(s@) is None,
        },
{
    match parse_i64(s) {
        Some(v) => {
            if isize::MIN as i64 <= v && v <= isize::MAX as i64 {
                Some(v as isize)
            } else {
                None
            }
        },
        None => None,
    }
}

/// The digits of `n` are digit bytes, denote `n`, and are never empty.
pub proof fn lemma_dec_digits_val(n: nat)
    ensures
        all_digits(dec_digits(n)),
        dec_val(dec_digits(n)) == n,
        dec_digits(n).len() >= 1,
    decreases n,
{
    if n < 10 {
        assert(dec_digits(n) == seq![(n + 48) as u8]);
        assert(dec_digits(n).drop_last() =~= Seq::<u8>::empty());
        assert(dec_digits(n).last() == (n + 48) as u8);
        assert(is_digit((n + 48) as u8));
        assert(digit_val((n + 48) as u8) == n);
        assert(dec_val(dec_digits(n)) == dec_val(Seq::<u8>::empty()) * 10 + n);
    } else {
        lemma_dec_digits_val(n / 10);
        let tail = seq![(n % 10 + 48) as u8];
        assert(dec_digits(n) == dec_digits(n / 10) + tail);
        assert(dec_digits(n).drop_last() =~= dec_digits(n / 10));
        assert(dec_digits(n).last() == (n % 10 + 48) as u8);
        assert(dec_val(dec_digits(n)) == (n / 10) * 10 + n % 10);
        assert((n / 10) * 10 + n % 10 == n) by (nonlinear_arith);
        assert(forall|i: int|
            0 <= i < dec_digits(n).len() ==> is_digit(#[trigger] dec_digits(n)[i]));
    }
}

/// Round trip for signed decimal text: parsing what `i64_digits` wrote gives
/// the value back.
pub proof fn lemma_i64_digits_parse(n: i64)
    ensures
        spec_parse_i64(i64_digits(n)) == Some(n),
{
    if n < 0 {
        let m = (-(n as int)) as nat;
        lemma_dec_digits_val(m);
        let s = i64_digits(n);
        assert(s[0] == 45);
        assert(s.drop_first() =~= dec_digits(m));
        assert(m <= 0x8000000000000000);
    } else {
        lemma_dec_digits_val(n as nat);
        let s = i64_digits(n);
        assert(is_digit(s[0]));
        assert(s[0] != 45 && s[0] != 43);
    }
}

/// Round trip for unsigned decimal text.
pub proof fn lemma_u64_digits_parse(n: u64)
    ensures
        spec_parse_u64(dec_digits(n as nat)) == Some(n),
{
    lemma_dec_digits_val(n as nat);
    let s = dec_digits(n as nat);
    assert(is_digit(s[0]));
    assert(s[0] != 43);
}

} // verus!
