//! The integer grammar: `i` `-`? digits `e`, with no leading zeros, no
//! negative zero, and a hard failure when the magnitude overflows the
//! integer type. The decimal-run machinery here is shared with the
//! byte-string grammar's length field.

use crate::common::ParseError;
use vstd::prelude::*;

verus! {

/// Whether a byte is an ASCII decimal digit.
pub open spec fn is_digit(b: u8) -> bool {
    48 <= b <= 57
}

/// The end of the decimal run that starts at `i`: the first position at or
/// after `i` that is past the end or holds a non-digit.
pub open spec fn digit_run_end(s: Seq<u8>, i: int) -> int
    decreases s.len() - i when 0 <= i <= s.len()
{
    if i >= s.len() {
        i
    } else if is_digit(s[i]) {
        digit_run_end(s, i + 1)
    } else {
        i
    }
}

/// The value of the decimal digits `s[i..j)`.
pub open spec fn digits_val(s: Seq<u8>, i: int, j: int) -> int
    decreases j - i,
{
    if j <= i {
        0
    } else {
        digits_val(s, i, j - 1) * 10 + (s[j - 1] - 48)
    }
}

/// What the decimal run that starts at `i` looks like: where it ends and
/// what stands on either side of that end.
pub proof fn lemma_digit_run_end(s: Seq<u8>, i: int)
    requires
        0 <= i <= s.len(),
    ensures
        i <= digit_run_end(s, i) <= s.len(),
        forall|k: int| i <= k < digit_run_end(s, i) ==> is_digit(#[trigger] s[k]),
        digit_run_end(s, i) < s.len() ==> !is_digit(s[digit_run_end(s, i)]),
    decreases s.len() - i,
{
    if i < s.len() && is_digit(s[i]) {
        lemma_digit_run_end(s, i + 1);
    }
}

/// A stretch of digits followed by a run boundary is exactly the run.
pub proof fn lemma_digit_run_end_is(s: Seq<u8>, i: int, j: int)
    requires
        0 <= i <= j <= s.len(),
        forall|k: int| i <= k < j ==> is_digit(#[trigger] s[k]),
        j == s.len() || !is_digit(s[j]),
    ensures
        digit_run_end(s, i) == j,
    decreases j - i,
{
    if i < j {
        lemma_digit_run_end_is(s, i + 1, j);
    }
}

/// The value of a decimal run never shrinks as the run is extended.
pub proof fn lemma_digits_val_grows(s: Seq<u8>, i: int, j1: int, j2: int)
    requires
        i <= j1 <= j2,
        forall|k: int| i <= k < j2 ==> is_digit(#[trigger] s[k]),
    ensures
        0 <= digits_val(s, i, j1) <= digits_val(s, i, j2),
    decreases j2 - j1,
{
    if j1 == j2 {
        lemma_digits_val_nonneg(s, i, j1);
    } else {
        lemma_digits_val_grows(s, i, j1, j2 - 1);
    }
}

/// The value of a decimal run is never negative.
pub proof fn lemma_digits_val_nonneg(s: Seq<u8>, i: int, j: int)
    requires
        forall|k: int| i <= k < j ==> is_digit(#[trigger] s[k]),
    ensures
        digits_val(s, i, j) >= 0,
    decreases j - i,
{
    if j > i {
        lemma_digits_val_nonneg(s, i, j - 1);
    }
}

/// What an integer literal at position `i` parses to, `i` standing on the
/// `i` marker: the value and the position just past the closing `e`, or
/// nothing when the literal is malformed, `-0`, carries a leading zero, or
/// overflows the integer type (whose most negative value is therefore
/// never produced: its magnitude is already out of range).
pub open spec fn sp_int_at(s: Seq<u8>, i: int) -> Option<(int, int)> {
    let body = i + 1;
    let neg = body < s.len() && s[body] == 45;
    let ds = if neg {
        body + 1
    } else {
        body
    };
    let de = digit_run_end(s, ds);
    if de == ds {
        None
    } else if de >= s.len() || s[de] != 101 {
        None
    } else if de - ds > 1 && s[ds] == 48 {
        None
    } else {
        let mag = digits_val(s, ds, de);
        if neg && mag == 0 {
            None
        } else if mag > i64::MAX as int {
            None
        } else {
            Some(
                (
                    if neg {
                        -mag
                    } else {
                        mag
                    },
                    de + 1,
                ),
            )
        }
    }
}

/// Which failure an integer literal at `i` exhibits, `i` standing on the
/// `i` marker; meaningful only where `sp_int_at` yields nothing. A bad
/// digit run — empty, leading zero, or magnitude out of range — names the
/// run's start; a missing close marker names where it was expected; the
/// remaining failure is negative zero.
pub open spec fn sp_int_err_at(s: Seq<u8>, i: int) -> ParseError {
    let body = i + 1;
    let neg = body < s.len() && s[body] == 45;
    let ds = if neg {
        body + 1
    } else {
        body
    };
    let de = digit_run_end(s, ds);
    if de == ds || (de - ds > 1 && s[ds] == 48) || digits_val(s, ds, de) > i64::MAX as int {
        ParseError::MalformedLength(ds as usize)
    } else if de >= s.len() || s[de] != 101 {
        ParseError::TruncatedInput(de as usize)
    } else {
        ParseError::MalformedLength(ds as usize)
    }
}

/// Scans the decimal run that starts at `pos` and yields its value and
/// end, refusing an empty run, a leading zero on a multi-digit run, and a
/// value above `limit`.
#[verifier::loop_isolation(false)]
pub(crate) fn take_decimal(input: &[u8], pos: usize, limit: u64) -> (r: Result<
    (u64, usize),
    ParseError,
>)
    requires
        pos <= input@.len(),
    ensures
        ({
            let e = digit_run_end(input@, pos as int);
            &&& (r matches Ok(p) ==> {
                &&& p.1 == e
                &&& pos < e
                &&& !(e - pos > 1 && input@[pos as int] == 48)
                &&& p.0 as int == digits_val(input@, pos as int, e)
                &&& p.0 <= limit
            })
            &&& (r is Err ==> (e == pos || (e - pos > 1 && input@[pos as int] == 48)
                || digits_val(input@, pos as int, e) > limit as int))
            &&& (r matches Err(err) ==> err == ParseError::MalformedLength(pos))
        }),
{
    proof {
        lemma_digit_run_end(input@, pos as int);
    }
    let ghost e = digit_run_end(input@, pos as int);
    let mut j: usize = pos;
    while j < input.len() && 48 <= input[j] && input[j] <= 57
        invariant
            pos <= j <= input@.len(),
            forall|k: int| pos <= k < j ==> is_digit(#[trigger] input@[k]),
        decreases input@.len() - j,
    {
        j = j + 1;
    }
    proof {
        lemma_digit_run_end_is(input@, pos as int, j as int);
    }
    if j == pos {
        return Err(ParseError::MalformedLength(pos));
    }
    if j - pos > 1 && input[pos] == 48 {
        return Err(ParseError::MalformedLength(pos));
    }
    let mut acc: u64 = 0;
    let mut k: usize = pos;
    while k < j
        invariant
            pos <= k <= j <= input@.len(),
            forall|q: int| pos <= q < j ==> is_digit(#[trigger] input@[q]),
            acc as int == digits_val(input@, pos as int, k as int),
            acc <= limit,
        decreases j - k,
    {
        let d: u64 = (input[k] - 48) as u64;
        let step = match acc.checked_mul(10) {
            Some(m) => m.checked_add(d),
            None => None,
        };
        match step {
            Some(next) => {
                if next <= limit {
                    acc = next;
                } else {
                    proof {
                        assert(digits_val(input@, pos as int, k + 1) > limit as int);
                        lemma_digits_val_grows(input@, pos as int, k + 1, j as int);
                    }
                    return Err(ParseError::MalformedLength(pos));
                }
            },
            None => {
                proof {
                    assert(acc * 10 + d > limit);
                    assert(digits_val(input@, pos as int, k + 1) > limit as int);
                    lemma_digits_val_grows(input@, pos as int, k + 1, j as int);
                }
                return Err(ParseError::MalformedLength(pos));
            },
        }
        k = k + 1;
    }
    Ok((acc, j))
}

/// Parses an integer literal at `pos`, which stands on the `i` marker;
/// mirrors `sp_int_at` exactly.
pub(crate) fn parse_int_at(input: &[u8], pos: usize) -> (r: Result<(i64, usize), ParseError>)
    requires
        pos < input@.len(),
        input@[pos as int] == 105,
    ensures
        r matches Ok(p) ==> {
            &&& sp_int_at(input@, pos as int) == Some((p.0 as int, p.1 as int))
            &&& pos < p.1 <= input@.len()
        },
        r is Err ==> sp_int_at(input@, pos as int) is None,
        r matches Err(e) ==> e == sp_int_err_at(input@, pos as int),
{
    let n = input.len();
    let body = pos + 1;
    let neg = body < n && input[body] == 45;
    let ds = if neg {
        body + 1
    } else {
        body
    };
    proof {
        lemma_digit_run_end(input@, ds as int);
    }
    let (mag, de) = match take_decimal(input, ds, 9223372036854775807u64) {
        Ok(p) => p,
        Err(err) => {
            return Err(err);
        },
    };
    if de >= input.len() || input[de] != 101 {
        return Err(ParseError::TruncatedInput(de));
    }
    if neg && mag == 0 {
        return Err(ParseError::MalformedLength(ds));
    }
    let v: i64 = if neg {
        -(mag as i64)
    } else {
        mag as i64
    };
    Ok((v, de + 1))
}

/// Parses a complete integer literal from the front of the input and
/// returns the unconsumed remainder beside the value; the remainder is
/// empty exactly when the literal fills the whole input.
pub fn integer(input: &[u8]) -> (r: Result<(&[u8], i64), ParseError>)
    ensures
        r matches Ok(p) ==> {
            &&& input@.len() > 0
            &&& input@[0] == 105
            &&& sp_int_at(input@, 0) == Some((p.1 as int, input@.len() - p.0@.len()))
            &&& p.0@ == input@.subrange(input@.len() - p.0@.len(), input@.len() as int)
        },
        r is Err ==> (input@.len() == 0 || input@[0] != 105 || sp_int_at(input@, 0) is None),
        r matches Err(e) ==> e == (if input@.len() == 0 {
            ParseError::TruncatedInput(0usize)
        } else if input@[0] != 105 {
            ParseError::InvalidMarker(0usize)
        } else {
            sp_int_err_at(input@, 0)
        }),
{
    if input.len() == 0 {
        return Err(ParseError::TruncatedInput(0));
    }
    if input[0] != 105 {
        return Err(ParseError::InvalidMarker(0));
    }
    match parse_int_at(input, 0) {
        Ok((v, end)) => {
            let rest = vstd::slice::slice_subrange(input, end, input.len());
            Ok((rest, v))
        },
        Err(err) => Err(err),
    }
}

} // verus!
