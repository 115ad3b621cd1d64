//! The byte-string grammar: a decimal length (no leading zeros unless the
//! length is exactly `0`), a `:` separator, then exactly that many raw
//! bytes, any byte value allowed. Dictionary keys reuse this grammar
//! unchanged.

use crate::common::ParseError;
use crate::integer::{digit_run_end, digits_val, is_digit, take_decimal};
use vstd::prelude::*;

verus! {

/// What a byte string at position `i` parses to, `i` standing on the first
/// digit of the length field: the raw bytes and the position just past
/// them, or nothing when the length field is malformed, the separator is
/// missing, the length cannot be addressed by the host, or fewer bytes
/// than declared remain.
pub open spec fn sp_str_at(s: Seq<u8>, i: int) -> Option<(Seq<u8>, int)> {
    let de = digit_run_end(s, i);
    if de == i {
        None
    } else if de >= s.len() || s[de] != 58 {
        None
    } else if de - i > 1 && s[i] == 48 {
        None
    } else {
        let len = digits_val(s, i, de);
        if len > usize::MAX as int {
            None
        } else if de + 1 + len > s.len() {
            None
        } else {
            Some((s.subrange(de + 1, de + 1 + len), de + 1 + len))
        }
    }
}

/// Which failure a byte string at `i` exhibits; meaningful only where
/// `sp_str_at` yields nothing. A bad length field — empty, leading zero,
/// out of the host's range, or missing its separator — names the field's
/// start; too few remaining bytes names where the bytes begin.
pub open spec fn sp_str_err_at(s: Seq<u8>, i: int) -> ParseError {
    let de = digit_run_end(s, i);
    if de == i || (de - i > 1 && s[i] == 48) || digits_val(s, i, de) > usize::MAX as int {
        ParseError::MalformedLength(i as usize)
    } else if de >= s.len() || s[de] != 58 {
        ParseError::MalformedLength(i as usize)
    } else {
        ParseError::TruncatedInput((de + 1) as usize)
    }
}

/// Parses a byte string at `pos`, which stands on the first digit of the
/// length field; mirrors `sp_str_at` exactly.
pub(crate) fn parse_bstr_at(input: &[u8], pos: usize) -> (r: Result<(Vec<u8>, usize), ParseError>)
    requires
        pos < input@.len(),
    ensures
        r matches Ok(p) ==> {
            &&& sp_str_at(input@, pos as int) == Some((p.0@, p.1 as int))
            &&& pos < p.1 <= input@.len()
        },
        r is Err ==> sp_str_at(input@, pos as int) is None,
        r matches Err(e) ==> e == sp_str_err_at(input@, pos as int),
{
    let n = input.len();
    let (len64, de) = match take_decimal(input, pos, usize::MAX as u64) {
        Ok(p) => p,
        Err(err) => {
            return Err(err);
        },
    };
    if de >= n || input[de] != 58 {
        return Err(ParseError::MalformedLength(pos));
    }
    let len: usize = len64 as usize;
    let start = de + 1;
    if len > n - start {
        return Err(ParseError::TruncatedInput(start));
    }
    let body = vstd::slice::slice_subrange(input, start, start + len);
    let bytes = vstd::slice::slice_to_vec(body);
    Ok((bytes, start + len))
}

/// Parses a complete byte string from the front of the input and returns
/// the unconsumed remainder beside the bytes, which are copied out of the
/// input buffer.
pub fn byte_string(input: &[u8]) -> (r: Result<(&[u8], Vec<u8>), ParseError>)
    ensures
        r matches Ok(p) ==> {
            &&& input@.len() > 0
            &&& is_digit(input@[0])
            &&& sp_str_at(input@, 0) == Some((p.1@, input@.len() - p.0@.len()))
            &&& p.0@ == input@.subrange(input@.len() - p.0@.len(), input@.len() as int)
        },
        r is Err ==> (input@.len() == 0 || !is_digit(input@[0]) || sp_str_at(input@, 0) is None),
        r matches Err(e) ==> e == (if input@.len() == 0 {
            ParseError::TruncatedInput(0usize)
        } else if !is_digit(input@[0]) {
            ParseError::InvalidMarker(0usize)
        } else {
            sp_str_err_at(input@, 0)
        }),
{
    if input.len() == 0 {
        return Err(ParseError::TruncatedInput(0));
    }
    if input[0] < 48 || input[0] > 57 {
        return Err(ParseError::InvalidMarker(0));
    }
    match parse_bstr_at(input, 0) {
        Ok((bytes, end)) => {
            let rest = vstd::slice::slice_subrange(input, end, input.len());
            Ok((rest, bytes))
        },
        Err(err) => Err(err),
    }
}

} // verus!
