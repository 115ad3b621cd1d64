//! The list grammar: `l`, any number of values of any kind, `e`. Element
//! order is kept; an element failure or a missing close marker fails the
//! list.

use crate::common::{bvals_of, BencodeValue, ParseError};
use crate::parser::{parse_items_at, sp_items_at, sp_items_err_at};
use vstd::prelude::*;

verus! {

/// Parses a complete list from the front of the input and returns the
/// unconsumed remainder beside the elements in encounter order.
pub fn list(input: &[u8]) -> (r: Result<(&[u8], Vec<BencodeValue>), ParseError>)
    ensures
        r matches Ok(p) ==> {
            &&& input@.len() > 0
            &&& input@[0] == 108
            &&& sp_items_at(input@, 1) == Some((bvals_of(p.1@), input@.len() - p.0@.len()))
            &&& p.0@ == input@.subrange(input@.len() - p.0@.len(), input@.len() as int)
        },
        r is Err ==> (input@.len() == 0 || input@[0] != 108 || sp_items_at(input@, 1) is None),
        r matches Err(e) ==> e == (if input@.len() == 0 {
            ParseError::TruncatedInput(0usize)
        } else if input@[0] != 108 {
            ParseError::InvalidMarker(0usize)
        } else {
            sp_items_err_at(input@, 1)
        }),
{
    if input.len() == 0 {
        return Err(ParseError::TruncatedInput(0));
    }
    if input[0] != 108 {
        return Err(ParseError::InvalidMarker(0));
    }
    match parse_items_at(input, 1) {
        Ok((items, end)) => {
            let rest = vstd::slice::slice_subrange(input, end, input.len());
            Ok((rest, items))
        },
        Err(err) => Err(err),
    }
}

} // verus!
