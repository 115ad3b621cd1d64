//! The value dispatcher and the recursive-descent parser: one grammar per
//! leading marker (`i` integer, digit byte string, `l` list, `d`
//! dictionary), composed recursively. The spec functions here are the
//! grammar itself; the executable parser mirrors them exactly.

use crate::byte_string::{parse_bstr_at, sp_str_at, sp_str_err_at};
use crate::common::{
    bpairs_of, bvals_of, lemma_bvals_of_push, norm_pairs, sorted_pairs, wf, BencodeValue, Bval,
    ParseError,
};
use crate::dictionary::{insert_sorted, lemma_norm_pairs_props};
use crate::integer::{
    digit_run_end, digits_val, is_digit, lemma_digit_run_end, lemma_digits_val_nonneg,
    parse_int_at, sp_int_at, sp_int_err_at,
};
use vstd::prelude::*;

verus! {

/// What any value at position `i` parses to: the first byte picks the
/// grammar, and a dictionary's pairs are taken in their normal key-sorted
/// form, a repeated key keeping its last value.
pub open spec fn sp_value_at(s: Seq<u8>, i: int) -> Option<(Bval, int)>
    decreases s.len() - i, 0int,
{
    if i < 0 || i >= s.len() {
        None
    } else if s[i] == 105 {
        match sp_int_at(s, i) {
            Some(p) => Some((Bval::Integer(p.0), p.1)),
            None => None,
        }
    } else if is_digit(s[i]) {
        match sp_str_at(s, i) {
            Some(p) => Some((Bval::ByteString(p.0), p.1)),
            None => None,
        }
    } else if s[i] == 108 {
        match sp_items_at(s, i + 1) {
            Some(p) => Some((Bval::List(p.0), p.1)),
            None => None,
        }
    } else if s[i] == 100 {
        match sp_pairs_at(s, i + 1) {
            Some(p) => Some((Bval::Dictionary(norm_pairs(p.0)), p.1)),
            None => None,
        }
    } else {
        None
    }
}

/// What a run of list elements at position `i` parses to, up to and
/// including the closing `e`: the elements in order and the position just
/// past the `e`.
pub open spec fn sp_items_at(s: Seq<u8>, i: int) -> Option<(Seq<Bval>, int)>
    decreases s.len() - i, 1int,
{
    if i < 0 || i >= s.len() {
        None
    } else if s[i] == 101 {
        Some((Seq::empty(), i + 1))
    } else {
        match sp_value_at(s, i) {
            None => None,
            Some(p) => if p.1 <= i || p.1 > s.len() {
                None
            } else {
                match sp_items_at(s, p.1) {
                    None => None,
                    Some(q) => Some((seq![p.0] + q.0, q.1)),
                }
            },
        }
    }
}

/// What a run of dictionary pairs at position `i` parses to, up to and
/// including the closing `e`: the pairs in encounter order (not yet
/// normalized) and the position just past the `e`. A key must be a byte
/// string; the input's key order is not constrained.
pub open spec fn sp_pairs_at(s: Seq<u8>, i: int) -> Option<(Seq<(Seq<u8>, Bval)>, int)>
    decreases s.len() - i, 1int,
{
    if i < 0 || i >= s.len() {
        None
    } else if s[i] == 101 {
        Some((Seq::empty(), i + 1))
    } else if !is_digit(s[i]) {
        None
    } else {
        match sp_str_at(s, i) {
            None => None,
            Some(kp) => if kp.1 <= i || kp.1 > s.len() {
                None
            } else {
                match sp_value_at(s, kp.1) {
                    None => None,
                    Some(vp) => if vp.1 <= kp.1 || vp.1 > s.len() {
                        None
                    } else {
                        match sp_pairs_at(s, vp.1) {
                            None => None,
                            Some(q) => Some((seq![(kp.0, vp.0)] + q.0, q.1)),
                        }
                    },
                }
            },
        }
    }
}

/// Which failure a value at position `i` exhibits: the leading marker's
/// grammar decides, and no marker at all is its own failure. Meaningful
/// only where `sp_value_at` yields nothing; the arms that a successful
/// parse makes unreachable carry placeholders.
pub open spec fn sp_value_err_at(s: Seq<u8>, i: int) -> ParseError
    decreases s.len() - i, 1int,
{
    if i < 0 || i >= s.len() {
        ParseError::TruncatedInput(i as usize)
    } else if s[i] == 105 {
        sp_int_err_at(s, i)
    } else if is_digit(s[i]) {
        sp_str_err_at(s, i)
    } else if s[i] == 108 {
        sp_items_err_at(s, i + 1)
    } else if s[i] == 100 {
        sp_pairs_err_at(s, i + 1)
    } else {
        ParseError::InvalidMarker(i as usize)
    }
}

/// Which failure a run of list elements at position `i` exhibits: the
/// input ends before the close marker, or an element fails.
pub open spec fn sp_items_err_at(s: Seq<u8>, i: int) -> ParseError
    decreases s.len() - i, 2int,
{
    if i < 0 || i >= s.len() {
        ParseError::TruncatedInput(i as usize)
    } else if s[i] == 101 {
        ParseError::TruncatedInput(i as usize)
    } else {
        match sp_value_at(s, i) {
            None => sp_value_err_at(s, i),
            Some(p) => if p.1 <= i || p.1 > s.len() {
                ParseError::TruncatedInput(i as usize)
            } else {
                sp_items_err_at(s, p.1)
            },
        }
    }
}

/// Which failure a run of dictionary pairs at position `i` exhibits: the
/// input ends before the close marker, a key is not a byte string, a key
/// fails, or a value fails.
pub open spec fn sp_pairs_err_at(s: Seq<u8>, i: int) -> ParseError
    decreases s.len() - i, 2int,
{
    if i < 0 || i >= s.len() {
        ParseError::TruncatedInput(i as usize)
    } else if s[i] == 101 {
        ParseError::TruncatedInput(i as usize)
    } else if !is_digit(s[i]) {
        ParseError::InvalidKey(i as usize)
    } else {
        match sp_str_at(s, i) {
            None => sp_str_err_at(s, i),
            Some(kp) => if kp.1 <= i || kp.1 > s.len() {
                ParseError::TruncatedInput(i as usize)
            } else {
                match sp_value_at(s, kp.1) {
                    None => sp_value_err_at(s, kp.1),
                    Some(vp) => if vp.1 <= kp.1 || vp.1 > s.len() {
                        ParseError::TruncatedInput(i as usize)
                    } else {
                        sp_pairs_err_at(s, vp.1)
                    },
                }
            },
        }
    }
}

/// A parsed integer literal ends past its start and within the input, and
/// its value's magnitude fits the integer type.
pub proof fn lemma_sp_int_bounds(s: Seq<u8>, i: int, v: int, e: int)
    requires
        0 <= i < s.len(),
        sp_int_at(s, i) == Some((v, e)),
    ensures
        i < e <= s.len(),
        -(i64::MAX as int) <= v <= i64::MAX as int,
{
    let body = i + 1;
    let neg = body < s.len() && s[body] == 45;
    let ds = if neg {
        body + 1
    } else {
        body
    };
    lemma_digit_run_end(s, ds);
    lemma_digits_val_nonneg(s, ds, digit_run_end(s, ds));
}

/// A parsed byte string ends past its start and within the input, and its
/// bytes can be addressed by the host.
pub proof fn lemma_sp_str_bounds(s: Seq<u8>, i: int, b: Seq<u8>, e: int)
    requires
        0 <= i < s.len(),
        sp_str_at(s, i) == Some((b, e)),
    ensures
        i < e <= s.len(),
        b.len() <= usize::MAX,
{
    lemma_digit_run_end(s, i);
    lemma_digits_val_nonneg(s, i, digit_run_end(s, i));
}

/// Every value the grammar yields is well formed, and parsing always
/// makes progress without running past the input.
pub proof fn lemma_sp_value_wf(s: Seq<u8>, i: int, m: Bval, e: int)
    requires
        sp_value_at(s, i) == Some((m, e)),
    ensures
        wf(m),
        i < e <= s.len(),
    decreases s.len() - i, 0int,
{
    if s[i] == 105 {
        let p = sp_int_at(s, i);
        lemma_sp_int_bounds(s, i, p->Some_0.0, p->Some_0.1);
    } else if is_digit(s[i]) {
        let p = sp_str_at(s, i);
        lemma_sp_str_bounds(s, i, p->Some_0.0, p->Some_0.1);
    } else if s[i] == 108 {
        let p = sp_items_at(s, i + 1);
        lemma_sp_items_wf(s, i + 1, p->Some_0.0, p->Some_0.1);
    } else {
        let p = sp_pairs_at(s, i + 1);
        let ps = p->Some_0.0;
        lemma_sp_pairs_wf(s, i + 1, ps, p->Some_0.1);
        lemma_norm_pairs_props(ps);
        assert forall|j: int| 0 <= j < norm_pairs(ps).len() implies (#[trigger] norm_pairs(
            ps,
        )[j]).0.len() <= usize::MAX && wf(norm_pairs(ps)[j].1) by {
            let q = norm_pairs(ps)[j];
            let w = choose|w: int| 0 <= w < ps.len() && ps[w] == q;
            assert(ps[w].0.len() <= usize::MAX && wf(ps[w].1));
        }
    }
}

/// Every element of a parsed element run is well formed, and the run ends
/// past its start and within the input.
pub proof fn lemma_sp_items_wf(s: Seq<u8>, i: int, vs: Seq<Bval>, e: int)
    requires
        sp_items_at(s, i) == Some((vs, e)),
    ensures
        forall|j: int| 0 <= j < vs.len() ==> wf(#[trigger] vs[j]),
        i < e <= s.len(),
    decreases s.len() - i, 1int,
{
    if s[i] == 101 {
    } else {
        let p = sp_value_at(s, i)->Some_0;
        lemma_sp_value_wf(s, i, p.0, p.1);
        let q = sp_items_at(s, p.1)->Some_0;
        lemma_sp_items_wf(s, p.1, q.0, q.1);
        assert forall|j: int| 0 <= j < vs.len() implies wf(#[trigger] vs[j]) by {
            if j > 0 {
                assert(vs[j] == q.0[j - 1]);
            }
        }
    }
}

/// Every key and value of a parsed pair run is well formed, and the run
/// ends past its start and within the input.
pub proof fn lemma_sp_pairs_wf(s: Seq<u8>, i: int, ps: Seq<(Seq<u8>, Bval)>, e: int)
    requires
        sp_pairs_at(s, i) == Some((ps, e)),
    ensures
        forall|j: int|
            0 <= j < ps.len() ==> (#[trigger] ps[j]).0.len() <= usize::MAX && wf(ps[j].1),
        i < e <= s.len(),
    decreases s.len() - i, 1int,
{
    if s[i] == 101 {
    } else {
        let kp = sp_str_at(s, i)->Some_0;
        lemma_sp_str_bounds(s, i, kp.0, kp.1);
        let vp = sp_value_at(s, kp.1)->Some_0;
        lemma_sp_value_wf(s, kp.1, vp.0, vp.1);
        let q = sp_pairs_at(s, vp.1)->Some_0;
        lemma_sp_pairs_wf(s, vp.1, q.0, q.1);
        assert forall|j: int| 0 <= j < ps.len() implies (#[trigger] ps[j]).0.len() <= usize::MAX
            && wf(ps[j].1) by {
            if j > 0 {
                assert(ps[j] == q.0[j - 1]);
            }
        }
    }
}

/// Parses one value at `pos`; mirrors `sp_value_at` exactly.
pub(crate) fn parse_value_at(input: &[u8], pos: usize) -> (r: Result<
    (BencodeValue, usize),
    ParseError,
>)
    requires
        pos <= input@.len(),
    ensures
        r matches Ok(p) ==> {
            &&& sp_value_at(input@, pos as int) == Some((p.0@, p.1 as int))
            &&& pos < p.1 <= input@.len()
        },
        r is Err ==> sp_value_at(input@, pos as int) is None,
        r matches Err(e) ==> e == sp_value_err_at(input@, pos as int),
    decreases input@.len() - pos, 0int,
{
    let n = input.len();
    if pos >= n {
        return Err(ParseError::TruncatedInput(pos));
    }
    let b = input[pos];
    if b == 105 {
        match parse_int_at(input, pos) {
            Ok((v, end)) => Ok((BencodeValue::Integer(v), end)),
            Err(err) => Err(err),
        }
    } else if 48 <= b && b <= 57 {
        match parse_bstr_at(input, pos) {
            Ok((bytes, end)) => Ok((BencodeValue::ByteString(bytes), end)),
            Err(err) => Err(err),
        }
    } else if b == 108 {
        match parse_items_at(input, pos + 1) {
            Ok((items, end)) => Ok((BencodeValue::List(items), end)),
            Err(err) => Err(err),
        }
    } else if b == 100 {
        match parse_pairs_at(input, pos + 1) {
            Ok((pairs, end)) => {
                proof {
                    let raw = choose|raw: Seq<(Seq<u8>, Bval)>|
                        sp_pairs_at(input@, pos + 1) == Some((raw, end as int)) && bpairs_of(
                            pairs@,
                        ) == norm_pairs(raw);
                    assert(sp_value_at(input@, pos as int) == Some(
                        (Bval::Dictionary(norm_pairs(raw)), end as int),
                    ));
                }
                Ok((BencodeValue::Dictionary(pairs), end))
            },
            Err(err) => Err(err),
        }
    } else {
        Err(ParseError::InvalidMarker(pos))
    }
}

/// Parses list elements from `pos` up to and including the closing `e`;
/// mirrors `sp_items_at` exactly.
#[verifier::loop_isolation(false)]
pub(crate) fn parse_items_at(input: &[u8], pos: usize) -> (r: Result<
    (Vec<BencodeValue>, usize),
    ParseError,
>)
    requires
        pos <= input@.len(),
    ensures
        r matches Ok(p) ==> {
            &&& sp_items_at(input@, pos as int) == Some((bvals_of(p.0@), p.1 as int))
            &&& pos < p.1 <= input@.len()
        },
        r is Err ==> sp_items_at(input@, pos as int) is None,
        r matches Err(e) ==> e == sp_items_err_at(input@, pos as int),
    decreases input@.len() - pos, 1int,
{
    let n = input.len();
    let mut items: Vec<BencodeValue> = Vec::new();
    let mut cur = pos;
    loop
        invariant
            pos <= cur <= n,
            n == input@.len(),
            match sp_items_at(input@, cur as int) {
                Some(p) => sp_items_at(input@, pos as int) == Some(
                    (bvals_of(items@) + p.0, p.1),
                ),
                None => sp_items_at(input@, pos as int) is None && sp_items_err_at(
                    input@,
                    pos as int,
                ) == sp_items_err_at(input@, cur as int),
            },
        decreases n - cur,
    {
        if cur >= n {
            return Err(ParseError::TruncatedInput(cur));
        }
        let b = input[cur];
        if b == 101 {
            proof {
                assert(bvals_of(items@) + Seq::<Bval>::empty() =~= bvals_of(items@));
            }
            return Ok((items, cur + 1));
        }
        match parse_value_at(input, cur) {
            Err(err) => {
                return Err(err);
            },
            Ok((v, end2)) => {
                proof {
                    lemma_bvals_of_push(items@, v);
                    match sp_items_at(input@, end2 as int) {
                        Some(q) => {
                            assert(sp_items_at(input@, cur as int) == Some(
                                (seq![v@] + q.0, q.1),
                            ));
                            assert(bvals_of(items@) + (seq![v@] + q.0) =~= bvals_of(
                                items@,
                            ).push(v@) + q.0);
                        },
                        None => {},
                    }
                }
                items.push(v);
                cur = end2;
            },
        }
    }
}

/// Parses dictionary pairs from `pos` up to and including the closing
/// `e`, keeping the growing store key-sorted with last-write-wins on a
/// repeated key; the raw pair run it consumed is `sp_pairs_at`'s, and the
/// store holds that run's normal form.
#[verifier::loop_isolation(false)]
pub(crate) fn parse_pairs_at(input: &[u8], pos: usize) -> (r: Result<
    (Vec<(Vec<u8>, BencodeValue)>, usize),
    ParseError,
>)
    requires
        pos <= input@.len(),
    ensures
        r matches Ok(p) ==> exists|raw: Seq<(Seq<u8>, Bval)>|
            sp_pairs_at(input@, pos as int) == Some((raw, p.1 as int)) && bpairs_of(p.0@)
                == norm_pairs(raw),
        r matches Ok(p) ==> pos < p.1 <= input@.len(),
        r is Err ==> sp_pairs_at(input@, pos as int) is None,
        r matches Err(e) ==> e == sp_pairs_err_at(input@, pos as int),
    decreases input@.len() - pos, 1int,
{
    let n = input.len();
    let mut pairs: Vec<(Vec<u8>, BencodeValue)> = Vec::new();
    let ghost mut raw: Seq<(Seq<u8>, Bval)> = Seq::empty();
    let mut cur = pos;
    loop
        invariant
            pos <= cur <= n,
            n == input@.len(),
            bpairs_of(pairs@) == norm_pairs(raw),
            match sp_pairs_at(input@, cur as int) {
                Some(p) => sp_pairs_at(input@, pos as int) == Some((raw + p.0, p.1)),
                None => sp_pairs_at(input@, pos as int) is None && sp_pairs_err_at(
                    input@,
                    pos as int,
                ) == sp_pairs_err_at(input@, cur as int),
            },
        decreases n - cur,
    {
        if cur >= n {
            return Err(ParseError::TruncatedInput(cur));
        }
        let b = input[cur];
        if b == 101 {
            proof {
                assert(raw + Seq::<(Seq<u8>, Bval)>::empty() =~= raw);
            }
            return Ok((pairs, cur + 1));
        }
        if b < 48 || b > 57 {
            return Err(ParseError::InvalidKey(cur));
        }
        let (key, ke) = match parse_bstr_at(input, cur) {
            Ok(p) => p,
            Err(err) => {
                return Err(err);
            },
        };
        let (val, ve) = match parse_value_at(input, ke) {
            Ok(p) => p,
            Err(err) => {
                return Err(err);
            },
        };
        proof {
            match sp_pairs_at(input@, ve as int) {
                Some(q) => {
                    assert(sp_pairs_at(input@, cur as int) == Some(
                        (seq![(key@, val@)] + q.0, q.1),
                    ));
                    assert(raw + (seq![(key@, val@)] + q.0) =~= raw.push((key@, val@)) + q.0);
                },
                None => {},
            }
            assert(raw.push((key@, val@)).drop_last() =~= raw);
            assert(norm_pairs(raw.push((key@, val@))) == crate::common::insert_pair(
                norm_pairs(raw),
                key@,
                val@,
            ));
        }
        insert_sorted(&mut pairs, key, val);
        proof {
            raw = raw.push((key@, val@));
        }
        cur = ve;
    }
}

/// Parses a complete value of any kind from the front of the input and
/// returns the unconsumed remainder beside the value, which is always
/// well formed; callers that demand full consumption check the remainder
/// themselves.
pub fn parse_bencode(input: &[u8]) -> (r: Result<(&[u8], BencodeValue), ParseError>)
    ensures
        r matches Ok(p) ==> {
            &&& sp_value_at(input@, 0) == Some((p.1@, input@.len() - p.0@.len()))
            &&& p.0@ == input@.subrange(input@.len() - p.0@.len(), input@.len() as int)
            &&& wf(p.1@)
        },
        r is Err ==> sp_value_at(input@, 0) is None,
        r matches Err(e) ==> e == sp_value_err_at(input@, 0),
{
    match parse_value_at(input, 0) {
        Ok((v, end)) => {
            proof {
                lemma_sp_value_wf(input@, 0, v@, end as int);
            }
            let rest = vstd::slice::slice_subrange(input, end, input.len());
            Ok((rest, v))
        },
        Err(err) => Err(err),
    }
}

} // verus!
