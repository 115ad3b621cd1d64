//! The bencode value model: the executable tagged union, its mathematical
//! model, and the byte-lexicographic key order that dictionaries maintain.

use vstd::prelude::*;

verus! {

/// A bencode value. Dictionaries hold their pairs pre-sorted by raw key
/// bytes, ascending and without duplicates; `dict_sorted` states that
/// invariant, parsing establishes it, and encoding relies on it.
#[derive(Debug, PartialEq, Eq)]
pub enum BencodeValue {
    Integer(i64),
    ByteString(Vec<u8>),
    List(Vec<BencodeValue>),
    Dictionary(Vec<(Vec<u8>, BencodeValue)>),
}

/// The mathematical model of a bencode value.
pub enum Bval {
    Integer(int),
    ByteString(Seq<u8>),
    List(Seq<Bval>),
    Dictionary(Seq<(Seq<u8>, Bval)>),
}

/// Strict byte-lexicographic order on byte sequences: a proper prefix comes
/// first, otherwise the first differing byte decides.
pub open spec fn lex_lt(a: Seq<u8>, b: Seq<u8>) -> bool
    decreases a.len(),
{
    if b.len() == 0 {
        false
    } else if a.len() == 0 {
        true
    } else if a[0] < b[0] {
        true
    } else if a[0] > b[0] {
        false
    } else {
        lex_lt(a.drop_first(), b.drop_first())
    }
}

/// Whether the pairs are strictly ascending by key, which also makes the
/// keys pairwise distinct.
pub open spec fn sorted_pairs(ps: Seq<(Seq<u8>, Bval)>) -> bool {
    forall|i: int, j: int| 0 <= i < j < ps.len() ==> lex_lt(ps[i].0, ps[j].0)
}

/// Insertion of one pair into a key-sorted pair sequence: an equal key is
/// overwritten in place, otherwise the pair lands at its ordered position.
pub open spec fn insert_pair(ps: Seq<(Seq<u8>, Bval)>, k: Seq<u8>, v: Bval) -> Seq<
    (Seq<u8>, Bval),
>
    decreases ps.len(),
{
    if ps.len() == 0 {
        seq![(k, v)]
    } else if lex_lt(k, ps[0].0) {
        seq![(k, v)] + ps
    } else if k == ps[0].0 {
        seq![(k, v)] + ps.drop_first()
    } else {
        seq![ps[0]] + insert_pair(ps.drop_first(), k, v)
    }
}

/// The key-sorted normal form of a pair sequence taken in encounter order:
/// each pair is inserted in turn, so a repeated key keeps its last value.
pub open spec fn norm_pairs(ps: Seq<(Seq<u8>, Bval)>) -> Seq<(Seq<u8>, Bval)>
    decreases ps.len(),
{
    if ps.len() == 0 {
        Seq::empty()
    } else {
        insert_pair(norm_pairs(ps.drop_last()), ps.last().0, ps.last().1)
    }
}

/// The models of a sequence of values.
pub open spec fn bvals_of(s: Seq<BencodeValue>) -> Seq<Bval>
    decreases s,
{
    if s.len() == 0 {
        Seq::empty()
    } else {
        bvals_of(s.drop_last()).push(bval_of(s.last()))
    }
}

/// The models of a sequence of key/value pairs.
pub open spec fn bpairs_of(s: Seq<(Vec<u8>, BencodeValue)>) -> Seq<(Seq<u8>, Bval)>
    decreases s,
{
    if s.len() == 0 {
        Seq::empty()
    } else {
        bpairs_of(s.drop_last()).push((s.last().0@, bval_of(s.last().1)))
    }
}

/// The model of a value.
pub open spec fn bval_of(v: BencodeValue) -> Bval
    decreases v,
{
    match v {
        BencodeValue::Integer(i) => Bval::Integer(i as int),
        BencodeValue::ByteString(b) => Bval::ByteString(b@),
        BencodeValue::List(items) => Bval::List(bvals_of(items@)),
        BencodeValue::Dictionary(ps) => Bval::Dictionary(bpairs_of(ps@)),
    }
}

impl View for BencodeValue {
    type V = Bval;

    open spec fn view(&self) -> Bval {
        bval_of(*self)
    }
}

/// Whether a model value could have been produced by parsing: every
/// dictionary is key-sorted, every byte string fits in a buffer the host
/// can address, and every integer's magnitude fits in the integer type
/// (which rules the most negative value out, since its magnitude does not).
pub open spec fn wf(m: Bval) -> bool
    decreases m,
{
    match m {
        Bval::Integer(v) => -(i64::MAX as int) <= v <= i64::MAX as int,
        Bval::ByteString(b) => b.len() <= usize::MAX,
        Bval::List(items) => forall|i: int| 0 <= i < items.len() ==> wf(#[trigger] items[i]),
        Bval::Dictionary(ps) => sorted_pairs(ps) && forall|i: int|
            0 <= i < ps.len() ==> (#[trigger] ps[i]).0.len() <= usize::MAX && wf(ps[i].1),
    }
}

/// The model of a value sequence is the sequence of the models.
pub proof fn lemma_bvals_of_index(s: Seq<BencodeValue>)
    ensures
        bvals_of(s).len() == s.len(),
        forall|i: int| 0 <= i < s.len() ==> #[trigger] bvals_of(s)[i] == bval_of(s[i]),
    decreases s.len(),
{
    if s.len() > 0 {
        lemma_bvals_of_index(s.drop_last());
        assert forall|i: int| 0 <= i < s.len() implies #[trigger] bvals_of(s)[i] == bval_of(
            s[i],
        ) by {
            if i < s.len() - 1 {
                assert(bvals_of(s.drop_last())[i] == bval_of(s.drop_last()[i]));
                assert(s.drop_last()[i] == s[i]);
            }
        }
    }
}

/// The model of a pair sequence is the sequence of the pairs' models.
pub proof fn lemma_bpairs_of_index(s: Seq<(Vec<u8>, BencodeValue)>)
    ensures
        bpairs_of(s).len() == s.len(),
        forall|i: int|
            0 <= i < s.len() ==> #[trigger] bpairs_of(s)[i] == (s[i].0@, bval_of(s[i].1)),
    decreases s.len(),
{
    if s.len() > 0 {
        lemma_bpairs_of_index(s.drop_last());
        assert forall|i: int| 0 <= i < s.len() implies #[trigger] bpairs_of(s)[i] == (
            s[i].0@,
            bval_of(s[i].1),
        ) by {
            if i < s.len() - 1 {
                assert(bpairs_of(s.drop_last())[i] == (
                    s.drop_last()[i].0@,
                    bval_of(s.drop_last()[i].1),
                ));
                assert(s.drop_last()[i] == s[i]);
            }
        }
    }
}

/// Appending a value appends its model.
pub proof fn lemma_bvals_of_push(s: Seq<BencodeValue>, x: BencodeValue)
    ensures
        bvals_of(s.push(x)) == bvals_of(s).push(bval_of(x)),
{
    assert(s.push(x).drop_last() =~= s);
}

/// How a parse attempt fails; each variant carries the byte offset at
/// which the violation was found.
#[derive(Debug, PartialEq, Eq, Clone, Copy)]
pub enum ParseError {
    /// A length or magnitude field is not plain decimal: empty, a
    /// forbidden leading zero, a lone minus sign, negative zero, or a
    /// magnitude beyond the integer type.
    MalformedLength(usize),
    /// The input ends before a declared length or a close marker is met.
    TruncatedInput(usize),
    /// No grammar's leading marker matches at this position.
    InvalidMarker(usize),
    /// A dictionary key is not a byte string.
    InvalidKey(usize),
}

/// Parses a single value of any kind from the front of the input; the
/// same dispatcher as `crate::parser::parse_bencode`, kept here beside
/// the value type.
pub fn bencode_value(input: &[u8]) -> (r: Result<(&[u8], BencodeValue), ParseError>)
    ensures
        r matches Ok(p) ==> {
            &&& crate::parser::sp_value_at(input@, 0) == Some((p.1@, input@.len() - p.0@.len()))
            &&& p.0@ == input@.subrange(input@.len() - p.0@.len(), input@.len() as int)
            &&& wf(p.1@)
        },
        r is Err ==> crate::parser::sp_value_at(input@, 0) is None,
        r matches Err(e) ==> e == crate::parser::sp_value_err_at(input@, 0),
{
    crate::parser::parse_bencode(input)
}

} // verus!
