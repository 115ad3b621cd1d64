//! The canonical encoder: structural recursion over a value, emitting the
//! unique byte encoding — decimal digits between `i` and `e` for an
//! integer, a decimal length and `:` before raw bytes for a byte string,
//! `l`/`d` framing for lists and dictionaries, dictionary pairs in their
//! stored ascending key order.

use crate::common::{bval_of, bvals_of, bpairs_of, lemma_bpairs_of_index, lemma_bvals_of_index,
    lex_lt, sorted_pairs, BencodeValue, Bval};
use crate::dictionary::lemma_sorted_pairs_unique;
use std::collections::BTreeMap;
use vstd::prelude::*;
use vstd::string::StrSliceExecFns;
use vstd::string::StringSliceAdditionalSpecFns;
use vstd::utf8::encode_utf8;

verus! {

/// The decimal digits of `n`, most significant first; meaningful for
/// `n >= 0`.
pub open spec fn spec_digits(n: int) -> Seq<u8>
    decreases n,
{
    if n < 10 {
        seq![(48 + if 0 <= n { n } else { 0 }) as u8]
    } else {
        spec_digits(n / 10).push((48 + n % 10) as u8)
    }
}

/// The canonical encoding of a value.
pub open spec fn spec_encode(m: Bval) -> Seq<u8>
    decreases m,
{
    match m {
        Bval::Integer(v) => seq![105u8] + (if v < 0 {
            seq![45u8] + spec_digits(-v)
        } else {
            spec_digits(v)
        }) + seq![101u8],
        Bval::ByteString(b) => spec_digits(b.len() as int) + seq![58u8] + b,
        Bval::List(items) => seq![108u8] + spec_encode_seq(items) + seq![101u8],
        Bval::Dictionary(ps) => seq![100u8] + spec_encode_pairs(ps) + seq![101u8],
    }
}

/// The concatenated encodings of a run of values, in order.
pub open spec fn spec_encode_seq(items: Seq<Bval>) -> Seq<u8>
    decreases items,
{
    if items.len() == 0 {
        Seq::empty()
    } else {
        spec_encode(items[0]) + spec_encode_seq(items.drop_first())
    }
}

/// The concatenated encodings of a run of pairs, each key emitted as a
/// byte string and followed by its value's encoding.
pub open spec fn spec_encode_pairs(ps: Seq<(Seq<u8>, Bval)>) -> Seq<u8>
    decreases ps,
{
    if ps.len() == 0 {
        Seq::empty()
    } else {
        spec_digits(ps[0].0.len() as int) + seq![58u8] + ps[0].0 + spec_encode(ps[0].1)
            + spec_encode_pairs(ps.drop_first())
    }
}

/// Extending a run of values appends the new value's encoding.
pub proof fn lemma_enc_seq_snoc(items: Seq<Bval>, x: Bval)
    ensures
        spec_encode_seq(items.push(x)) == spec_encode_seq(items) + spec_encode(x),
    decreases items.len(),
{
    if items.len() == 0 {
        assert(items.push(x)[0] == x);
        assert(items.push(x).drop_first() =~= Seq::<Bval>::empty());
        assert(spec_encode_seq(items.push(x)) == spec_encode(x) + spec_encode_seq(
            Seq::<Bval>::empty(),
        ));
        assert(spec_encode(x) + Seq::<u8>::empty() =~= spec_encode(x));
        assert(Seq::<u8>::empty() + spec_encode(x) =~= spec_encode(x));
    } else {
        assert(items.push(x)[0] == items[0]);
        assert(items.push(x).drop_first() =~= items.drop_first().push(x));
        assert(spec_encode_seq(items.push(x)) == spec_encode(items[0]) + spec_encode_seq(
            items.drop_first().push(x),
        ));
        lemma_enc_seq_snoc(items.drop_first(), x);
        assert(spec_encode(items[0]) + (spec_encode_seq(items.drop_first()) + spec_encode(x))
            =~= (spec_encode(items[0]) + spec_encode_seq(items.drop_first())) + spec_encode(x));
    }
}

/// Extending a run of pairs appends the new pair's encoding.
pub proof fn lemma_enc_pairs_snoc(ps: Seq<(Seq<u8>, Bval)>, p: (Seq<u8>, Bval))
    ensures
        spec_encode_pairs(ps.push(p)) == spec_encode_pairs(ps) + (spec_digits(p.0.len() as int)
            + seq![58u8] + p.0 + spec_encode(p.1)),
    decreases ps.len(),
{
    let pe = spec_digits(p.0.len() as int) + seq![58u8] + p.0 + spec_encode(p.1);
    if ps.len() == 0 {
        assert(ps.push(p)[0] == p);
        assert(ps.push(p).drop_first() =~= Seq::<(Seq<u8>, Bval)>::empty());
        assert(spec_encode_pairs(ps.push(p)) == pe + spec_encode_pairs(
            Seq::<(Seq<u8>, Bval)>::empty(),
        ));
        assert(pe + Seq::<u8>::empty() =~= pe);
        assert(Seq::<u8>::empty() + pe =~= pe);
    } else {
        let h = spec_digits(ps[0].0.len() as int) + seq![58u8] + ps[0].0 + spec_encode(ps[0].1);
        assert(ps.push(p)[0] == ps[0]);
        assert(ps.push(p).drop_first() =~= ps.drop_first().push(p));
        assert(spec_encode_pairs(ps.push(p)) == h + spec_encode_pairs(
            ps.drop_first().push(p),
        ));
        lemma_enc_pairs_snoc(ps.drop_first(), p);
        assert(h + (spec_encode_pairs(ps.drop_first()) + pe) =~= (h + spec_encode_pairs(
            ps.drop_first(),
        )) + pe);
    }
}

/// How an encoding attempt fails. Encoding a value itself cannot fail;
/// the variants surface a failing sink, a host-native value that does not
/// fit the integer type, and text-conversion failures reported by
/// std-facing helpers.
#[derive(Debug)]
pub enum EncodingError {
    FormatError(core::fmt::Error),
    IoError(std::io::Error),
    CustomError(String),
    Utf8Error(core::str::Utf8Error),
}

#[verifier::external_type_specification]
#[verifier::external_body]
pub struct ExFmtError(core::fmt::Error);

#[verifier::external_type_specification]
#[verifier::external_body]
pub struct ExIoError(std::io::Error);

#[verifier::external_type_specification]
#[verifier::external_body]
pub struct ExUtf8Error(core::str::Utf8Error);

impl From<core::fmt::Error> for EncodingError {
    fn from(error: core::fmt::Error) -> (r: Self) {
        EncodingError::FormatError(error)
    }
}

impl vstd::std_specs::convert::FromSpecImpl<core::fmt::Error> for EncodingError {
    open spec fn obeys_from_spec() -> bool {
        true
    }

    open spec fn from_spec(v: core::fmt::Error) -> Self {
        EncodingError::FormatError(v)
    }
}

impl From<std::io::Error> for EncodingError {
    fn from(error: std::io::Error) -> (r: Self) {
        EncodingError::IoError(error)
    }
}

impl vstd::std_specs::convert::FromSpecImpl<std::io::Error> for EncodingError {
    open spec fn obeys_from_spec() -> bool {
        true
    }

    open spec fn from_spec(v: std::io::Error) -> Self {
        EncodingError::IoError(v)
    }
}

impl From<String> for EncodingError {
    fn from(error: String) -> (r: Self) {
        EncodingError::CustomError(error)
    }
}

impl vstd::std_specs::convert::FromSpecImpl<String> for EncodingError {
    open spec fn obeys_from_spec() -> bool {
        true
    }

    open spec fn from_spec(v: String) -> Self {
        EncodingError::CustomError(v)
    }
}

impl From<core::str::Utf8Error> for EncodingError {
    fn from(error: core::str::Utf8Error) -> (r: Self) {
        EncodingError::Utf8Error(error)
    }
}

impl vstd::std_specs::convert::FromSpecImpl<core::str::Utf8Error> for EncodingError {
    open spec fn obeys_from_spec() -> bool {
        true
    }

    open spec fn from_spec(v: core::str::Utf8Error) -> Self {
        EncodingError::Utf8Error(v)
    }
}

/// Pushes the decimal digits of `n`, most significant first.
fn push_digits(n: u64, output: &mut Vec<u8>)
    ensures
        final(output)@ == old(output)@ + spec_digits(n as int),
    decreases n,
{
    if n < 10 {
        output.push(48 + n as u8);
        proof {
            assert(old(output)@.push((48 + n as int) as u8) =~= old(output)@ + spec_digits(
                n as int,
            ));
        }
    } else {
        push_digits(n / 10, output);
        output.push(48 + (n % 10) as u8);
        proof {
            assert((old(output)@ + spec_digits(n as int / 10)).push((48 + n as int % 10) as u8)
                =~= old(output)@ + spec_digits(n as int));
        }
    }
}

/// Pushes the bytes of `b` onto the output unchanged.
#[verifier::loop_isolation(false)]
fn push_bytes(b: &Vec<u8>, output: &mut Vec<u8>)
    ensures
        final(output)@ == old(output)@ + b@,
{
    let mut k: usize = 0;
    while k < b.len()
        invariant
            k <= b@.len(),
            output@ == old(output)@ + b@.take(k as int),
        decreases b@.len() - k,
    {
        output.push(b[k]);
        proof {
            assert(b@.take(k as int).push(b@[k as int]) =~= b@.take(k + 1));
            assert((old(output)@ + b@.take(k as int)).push(b@[k as int]) =~= old(output)@
                + b@.take(k as int).push(b@[k as int]));
        }
        k = k + 1;
    }
    proof {
        assert(b@.take(b@.len() as int) =~= b@);
    }
}

/// Encodes one value onto the end of the output buffer. Encoding never
/// fails; the `Result` mirrors the sink-facing entry points.
#[verifier::loop_isolation(false)]
pub fn encode_value(value: &BencodeValue, output: &mut Vec<u8>) -> (r: Result<(), EncodingError>)
    ensures
        r is Ok,
        final(output)@ == old(output)@ + spec_encode(value@),
    decreases value,
{
    match value {
        BencodeValue::Integer(i) => {
            let v: i64 = *i;
            output.push(105);
            if v < 0 {
                output.push(45);
            }
            let mag: u64 = if v == i64::MIN {
                9223372036854775808u64
            } else if v < 0 {
                (-v) as u64
            } else {
                v as u64
            };
            let ghost mid = output@;
            push_digits(mag, output);
            output.push(101);
            proof {
                if v < 0 {
                    assert(mid =~= old(output)@ + seq![105u8] + seq![45u8]);
                    assert((old(output)@ + seq![105u8] + seq![45u8] + spec_digits(
                        mag as int,
                    )).push(101u8) =~= old(output)@ + spec_encode(value@));
                } else {
                    assert(mid =~= old(output)@ + seq![105u8]);
                    assert((old(output)@ + seq![105u8] + spec_digits(mag as int)).push(101u8)
                        =~= old(output)@ + spec_encode(value@));
                }
            }
            Ok(())
        },
        BencodeValue::ByteString(b) => {
            push_digits(b.len() as u64, output);
            output.push(58);
            push_bytes(b, output);
            proof {
                assert((old(output)@ + spec_digits(b@.len() as int)).push(58u8) + b@ =~= old(
                    output,
                )@ + spec_encode(value@));
            }
            Ok(())
        },
        BencodeValue::List(items) => {
            output.push(108);
            let ghost base = output@;
            proof {
                lemma_bvals_of_index(items@);
            }
            let mut k: usize = 0;
            while k < items.len()
                invariant
                    k <= items@.len(),
                    output@ == base + spec_encode_seq(bvals_of(items@).take(k as int)),
                decreases items@.len() - k,
            {
                let _ = encode_value(&items[k], output);
                proof {
                    lemma_bvals_of_index(items@);
                    lemma_enc_seq_snoc(bvals_of(items@).take(k as int), items@[k as int]@);
                    assert(bvals_of(items@).take(k as int).push(bvals_of(items@)[k as int])
                        =~= bvals_of(items@).take(k + 1));
                    assert((base + spec_encode_seq(bvals_of(items@).take(k as int)))
                        + spec_encode(items@[k as int]@) =~= base + (spec_encode_seq(
                        bvals_of(items@).take(k as int),
                    ) + spec_encode(items@[k as int]@)));
                }
                k = k + 1;
            }
            output.push(101);
            proof {
                assert(bvals_of(items@).take(items@.len() as int) =~= bvals_of(items@));
                assert((old(output)@ + seq![108u8] + spec_encode_seq(bvals_of(items@))).push(
                    101u8,
                ) =~= old(output)@ + spec_encode(value@));
                assert(base =~= old(output)@ + seq![108u8]);
            }
            Ok(())
        },
        BencodeValue::Dictionary(ps) => {
            output.push(100);
            let ghost base = output@;
            proof {
                lemma_bpairs_of_index(ps@);
            }
            let mut k: usize = 0;
            while k < ps.len()
                invariant
                    k <= ps@.len(),
                    output@ == base + spec_encode_pairs(bpairs_of(ps@).take(k as int)),
                decreases ps@.len() - k,
            {
                push_digits(ps[k].0.len() as u64, output);
                output.push(58);
                push_bytes(&ps[k].0, output);
                let _ = encode_value(&ps[k].1, output);
                proof {
                    lemma_bpairs_of_index(ps@);
                    let mp = bpairs_of(ps@)[k as int];
                    lemma_enc_pairs_snoc(bpairs_of(ps@).take(k as int), mp);
                    assert(bpairs_of(ps@).take(k as int).push(mp) =~= bpairs_of(ps@).take(
                        k + 1,
                    ));
                    assert(output@ =~= base + (spec_encode_pairs(bpairs_of(ps@).take(k as int))
                        + (spec_digits(mp.0.len() as int) + seq![58u8] + mp.0 + spec_encode(
                        mp.1,
                    ))));
                }
                k = k + 1;
            }
            output.push(101);
            proof {
                assert(bpairs_of(ps@).take(ps@.len() as int) =~= bpairs_of(ps@));
                assert((old(output)@ + seq![100u8] + spec_encode_pairs(bpairs_of(ps@))).push(
                    101u8,
                ) =~= old(output)@ + spec_encode(value@));
                assert(base =~= old(output)@ + seq![100u8]);
            }
            Ok(())
        },
    }
}

/// Encodes a value into a fresh buffer of its canonical bytes.
pub fn encode_to_bytes(value: &BencodeValue) -> (r: Result<Vec<u8>, EncodingError>)
    ensures
        r matches Ok(b) && b@ == spec_encode(value@),
{
    let mut output: Vec<u8> = Vec::new();
    match encode_value(value, &mut output) {
        Ok(()) => {
            proof {
                assert(Seq::<u8>::empty() + spec_encode(value@) =~= spec_encode(value@));
            }
            Ok(output)
        },
        Err(err) => Err(err),
    }
}

/// The text that best-effort lossy conversion makes of a byte sequence.
pub uninterp spec fn lossy_text(bytes: Seq<u8>) -> Seq<char>;

/// Relies on String::from_utf8_lossy: the text depends on the bytes
/// alone; valid UTF-8 converts losslessly and invalid sequences become
/// replacement characters, so ASCII bytes decode to themselves.
#[verifier::external_body]
fn lossy_string(bytes: &Vec<u8>) -> (r: String)
    ensures
        r@ == lossy_text(bytes@),
        (forall|i: int| 0 <= i < bytes@.len() ==> bytes@[i] < 128) ==> r@ == bytes@.map_values(
            |b: u8| b as char,
        ),
{
    String::from_utf8_lossy(bytes).into_owned()
}

/// Renders a value's canonical bytes as text for display, best effort:
/// bytes that are not valid text become replacement characters rather
/// than a failure, so this never fails.
pub fn encode_to_string(value: &BencodeValue) -> (r: Result<String, EncodingError>)
    ensures
        r matches Ok(s) && s@ == lossy_text(spec_encode(value@)),
        (forall|i: int|
            0 <= i < spec_encode(value@).len() ==> spec_encode(value@)[i] < 128) ==> (
        r matches Ok(s) && s@ == spec_encode(value@).map_values(|b: u8| b as char)),
{
    let bytes = match encode_to_bytes(value) {
        Ok(b) => b,
        Err(err) => {
            return Err(err);
        },
    };
    Ok(lossy_string(&bytes))
}

/// Relies on std::io::Write::write_all: attempts to write the whole
/// buffer to the sink, reporting the sink's first error. Nothing is
/// promised of the sink's behaviour.
#[verifier::external_body]
fn write_all_to<W: std::io::Write>(writer: &mut W, bytes: &[u8]) -> (r: Result<
    (),
    std::io::Error,
>) {
    writer.write_all(bytes)
}

/// Writes a value's canonical bytes to a sink. The bytes handed to the
/// sink are always the full canonical encoding; only the sink itself can
/// fail, and such a failure is surfaced unchanged.
pub fn encode_to_writer<W: std::io::Write>(value: &BencodeValue, writer: &mut W) -> (r: Result<
    (),
    EncodingError,
>)
    ensures
        r matches Err(e) ==> e is IoError,
{
    let bytes = match encode_to_bytes(value) {
        Ok(b) => b,
        Err(err) => {
            return Err(err);
        },
    };
    match write_all_to(writer, bytes.as_slice()) {
        Ok(u) => Ok(u),
        Err(err) => Err(EncodingError::IoError(err)),
    }
}

/// Types with a canonical bencode encoding: host-native integers, text,
/// byte sequences, sequences of encodable items, and values themselves.
/// `to_bval` is the value a term stands for; encoding succeeds exactly
/// when `bencode_ok` holds, which fails only for a host-native integer
/// that does not fit the integer type.
pub trait ToBencode {
    spec fn to_bval(&self) -> Bval;

    spec fn bencode_ok(&self) -> bool;

    fn to_bencode(&self) -> (r: Result<Vec<u8>, EncodingError>)
        ensures
            self.bencode_ok() ==> (r matches Ok(b) && b@ == spec_encode(self.to_bval())),
            !self.bencode_ok() ==> r is Err,
    ;
}

impl ToBencode for BencodeValue {
    open spec fn to_bval(&self) -> Bval {
        bval_of(*self)
    }

    open spec fn bencode_ok(&self) -> bool {
        true
    }

    fn to_bencode(&self) -> (r: Result<Vec<u8>, EncodingError>) {
        encode_to_bytes(self)
    }
}

impl ToBencode for i64 {
    open spec fn to_bval(&self) -> Bval {
        Bval::Integer(*self as int)
    }

    open spec fn bencode_ok(&self) -> bool {
        true
    }

    fn to_bencode(&self) -> (r: Result<Vec<u8>, EncodingError>) {
        encode_to_bytes(&BencodeValue::Integer(*self))
    }
}

impl ToBencode for isize {
    open spec fn to_bval(&self) -> Bval {
        Bval::Integer(*self as int)
    }

    open spec fn bencode_ok(&self) -> bool {
        true
    }

    fn to_bencode(&self) -> (r: Result<Vec<u8>, EncodingError>) {
        encode_to_bytes(&BencodeValue::Integer(*self as i64))
    }
}

impl ToBencode for i32 {
    open spec fn to_bval(&self) -> Bval {
        Bval::Integer(*self as int)
    }

    open spec fn bencode_ok(&self) -> bool {
        true
    }

    fn to_bencode(&self) -> (r: Result<Vec<u8>, EncodingError>) {
        encode_to_bytes(&BencodeValue::Integer(*self as i64))
    }
}

impl ToBencode for u64 {
    open spec fn to_bval(&self) -> Bval {
        Bval::Integer(*self as int)
    }

    open spec fn bencode_ok(&self) -> bool {
        *self as int <= i64::MAX as int
    }

    fn to_bencode(&self) -> (r: Result<Vec<u8>, EncodingError>) {
        if *self > 9223372036854775807u64 {
            Err(EncodingError::CustomError("Integer too large for bencode encoding".to_owned()))
        } else {
            encode_to_bytes(&BencodeValue::Integer(*self as i64))
        }
    }
}

impl ToBencode for u32 {
    open spec fn to_bval(&self) -> Bval {
        Bval::Integer(*self as int)
    }

    open spec fn bencode_ok(&self) -> bool {
        true
    }

    fn to_bencode(&self) -> (r: Result<Vec<u8>, EncodingError>) {
        encode_to_bytes(&BencodeValue::Integer(*self as i64))
    }
}

impl ToBencode for u16 {
    open spec fn to_bval(&self) -> Bval {
        Bval::Integer(*self as int)
    }

    open spec fn bencode_ok(&self) -> bool {
        true
    }

    fn to_bencode(&self) -> (r: Result<Vec<u8>, EncodingError>) {
        encode_to_bytes(&BencodeValue::Integer(*self as i64))
    }
}

impl ToBencode for String {
    open spec fn to_bval(&self) -> Bval {
        Bval::ByteString(encode_utf8(self@))
    }

    open spec fn bencode_ok(&self) -> bool {
        true
    }

    fn to_bencode(&self) -> (r: Result<Vec<u8>, EncodingError>) {
        let bytes = self.as_str().as_bytes_vec();
        encode_to_bytes(&BencodeValue::ByteString(bytes))
    }
}

impl ToBencode for &str {
    open spec fn to_bval(&self) -> Bval {
        Bval::ByteString(encode_utf8(self@))
    }

    open spec fn bencode_ok(&self) -> bool {
        true
    }

    fn to_bencode(&self) -> (r: Result<Vec<u8>, EncodingError>) {
        let bytes = (*self).as_bytes_vec();
        encode_to_bytes(&BencodeValue::ByteString(bytes))
    }
}

impl ToBencode for Vec<u8> {
    open spec fn to_bval(&self) -> Bval {
        Bval::ByteString(self@)
    }

    open spec fn bencode_ok(&self) -> bool {
        true
    }

    fn to_bencode(&self) -> (r: Result<Vec<u8>, EncodingError>) {
        let bytes = vstd::slice::slice_to_vec(self.as_slice());
        encode_to_bytes(&BencodeValue::ByteString(bytes))
    }
}

impl ToBencode for &[u8] {
    open spec fn to_bval(&self) -> Bval {
        Bval::ByteString(self@)
    }

    open spec fn bencode_ok(&self) -> bool {
        true
    }

    fn to_bencode(&self) -> (r: Result<Vec<u8>, EncodingError>) {
        let bytes = vstd::slice::slice_to_vec(*self);
        encode_to_bytes(&BencodeValue::ByteString(bytes))
    }
}

impl<T: ToBencode> ToBencode for Vec<T> {
    open spec fn to_bval(&self) -> Bval {
        Bval::List(self@.map_values(|x: T| x.to_bval()))
    }

    open spec fn bencode_ok(&self) -> bool {
        forall|i: int| 0 <= i < self@.len() ==> (#[trigger] self@[i]).bencode_ok()
    }

    #[verifier::loop_isolation(false)]
    fn to_bencode(&self) -> (r: Result<Vec<u8>, EncodingError>) {
        let ghost mapped = self@.map_values(|x: T| x.to_bval());
        let mut output: Vec<u8> = Vec::new();
        output.push(108);
        let mut k: usize = 0;
        while k < self.len()
            invariant
                k <= self@.len(),
                forall|i: int| 0 <= i < k ==> (#[trigger] self@[i]).bencode_ok(),
                self.bencode_ok() ==> output@ == seq![108u8] + spec_encode_seq(
                    mapped.take(k as int),
                ),
            decreases self@.len() - k,
        {
            match self[k].to_bencode() {
                Ok(bs) => {
                    proof {
                        if self.bencode_ok() {
                            lemma_enc_seq_snoc(mapped.take(k as int), mapped[k as int]);
                            assert(mapped.take(k as int).push(mapped[k as int]) =~= mapped.take(
                                k + 1,
                            ));
                            assert((seq![108u8] + spec_encode_seq(mapped.take(k as int)))
                                + spec_encode(mapped[k as int]) =~= seq![108u8] + (
                            spec_encode_seq(mapped.take(k as int)) + spec_encode(
                                mapped[k as int],
                            )));
                        }
                    }
                    push_bytes(&bs, &mut output);
                },
                Err(err) => {
                    return Err(err);
                },
            }
            k = k + 1;
        }
        output.push(101);
        proof {
            if self.bencode_ok() {
                assert(mapped.take(self@.len() as int) =~= mapped);
                assert((seq![108u8] + spec_encode_seq(mapped)).push(101u8) =~= seq![108u8]
                    + spec_encode_seq(mapped) + seq![101u8]);
            }
        }
        Ok(output)
    }
}

/// One pair of an entry run is real in a byte-keyed map: some key of the
/// map has exactly these bytes, and its entry encodes as this value.
pub open spec fn btree_entry_real<'a, V: ToBencode>(
    m: Map<&'a [u8], V>,
    e: (Seq<u8>, Bval),
) -> bool {
    exists|k: &'a [u8]| m.dom().contains(k) && k@ == e.0 && m[k].to_bval() == e.1
}

/// A key with these bytes appears in the entry run.
pub open spec fn btree_key_listed(es: Seq<(Seq<u8>, Bval)>, kb: Seq<u8>) -> bool {
    exists|j: int| 0 <= j < es.len() && es[j].0 == kb
}

/// Whether a key-sorted pair run lists exactly the entries of a
/// byte-keyed map: each pair is a key's bytes beside the value its entry
/// encodes as, and every key of the map appears.
pub open spec fn btree_entries_match<'a, V: ToBencode>(
    m: Map<&'a [u8], V>,
    es: Seq<(Seq<u8>, Bval)>,
) -> bool {
    &&& sorted_pairs(es)
    &&& forall|j: int| 0 <= j < es.len() ==> btree_entry_real(m, #[trigger] es[j])
    &&& forall|k: &'a [u8]| #[trigger] m.dom().contains(k) ==> btree_key_listed(es, k@)
}

/// The key-sorted entry run of a byte-keyed map.
pub open spec fn btree_dict_model<'a, V: ToBencode>(m: Map<&'a [u8], V>) -> Seq<(Seq<u8>, Bval)> {
    choose|es: Seq<(Seq<u8>, Bval)>| btree_entries_match(m, es)
}

/// One handed-out entry is real in a byte-keyed map: some key of the map
/// has exactly these bytes, and the entry's value is that key's.
pub open spec fn raw_entry_real<'a, 'b, V>(m: Map<&'a [u8], V>, e: (Vec<u8>, &'b V)) -> bool {
    exists|k: &'a [u8]| m.dom().contains(k) && k@ == e.0@ && m[k] == *e.1
}

/// A key of the map is handed out: some entry holds its bytes and its
/// value.
pub open spec fn raw_key_listed<'a, 'b, V>(
    m: Map<&'a [u8], V>,
    r: Seq<(Vec<u8>, &'b V)>,
    k: &'a [u8],
) -> bool {
    exists|j: int| 0 <= j < r.len() && r[j].0@ == k@ && *r[j].1 == m[k]
}

/// Relies on BTreeMap::iter: entries come in ascending key order, and
/// slice keys order byte-lexicographically, so no two keys with the same
/// bytes can coexist.
#[verifier::external_body]
fn btree_slice_entries<'a, 'b, V>(m: &'b BTreeMap<&'a [u8], V>) -> (r: Vec<(Vec<u8>, &'b V)>)
    ensures
        forall|j1: int, j2: int|
            0 <= j1 < j2 < r@.len() ==> lex_lt((#[trigger] r@[j1]).0@, (#[trigger] r@[j2]).0@),
        forall|j: int| 0 <= j < r@.len() ==> #[trigger] raw_entry_real(m@, r@[j]),
        forall|k: &'a [u8]| #[trigger] m@.dom().contains(k) ==> raw_key_listed(m@, r@, k),
{
    m.iter().map(|(k, v)| (k.to_vec(), v)).collect()
}

/// The key-sorted entry run that a byte-keyed map's iteration yields is
/// the map's one entry-run model.
#[verifier::rlimit(50)]
pub proof fn lemma_btree_model_from_entries<'a, 'b, V: ToBencode>(
    m: Map<&'a [u8], V>,
    entries: Seq<(Vec<u8>, &'b V)>,
)
    requires
        forall|j1: int, j2: int|
            0 <= j1 < j2 < entries.len() ==> lex_lt(
                (#[trigger] entries[j1]).0@,
                (#[trigger] entries[j2]).0@,
            ),
        forall|j: int| 0 <= j < entries.len() ==> #[trigger] raw_entry_real(m, entries[j]),
        forall|k: &'a [u8]| #[trigger] m.dom().contains(k) ==> raw_key_listed(m, entries, k),
    ensures
        btree_dict_model(m).len() == entries.len(),
        forall|j: int|
            0 <= j < entries.len() ==> btree_dict_model(m)[j] == (
                (#[trigger] entries[j]).0@,
                (*entries[j].1).to_bval(),
            ),
{
    let es = Seq::new(entries.len(), |j: int| (entries[j].0@, (*entries[j].1).to_bval()));
    assert forall|j1: int, j2: int| 0 <= j1 < j2 < es.len() implies lex_lt(
        es[j1].0,
        es[j2].0,
    ) by {
        assert(lex_lt(entries[j1].0@, entries[j2].0@));
    }
    assert forall|j: int| 0 <= j < es.len() implies btree_entry_real(m, #[trigger] es[j]) by {
        assert(raw_entry_real(m, entries[j]));
        let k = choose|k: &'a [u8]|
            m.dom().contains(k) && k@ == entries[j].0@ && m[k] == *entries[j].1;
        assert(m.dom().contains(k) && k@ == es[j].0 && m[k].to_bval() == es[j].1);
    }
    assert forall|k: &'a [u8]| #[trigger] m.dom().contains(k) implies btree_key_listed(
        es,
        k@,
    ) by {
        assert(raw_key_listed(m, entries, k));
        let j = choose|j: int|
            0 <= j < entries.len() && entries[j].0@ == k@ && *entries[j].1 == m[k];
        assert(0 <= j < es.len() && es[j].0 == k@);
    }
    assert(btree_entries_match(m, es));
    let esc = btree_dict_model(m);
    assert(btree_entries_match(m, esc));
    assert forall|j: int| 0 <= j < es.len() implies esc.contains(#[trigger] es[j]) by {
        assert(raw_entry_real(m, entries[j]));
        let k = choose|k: &'a [u8]|
            m.dom().contains(k) && k@ == entries[j].0@ && m[k] == *entries[j].1;
        assert(m.dom().contains(k));
        assert(btree_key_listed(esc, k@));
        let j2 = choose|j2: int| 0 <= j2 < esc.len() && esc[j2].0 == k@;
        assert(btree_entry_real(m, esc[j2]));
        let k2 = choose|k2: &'a [u8]|
            m.dom().contains(k2) && k2@ == esc[j2].0 && m[k2].to_bval() == esc[j2].1;
        assert(raw_key_listed(m, entries, k));
        assert(raw_key_listed(m, entries, k2));
        let ja = choose|ja: int|
            0 <= ja < entries.len() && entries[ja].0@ == k@ && *entries[ja].1 == m[k];
        let jb = choose|jb: int|
            0 <= jb < entries.len() && entries[jb].0@ == k2@ && *entries[jb].1 == m[k2];
        if ja != jb {
            if ja < jb {
                assert(lex_lt(entries[ja].0@, entries[jb].0@));
            } else {
                assert(lex_lt(entries[jb].0@, entries[ja].0@));
            }
            crate::dictionary::lemma_lex_trichotomy(entries[ja].0@, entries[jb].0@);
        }
        assert(m[k2] == m[k]);
        assert(esc[j2] == es[j]);
    }
    assert forall|j: int| 0 <= j < esc.len() implies es.contains(#[trigger] esc[j]) by {
        assert(btree_entry_real(m, esc[j]));
        let k = choose|k: &'a [u8]|
            m.dom().contains(k) && k@ == esc[j].0 && m[k].to_bval() == esc[j].1;
        assert(m.dom().contains(k));
        assert(raw_key_listed(m, entries, k));
        let j2 = choose|j2: int|
            0 <= j2 < entries.len() && entries[j2].0@ == k@ && *entries[j2].1 == m[k];
        assert(es[j2] == esc[j]);
    }
    lemma_sorted_pairs_unique(es, esc);
}

/// One pair of an entry run is real in a text-keyed map: some key of the
/// map has exactly these UTF-8 bytes, and its entry encodes as this
/// value.
pub open spec fn str_entry_real<'a, V: ToBencode>(
    m: Map<&'a str, V>,
    e: (Seq<u8>, Bval),
) -> bool {
    exists|k: &'a str| m.dom().contains(k) && k.spec_bytes() == e.0 && m[k].to_bval() == e.1
}

/// Whether a key-sorted pair run lists exactly the entries of a
/// text-keyed map, each key as its UTF-8 bytes.
pub open spec fn str_entries_match<'a, V: ToBencode>(
    m: Map<&'a str, V>,
    es: Seq<(Seq<u8>, Bval)>,
) -> bool {
    &&& sorted_pairs(es)
    &&& forall|j: int| 0 <= j < es.len() ==> str_entry_real(m, #[trigger] es[j])
    &&& forall|k: &'a str|
        #[trigger] m.dom().contains(k) ==> btree_key_listed(es, k.spec_bytes())
}

/// The key-sorted entry run of a text-keyed map.
pub open spec fn str_dict_model<'a, V: ToBencode>(m: Map<&'a str, V>) -> Seq<(Seq<u8>, Bval)> {
    choose|es: Seq<(Seq<u8>, Bval)>| str_entries_match(m, es)
}

/// One handed-out entry is real in a text-keyed map.
pub open spec fn raw_str_entry_real<'a, 'b, V>(m: Map<&'a str, V>, e: (Vec<u8>, &'b V)) -> bool {
    exists|k: &'a str| m.dom().contains(k) && k.spec_bytes() == e.0@ && m[k] == *e.1
}

/// A key of the text-keyed map is handed out with its UTF-8 bytes and
/// its value.
pub open spec fn raw_str_key_listed<'a, 'b, V>(
    m: Map<&'a str, V>,
    r: Seq<(Vec<u8>, &'b V)>,
    k: &'a str,
) -> bool {
    exists|j: int| 0 <= j < r.len() && r[j].0@ == k.spec_bytes() && *r[j].1 == m[k]
}

/// Relies on BTreeMap::iter and str::as_bytes: entries come in ascending
/// key order, text keys order byte-lexicographically on their UTF-8
/// bytes, and no two keys with the same bytes can coexist.
#[verifier::external_body]
fn btree_str_entries<'a, 'b, V>(m: &'b BTreeMap<&'a str, V>) -> (r: Vec<(Vec<u8>, &'b V)>)
    ensures
        forall|j1: int, j2: int|
            0 <= j1 < j2 < r@.len() ==> lex_lt((#[trigger] r@[j1]).0@, (#[trigger] r@[j2]).0@),
        forall|j: int| 0 <= j < r@.len() ==> #[trigger] raw_str_entry_real(m@, r@[j]),
        forall|k: &'a str| #[trigger] m@.dom().contains(k) ==> raw_str_key_listed(m@, r@, k),
{
    m.iter().map(|(k, v)| (k.as_bytes().to_vec(), v)).collect()
}

/// The key-sorted entry run that a text-keyed map's iteration yields is
/// the map's one entry-run model.
#[verifier::rlimit(50)]
pub proof fn lemma_btree_str_model_from_entries<'a, 'b, V: ToBencode>(
    m: Map<&'a str, V>,
    entries: Seq<(Vec<u8>, &'b V)>,
)
    requires
        forall|j1: int, j2: int|
            0 <= j1 < j2 < entries.len() ==> lex_lt(
                (#[trigger] entries[j1]).0@,
                (#[trigger] entries[j2]).0@,
            ),
        forall|j: int| 0 <= j < entries.len() ==> #[trigger] raw_str_entry_real(m, entries[j]),
        forall|k: &'a str| #[trigger] m.dom().contains(k) ==> raw_str_key_listed(m, entries, k),
    ensures
        str_dict_model(m).len() == entries.len(),
        forall|j: int|
            0 <= j < entries.len() ==> str_dict_model(m)[j] == (
                (#[trigger] entries[j]).0@,
                (*entries[j].1).to_bval(),
            ),
{
    let es = Seq::new(entries.len(), |j: int| (entries[j].0@, (*entries[j].1).to_bval()));
    assert forall|j1: int, j2: int| 0 <= j1 < j2 < es.len() implies lex_lt(
        es[j1].0,
        es[j2].0,
    ) by {
        assert(lex_lt(entries[j1].0@, entries[j2].0@));
    }
    assert forall|j: int| 0 <= j < es.len() implies str_entry_real(m, #[trigger] es[j]) by {
        assert(raw_str_entry_real(m, entries[j]));
        let k = choose|k: &'a str|
            m.dom().contains(k) && k.spec_bytes() == entries[j].0@ && m[k] == *entries[j].1;
        assert(m.dom().contains(k) && k.spec_bytes() == es[j].0 && m[k].to_bval() == es[j].1);
    }
    assert forall|k: &'a str| #[trigger] m.dom().contains(k) implies btree_key_listed(
        es,
        k.spec_bytes(),
    ) by {
        assert(raw_str_key_listed(m, entries, k));
        let j = choose|j: int|
            0 <= j < entries.len() && entries[j].0@ == k.spec_bytes() && *entries[j].1 == m[k];
        assert(0 <= j < es.len() && es[j].0 == k.spec_bytes());
    }
    assert(str_entries_match(m, es));
    let esc = str_dict_model(m);
    assert(str_entries_match(m, esc));
    assert forall|j: int| 0 <= j < es.len() implies esc.contains(#[trigger] es[j]) by {
        assert(raw_str_entry_real(m, entries[j]));
        let k = choose|k: &'a str|
            m.dom().contains(k) && k.spec_bytes() == entries[j].0@ && m[k] == *entries[j].1;
        assert(m.dom().contains(k));
        assert(btree_key_listed(esc, k.spec_bytes()));
        let j2 = choose|j2: int| 0 <= j2 < esc.len() && esc[j2].0 == k.spec_bytes();
        assert(str_entry_real(m, esc[j2]));
        let k2 = choose|k2: &'a str|
            m.dom().contains(k2) && k2.spec_bytes() == esc[j2].0 && m[k2].to_bval() == esc[
                j2
            ].1;
        assert(raw_str_key_listed(m, entries, k));
        assert(raw_str_key_listed(m, entries, k2));
        let ja = choose|ja: int|
            0 <= ja < entries.len() && entries[ja].0@ == k.spec_bytes() && *entries[ja].1
                == m[k];
        let jb = choose|jb: int|
            0 <= jb < entries.len() && entries[jb].0@ == k2.spec_bytes() && *entries[jb].1
                == m[k2];
        if ja != jb {
            if ja < jb {
                assert(lex_lt(entries[ja].0@, entries[jb].0@));
            } else {
                assert(lex_lt(entries[jb].0@, entries[ja].0@));
            }
            crate::dictionary::lemma_lex_trichotomy(entries[ja].0@, entries[jb].0@);
        }
        assert(m[k2] == m[k]);
        assert(esc[j2] == es[j]);
    }
    assert forall|j: int| 0 <= j < esc.len() implies es.contains(#[trigger] esc[j]) by {
        assert(str_entry_real(m, esc[j]));
        let k = choose|k: &'a str|
            m.dom().contains(k) && k.spec_bytes() == esc[j].0 && m[k].to_bval() == esc[j].1;
        assert(m.dom().contains(k));
        assert(raw_str_key_listed(m, entries, k));
        let j2 = choose|j2: int|
            0 <= j2 < entries.len() && entries[j2].0@ == k.spec_bytes() && *entries[j2].1
                == m[k];
        assert(es[j2] == esc[j]);
    }
    lemma_sorted_pairs_unique(es, esc);
}

impl<'a, V: ToBencode> ToBencode for BTreeMap<&'a str, V> {
    open spec fn to_bval(&self) -> Bval {
        Bval::Dictionary(str_dict_model(self@))
    }

    open spec fn bencode_ok(&self) -> bool {
        forall|k: &'a str| #[trigger] self@.dom().contains(k) ==> self@[k].bencode_ok()
    }

    #[verifier::loop_isolation(false)]
    #[verifier::rlimit(50)]
    fn to_bencode(&self) -> (r: Result<Vec<u8>, EncodingError>) {
        let entries = btree_str_entries(self);
        let ghost es = Seq::new(
            entries@.len(),
            |j: int| (entries@[j].0@, (*entries@[j].1).to_bval()),
        );
        proof {
            lemma_btree_str_model_from_entries(self@, entries@);
            assert(es =~= str_dict_model(self@));
        }
        let mut output: Vec<u8> = Vec::new();
        output.push(100);
        let mut k: usize = 0;
        while k < entries.len()
            invariant
                k <= entries@.len(),
                forall|i: int| 0 <= i < k ==> (*(#[trigger] entries@[i]).1).bencode_ok(),
                self.bencode_ok() ==> output@ == seq![100u8] + spec_encode_pairs(
                    es.take(k as int),
                ),
            decreases entries@.len() - k,
        {
            let ghost keybase = output@;
            push_digits(entries[k].0.len() as u64, &mut output);
            output.push(58);
            push_bytes(&entries[k].0, &mut output);
            match entries[k].1.to_bencode() {
                Ok(bs) => {
                    proof {
                        if self.bencode_ok() {
                            assert(raw_str_entry_real(self@, entries@[k as int]));
                            let kk = choose|kk: &'a str|
                                self@.dom().contains(kk) && kk.spec_bytes() == entries@[
                                    k as int
                                ].0@ && self@[kk] == *entries@[k as int].1;
                            assert(self@[kk].bencode_ok());
                            assert((*entries@[k as int].1).bencode_ok());
                            assert(bs@ == spec_encode(es[k as int].1));
                            lemma_enc_pairs_snoc(es.take(k as int), es[k as int]);
                            assert(es.take(k as int).push(es[k as int]) =~= es.take(k + 1));
                            let pe = spec_digits(es[k as int].0.len() as int) + seq![58u8]
                                + es[k as int].0 + spec_encode(es[k as int].1);
                            assert(((keybase + spec_digits(es[k as int].0.len() as int)).push(
                                58u8,
                            ) + es[k as int].0) + bs@ =~= keybase + pe);
                            assert(keybase + pe =~= seq![100u8] + (spec_encode_pairs(
                                es.take(k as int),
                            ) + pe));
                        }
                    }
                    push_bytes(&bs, &mut output);
                },
                Err(err) => {
                    proof {
                        if self.bencode_ok() {
                            assert(raw_str_entry_real(self@, entries@[k as int]));
                            let kk = choose|kk: &'a str|
                                self@.dom().contains(kk) && kk.spec_bytes() == entries@[
                                    k as int
                                ].0@ && self@[kk] == *entries@[k as int].1;
                            assert(self@[kk].bencode_ok());
                            assert((*entries@[k as int].1).bencode_ok());
                            assert(false);
                        }
                    }
                    return Err(err);
                },
            }
            k = k + 1;
        }
        output.push(101);
        proof {
            if !self.bencode_ok() {
                let bad = choose|bad: &'a str|
                    self@.dom().contains(bad) && !self@[bad].bencode_ok();
                assert(raw_str_key_listed(self@, entries@, bad));
                let j = choose|j: int|
                    0 <= j < entries@.len() && entries@[j].0@ == bad.spec_bytes() && *entries@[
                        j
                    ].1 == self@[bad];
                assert((*entries@[j].1).bencode_ok());
                assert(false);
            }
            assert(es.take(entries@.len() as int) =~= es);
            assert((seq![100u8] + spec_encode_pairs(es)).push(101u8) =~= seq![100u8]
                + spec_encode_pairs(es) + seq![101u8]);
        }
        Ok(output)
    }
}

impl<'a, V: ToBencode> ToBencode for BTreeMap<&'a [u8], V> {
    open spec fn to_bval(&self) -> Bval {
        Bval::Dictionary(btree_dict_model(self@))
    }

    open spec fn bencode_ok(&self) -> bool {
        forall|k: &'a [u8]| #[trigger] self@.dom().contains(k) ==> self@[k].bencode_ok()
    }

    #[verifier::loop_isolation(false)]
    #[verifier::rlimit(50)]
    fn to_bencode(&self) -> (r: Result<Vec<u8>, EncodingError>) {
        let entries = btree_slice_entries(self);
        let ghost es = Seq::new(
            entries@.len(),
            |j: int| (entries@[j].0@, (*entries@[j].1).to_bval()),
        );
        proof {
            lemma_btree_model_from_entries(self@, entries@);
            assert(es =~= btree_dict_model(self@));
        }
        let mut output: Vec<u8> = Vec::new();
        output.push(100);
        let mut k: usize = 0;
        while k < entries.len()
            invariant
                k <= entries@.len(),
                forall|i: int| 0 <= i < k ==> (*(#[trigger] entries@[i]).1).bencode_ok(),
                self.bencode_ok() ==> output@ == seq![100u8] + spec_encode_pairs(
                    es.take(k as int),
                ),
            decreases entries@.len() - k,
        {
            let ghost keybase = output@;
            push_digits(entries[k].0.len() as u64, &mut output);
            output.push(58);
            push_bytes(&entries[k].0, &mut output);
            match entries[k].1.to_bencode() {
                Ok(bs) => {
                    proof {
                        if self.bencode_ok() {
                            assert(raw_entry_real(self@, entries@[k as int]));
                            let kk = choose|kk: &'a [u8]|
                                self@.dom().contains(kk) && kk@ == entries@[k as int].0@
                                    && self@[kk] == *entries@[k as int].1;
                            assert(self@[kk].bencode_ok());
                            assert((*entries@[k as int].1).bencode_ok());
                            assert(bs@ == spec_encode(es[k as int].1));
                            lemma_enc_pairs_snoc(es.take(k as int), es[k as int]);
                            assert(es.take(k as int).push(es[k as int]) =~= es.take(k + 1));
                            let pe = spec_digits(es[k as int].0.len() as int) + seq![58u8]
                                + es[k as int].0 + spec_encode(es[k as int].1);
                            assert(((keybase + spec_digits(es[k as int].0.len() as int)).push(
                                58u8,
                            ) + es[k as int].0) + bs@ =~= keybase + pe);
                            assert(keybase + pe =~= seq![100u8] + (spec_encode_pairs(
                                es.take(k as int),
                            ) + pe));
                        }
                    }
                    push_bytes(&bs, &mut output);
                },
                Err(err) => {
                    proof {
                        if self.bencode_ok() {
                            assert(raw_entry_real(self@, entries@[k as int]));
                            let kk = choose|kk: &'a [u8]|
                                self@.dom().contains(kk) && kk@ == entries@[k as int].0@
                                    && self@[kk] == *entries@[k as int].1;
                            assert(self@[kk].bencode_ok());
                            assert((*entries@[k as int].1).bencode_ok());
                            assert(false);
                        }
                    }
                    return Err(err);
                },
            }
            k = k + 1;
        }
        output.push(101);
        proof {
            if !self.bencode_ok() {
                let bad = choose|bad: &'a [u8]|
                    self@.dom().contains(bad) && !self@[bad].bencode_ok();
                assert(raw_key_listed(self@, entries@, bad));
                let j = choose|j: int|
                    0 <= j < entries@.len() && entries@[j].0@ == bad@ && *entries@[j].1
                        == self@[bad];
                assert((*entries@[j].1).bencode_ok());
                assert(false);
            }
            assert(es.take(entries@.len() as int) =~= es);
            assert((seq![100u8] + spec_encode_pairs(es)).push(101u8) =~= seq![100u8]
                + spec_encode_pairs(es) + seq![101u8]);
        }
        Ok(output)
    }
}

} // verus!
