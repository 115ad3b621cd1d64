//! The round-trip laws: parsing inverts encoding. Any well-formed value,
//! encoded and parsed back, yields itself exactly and consumes exactly
//! its encoding, whatever bytes follow; hence encoding what was parsed
//! from an encoding reproduces the encoding.

use crate::byte_string::sp_str_at;
use crate::common::{
    insert_pair, lex_lt, norm_pairs, sorted_pairs, wf, Bval,
};
use crate::dictionary::lemma_insert_pair_at;
use crate::encoder::{spec_digits, spec_encode, spec_encode_pairs, spec_encode_seq};
use crate::integer::{
    digit_run_end, digits_val, is_digit, lemma_digit_run_end_is, sp_int_at,
};
use crate::parser::{sp_items_at, sp_pairs_at, sp_value_at};
use vstd::prelude::*;

verus! {

/// A byte inside a region of the buffer known to hold `e` is the
/// corresponding byte of `e`.
pub proof fn lemma_region_index(s: Seq<u8>, i: int, e: Seq<u8>, j: int)
    requires
        0 <= i,
        i + e.len() <= s.len(),
        s.subrange(i, i + e.len() as int) == e,
        0 <= j < e.len(),
    ensures
        s[i + j] == e[j],
{
    assert(s.subrange(i, i + e.len() as int)[j] == s[i + j]);
}

/// The decimal digits of a non-negative number: at least one digit, all
/// digit bytes, no leading zero unless the number is zero itself, and
/// reading them back yields the number.
pub proof fn lemma_spec_digits_props(n: int)
    requires
        0 <= n,
    ensures
        1 <= spec_digits(n).len(),
        forall|j: int| 0 <= j < spec_digits(n).len() ==> is_digit(#[trigger] spec_digits(n)[j]),
        n >= 1 ==> spec_digits(n)[0] != 48,
        n >= 10 ==> spec_digits(n).len() > 1,
        digits_val(spec_digits(n), 0, spec_digits(n).len() as int) == n,
    decreases n,
{
    if n >= 10 {
        lemma_spec_digits_props(n / 10);
        let s = spec_digits(n);
        let t = spec_digits(n / 10);
        let d = (48 + n % 10) as u8;
        assert(s == t.push(d));
        assert forall|j: int| 0 <= j < s.len() implies is_digit(#[trigger] s[j]) by {
            assert(t.push(d)[j] == if j < t.len() {
                t[j]
            } else {
                d
            });
        }
        assert(s[0] == t.push(d)[0]);
        assert(t.push(d)[0] == t[0]);
        assert forall|k: int| 0 <= k < t.len() implies t[k] == s[k] by {
            assert(t.push(d)[k] == t[k]);
        }
        lemma_digits_val_congruent(t, s, 0, t.len() as int);
        assert(s[s.len() - 1] == t.push(d)[t.len() as int]);
        assert(digits_val(s, 0, s.len() as int) == digits_val(s, 0, t.len() as int) * 10 + (
        s[s.len() - 1] - 48));
        assert(digits_val(s, 0, t.len() as int) == n / 10);
        assert(s[s.len() - 1] - 48 == n % 10);
        vstd::arithmetic::div_mod::lemma_fundamental_div_mod(n, 10);
    } else {
        assert(spec_digits(n) == seq![(48 + n) as u8]);
        assert(spec_digits(n)[0] == (48 + n) as u8);
        assert(digits_val(spec_digits(n), 0, 1) == digits_val(spec_digits(n), 0, 0) * 10 + (
        spec_digits(n)[0] - 48));
    }
}

/// The value of a digit stretch depends only on the bytes in it.
pub proof fn lemma_digits_val_congruent(s1: Seq<u8>, s2: Seq<u8>, i: int, j: int)
    requires
        forall|k: int| i <= k < j ==> s1[k] == s2[k],
    ensures
        digits_val(s1, i, j) == digits_val(s2, i, j),
    decreases j - i,
{
    if j > i {
        lemma_digits_val_congruent(s1, s2, i, j - 1);
    }
}

/// Reading a digit stretch out of a larger buffer yields the same value
/// as reading it alone.
pub proof fn lemma_digits_val_shift(d: Seq<u8>, s: Seq<u8>, i: int, j: int)
    requires
        0 <= i,
        0 <= j <= d.len(),
        forall|k: int| 0 <= k < j ==> s[i + k] == d[k],
    ensures
        digits_val(s, i, i + j) == digits_val(d, 0, j),
    decreases j,
{
    if j > 0 {
        lemma_digits_val_shift(d, s, i, j - 1);
        assert(s[i + (j - 1)] == d[j - 1]);
    }
}

/// An encoding's first byte names its grammar — the integer marker, a
/// digit, the list marker or the dictionary marker — and so is never a
/// close marker; and every encoding holds at least one byte.
pub proof fn lemma_spec_encode_first(m: Bval)
    ensures
        1 <= spec_encode(m).len(),
        spec_encode(m)[0] == 105 || is_digit(spec_encode(m)[0]) || spec_encode(m)[0] == 108
            || spec_encode(m)[0] == 100,
        m is ByteString ==> is_digit(spec_encode(m)[0]),
{
    match m {
        Bval::Integer(v) => {
            assert(spec_encode(m)[0] == 105);
        },
        Bval::ByteString(b) => {
            lemma_spec_digits_props(b.len() as int);
            let d = spec_digits(b.len() as int);
            assert(spec_encode(m)[0] == (d + seq![58u8] + b)[0]);
            assert((d + seq![58u8] + b)[0] == d[0]);
        },
        Bval::List(items) => {
            assert(spec_encode(m)[0] == 108);
        },
        Bval::Dictionary(ps) => {
            assert(spec_encode(m)[0] == 100);
        },
    }
}

/// A key-sorted pair run is already its own normal form.
pub proof fn lemma_norm_pairs_sorted_id(ps: Seq<(Seq<u8>, Bval)>)
    requires
        sorted_pairs(ps),
    ensures
        norm_pairs(ps) == ps,
    decreases ps.len(),
{
    if ps.len() > 0 {
        let head = ps.drop_last();
        assert forall|a: int, b: int| 0 <= a < b < head.len() implies lex_lt(
            head[a].0,
            head[b].0,
        ) by {
            assert(ps[a] == head[a] && ps[b] == head[b]);
            assert(lex_lt(ps[a].0, ps[b].0));
        }
        lemma_norm_pairs_sorted_id(head);
        assert forall|j: int| 0 <= j < head.len() implies lex_lt(
            (#[trigger] head[j]).0,
            ps.last().0,
        ) by {
            assert(ps[j] == head[j]);
            assert(lex_lt(ps[j].0, ps[ps.len() - 1].0));
        }
        lemma_insert_pair_at(head, ps.last().0, ps.last().1, head.len() as int);
        assert(insert_pair(head, ps.last().0, ps.last().1) =~= head.take(head.len() as int)
            + seq![(ps.last().0, ps.last().1)] + head.skip(head.len() as int));
        assert(head.take(head.len() as int) =~= head);
        assert(head.skip(head.len() as int) =~= Seq::<(Seq<u8>, Bval)>::empty());
        assert(norm_pairs(ps) =~= head.push(ps.last()));
        assert(head.push(ps.last()) =~= ps);
    }
}

/// Where a byte string's encoding stands in a buffer, the byte-string
/// grammar reads back exactly those bytes and stops at its end.
pub proof fn lemma_parse_of_encoded_bstr(b: Seq<u8>, s: Seq<u8>, i: int)
    requires
        b.len() <= usize::MAX,
        0 <= i,
        i + spec_encode(Bval::ByteString(b)).len() <= s.len(),
        s.subrange(i, i + spec_encode(Bval::ByteString(b)).len() as int) == spec_encode(
            Bval::ByteString(b),
        ),
    ensures
        sp_str_at(s, i) == Some((b, i + spec_encode(Bval::ByteString(b)).len())),
{
    let enc = spec_encode(Bval::ByteString(b));
    let d = spec_digits(b.len() as int);
    let dl = d.len() as int;
    lemma_spec_digits_props(b.len() as int);
    assert(enc == d + seq![58u8] + b);
    assert forall|k: int| i <= k < i + dl implies is_digit(#[trigger] s[k]) by {
        lemma_region_index(s, i, enc, k - i);
        assert(s[i + (k - i)] == enc[k - i]);
        assert(enc[k - i] == d[k - i]);
    }
    lemma_region_index(s, i, enc, dl);
    assert(s[i + dl] == enc[dl]);
    assert(enc[dl] == 58);
    lemma_digit_run_end_is(s, i, i + dl);
    assert forall|k: int| 0 <= k < dl implies s[i + k] == d[k] by {
        lemma_region_index(s, i, enc, k);
        assert(enc[k] == d[k]);
    }
    lemma_digits_val_shift(d, s, i, dl);
    assert(digits_val(s, i, i + dl) == b.len() as int);
    if dl > 1 {
        lemma_region_index(s, i, enc, 0);
        assert(s[i + 0] == enc[0]);
        assert(enc[0] == d[0]);
        assert(b.len() as int >= 1);
    }
    assert forall|k: int| 0 <= k < b.len() implies s.subrange(
        i + dl + 1,
        i + dl + 1 + b.len() as int,
    )[k] == b[k] by {
        lemma_region_index(s, i, enc, dl + 1 + k);
        assert(s[i + (dl + 1 + k)] == enc[dl + 1 + k]);
        assert(enc[dl + 1 + k] == b[k]);
        assert(s.subrange(i + dl + 1, i + dl + 1 + b.len() as int)[k] == s[i + dl + 1 + k]);
    }
    assert(s.subrange(i + dl + 1, i + dl + 1 + b.len() as int) =~= b);
    assert(enc.len() == dl + 1 + b.len());
    assert(sp_str_at(s, i) == Some((b, i + dl + 1 + b.len() as int)));
}

/// Where a well-formed value's encoding stands in a buffer, the value
/// grammar reads back exactly that value and stops at its end.
pub proof fn lemma_parse_of_encoded_value(m: Bval, s: Seq<u8>, i: int)
    requires
        wf(m),
        0 <= i,
        i + spec_encode(m).len() <= s.len(),
        s.subrange(i, i + spec_encode(m).len() as int) == spec_encode(m),
    ensures
        sp_value_at(s, i) == Some((m, i + spec_encode(m).len())),
    decreases m,
{
    let enc = spec_encode(m);
    lemma_spec_encode_first(m);
    lemma_region_index(s, i, enc, 0);
    assert(s[i + 0] == enc[0]);
    match m {
        Bval::Integer(v) => {
            let neg = v < 0;
            let mag = if neg {
                -v
            } else {
                v
            };
            let d = spec_digits(mag);
            let dl = d.len() as int;
            lemma_spec_digits_props(mag);
            assert(enc == seq![105u8] + (if neg {
                seq![45u8] + d
            } else {
                d
            }) + seq![101u8]);
            let ds = if neg {
                i + 2
            } else {
                i + 1
            };
            assert(s[i] == 105);
            lemma_region_index(s, i, enc, 1);
            assert(s[i + 1] == enc[1]);
            if neg {
                assert(enc[1] == 45);
            } else {
                assert(enc[1] == d[0]);
            }
            assert forall|k: int| ds <= k < ds + dl implies is_digit(#[trigger] s[k]) by {
                lemma_region_index(s, i, enc, k - i);
                assert(s[i + (k - i)] == enc[k - i]);
                assert(enc[k - i] == d[k - ds]);
            }
            lemma_region_index(s, i, enc, ds + dl - i);
            assert(s[i + (ds + dl - i)] == enc[ds + dl - i]);
            assert(enc[ds + dl - i] == 101);
            lemma_digit_run_end_is(s, ds, ds + dl);
            assert forall|k: int| 0 <= k < dl implies s[ds + k] == d[k] by {
                lemma_region_index(s, i, enc, (ds - i) + k);
                assert(s[i + ((ds - i) + k)] == enc[(ds - i) + k]);
                assert(enc[(ds - i) + k] == d[k]);
            }
            lemma_digits_val_shift(d, s, ds, dl);
            assert(digits_val(s, ds, ds + dl) == mag);
            if dl > 1 {
                assert(s[ds + 0] == d[0]);
                assert(mag >= 1);
            }
            if neg {
                assert(mag >= 1);
            }
            assert(sp_int_at(s, i) == Some((v, ds + dl + 1)));
            assert(enc.len() == (ds + dl + 1) - i);
        },
        Bval::ByteString(b) => {
            lemma_parse_of_encoded_bstr(b, s, i);
            assert(is_digit(s[i]));
        },
        Bval::List(items) => {
            assert(s[i] == 108);
            let body = spec_encode_seq(items);
            assert(enc == seq![108u8] + body + seq![101u8]);
            assert forall|j: int| 0 <= j < body.len() + 1 implies s.subrange(
                i + 1,
                i + 1 + body.len() + 1,
            )[j] == (body + seq![101u8])[j] by {
                lemma_region_index(s, i, enc, 1 + j);
                assert(s[i + (1 + j)] == enc[1 + j]);
                assert(enc[1 + j] == (body + seq![101u8])[j]);
                assert(s.subrange(i + 1, i + 1 + body.len() + 1)[j] == s[i + 1 + j]);
            }
            assert(s.subrange(i + 1, i + 1 + (body + seq![101u8]).len() as int) =~= body + seq![
                101u8,
            ]);
            lemma_parse_of_encoded_items(items, s, i + 1);
            assert(enc.len() == 1 + body.len() + 1);
        },
        Bval::Dictionary(ps) => {
            assert(s[i] == 100);
            let body = spec_encode_pairs(ps);
            assert(enc == seq![100u8] + body + seq![101u8]);
            assert forall|j: int| 0 <= j < body.len() + 1 implies s.subrange(
                i + 1,
                i + 1 + body.len() + 1,
            )[j] == (body + seq![101u8])[j] by {
                lemma_region_index(s, i, enc, 1 + j);
                assert(s[i + (1 + j)] == enc[1 + j]);
                assert(enc[1 + j] == (body + seq![101u8])[j]);
                assert(s.subrange(i + 1, i + 1 + body.len() + 1)[j] == s[i + 1 + j]);
            }
            assert(s.subrange(i + 1, i + 1 + (body + seq![101u8]).len() as int) =~= body + seq![
                101u8,
            ]);
            lemma_parse_of_encoded_pairs(ps, s, i + 1);
            lemma_norm_pairs_sorted_id(ps);
            assert(enc.len() == 1 + body.len() + 1);
        },
    }
}

/// Where a run of well-formed values' encodings stands in a buffer,
/// followed by a close marker, the element-run grammar reads back exactly
/// those values and stops past the marker.
pub proof fn lemma_parse_of_encoded_items(items: Seq<Bval>, s: Seq<u8>, i: int)
    requires
        forall|j: int| 0 <= j < items.len() ==> wf(#[trigger] items[j]),
        0 <= i,
        i + spec_encode_seq(items).len() + 1 <= s.len(),
        s.subrange(i, i + spec_encode_seq(items).len() + 1) == spec_encode_seq(items) + seq![
            101u8,
        ],
    ensures
        sp_items_at(s, i) == Some((items, i + spec_encode_seq(items).len() + 1)),
    decreases items,
{
    let body = spec_encode_seq(items);
    let region = body + seq![101u8];
    if items.len() == 0 {
        lemma_region_index(s, i, region, 0);
        assert(s[i + 0] == region[0]);
        assert(region[0] == 101);
        assert(sp_items_at(s, i) == Some((Seq::<Bval>::empty(), i + 1)));
        assert(items =~= Seq::<Bval>::empty());
    } else {
        let head = items[0];
        let tail = items.drop_first();
        let e0 = spec_encode(head);
        assert(body == e0 + spec_encode_seq(tail));
        lemma_spec_encode_first(head);
        lemma_region_index(s, i, region, 0);
        assert(s[i + 0] == region[0]);
        assert(region[0] == e0[0]);
        assert(s[i] != 101);
        assert forall|j: int| 0 <= j < e0.len() implies s.subrange(i, i + e0.len() as int)[j]
            == e0[j] by {
            lemma_region_index(s, i, region, j);
            assert(s[i + j] == region[j]);
            assert(region[j] == e0[j]);
            assert(s.subrange(i, i + e0.len() as int)[j] == s[i + j]);
        }
        assert(s.subrange(i, i + e0.len() as int) =~= e0);
        lemma_parse_of_encoded_value(head, s, i);
        let i2 = i + e0.len() as int;
        let tb = spec_encode_seq(tail);
        assert forall|j: int| 0 <= j < tb.len() + 1 implies s.subrange(i2, i2 + tb.len() + 1)[j]
            == (tb + seq![101u8])[j] by {
            lemma_region_index(s, i, region, e0.len() + j);
            assert(s[i + (e0.len() + j)] == region[e0.len() + j]);
            assert(region[e0.len() + j] == (tb + seq![101u8])[j]);
            assert(s.subrange(i2, i2 + tb.len() + 1)[j] == s[i2 + j]);
        }
        assert(s.subrange(i2, i2 + tb.len() + 1) =~= tb + seq![101u8]);
        lemma_parse_of_encoded_items(tail, s, i2);
        assert(sp_value_at(s, i) == Some((head, i2)));
        assert(sp_items_at(s, i2) == Some((tail, i2 + tb.len() + 1)));
        assert(seq![head] + tail =~= items);
        assert(sp_items_at(s, i) == Some((items, i + body.len() + 1)));
    }
}

/// Where a run of pairs' encodings stands in a buffer, keys as byte
/// strings before well-formed values, followed by a close marker, the
/// pair-run grammar reads back exactly those pairs and stops past the
/// marker.
pub proof fn lemma_parse_of_encoded_pairs(ps: Seq<(Seq<u8>, Bval)>, s: Seq<u8>, i: int)
    requires
        forall|j: int|
            0 <= j < ps.len() ==> (#[trigger] ps[j]).0.len() <= usize::MAX && wf(ps[j].1),
        0 <= i,
        i + spec_encode_pairs(ps).len() + 1 <= s.len(),
        s.subrange(i, i + spec_encode_pairs(ps).len() + 1) == spec_encode_pairs(ps) + seq![
            101u8,
        ],
    ensures
        sp_pairs_at(s, i) == Some((ps, i + spec_encode_pairs(ps).len() + 1)),
    decreases ps,
{
    let body = spec_encode_pairs(ps);
    let region = body + seq![101u8];
    if ps.len() == 0 {
        lemma_region_index(s, i, region, 0);
        assert(s[i + 0] == region[0]);
        assert(region[0] == 101);
        assert(sp_pairs_at(s, i) == Some((Seq::<(Seq<u8>, Bval)>::empty(), i + 1)));
        assert(ps =~= Seq::<(Seq<u8>, Bval)>::empty());
    } else {
        let k = ps[0].0;
        let v = ps[0].1;
        let tail = ps.drop_first();
        let ke = spec_encode(Bval::ByteString(k));
        let ve = spec_encode(v);
        let tb = spec_encode_pairs(tail);
        assert(body == spec_digits(k.len() as int) + seq![58u8] + k + ve + tb);
        assert(ke == spec_digits(k.len() as int) + seq![58u8] + k);
        assert forall|j: int| 0 <= j < body.len() implies body[j] == (ke + ve + tb)[j] by {
        }
        assert(body =~= ke + ve + tb);
        lemma_spec_encode_first(Bval::ByteString(k));
        lemma_region_index(s, i, region, 0);
        assert(s[i + 0] == region[0]);
        assert(region[0] == ke[0]);
        assert(is_digit(s[i]));
        assert(s[i] != 101);
        assert forall|j: int| 0 <= j < ke.len() implies s.subrange(i, i + ke.len() as int)[j]
            == ke[j] by {
            lemma_region_index(s, i, region, j);
            assert(s[i + j] == region[j]);
            assert(region[j] == ke[j]);
            assert(s.subrange(i, i + ke.len() as int)[j] == s[i + j]);
        }
        assert(s.subrange(i, i + ke.len() as int) =~= ke);
        assert(wf(ps[0].1) && ps[0].0.len() <= usize::MAX);
        lemma_parse_of_encoded_bstr(k, s, i);
        let i2 = i + ke.len() as int;
        assert forall|j: int| 0 <= j < ve.len() implies s.subrange(i2, i2 + ve.len() as int)[j]
            == ve[j] by {
            lemma_region_index(s, i, region, ke.len() + j);
            assert(s[i + (ke.len() + j)] == region[ke.len() + j]);
            assert(region[ke.len() + j] == ve[j]);
            assert(s.subrange(i2, i2 + ve.len() as int)[j] == s[i2 + j]);
        }
        assert(s.subrange(i2, i2 + ve.len() as int) =~= ve);
        lemma_parse_of_encoded_value(v, s, i2);
        let i3 = i2 + ve.len() as int;
        assert forall|j: int| 0 <= j < tb.len() + 1 implies s.subrange(i3, i3 + tb.len() + 1)[j]
            == (tb + seq![101u8])[j] by {
            lemma_region_index(s, i, region, ke.len() + ve.len() + j);
            assert(s[i + (ke.len() + ve.len() + j)] == region[ke.len() + ve.len() + j]);
            assert(region[ke.len() + ve.len() + j] == (tb + seq![101u8])[j]);
            assert(s.subrange(i3, i3 + tb.len() + 1)[j] == s[i3 + j]);
        }
        assert(s.subrange(i3, i3 + tb.len() + 1) =~= tb + seq![101u8]);
        assert forall|j: int| 0 <= j < tail.len() implies (#[trigger] tail[j]).0.len()
            <= usize::MAX && wf(tail[j].1) by {
            assert(ps[j + 1] == tail[j]);
        }
        lemma_parse_of_encoded_pairs(tail, s, i3);
        assert(sp_str_at(s, i) == Some((k, i2)));
        assert(sp_value_at(s, i2) == Some((v, i3)));
        assert(sp_pairs_at(s, i3) == Some((tail, i3 + tb.len() + 1)));
        assert(seq![(k, v)] + tail =~= ps);
        assert(sp_pairs_at(s, i) == Some((ps, i + body.len() + 1)));
    }
}

/// Round-trip: a well-formed value, encoded and parsed back — with any
/// bytes at all following the encoding — yields itself exactly, and what
/// follows is left unconsumed.
pub proof fn lemma_parse_encode_roundtrip(m: Bval, rest: Seq<u8>)
    requires
        wf(m),
    ensures
        sp_value_at(spec_encode(m) + rest, 0) == Some((m, spec_encode(m).len() as int)),
{
    let s = spec_encode(m) + rest;
    assert(s.subrange(0, spec_encode(m).len() as int) =~= spec_encode(m));
    lemma_parse_of_encoded_value(m, s, 0);
}

/// Idempotent canonicalization: encoding the value parsed back from a
/// well-formed value's encoding reproduces that encoding.
pub proof fn lemma_encode_parse_idempotent(m: Bval)
    requires
        wf(m),
    ensures
        sp_value_at(spec_encode(m), 0) matches Some(p) && spec_encode(p.0) == spec_encode(m),
{
    lemma_parse_encode_roundtrip(m, Seq::empty());
    assert(spec_encode(m) + Seq::<u8>::empty() =~= spec_encode(m));
}

} // verus!
