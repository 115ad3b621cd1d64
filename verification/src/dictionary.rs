//! The dictionary grammar's supporting order theory and the sorted-pair
//! store: byte-lexicographic comparison of keys, ordered insertion with
//! last-write-wins on a repeated key, and the lemmas that keep the store's
//! sortedness invariant.

use crate::common::{
    bval_of, bpairs_of, insert_pair, lemma_bpairs_of_index, lex_lt, norm_pairs, sorted_pairs,
    BencodeValue, Bval, ParseError,
};
use crate::parser::{parse_pairs_at, sp_pairs_at, sp_pairs_err_at};
use vstd::prelude::*;

verus! {

/// The key order never holds both ways, never holds on equals, and any
/// two keys are related one way or the other.
pub proof fn lemma_lex_trichotomy(a: Seq<u8>, b: Seq<u8>)
    ensures
        lex_lt(a, b) || lex_lt(b, a) || a == b,
        lex_lt(a, b) ==> !lex_lt(b, a) && a != b,
        a == b ==> !lex_lt(a, b),
    decreases a.len(),
{
    if a.len() > 0 && b.len() > 0 && a[0] == b[0] {
        lemma_lex_trichotomy(a.drop_first(), b.drop_first());
        if a.drop_first() == b.drop_first() {
            assert forall|i: int| 0 <= i < a.len() implies a[i] == b[i] by {
                if i > 0 {
                    assert(a.drop_first()[i - 1] == a[i]);
                    assert(b.drop_first()[i - 1] == b[i]);
                }
            }
            assert(a =~= b);
        }
        if a == b {
            assert(a.drop_first() =~= b.drop_first());
        }
    } else if a.len() == 0 && b.len() == 0 {
        assert(a =~= b);
    }
}

/// The key order is transitive.
pub proof fn lemma_lex_trans(a: Seq<u8>, b: Seq<u8>, c: Seq<u8>)
    requires
        lex_lt(a, b),
        lex_lt(b, c),
    ensures
        lex_lt(a, c),
    decreases a.len() + b.len() + c.len(),
{
    if a.len() > 0 && b.len() > 0 && c.len() > 0 && a[0] == b[0] && b[0] == c[0] {
        lemma_lex_trans(a.drop_first(), b.drop_first(), c.drop_first());
    }
}

/// Two keys that agree up to position `i`, where one of them ends or they
/// differ, are ordered by what stands at `i`.
pub proof fn lemma_lex_decide(a: Seq<u8>, b: Seq<u8>, i: int)
    requires
        0 <= i <= a.len(),
        i <= b.len(),
        forall|k: int| 0 <= k < i ==> a[k] == b[k],
    ensures
        i < a.len() && i < b.len() && a[i] < b[i] ==> lex_lt(a, b),
        i < a.len() && i < b.len() && a[i] > b[i] ==> lex_lt(b, a),
        i == a.len() && i < b.len() ==> lex_lt(a, b),
        i == b.len() && i < a.len() ==> lex_lt(b, a),
        i == a.len() && i == b.len() ==> a == b,
    decreases i,
{
    if i == 0 {
        if a.len() == 0 && b.len() == 0 {
            assert(a =~= b);
        }
    } else {
        lemma_lex_decide(a.drop_first(), b.drop_first(), i - 1);
        if i == a.len() && i == b.len() {
            assert(a =~= b);
        }
    }
}

/// Ordered insertion keeps the pairs sorted, and adds no pair but the new
/// one: every pair of the result is the new pair or one of the old pairs.
pub proof fn lemma_insert_pair_props(ps: Seq<(Seq<u8>, Bval)>, k: Seq<u8>, v: Bval)
    requires
        sorted_pairs(ps),
    ensures
        sorted_pairs(insert_pair(ps, k, v)),
        forall|j: int|
            0 <= j < insert_pair(ps, k, v).len() ==> (#[trigger] insert_pair(ps, k, v)[j]) == (k, v)
                || ps.contains(insert_pair(ps, k, v)[j]),
    decreases ps.len(),
{
    let r = insert_pair(ps, k, v);
    if ps.len() == 0 {
    } else if lex_lt(k, ps[0].0) {
        assert forall|i: int, j: int| 0 <= i < j < r.len() implies lex_lt(r[i].0, r[j].0) by {
            if i == 0 {
                if j > 1 {
                    lemma_lex_trans(k, ps[0].0, ps[j - 1].0);
                }
            }
        }
        assert forall|j: int| 0 <= j < r.len() implies r[j] == (k, v) || ps.contains(r[j]) by {
            if j > 0 {
                assert(r[j] == ps[j - 1]);
            }
        }
    } else if k == ps[0].0 {
        assert forall|j: int| 0 <= j < r.len() implies r[j] == (k, v) || ps.contains(r[j]) by {
            if j > 0 {
                assert(r[j] == ps[j]);
            }
        }
    } else {
        lemma_lex_trichotomy(k, ps[0].0);
        assert(lex_lt(ps[0].0, k));
        assert(sorted_pairs(ps.drop_first()));
        lemma_insert_pair_props(ps.drop_first(), k, v);
        let rr = insert_pair(ps.drop_first(), k, v);
        assert forall|j: int| 0 <= j < r.len() implies r[j] == (k, v) || ps.contains(r[j]) by {
            if j > 0 {
                assert(r[j] == rr[j - 1]);
                if rr[j - 1] != (k, v) {
                    let w = choose|w: int|
                        0 <= w < ps.drop_first().len() && ps.drop_first()[w] == rr[j - 1];
                    assert(ps[w + 1] == rr[j - 1]);
                }
            } else {
                assert(r[0] == ps[0]);
            }
        }
        assert forall|i: int, j: int| 0 <= i < j < r.len() implies lex_lt(r[i].0, r[j].0) by {
            if i == 0 {
                assert(r[j] == rr[j - 1]);
                if rr[j - 1] == (k, v) {
                    assert(lex_lt(ps[0].0, k));
                } else {
                    let w = choose|w: int|
                        0 <= w < ps.drop_first().len() && ps.drop_first()[w] == rr[j - 1];
                    assert(lex_lt(ps[0].0, ps[w + 1].0));
                }
            } else {
                assert(r[i] == rr[i - 1] && r[j] == rr[j - 1]);
            }
        }
    }
}

/// The normal form of any pair sequence is sorted, and holds no pair that
/// was not in the sequence.
pub proof fn lemma_norm_pairs_props(ps: Seq<(Seq<u8>, Bval)>)
    ensures
        sorted_pairs(norm_pairs(ps)),
        forall|j: int|
            0 <= j < norm_pairs(ps).len() ==> ps.contains(#[trigger] norm_pairs(ps)[j]),
    decreases ps.len(),
{
    if ps.len() > 0 {
        lemma_norm_pairs_props(ps.drop_last());
        lemma_insert_pair_props(norm_pairs(ps.drop_last()), ps.last().0, ps.last().1);
        assert forall|j: int| 0 <= j < norm_pairs(ps).len() implies ps.contains(
            norm_pairs(ps)[j],
        ) by {
            let q = norm_pairs(ps)[j];
            if q == (ps.last().0, ps.last().1) {
                assert(ps[ps.len() - 1] == q);
            } else {
                assert(norm_pairs(ps.drop_last()).contains(q));
                let w = choose|w: int|
                    0 <= w < norm_pairs(ps.drop_last()).len() && norm_pairs(ps.drop_last())[w]
                        == q;
                assert(norm_pairs(ps.drop_last()).contains(q) ==> ps.drop_last().contains(q));
                let u = choose|u: int| 0 <= u < ps.drop_last().len() && ps.drop_last()[u] == q;
                assert(ps[u] == q);
            }
        }
    }
}

/// Where ordered insertion puts the new pair, read off from the scan
/// position `i`: overwrite in place on an equal key, otherwise make room
/// at `i`.
pub proof fn lemma_insert_pair_at(s: Seq<(Seq<u8>, Bval)>, k: Seq<u8>, v: Bval, i: int)
    requires
        0 <= i <= s.len(),
        forall|j: int| 0 <= j < i ==> lex_lt((#[trigger] s[j]).0, k),
        i < s.len() ==> !lex_lt(s[i].0, k),
    ensures
        i < s.len() && s[i].0 == k ==> insert_pair(s, k, v) =~= s.update(i, (k, v)),
        (i == s.len() || s[i].0 != k) ==> insert_pair(s, k, v) =~= s.take(i) + seq![(k, v)]
            + s.skip(i),
    decreases i,
{
    if i == 0 {
        if s.len() > 0 && s[0].0 != k {
            lemma_lex_trichotomy(k, s[0].0);
        }
    } else {
        lemma_insert_pair_at(s.drop_first(), k, v, i - 1);
        assert(lex_lt(s[0].0, k));
        lemma_lex_trichotomy(k, s[0].0);
        if i < s.len() && s[i].0 == k {
            assert(insert_pair(s, k, v) =~= seq![s[0]] + insert_pair(s.drop_first(), k, v));
            assert(insert_pair(s.drop_first(), k, v) =~= s.drop_first().update(i - 1, (k, v)));
            assert(seq![s[0]] + s.drop_first().update(i - 1, (k, v)) =~= s.update(i, (k, v)));
        } else {
            assert(insert_pair(s, k, v) =~= seq![s[0]] + insert_pair(s.drop_first(), k, v));
            assert(insert_pair(s.drop_first(), k, v) =~= s.drop_first().take(i - 1) + seq![
                (k, v),
            ] + s.drop_first().skip(i - 1));
            assert(seq![s[0]] + (s.drop_first().take(i - 1) + seq![(k, v)] + s.drop_first().skip(
                i - 1,
            )) =~= s.take(i) + seq![(k, v)] + s.skip(i));
        }
    }
}

/// Everything ordered insertion does, pair by pair: the new pair is in,
/// every old pair under another key is kept, and nothing else appears —
/// an old pair under the same key is gone.
pub proof fn lemma_insert_pair_full(s: Seq<(Seq<u8>, Bval)>, k: Seq<u8>, v: Bval)
    requires
        sorted_pairs(s),
    ensures
        sorted_pairs(insert_pair(s, k, v)),
        insert_pair(s, k, v).contains((k, v)),
        forall|p: (Seq<u8>, Bval)|
            s.contains(p) && p.0 != k ==> insert_pair(s, k, v).contains(p),
        forall|j: int|
            0 <= j < insert_pair(s, k, v).len() ==> (#[trigger] insert_pair(s, k, v)[j]) == (
            k, v) || (s.contains(insert_pair(s, k, v)[j]) && insert_pair(s, k, v)[j].0 != k),
    decreases s.len(),
{
    lemma_insert_pair_props(s, k, v);
    let r = insert_pair(s, k, v);
    if s.len() == 0 {
        assert(r[0] == (k, v));
    } else if lex_lt(k, s[0].0) {
        assert(r[0] == (k, v));
        assert forall|p: (Seq<u8>, Bval)| s.contains(p) && p.0 != k implies r.contains(p) by {
            let w = choose|w: int| 0 <= w < s.len() && s[w] == p;
            assert(r[w + 1] == p);
        }
        assert forall|j: int| 0 <= j < r.len() implies (#[trigger] r[j]) == (k, v) || (
        s.contains(r[j]) && r[j].0 != k) by {
            if j > 0 {
                assert(r[j] == s[j - 1]);
                if j - 1 == 0 {
                    lemma_lex_trichotomy(k, s[0].0);
                } else {
                    lemma_lex_trans(k, s[0].0, s[j - 1].0);
                    lemma_lex_trichotomy(k, s[j - 1].0);
                }
            }
        }
    } else if k == s[0].0 {
        assert(r[0] == (k, v));
        assert forall|p: (Seq<u8>, Bval)| s.contains(p) && p.0 != k implies r.contains(p) by {
            let w = choose|w: int| 0 <= w < s.len() && s[w] == p;
            assert(w > 0);
            assert(r[w] == s.drop_first()[w - 1]);
            assert(r[w] == p);
        }
        assert forall|j: int| 0 <= j < r.len() implies (#[trigger] r[j]) == (k, v) || (
        s.contains(r[j]) && r[j].0 != k) by {
            if j > 0 {
                assert(r[j] == s[j]);
                assert(lex_lt(s[0].0, s[j].0));
                lemma_lex_trichotomy(k, s[j].0);
            }
        }
    } else {
        lemma_lex_trichotomy(k, s[0].0);
        assert(lex_lt(s[0].0, k));
        assert(sorted_pairs(s.drop_first()));
        lemma_insert_pair_full(s.drop_first(), k, v);
        let rr = insert_pair(s.drop_first(), k, v);
        assert(r =~= seq![s[0]] + rr);
        assert(rr.contains((k, v)));
        let w0 = choose|w: int| 0 <= w < rr.len() && rr[w] == (k, v);
        assert(r[w0 + 1] == (k, v));
        assert forall|p: (Seq<u8>, Bval)| s.contains(p) && p.0 != k implies r.contains(p) by {
            let w = choose|w: int| 0 <= w < s.len() && s[w] == p;
            if w == 0 {
                assert(r[0] == p);
            } else {
                assert(s.drop_first()[w - 1] == p);
                assert(s.drop_first().contains(p));
                assert(rr.contains(p));
                let u = choose|u: int| 0 <= u < rr.len() && rr[u] == p;
                assert(r[u + 1] == p);
            }
        }
        assert forall|j: int| 0 <= j < r.len() implies (#[trigger] r[j]) == (k, v) || (
        s.contains(r[j]) && r[j].0 != k) by {
            if j == 0 {
                assert(r[0] == s[0]);
                assert(s[0 as int] == s[0]);
                lemma_lex_trichotomy(s[0].0, k);
            } else {
                assert(r[j] == rr[j - 1]);
                if rr[j - 1] != (k, v) {
                    assert(s.drop_first().contains(rr[j - 1]) && rr[j - 1].0 != k);
                    let u = choose|u: int|
                        0 <= u < s.drop_first().len() && s.drop_first()[u] == rr[j - 1];
                    assert(s[u + 1] == rr[j - 1]);
                }
            }
        }
    }
}

/// Insertion order does not matter for distinct keys: two pairs under
/// different keys land in the same key-sorted store whichever went in
/// first, so a dictionary built from distinct keys is the same whatever
/// order they were added in.
pub proof fn lemma_insert_pair_commutes(
    s: Seq<(Seq<u8>, Bval)>,
    k1: Seq<u8>,
    v1: Bval,
    k2: Seq<u8>,
    v2: Bval,
)
    requires
        sorted_pairs(s),
        k1 != k2,
    ensures
        insert_pair(insert_pair(s, k1, v1), k2, v2) == insert_pair(
            insert_pair(s, k2, v2),
            k1,
            v1,
        ),
{
    let a1 = insert_pair(s, k1, v1);
    let a2 = insert_pair(s, k2, v2);
    let lhs = insert_pair(a1, k2, v2);
    let rhs = insert_pair(a2, k1, v1);
    lemma_insert_pair_full(s, k1, v1);
    lemma_insert_pair_full(s, k2, v2);
    lemma_insert_pair_full(a1, k2, v2);
    lemma_insert_pair_full(a2, k1, v1);
    assert forall|j: int| 0 <= j < lhs.len() implies rhs.contains(#[trigger] lhs[j]) by {
        if lhs[j] == (k2, v2) {
            assert(a2.contains((k2, v2)));
            assert(rhs.contains((k2, v2)));
        } else {
            assert(a1.contains(lhs[j]) && lhs[j].0 != k2);
            let w = choose|w: int| 0 <= w < a1.len() && a1[w] == lhs[j];
            if a1[w] == (k1, v1) {
                assert(rhs.contains((k1, v1)));
            } else {
                assert(s.contains(a1[w]) && a1[w].0 != k1);
                assert(a2.contains(a1[w]));
                assert(rhs.contains(a1[w]));
            }
        }
    }
    assert forall|j: int| 0 <= j < rhs.len() implies lhs.contains(#[trigger] rhs[j]) by {
        if rhs[j] == (k1, v1) {
            assert(a1.contains((k1, v1)));
            assert(lhs.contains((k1, v1)));
        } else {
            assert(a2.contains(rhs[j]) && rhs[j].0 != k1);
            let w = choose|w: int| 0 <= w < a2.len() && a2[w] == rhs[j];
            if a2[w] == (k2, v2) {
                assert(lhs.contains((k2, v2)));
            } else {
                assert(s.contains(a2[w]) && a2[w].0 != k2);
                assert(a1.contains(a2[w]));
                assert(lhs.contains(a2[w]));
            }
        }
    }
    lemma_sorted_pairs_unique(lhs, rhs);
}

/// A dictionary's normal form is unmoved by swapping the insertion order
/// of two pairs under different keys.
pub proof fn lemma_norm_pairs_swap(
    ps: Seq<(Seq<u8>, Bval)>,
    a: (Seq<u8>, Bval),
    b: (Seq<u8>, Bval),
)
    requires
        a.0 != b.0,
    ensures
        norm_pairs(ps.push(a).push(b)) == norm_pairs(ps.push(b).push(a)),
{
    lemma_norm_pairs_props(ps);
    assert(ps.push(a).push(b).drop_last() =~= ps.push(a));
    assert(ps.push(a).drop_last() =~= ps);
    assert(ps.push(b).push(a).drop_last() =~= ps.push(b));
    assert(ps.push(b).drop_last() =~= ps);
    assert(ps.push(a).push(b).last() == b);
    assert(ps.push(a).last() == a);
    assert(ps.push(b).push(a).last() == a);
    assert(ps.push(b).last() == b);
    assert(norm_pairs(ps.push(a)) == insert_pair(norm_pairs(ps), a.0, a.1));
    assert(norm_pairs(ps.push(b)) == insert_pair(norm_pairs(ps), b.0, b.1));
    assert(norm_pairs(ps.push(a).push(b)) == insert_pair(
        insert_pair(norm_pairs(ps), a.0, a.1),
        b.0,
        b.1,
    ));
    assert(norm_pairs(ps.push(b).push(a)) == insert_pair(
        insert_pair(norm_pairs(ps), b.0, b.1),
        a.0,
        a.1,
    ));
    lemma_insert_pair_commutes(norm_pairs(ps), a.0, a.1, b.0, b.1);
}

/// A key-sorted pair run is determined by which pairs it holds: two
/// sorted runs that contain each other's pairs are the same run.
pub proof fn lemma_sorted_pairs_unique(es1: Seq<(Seq<u8>, Bval)>, es2: Seq<(Seq<u8>, Bval)>)
    requires
        sorted_pairs(es1),
        sorted_pairs(es2),
        forall|j: int| 0 <= j < es1.len() ==> es2.contains(#[trigger] es1[j]),
        forall|j: int| 0 <= j < es2.len() ==> es1.contains(#[trigger] es2[j]),
    ensures
        es1 == es2,
    decreases es1.len(),
{
    if es1.len() == 0 {
        if es2.len() > 0 {
            assert(es1.contains(es2[0]));
        }
        assert(es1 =~= es2);
    } else {
        assert(es2.contains(es1[0]));
        let j2 = choose|j: int| 0 <= j < es2.len() && es2[j] == es1[0];
        assert(es1.contains(es2[0]));
        let j1 = choose|j: int| 0 <= j < es1.len() && es1[j] == es2[0];
        if j1 > 0 && j2 > 0 {
            assert(lex_lt(es2[0].0, es2[j2].0));
            assert(lex_lt(es1[0].0, es1[j1].0));
            lemma_lex_trans(es1[0].0, es2[0].0, es1[0].0);
            lemma_lex_trichotomy(es1[0].0, es1[0].0);
        }
        assert(es1[0] == es2[0]);
        let t1 = es1.drop_first();
        let t2 = es2.drop_first();
        assert forall|a: int, b: int| 0 <= a < b < t1.len() implies lex_lt(t1[a].0, t1[b].0) by {
            assert(t1[a] == es1[a + 1] && t1[b] == es1[b + 1]);
            assert(lex_lt(es1[a + 1].0, es1[b + 1].0));
        }
        assert forall|a: int, b: int| 0 <= a < b < t2.len() implies lex_lt(t2[a].0, t2[b].0) by {
            assert(t2[a] == es2[a + 1] && t2[b] == es2[b + 1]);
            assert(lex_lt(es2[a + 1].0, es2[b + 1].0));
        }
        assert forall|j: int| 0 <= j < t1.len() implies t2.contains(#[trigger] t1[j]) by {
            assert(t1[j] == es1[j + 1]);
            assert(es2.contains(es1[j + 1]));
            let w = choose|w: int| 0 <= w < es2.len() && es2[w] == es1[j + 1];
            if w == 0 {
                assert(es1[j + 1] == es1[0]);
                assert(lex_lt(es1[0].0, es1[j + 1].0));
                lemma_lex_trichotomy(es1[0].0, es1[j + 1].0);
            } else {
                assert(t2[w - 1] == es2[w]);
            }
        }
        assert forall|j: int| 0 <= j < t2.len() implies t1.contains(#[trigger] t2[j]) by {
            assert(t2[j] == es2[j + 1]);
            assert(es1.contains(es2[j + 1]));
            let w = choose|w: int| 0 <= w < es1.len() && es1[w] == es2[j + 1];
            if w == 0 {
                assert(es2[j + 1] == es2[0]);
                assert(lex_lt(es2[0].0, es2[j + 1].0));
                lemma_lex_trichotomy(es2[0].0, es2[j + 1].0);
            } else {
                assert(t1[w - 1] == es1[w]);
            }
        }
        lemma_sorted_pairs_unique(t1, t2);
        assert forall|j: int| 0 <= j < es1.len() implies es1[j] == es2[j] by {
            if j > 0 {
                assert(t1[j - 1] == es1[j] && t2[j - 1] == es2[j]);
            }
        }
        assert(es1 =~= es2);
    }
}

/// Whether one key comes strictly before another in byte-lexicographic
/// order.
pub fn key_lt(a: &Vec<u8>, b: &Vec<u8>) -> (r: bool)
    ensures
        r == lex_lt(a@, b@),
{
    let mut i: usize = 0;
    while i < a.len() && i < b.len()
        invariant
            i <= a@.len(),
            i <= b@.len(),
            forall|k: int| 0 <= k < i ==> a@[k] == b@[k],
        decreases a@.len() - i,
    {
        let x = a[i];
        let y = b[i];
        if x < y {
            proof {
                lemma_lex_decide(a@, b@, i as int);
            }
            return true;
        }
        if x > y {
            proof {
                lemma_lex_decide(a@, b@, i as int);
                lemma_lex_trichotomy(a@, b@);
            }
            return false;
        }
        i = i + 1;
    }
    proof {
        lemma_lex_decide(a@, b@, i as int);
        lemma_lex_trichotomy(a@, b@);
    }
    a.len() < b.len()
}

/// Whether two keys hold the same bytes.
pub fn key_eq(a: &Vec<u8>, b: &Vec<u8>) -> (r: bool)
    ensures
        r == (a@ == b@),
{
    if a.len() != b.len() {
        proof {
            if a@ == b@ {
                assert(a@.len() == b@.len());
            }
        }
        return false;
    }
    let mut i: usize = 0;
    while i < a.len()
        invariant
            a@.len() == b@.len(),
            i <= a@.len(),
            forall|k: int| 0 <= k < i ==> a@[k] == b@[k],
        decreases a@.len() - i,
    {
        if a[i] != b[i] {
            proof {
                if a@ == b@ {
                    assert(a@[i as int] == b@[i as int]);
                }
            }
            return false;
        }
        i = i + 1;
    }
    proof {
        assert(a@ =~= b@);
    }
    true
}

/// Puts one pair into the key-sorted store, keeping it sorted; an equal
/// key is overwritten, so a repeated key keeps its last value.
#[verifier::loop_isolation(false)]
pub fn insert_sorted(pairs: &mut Vec<(Vec<u8>, BencodeValue)>, key: Vec<u8>, val: BencodeValue)
    ensures
        bpairs_of(final(pairs)@) == insert_pair(bpairs_of(old(pairs)@), key@, bval_of(val)),
{
    proof {
        lemma_bpairs_of_index(pairs@);
    }
    let mut i: usize = 0;
    while i < pairs.len() && key_lt(&pairs[i].0, &key)
        invariant
            i <= pairs@.len(),
            pairs == old(pairs),
            forall|j: int| 0 <= j < i ==> lex_lt((#[trigger] pairs@[j]).0@, key@),
        decreases pairs@.len() - i,
    {
        i = i + 1;
    }
    let ghost m = bpairs_of(pairs@);
    proof {
        assert forall|j: int| 0 <= j < i implies lex_lt((#[trigger] m[j]).0, key@) by {
            assert(m[j] == (pairs@[j].0@, bval_of(pairs@[j].1)));
        }
        lemma_insert_pair_at(m, key@, bval_of(val), i as int);
    }
    if i < pairs.len() && key_eq(&pairs[i].0, &key) {
        pairs.remove(i);
        pairs.insert(i, (key, val));
        proof {
            lemma_bpairs_of_index(pairs@);
            assert(pairs@ =~= old(pairs)@.update(i as int, (key, val)));
            assert(bpairs_of(pairs@) =~= m.update(i as int, (key@, bval_of(val))));
        }
    } else {
        pairs.insert(i, (key, val));
        proof {
            lemma_bpairs_of_index(pairs@);
            assert(pairs@ =~= old(pairs)@.take(i as int) + seq![(key, val)] + old(pairs)@.skip(
                i as int,
            ));
            assert(bpairs_of(pairs@) =~= m.take(i as int) + seq![(key@, bval_of(val))] + m.skip(
                i as int,
            ));
        }
    }
}

/// Parses a complete dictionary from the front of the input and returns
/// the unconsumed remainder beside the key-sorted pairs: whatever key
/// order the input used, the result is the normal form of the pair run
/// that was read, so a repeated key keeps its last value.
pub fn dictionary(input: &[u8]) -> (r: Result<
    (&[u8], Vec<(Vec<u8>, BencodeValue)>),
    ParseError,
>)
    ensures
        r matches Ok(p) ==> {
            &&& input@.len() > 0
            &&& input@[0] == 100
            &&& exists|raw: Seq<(Seq<u8>, Bval)>|
                sp_pairs_at(input@, 1) == Some((raw, input@.len() - p.0@.len())) && bpairs_of(
                    p.1@,
                ) == norm_pairs(raw)
            &&& p.0@ == input@.subrange(input@.len() - p.0@.len(), input@.len() as int)
        },
        r is Err ==> (input@.len() == 0 || input@[0] != 100 || sp_pairs_at(input@, 1) is None),
        r matches Err(e) ==> e == (if input@.len() == 0 {
            ParseError::TruncatedInput(0usize)
        } else if input@[0] != 100 {
            ParseError::InvalidMarker(0usize)
        } else {
            sp_pairs_err_at(input@, 1)
        }),
{
    if input.len() == 0 {
        return Err(ParseError::TruncatedInput(0));
    }
    if input[0] != 100 {
        return Err(ParseError::InvalidMarker(0));
    }
    match parse_pairs_at(input, 1) {
        Ok((pairs, end)) => {
            let rest = vstd::slice::slice_subrange(input, end, input.len());
            Ok((rest, pairs))
        },
        Err(err) => Err(err),
    }
}

} // verus!
