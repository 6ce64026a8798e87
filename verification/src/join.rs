//! The flat relational join operator over indexed Z-sets.

use vstd::prelude::*;
use crate::data::DBData;
use crate::zset::{OrdZSet, canon_of, lemma_canon_of, lemma_pair_keys_mono, lemma_sum_weight_bound, lemma_tuples_sum_concat, lemma_tuples_sum_wf, lemma_zadd_zero, models, pm_wf, sums_bounded, tuples_sum, zadd, zset_wf, zweight};
use crate::indexed::OrdIndexedZSet;

verus! {

/// A join function: a pure, total, deterministic function from a key and
/// one value of each input to an output key, given together with its
/// mathematical model.
pub trait JoinFunc<K: DBData, V1: DBData, V2: DBData, O: DBData>: Sized {
    /// The model of the function on models.
    spec fn fmodel(&self, k: K::V, v1: V1::V, v2: V2::V) -> O::V;

    /// Applies the function; the result carries the model.
    fn feval(&self, k: &K, v1: &V1, v2: &V2) -> (r: O)
        ensures
            r.deep_view() == self.fmodel(k.deep_view(), v1.deep_view(), v2.deep_view()),
    ;
}

/// The weighted outputs of joining the single entry `t1` against every
/// entry of `b` with the same key, in the order of `b`.
pub open spec fn matches_one<K: DBData, V1: DBData, V2: DBData, O: DBData, F: JoinFunc<
    K,
    V1,
    V2,
    O,
>>(f: &F, t1: ((K::V, V1::V), int), b: Seq<((K::V, V2::V), int)>) -> Seq<(O::V, int)>
    decreases b.len(),
{
    if b.len() == 0 {
        Seq::empty()
    } else {
        matches_one(f, t1, b.drop_last()) + if b.last().0.0 == t1.0.0 {
            seq![(f.fmodel(t1.0.0, t1.0.1, b.last().0.1), t1.1 * b.last().1)]
        } else {
            Seq::empty()
        }
    }
}

/// The weighted outputs of the join of `a` and `b`: every matching
/// `(k, v1, v2)` with weight `w1 * w2`, in cursor order.
pub open spec fn jmatches<K: DBData, V1: DBData, V2: DBData, O: DBData, F: JoinFunc<
    K,
    V1,
    V2,
    O,
>>(f: &F, a: Seq<((K::V, V1::V), int)>, b: Seq<((K::V, V2::V), int)>) -> Seq<(O::V, int)>
    decreases a.len(),
{
    if a.len() == 0 {
        Seq::empty()
    } else {
        jmatches(f, a.drop_last(), b) + matches_one(f, a.last(), b)
    }
}

/// The join of two Z-set models: the sum of the weighted matches of
/// their canonical representations.
pub open spec fn zjoin<K: DBData, V1: DBData, V2: DBData, O: DBData, F: JoinFunc<
    K,
    V1,
    V2,
    O,
>>(f: &F, a: Map<(K::V, V1::V), int>, b: Map<(K::V, V2::V), int>) -> Map<O::V, int> {
    tuples_sum(jmatches(f, canon_of::<(K, V1)>(a), canon_of::<(K, V2)>(b)))
}

proof fn lemma_matches_one_take_step<K: DBData, V1: DBData, V2: DBData, O: DBData, F: JoinFunc<
    K,
    V1,
    V2,
    O,
>>(f: &F, t1: ((K::V, V1::V), int), b: Seq<((K::V, V2::V), int)>, j: int)
    requires
        0 <= j < b.len(),
    ensures
        matches_one(f, t1, b.take(j + 1)) == matches_one(f, t1, b.take(j)) + if b[j].0.0
            == t1.0.0 {
            seq![(f.fmodel(t1.0.0, t1.0.1, b[j].0.1), t1.1 * b[j].1)]
        } else {
            Seq::<(O::V, int)>::empty()
        },
{
    assert(b.take(j + 1).drop_last() =~= b.take(j));
    assert(b.take(j + 1).last() == b[j]);
}

proof fn lemma_matches_one_const<K: DBData, V1: DBData, V2: DBData, O: DBData, F: JoinFunc<
    K,
    V1,
    V2,
    O,
>>(f: &F, t1: ((K::V, V1::V), int), b: Seq<((K::V, V2::V), int)>, j1: int, j2: int)
    requires
        0 <= j1 <= j2 <= b.len(),
        forall|j: int| j1 <= j < j2 ==> b[j].0.0 != t1.0.0,
    ensures
        matches_one(f, t1, b.take(j2)) == matches_one(f, t1, b.take(j1)),
    decreases j2 - j1,
{
    if j2 > j1 {
        lemma_matches_one_const(f, t1, b, j1, j2 - 1);
        lemma_matches_one_take_step(f, t1, b, j2 - 1);
        assert(matches_one(f, t1, b.take(j2 - 1)) + Seq::<(O::V, int)>::empty() =~= matches_one(
            f,
            t1,
            b.take(j2 - 1),
        ));
    }
}

proof fn lemma_jmatches_take_step<K: DBData, V1: DBData, V2: DBData, O: DBData, F: JoinFunc<
    K,
    V1,
    V2,
    O,
>>(f: &F, a: Seq<((K::V, V1::V), int)>, b: Seq<((K::V, V2::V), int)>, x: int)
    requires
        0 <= x < a.len(),
    ensures
        jmatches(f, a.take(x + 1), b) == jmatches(f, a.take(x), b) + matches_one(f, a[x], b),
{
    assert(a.take(x + 1).drop_last() =~= a.take(x));
    assert(a.take(x + 1).last() == a[x]);
}

proof fn lemma_jmatches_const<K: DBData, V1: DBData, V2: DBData, O: DBData, F: JoinFunc<
    K,
    V1,
    V2,
    O,
>>(f: &F, a: Seq<((K::V, V1::V), int)>, b: Seq<((K::V, V2::V), int)>, x1: int, x2: int)
    requires
        0 <= x1 <= x2 <= a.len(),
        forall|x: int| x1 <= x < x2 ==> matches_one(f, a[x], b) == Seq::<(O::V, int)>::empty(),
    ensures
        jmatches(f, a.take(x2), b) == jmatches(f, a.take(x1), b),
    decreases x2 - x1,
{
    if x2 > x1 {
        lemma_jmatches_const(f, a, b, x1, x2 - 1);
        lemma_jmatches_take_step(f, a, b, x2 - 1);
        assert(jmatches(f, a.take(x2 - 1), b) + matches_one(f, a[x2 - 1], b) =~= jmatches(
            f,
            a.take(x2 - 1),
            b,
        ));
    }
}

/// An upper bound on the keys a tuple sequence can denote.
pub proof fn lemma_sum_dom_bound<KM>(s: Seq<(KM, int)>)
    ensures
        tuples_sum(s).dom().finite(),
        tuples_sum(s).dom().len() <= s.len(),
    decreases s.len(),
{
    lemma_tuples_sum_wf(s);
    if s.len() > 0 {
        lemma_sum_dom_bound(s.drop_last());
        let m = tuples_sum(s.drop_last());
        let k = s.last().0;
        vstd::set::axiom_set_insert_len(m.dom(), k);
        vstd::set::axiom_set_remove_len(m.dom(), k);
    }
}

proof fn lemma_matches_one_len<K: DBData, V1: DBData, V2: DBData, O: DBData, F: JoinFunc<
    K,
    V1,
    V2,
    O,
>>(f: &F, t1: ((K::V, V1::V), int), b: Seq<((K::V, V2::V), int)>)
    ensures
        matches_one(f, t1, b).len() <= b.len(),
    decreases b.len(),
{
    if b.len() > 0 {
        lemma_matches_one_len(f, t1, b.drop_last());
    }
}

proof fn lemma_jmatches_len<K: DBData, V1: DBData, V2: DBData, O: DBData, F: JoinFunc<
    K,
    V1,
    V2,
    O,
>>(f: &F, a: Seq<((K::V, V1::V), int)>, b: Seq<((K::V, V2::V), int)>)
    ensures
        jmatches(f, a, b).len() <= a.len() * b.len(),
    decreases a.len(),
{
    if a.len() == 0 {
        assert(a.len() * b.len() == 0) by (nonlinear_arith)
            requires a.len() == 0,
        ;
    } else {
        lemma_jmatches_len(f, a.drop_last(), b);
        lemma_matches_one_len(f, a.last(), b);
        assert((a.len() - 1) * b.len() + b.len() == a.len() * b.len()) by (nonlinear_arith);
    }
}

/// The join does not invent keys: its output has at most
/// `|A| * |B|` keys.
pub proof fn lemma_join_len_bound<K: DBData, V1: DBData, V2: DBData, O: DBData, F: JoinFunc<
    K,
    V1,
    V2,
    O,
>>(f: &F, a: Seq<((K::V, V1::V), int)>, b: Seq<((K::V, V2::V), int)>)
    ensures
        tuples_sum(jmatches(f, a, b)).dom().finite(),
        tuples_sum(jmatches(f, a, b)).dom().len() <= a.len() * b.len(),
{
    lemma_sum_dom_bound(jmatches(f, a, b));
    lemma_jmatches_len(f, a, b);
}

/// Appending one entry to the second join input adds that entry's
/// matches to the join.
proof fn lemma_jmatches_push_column<K: DBData, V1: DBData, V2: DBData, O: DBData, F: JoinFunc<
    K,
    V1,
    V2,
    O,
>, G: JoinFunc<K, V2, V1, O>>(
    f: &F,
    g: &G,
    t1: ((K::V, V1::V), int),
    a: Seq<((K::V, V2::V), int)>,
    b: Seq<((K::V, V2::V), int)>,
    a1: Seq<((K::V, V1::V), int)>,
)
    requires
        forall|k: K::V, v1: V1::V, v2: V2::V| #[trigger] g.fmodel(k, v2, v1) == f.fmodel(
            k,
            v1,
            v2,
        ),
    ensures
        tuples_sum(jmatches(g, b, a1.push(t1))) == zadd(
            tuples_sum(jmatches(g, b, a1)),
            tuples_sum(matches_one(f, t1, b)),
        ),
    decreases b.len(),
{
    let ap = a1.push(t1);
    if b.len() == 0 {
        assert(jmatches(g, b, ap) =~= Seq::<(O::V, int)>::empty());
        assert(jmatches(g, b, a1) =~= Seq::<(O::V, int)>::empty());
        assert(matches_one(f, t1, b) =~= Seq::<(O::V, int)>::empty());
        lemma_tuples_sum_wf(jmatches(g, b, a1));
        lemma_zadd_zero(tuples_sum(jmatches(g, b, a1)));
    } else {
        let bp = b.drop_last();
        let t2 = b.last();
        lemma_jmatches_push_column(f, g, t1, a, bp, a1);
        // unfold the head matches against the extended input
        assert(ap.drop_last() =~= a1);
        assert(matches_one(g, t2, ap) == matches_one(g, t2, a1) + if t1.0.0 == t2.0.0 {
            seq![(g.fmodel(t2.0.0, t2.0.1, t1.0.1), t2.1 * t1.1)]
        } else {
            Seq::<(O::V, int)>::empty()
        });
        let dl = if t1.0.0 == t2.0.0 {
            seq![(g.fmodel(t2.0.0, t2.0.1, t1.0.1), t2.1 * t1.1)]
        } else {
            Seq::<(O::V, int)>::empty()
        };
        let dr = if t2.0.0 == t1.0.0 {
            seq![(f.fmodel(t1.0.0, t1.0.1, t2.0.1), t1.1 * t2.1)]
        } else {
            Seq::<(O::V, int)>::empty()
        };
        assert(dl =~= dr);
        // sums of both decompositions
        lemma_tuples_sum_concat(jmatches(g, bp, ap), matches_one(g, t2, a1) + dl);
        lemma_tuples_sum_concat(matches_one(g, t2, a1), dl);
        lemma_tuples_sum_concat(jmatches(g, bp, a1), matches_one(g, t2, a1));
        lemma_tuples_sum_concat(matches_one(f, t1, bp), dr);
        assert(matches_one(f, t1, b) == matches_one(f, t1, bp) + dr);
        let sa = tuples_sum(jmatches(g, bp, a1));
        let sb = tuples_sum(matches_one(f, t1, bp));
        let sc = tuples_sum(matches_one(g, t2, a1));
        let sd = tuples_sum(dl);
        lemma_tuples_sum_wf(jmatches(g, bp, a1));
        lemma_tuples_sum_wf(matches_one(f, t1, bp));
        lemma_tuples_sum_wf(matches_one(g, t2, a1));
        lemma_tuples_sum_wf(dl);
        assert(tuples_sum(jmatches(g, b, ap)) == zadd(zadd(sa, sb), zadd(sc, sd)));
        assert(zadd(zadd(sa, sb), zadd(sc, sd)) =~= zadd(zadd(sa, sc), zadd(sb, sd)));
        assert(tuples_sum(jmatches(g, b, a1)) == zadd(sa, sc));
        assert(tuples_sum(matches_one(f, t1, b)) == zadd(sb, sd));
    }
}

/// Joining is symmetric: swapping the inputs and flipping the value
/// arguments of the join function gives the same Z-set.
pub proof fn lemma_join_symmetry<K: DBData, V1: DBData, V2: DBData, O: DBData, F: JoinFunc<
    K,
    V1,
    V2,
    O,
>, G: JoinFunc<K, V2, V1, O>>(
    f: &F,
    g: &G,
    a: Seq<((K::V, V1::V), int)>,
    b: Seq<((K::V, V2::V), int)>,
)
    requires
        forall|k: K::V, v1: V1::V, v2: V2::V| #[trigger] g.fmodel(k, v2, v1) == f.fmodel(
            k,
            v1,
            v2,
        ),
    ensures
        tuples_sum(jmatches(f, a, b)) == tuples_sum(jmatches(g, b, a)),
    decreases a.len(),
{
    if a.len() == 0 {
        assert(jmatches(f, a, b) =~= Seq::<(O::V, int)>::empty());
        assert forall|j: int| 0 <= j < b.len() implies matches_one(g, #[trigger] b[j], a)
            == Seq::<(O::V, int)>::empty() by {
            assert(a.len() == 0);
        }
        lemma_jmatches_const(g, b, a, 0, b.len() as int);
        assert(b.take(b.len() as int) =~= b);
        assert(b.take(0) =~= Seq::<((K::V, V2::V), int)>::empty());
    } else {
        let a1 = a.drop_last();
        let t1 = a.last();
        lemma_join_symmetry(f, g, a1, b);
        lemma_tuples_sum_concat(jmatches(f, a1, b), matches_one(f, t1, b));
        assert(a1.push(t1) =~= a);
        lemma_jmatches_push_column(f, g, t1, b, b, a1);
    }
}

/// A sequence of zero-weight tuples denotes the empty Z-set.
proof fn lemma_sum_zero_weights<KM>(s: Seq<(KM, int)>)
    requires
        forall|i: int| 0 <= i < s.len() ==> (#[trigger] s[i]).1 == 0,
    ensures
        tuples_sum(s) == Map::<KM, int>::empty(),
    decreases s.len(),
{
    if s.len() > 0 {
        lemma_sum_zero_weights(s.drop_last());
    }
}

/// Summing one more tuple onto a match list extends the sum by
/// `add_pair`.
proof fn lemma_sum_push<KM>(s: Seq<(KM, int)>, t: (KM, int))
    ensures
        tuples_sum(s.push(t)) == crate::zset::add_pair(tuples_sum(s), t.0, t.1),
{
    assert(s.push(t).drop_last() =~= s);
    assert(s.push(t).last() == t);
}

/// Matching is additive over splitting the first input.
proof fn lemma_jmatches_concat<K: DBData, V1: DBData, V2: DBData, O: DBData, F: JoinFunc<
    K,
    V1,
    V2,
    O,
>>(f: &F, s1: Seq<((K::V, V1::V), int)>, s2: Seq<((K::V, V1::V), int)>, b: Seq<((K::V, V2::V), int)>)
    ensures
        jmatches(f, s1 + s2, b) == jmatches(f, s1, b) + jmatches(f, s2, b),
    decreases s2.len(),
{
    if s2.len() == 0 {
        assert(s1 + s2 =~= s1);
        assert(jmatches(f, s1, b) + jmatches(f, s2, b) =~= jmatches(f, s1, b));
    } else {
        lemma_jmatches_concat(f, s1, s2.drop_last(), b);
        assert((s1 + s2).drop_last() =~= s1 + s2.drop_last());
        assert((s1 + s2).last() == s2.last());
        assert(jmatches(f, s1, b) + (jmatches(f, s2.drop_last(), b) + matches_one(
            f,
            s2.last(),
            b,
        )) =~= (jmatches(f, s1, b) + jmatches(f, s2.drop_last(), b)) + matches_one(
            f,
            s2.last(),
            b,
        ));
    }
}

/// Matching one entry is linear in its weight.
proof fn lemma_matches_one_linear<K: DBData, V1: DBData, V2: DBData, O: DBData, F: JoinFunc<
    K,
    V1,
    V2,
    O,
>>(f: &F, p: (K::V, V1::V), w1: int, w2: int, b: Seq<((K::V, V2::V), int)>)
    ensures
        tuples_sum(matches_one(f, (p, w1 + w2), b)) == zadd(
            tuples_sum(matches_one(f, (p, w1), b)),
            tuples_sum(matches_one(f, (p, w2), b)),
        ),
    decreases b.len(),
{
    lemma_tuples_sum_wf(matches_one(f, (p, w1), b));
    lemma_tuples_sum_wf(matches_one(f, (p, w2), b));
    if b.len() == 0 {
        assert(zadd(
            tuples_sum(matches_one(f, (p, w1), b)),
            tuples_sum(matches_one(f, (p, w2), b)),
        ) =~= Map::<O::V, int>::empty());
    } else {
        let bp = b.drop_last();
        lemma_matches_one_linear(f, p, w1, w2, bp);
        let sa = tuples_sum(matches_one(f, (p, w1), bp));
        let sb = tuples_sum(matches_one(f, (p, w2), bp));
        lemma_tuples_sum_wf(matches_one(f, (p, w1), bp));
        lemma_tuples_sum_wf(matches_one(f, (p, w2), bp));
        if b.last().0.0 == p.0 {
            let o = f.fmodel(p.0, p.1, b.last().0.1);
            let wb = b.last().1;
            assert(matches_one(f, (p, w1 + w2), b) =~= matches_one(f, (p, w1 + w2), bp).push(
                (o, (w1 + w2) * wb),
            ));
            assert(matches_one(f, (p, w1), b) =~= matches_one(f, (p, w1), bp).push(
                (o, w1 * wb),
            ));
            assert(matches_one(f, (p, w2), b) =~= matches_one(f, (p, w2), bp).push(
                (o, w2 * wb),
            ));
            lemma_sum_push(matches_one(f, (p, w1 + w2), bp), (o, (w1 + w2) * wb));
            lemma_sum_push(matches_one(f, (p, w1), bp), (o, w1 * wb));
            lemma_sum_push(matches_one(f, (p, w2), bp), (o, w2 * wb));
            assert((w1 + w2) * wb == w1 * wb + w2 * wb) by (nonlinear_arith);
            let lhs = crate::zset::add_pair(zadd(sa, sb), o, (w1 + w2) * wb);
            let rhs = zadd(
                crate::zset::add_pair(sa, o, w1 * wb),
                crate::zset::add_pair(sb, o, w2 * wb),
            );
            assert forall|q: O::V| zweight(lhs, q) == zweight(rhs, q) by {
                crate::zset::lemma_add_pair_weight(zadd(sa, sb), o, (w1 + w2) * wb, q);
                crate::zset::lemma_add_pair_weight(sa, o, w1 * wb, q);
                crate::zset::lemma_add_pair_weight(sb, o, w2 * wb, q);
            }
            crate::zset::lemma_ops_wf(sa, sb);
            crate::zset::lemma_add_pair_wf(zadd(sa, sb), o, (w1 + w2) * wb);
            crate::zset::lemma_add_pair_wf(sa, o, w1 * wb);
            crate::zset::lemma_add_pair_wf(sb, o, w2 * wb);
            crate::zset::lemma_ops_wf(
                crate::zset::add_pair(sa, o, w1 * wb),
                crate::zset::add_pair(sb, o, w2 * wb),
            );
            crate::zset::lemma_weight_ext(lhs, rhs);
        } else {
            assert(matches_one(f, (p, w1 + w2), b) =~= matches_one(f, (p, w1 + w2), bp));
            assert(matches_one(f, (p, w1), b) =~= matches_one(f, (p, w1), bp));
            assert(matches_one(f, (p, w2), b) =~= matches_one(f, (p, w2), bp));
        }
    }
}

/// The matches of one entry split off from the rest of the input.
proof fn lemma_jmatches_extract<K: DBData, V1: DBData, V2: DBData, O: DBData, F: JoinFunc<
    K,
    V1,
    V2,
    O,
>>(f: &F, s: Seq<((K::V, V1::V), int)>, i: int, b: Seq<((K::V, V2::V), int)>)
    requires
        0 <= i < s.len(),
    ensures
        tuples_sum(jmatches(f, s, b)) == zadd(
            tuples_sum(jmatches(f, s.remove(i), b)),
            tuples_sum(matches_one(f, s[i], b)),
        ),
    decreases s.len(),
{
    lemma_tuples_sum_wf(jmatches(f, s.remove(i), b));
    lemma_tuples_sum_wf(matches_one(f, s[i], b));
    if i == s.len() - 1 {
        assert(s.remove(i) =~= s.drop_last());
        lemma_tuples_sum_concat(jmatches(f, s.drop_last(), b), matches_one(f, s.last(), b));
        assert(jmatches(f, s, b) == jmatches(f, s.drop_last(), b) + matches_one(
            f,
            s.last(),
            b,
        ));
    } else {
        let sp = s.drop_last();
        lemma_jmatches_extract(f, sp, i, b);
        lemma_tuples_sum_concat(jmatches(f, sp, b), matches_one(f, s.last(), b));
        assert(s.remove(i).drop_last() =~= sp.remove(i));
        assert(s.remove(i).last() == s.last());
        lemma_tuples_sum_concat(
            jmatches(f, sp.remove(i), b),
            matches_one(f, s.last(), b),
        );
        let x = tuples_sum(jmatches(f, sp.remove(i), b));
        let y = tuples_sum(matches_one(f, s.last(), b));
        let z = tuples_sum(matches_one(f, s[i], b));
        lemma_tuples_sum_wf(jmatches(f, sp.remove(i), b));
        lemma_tuples_sum_wf(matches_one(f, s.last(), b));
        assert(tuples_sum(jmatches(f, s, b)) == zadd(zadd(x, z), y));
        assert(tuples_sum(jmatches(f, s.remove(i), b)) == zadd(x, y));
        assert(zadd(zadd(x, z), y) =~= zadd(zadd(x, y), z));
    }
}

/// Every nonempty well-formed Z-set model has a largest key.
proof fn lemma_max_key<K: DBData>(m: Map<K::V, int>)
    requires
        m.dom().finite(),
        m.dom().len() > 0,
    ensures
        exists|k: K::V|
            m.contains_key(k) && forall|k2: K::V|
                m.contains_key(k2) ==> k2 == k || #[trigger] K::mlt(k2, k),
    decreases m.dom().len(),
{
    let k0 = m.dom().choose();
    assert(m.dom().contains(k0));
    let mp = m.remove(k0);
    vstd::set::axiom_set_remove_len(m.dom(), k0);
    if mp.dom().len() == 0 {
        mp.dom().lemma_len0_is_empty();
        assert forall|k2: K::V| m.contains_key(k2) implies k2 == k0 || #[trigger] K::mlt(
            k2,
            k0,
        ) by {
            if k2 != k0 {
                assert(mp.dom().contains(k2));
            }
        }
    } else {
        lemma_max_key::<K>(mp);
        let k1 = choose|k: K::V|
            mp.contains_key(k) && forall|k2: K::V|
                mp.contains_key(k2) ==> k2 == k || #[trigger] K::mlt(k2, k);
        K::mlt_trichotomy(k0, k1);
        if K::mlt(k0, k1) {
            assert forall|k2: K::V| m.contains_key(k2) implies k2 == k1 || #[trigger] K::mlt(
                k2,
                k1,
            ) by {
                if k2 != k1 && k2 != k0 {
                    assert(mp.contains_key(k2));
                }
            }
        } else {
            assert forall|k2: K::V| m.contains_key(k2) implies k2 == k0 || #[trigger] K::mlt(
                k2,
                k0,
            ) by {
                if k2 != k0 && k2 != k1 {
                    assert(mp.contains_key(k2));
                    assert(k2 == k1 || K::mlt(k2, k1));
                    K::mlt_transitive(k2, k1, k0);
                }
            }
        }
    }
}

/// Every well-formed Z-set model has a canonical representation, so
/// `canon_of` yields one.
pub proof fn lemma_canon_exists<K: DBData>(m: Map<K::V, int>)
    requires
        zset_wf(m),
    ensures
        pm_wf::<K>(canon_of::<K>(m)),
        tuples_sum(canon_of::<K>(m)) == m,
    decreases m.dom().len(),
{
    if m.dom().len() == 0 {
        m.dom().lemma_len0_is_empty();
        let w: Seq<(K::V, int)> = Seq::empty();
        assert(tuples_sum(w) =~= m);
        assert(pm_wf::<K>(w) && tuples_sum(w) == m);
    } else {
        lemma_max_key::<K>(m);
        let kmax = choose|k: K::V|
            m.contains_key(k) && forall|k2: K::V|
                m.contains_key(k2) ==> k2 == k || #[trigger] K::mlt(k2, k);
        let mp = m.remove(kmax);
        vstd::set::axiom_set_remove_len(m.dom(), kmax);
        assert(zset_wf(mp));
        lemma_canon_exists::<K>(mp);
        let cp = canon_of::<K>(mp);
        let w = cp.push((kmax, m[kmax]));
        crate::zset::lemma_pm_wf_distinct::<K>(cp);
        crate::zset::lemma_sum_distinct(cp);
        assert forall|x: int, y: int| 0 <= x < y < w.len() implies K::mlt(w[x].0, w[y].0) by {
            if y < w.len() - 1 {
                assert(w[x] == cp[x] && w[y] == cp[y]);
            } else {
                assert(w[x] == cp[x]);
                assert(mp.contains_key(cp[x].0));
                assert(cp[x].0 != kmax);
                assert(m.contains_key(cp[x].0));
            }
        }
        assert(pm_wf::<K>(w));
        lemma_sum_push(cp, (kmax, m[kmax]));
        assert(!mp.contains_key(kmax));
        assert(tuples_sum(w) =~= m);
        assert(pm_wf::<K>(w) && tuples_sum(w) == m);
    }
}

/// The number of keys of a canonical vector strictly below a key.
spec fn count_lt<K: DBData>(c: Seq<(K::V, int)>, km: K::V) -> int
    decreases c.len(),
{
    if c.len() == 0 {
        0
    } else {
        count_lt::<K>(c.drop_last(), km) + if K::mlt(c.last().0, km) {
            1int
        } else {
            0int
        }
    }
}

/// In a canonical vector the keys below a key form a prefix.
proof fn lemma_count_lt_props<K: DBData>(c: Seq<(K::V, int)>, km: K::V)
    requires
        pm_wf::<K>(c),
    ensures
        0 <= count_lt::<K>(c, km) <= c.len(),
        forall|j: int| 0 <= j < count_lt::<K>(c, km) ==> K::mlt(#[trigger] c[j].0, km),
        forall|j: int| count_lt::<K>(c, km) <= j < c.len() ==> !K::mlt(#[trigger] c[j].0, km),
    decreases c.len(),
{
    if c.len() > 0 {
        let cp = c.drop_last();
        lemma_count_lt_props::<K>(cp, km);
        let cnt = count_lt::<K>(c, km);
        let cntp = count_lt::<K>(cp, km);
        if K::mlt(c.last().0, km) {
            // everything before the last is below it, hence below `km`
            assert(cntp == cp.len()) by {
                if cntp < cp.len() {
                    assert(!K::mlt(cp[cntp].0, km));
                    assert(cp[cntp] == c[cntp]);
                    K::mlt_transitive(c[cntp].0, c.last().0, km);
                }
            }
            assert(cnt == c.len());
            assert forall|j: int| 0 <= j < cnt implies K::mlt(#[trigger] c[j].0, km) by {
                if j < c.len() - 1 {
                    K::mlt_transitive(c[j].0, c.last().0, km);
                }
            }
        } else {
            assert(cnt == cntp);
            assert forall|j: int| 0 <= j < cnt implies K::mlt(#[trigger] c[j].0, km) by {
                assert(K::mlt(cp[j].0, km));
                assert(cp[j] == c[j]);
            }
            assert forall|j: int| cnt <= j < c.len() implies !K::mlt(
                #[trigger] c[j].0,
                km,
            ) by {
                if j < c.len() - 1 {
                    assert(!K::mlt(cp[j].0, km));
                    assert(cp[j] == c[j]);
                }
            }
        }
    }
}

/// Matching one entry with weight zero yields nothing.
proof fn lemma_matches_one_zero<K: DBData, V1: DBData, V2: DBData, O: DBData, F: JoinFunc<
    K,
    V1,
    V2,
    O,
>>(f: &F, p: (K::V, V1::V), b: Seq<((K::V, V2::V), int)>)
    ensures
        tuples_sum(matches_one(f, (p, 0int), b)) == Map::<O::V, int>::empty(),
    decreases b.len(),
{
    if b.len() == 0 {
    } else {
        lemma_matches_one_zero(f, p, b.drop_last());
        if b.last().0.0 == p.0 {
            lemma_sum_push(
                matches_one(f, (p, 0int), b.drop_last()),
                (f.fmodel(p.0, p.1, b.last().0.1), 0int * b.last().1),
            );
            assert(matches_one(f, (p, 0int), b) =~= matches_one(f, (p, 0int), b.drop_last())
                .push((f.fmodel(p.0, p.1, b.last().0.1), 0int * b.last().1)));
            assert(0int * b.last().1 == 0) by (nonlinear_arith);
        } else {
            assert(matches_one(f, (p, 0int), b) =~= matches_one(f, (p, 0int), b.drop_last()));
        }
    }
}

/// Adding one weighted pair to the first input adds its matches to the
/// join's canonical sum.
proof fn lemma_jsum_add_pair<K: DBData, V1: DBData, V2: DBData, O: DBData, F: JoinFunc<
    K,
    V1,
    V2,
    O,
>>(f: &F, m: Map<(K::V, V1::V), int>, p: (K::V, V1::V), w: int, b: Seq<((K::V, V2::V), int)>)
    requires
        zset_wf(m),
    ensures
        tuples_sum(jmatches(f, canon_of::<(K, V1)>(crate::zset::add_pair(m, p, w)), b))
            == zadd(
            tuples_sum(jmatches(f, canon_of::<(K, V1)>(m), b)),
            tuples_sum(matches_one(f, (p, w), b)),
        ),
{
    lemma_canon_exists::<(K, V1)>(m);
    let c = canon_of::<(K, V1)>(m);
    crate::zset::lemma_pm_wf_distinct::<(K, V1)>(c);
    crate::zset::lemma_sum_distinct(c);
    let jm = tuples_sum(jmatches(f, c, b));
    let m1w = tuples_sum(matches_one(f, (p, w), b));
    lemma_tuples_sum_wf(jmatches(f, c, b));
    lemma_tuples_sum_wf(matches_one(f, (p, w), b));
    crate::zset::lemma_add_pair_wf(m, p, w);
    if w == 0 {
        lemma_matches_one_zero(f, p, b);
        lemma_zadd_zero(jm);
        assert(crate::zset::add_pair(m, p, w) == m);
    } else if m.contains_key(p) {
        let i = choose|i: int| 0 <= i < c.len() && c[i].0 == p;
        assert(c[i].1 == m[p]);
        let cr = c.remove(i);
        assert forall|x: int, y: int| 0 <= x < y < cr.len() implies <(K, V1) as DBData>::mlt(
            cr[x].0,
            cr[y].0,
        ) by {
            let xx: int = if x < i {
                x
            } else {
                x + 1
            };
            let yy: int = if y < i {
                y
            } else {
                y + 1
            };
            assert(cr[x] == c[xx] && cr[y] == c[yy]);
        }
        assert(pm_wf::<(K, V1)>(cr));
        crate::zset::lemma_pm_wf_distinct::<(K, V1)>(cr);
        crate::zset::lemma_sum_distinct(cr);
        // the remainder denotes the model without `p`
        assert forall|j: int| 0 <= j < cr.len() implies m.remove(p).contains_key(
            #[trigger] cr[j].0,
        ) && m.remove(p)[cr[j].0] == cr[j].1 by {
            let jj: int = if j < i {
                j
            } else {
                j + 1
            };
            assert(cr[j] == c[jj]);
            assert(m.contains_key(c[jj].0) && m[c[jj].0] == c[jj].1);
            assert(c[jj].0 != p);
        }
        assert forall|q: (K::V, V1::V)| m.remove(p).contains_key(q) implies exists|j: int|
            0 <= j < cr.len() && cr[j].0 == q by {
            assert(m.contains_key(q));
            let jj = choose|jj: int| 0 <= jj < c.len() && c[jj].0 == q;
            assert(jj != i);
            if jj < i {
                assert(cr[jj].0 == q);
            } else {
                assert(cr[jj - 1].0 == q);
            }
        }
        assert(zset_wf(m.remove(p))) by {
            assert(m.remove(p).dom() =~= m.dom().remove(p));
        }
        crate::zset::lemma_canonical_eq::<(K, V1)>(cr, m.remove(p));
        lemma_jmatches_extract(f, c, i, b);
        lemma_matches_one_linear(f, p, m[p], w, b);
        let x = tuples_sum(jmatches(f, cr, b));
        let y = tuples_sum(matches_one(f, (p, m[p]), b));
        lemma_tuples_sum_wf(jmatches(f, cr, b));
        lemma_tuples_sum_wf(matches_one(f, (p, m[p]), b));
        if m[p] + w == 0 {
            // the entry disappears: the remainder is the new canonical form
            crate::zset::lemma_canon_of::<(K, V1)>(cr);
            assert(crate::zset::add_pair(m, p, w) == m.remove(p));
            lemma_matches_one_zero(f, p, b);
            assert(tuples_sum(matches_one(f, (p, m[p] + w), b)) == Map::<O::V, int>::empty());
            // jm == zadd(x, y) and zadd(y, m1w) == empty
            assert(zadd(jm, m1w) =~= zadd(x, zadd(y, m1w)));
            assert(zadd(y, m1w) == tuples_sum(matches_one(f, (p, m[p] + w), b)));
            lemma_zadd_zero(x);
            assert(zadd(x, Map::<O::V, int>::empty()) == x);
        } else {
            // the entry's weight changes in place
            let c2 = c.update(i, (p, m[p] + w));
            assert forall|x2: int, y2: int| 0 <= x2 < y2 < c2.len() implies <(K,
            V1) as DBData>::mlt(c2[x2].0, c2[y2].0) by {
                assert(c2[x2].0 == c[x2].0 && c2[y2].0 == c[y2].0);
            }
            assert(pm_wf::<(K, V1)>(c2));
            assert forall|j: int| 0 <= j < c2.len() implies crate::zset::add_pair(
                m,
                p,
                w,
            ).contains_key(#[trigger] c2[j].0) && crate::zset::add_pair(m, p, w)[c2[j].0]
                == c2[j].1 by {
                if j != i {
                    assert(c2[j] == c[j]);
                    assert(m.contains_key(c[j].0) && m[c[j].0] == c[j].1);
                    assert(c[j].0 != p);
                }
            }
            assert forall|q: (K::V, V1::V)| crate::zset::add_pair(m, p, w).contains_key(
                q,
            ) implies exists|j: int| 0 <= j < c2.len() && c2[j].0 == q by {
                if q == p {
                    assert(c2[i].0 == q);
                } else {
                    assert(m.contains_key(q));
                    let jj = choose|jj: int| 0 <= jj < c.len() && c[jj].0 == q;
                    assert(c2[jj].0 == q);
                }
            }
            crate::zset::lemma_canonical_eq::<(K, V1)>(c2, crate::zset::add_pair(m, p, w));
            crate::zset::lemma_canon_of::<(K, V1)>(c2);
            lemma_jmatches_extract(f, c2, i, b);
            assert(c2.remove(i) =~= cr);
            // rearrange: x + (y + m1w) == (x + y) + m1w
            assert(tuples_sum(matches_one(f, (p, m[p] + w), b)) == zadd(y, m1w));
            lemma_tuples_sum_wf(matches_one(f, (p, m[p] + w), b));
            assert(tuples_sum(jmatches(f, c2, b)) == zadd(x, zadd(y, m1w)));
            assert(zadd(x, zadd(y, m1w)) =~= zadd(zadd(x, y), m1w));
        }
    } else {
        // fresh pair: it takes its sorted place
        lemma_count_lt_props::<(K, V1)>(c, p);
        let cnt = count_lt::<(K, V1)>(c, p);
        let c2 = c.insert(cnt, (p, w));
        assert forall|j: int| 0 <= j < c.len() implies #[trigger] c[j].0 != p by {
            assert(m.contains_key(c[j].0));
        }
        assert forall|x2: int, y2: int| 0 <= x2 < y2 < c2.len() implies <(K,
        V1) as DBData>::mlt(c2[x2].0, c2[y2].0) by {
            let kx: (K::V, V1::V) = if x2 < cnt {
                c[x2].0
            } else if x2 == cnt {
                p
            } else {
                c[x2 - 1].0
            };
            let ky: (K::V, V1::V) = if y2 < cnt {
                c[y2].0
            } else if y2 == cnt {
                p
            } else {
                c[y2 - 1].0
            };
            assert(c2[x2].0 == kx && c2[y2].0 == ky);
            if x2 < cnt && y2 == cnt {
                // kx below p by the prefix property
            } else if x2 == cnt && y2 > cnt {
                <(K, V1) as DBData>::mlt_trichotomy(p, c[y2 - 1].0);
                assert(!<(K, V1) as DBData>::mlt(c[y2 - 1].0, p));
                assert(c[y2 - 1].0 != p);
            } else if x2 < cnt && y2 > cnt {
                assert(<(K, V1) as DBData>::mlt(c[x2].0, p));
                <(K, V1) as DBData>::mlt_trichotomy(p, c[y2 - 1].0);
                <(K, V1) as DBData>::mlt_transitive(c[x2].0, p, c[y2 - 1].0);
            }
        }
        assert(pm_wf::<(K, V1)>(c2));
        assert forall|j: int| 0 <= j < c2.len() implies crate::zset::add_pair(
            m,
            p,
            w,
        ).contains_key(#[trigger] c2[j].0) && crate::zset::add_pair(m, p, w)[c2[j].0]
            == c2[j].1 by {
            if j < cnt {
                assert(c2[j] == c[j]);
                assert(m.contains_key(c[j].0) && m[c[j].0] == c[j].1);
            } else if j > cnt {
                assert(c2[j] == c[j - 1]);
                assert(m.contains_key(c[j - 1].0) && m[c[j - 1].0] == c[j - 1].1);
            }
        }
        assert forall|q: (K::V, V1::V)| crate::zset::add_pair(m, p, w).contains_key(
            q,
        ) implies exists|j: int| 0 <= j < c2.len() && c2[j].0 == q by {
            if q == p {
                assert(c2[cnt].0 == q);
            } else {
                assert(m.contains_key(q));
                let jj = choose|jj: int| 0 <= jj < c.len() && c[jj].0 == q;
                if jj < cnt {
                    assert(c2[jj].0 == q);
                } else {
                    assert(c2[jj + 1].0 == q);
                }
            }
        }
        crate::zset::lemma_canonical_eq::<(K, V1)>(c2, crate::zset::add_pair(m, p, w));
        crate::zset::lemma_canon_of::<(K, V1)>(c2);
        lemma_jmatches_extract(f, c2, cnt, b);
        assert(c2.remove(cnt) =~= c);
        assert(c2[cnt] == (p, w));
    }
}

/// The join's sum depends on the first input only through the Z-set it
/// denotes.
proof fn lemma_jsum_respects<K: DBData, V1: DBData, V2: DBData, O: DBData, F: JoinFunc<
    K,
    V1,
    V2,
    O,
>>(f: &F, s: Seq<((K::V, V1::V), int)>, b: Seq<((K::V, V2::V), int)>)
    ensures
        tuples_sum(jmatches(f, s, b)) == tuples_sum(
            jmatches(f, canon_of::<(K, V1)>(tuples_sum(s)), b),
        ),
    decreases s.len(),
{
    if s.len() == 0 {
        let w: Seq<((K::V, V1::V), int)> = Seq::empty();
        assert(pm_wf::<(K, V1)>(w));
        crate::zset::lemma_canon_of::<(K, V1)>(w);
        assert(tuples_sum(w) =~= Map::<(K::V, V1::V), int>::empty());
        assert(tuples_sum(s) == tuples_sum(w));
    } else {
        let sp = s.drop_last();
        lemma_jsum_respects(f, sp, b);
        lemma_tuples_sum_wf(sp);
        lemma_jsum_add_pair(f, tuples_sum(sp), s.last().0, s.last().1, b);
        lemma_tuples_sum_concat(jmatches(f, sp, b), matches_one(f, s.last(), b));
        assert(jmatches(f, s, b) == jmatches(f, sp, b) + matches_one(f, s.last(), b));
        assert(tuples_sum(s) == crate::zset::add_pair(
            tuples_sum(sp),
            s.last().0,
            s.last().1,
        ));
    }
}

/// A join function with its value arguments flipped.
pub struct FlipOf<'a, F> {
    pub func: &'a F,
}

impl<'a, K: DBData, V1: DBData, V2: DBData, O: DBData, F: JoinFunc<K, V1, V2, O>> JoinFunc<
    K,
    V2,
    V1,
    O,
> for FlipOf<'a, F> {
    open spec fn fmodel(&self, k: K::V, v2: V2::V, v1: V1::V) -> O::V {
        self.func.fmodel(k, v1, v2)
    }

    fn feval(&self, k: &K, v2: &V2, v1: &V1) -> (r: O) {
        self.func.feval(k, v1, v2)
    }
}

/// The join is linear in its first input.
pub proof fn lemma_zjoin_linear_left<K: DBData, V1: DBData, V2: DBData, O: DBData,
    F: JoinFunc<K, V1, V2, O>>(
    f: &F,
    a1: Map<(K::V, V1::V), int>,
    a2: Map<(K::V, V1::V), int>,
    b: Map<(K::V, V2::V), int>,
)
    requires
        zset_wf(a1),
        zset_wf(a2),
        zset_wf(b),
    ensures
        zjoin(f, zadd(a1, a2), b) == zadd(zjoin(f, a1, b), zjoin(f, a2, b)),
{
    lemma_canon_exists::<(K, V1)>(a1);
    lemma_canon_exists::<(K, V1)>(a2);
    let c1 = canon_of::<(K, V1)>(a1);
    let c2 = canon_of::<(K, V1)>(a2);
    let cb = canon_of::<(K, V2)>(b);
    lemma_tuples_sum_concat(c1, c2);
    assert(tuples_sum(c1 + c2) == zadd(a1, a2));
    lemma_jsum_respects(f, c1 + c2, cb);
    lemma_jmatches_concat(f, c1, c2, cb);
    lemma_tuples_sum_concat(jmatches(f, c1, cb), jmatches(f, c2, cb));
}

/// The join is linear in its second input.
pub proof fn lemma_zjoin_linear_right<K: DBData, V1: DBData, V2: DBData, O: DBData,
    F: JoinFunc<K, V1, V2, O>>(
    f: &F,
    a: Map<(K::V, V1::V), int>,
    b1: Map<(K::V, V2::V), int>,
    b2: Map<(K::V, V2::V), int>,
)
    requires
        zset_wf(a),
        zset_wf(b1),
        zset_wf(b2),
    ensures
        zjoin(f, a, zadd(b1, b2)) == zadd(zjoin(f, a, b1), zjoin(f, a, b2)),
{
    let g = FlipOf { func: f };
    crate::zset::lemma_ops_wf(b1, b2);
    lemma_join_symmetry(f, &g, canon_of::<(K, V1)>(a), canon_of::<(K, V2)>(zadd(b1, b2)));
    lemma_join_symmetry(f, &g, canon_of::<(K, V1)>(a), canon_of::<(K, V2)>(b1));
    lemma_join_symmetry(f, &g, canon_of::<(K, V1)>(a), canon_of::<(K, V2)>(b2));
    lemma_zjoin_linear_left(&g, b1, b2, a);
}

/// The empty Z-set joins to nothing.
pub proof fn lemma_zjoin_empty_left<K: DBData, V1: DBData, V2: DBData, O: DBData,
    F: JoinFunc<K, V1, V2, O>>(f: &F, b: Map<(K::V, V2::V), int>)
    ensures
        zjoin(f, Map::<(K::V, V1::V), int>::empty(), b) == Map::<O::V, int>::empty(),
{
    let w: Seq<((K::V, V1::V), int)> = Seq::empty();
    assert(pm_wf::<(K, V1)>(w));
    crate::zset::lemma_canon_of::<(K, V1)>(w);
    assert(tuples_sum(w) =~= Map::<(K::V, V1::V), int>::empty());
}

/// The incrementality law: over any history of input deltas, the sum of
/// the incremental join's outputs is the join of the summed inputs.
///
/// The output deltas are those the incremental formula gives: each
/// delta of one side joined against the other side's integral, the
/// first side's integral delayed by one step.
pub proof fn lemma_join_incremental_totals<K: DBData, V1: DBData, V2: DBData, O: DBData,
    F: JoinFunc<K, V1, V2, O>>(
    f: &F,
    avs: Seq<Map<(K::V, V1::V), int>>,
    bvs: Seq<Map<(K::V, V2::V), int>>,
    outs: Seq<Map<O::V, int>>,
)
    requires
        avs.len() == bvs.len(),
        outs.len() == avs.len(),
        forall|i: int| 0 <= i < avs.len() ==> zset_wf(#[trigger] avs[i]),
        forall|i: int| 0 <= i < bvs.len() ==> zset_wf(#[trigger] bvs[i]),
        forall|i: int|
            0 <= i < outs.len() ==> #[trigger] outs[i] == zadd(
                zjoin(f, crate::zset::isum(avs.take(i)), bvs[i]),
                zjoin(f, avs[i], crate::zset::isum(bvs.take(i + 1))),
            ),
    ensures
        crate::zset::isum(outs) == zjoin(f, crate::zset::isum(avs), crate::zset::isum(bvs)),
    decreases avs.len(),
{
    if avs.len() == 0 {
        assert(crate::zset::isum(avs) =~= Map::<(K::V, V1::V), int>::empty()) by {
            assert(avs.len() == 0);
        }
        lemma_zjoin_empty_left::<K, V1, V2, O, F>(f, crate::zset::isum(bvs));
        assert(crate::zset::isum(outs) =~= Map::<O::V, int>::empty()) by {
            assert(outs.len() == 0);
        }
    } else {
        let n = avs.len() - 1;
        let ap = avs.drop_last();
        let bp = bvs.drop_last();
        let op = outs.drop_last();
        assert forall|i: int| 0 <= i < op.len() implies #[trigger] op[i] == zadd(
            zjoin(f, crate::zset::isum(ap.take(i)), bp[i]),
            zjoin(f, ap[i], crate::zset::isum(bp.take(i + 1))),
        ) by {
            assert(op[i] == outs[i]);
            assert(ap.take(i) =~= avs.take(i));
            assert(bp.take(i + 1) =~= bvs.take(i + 1));
        }
        lemma_join_incremental_totals(f, ap, bp, op);
        let ia = crate::zset::isum(ap);
        let ib = crate::zset::isum(bp);
        let an = avs.last();
        let bn = bvs.last();
        crate::zset::lemma_isum_wf(ap);
        crate::zset::lemma_isum_wf(bp);
        assert(an == avs[n as int] && bn == bvs[n as int]);
        assert(zset_wf(an) && zset_wf(bn));
        crate::zset::lemma_ops_wf(ib, bn);
        crate::zset::lemma_ops_wf(ia, an);
        assert(crate::zset::isum(avs) == zadd(ia, an));
        assert(crate::zset::isum(bvs) == zadd(ib, bn));
        // the last delta in terms of the previous integrals
        assert(avs.take(n) =~= ap);
        assert(bvs.take(n + 1) =~= bvs);
        assert(outs.last() == zadd(zjoin(f, ia, bn), zjoin(f, an, zadd(ib, bn))));
        lemma_zjoin_linear_right(f, an, ib, bn);
        lemma_zjoin_linear_left(f, ia, an, zadd(ib, bn));
        lemma_zjoin_linear_right(f, zadd(ia, an), ib, bn);
        lemma_zjoin_linear_left(f, ia, an, ib);
        lemma_zjoin_linear_left(f, ia, an, bn);
        // both sides reduce to the four partial joins
        let jab = zjoin(f, ia, ib);
        let janb = zjoin(f, an, ib);
        let jabn = zjoin(f, ia, bn);
        let janbn = zjoin(f, an, bn);
        assert(zjoin(f, zadd(ia, an), zadd(ib, bn)) == zadd(
            zadd(zadd(jab, janb), jabn),
            janbn,
        )) by {
            assert(zadd(zjoin(f, zadd(ia, an), ib), zjoin(f, zadd(ia, an), bn)) == zadd(
                zadd(jab, janb),
                zadd(jabn, janbn),
            ));
            assert(zadd(zadd(jab, janb), zadd(jabn, janbn)) =~= zadd(
                zadd(zadd(jab, janb), jabn),
                janbn,
            ));
        }
        assert(crate::zset::isum(outs) == zadd(jab, outs.last()));
        assert(outs.last() == zadd(jabn, zadd(janb, janbn)));
        assert(zadd(jab, zadd(jabn, zadd(janb, janbn))) =~= zadd(
            zadd(zadd(jab, janb), jabn),
            janbn,
        ));
    }
}

/// Every product of the weights of two entries with matching keys fits in
/// a 64-bit weight.
pub open spec fn products_bounded<KM, A, B>(a: Seq<((KM, A), int)>, b: Seq<((KM, B), int)>) -> bool {
    forall|x: int, y: int|
        0 <= x < a.len() && 0 <= y < b.len() && #[trigger] a[x].0.0 == #[trigger] b[y].0.0
            ==> i64::MIN <= a[x].1 * b[y].1 <= i64::MAX
}

pub proof fn lemma_matches_one_weights<K: DBData, V1: DBData, V2: DBData, O: DBData, F: JoinFunc<
    K,
    V1,
    V2,
    O,
>>(f: &F, t1: ((K::V, V1::V), int), b: Seq<((K::V, V2::V), int)>, wa: int, wb: int)
    requires
        wa >= 0,
        wb >= 0,
        -wa <= t1.1 <= wa,
        forall|y: int| 0 <= y < b.len() ==> -wb <= (#[trigger] b[y]).1 <= wb,
    ensures
        forall|x: int|
            0 <= x < matches_one(f, t1, b).len() ==> -(wa * wb) <= (#[trigger] matches_one(
                f,
                t1,
                b,
            )[x]).1 <= wa * wb,
    decreases b.len(),
{
    if b.len() > 0 {
        lemma_matches_one_weights(f, t1, b.drop_last(), wa, wb);
        assert(-(wa * wb) <= t1.1 * b.last().1 <= wa * wb) by (nonlinear_arith)
            requires -wa <= t1.1 <= wa, -wb <= b.last().1 <= wb, wa >= 0, wb >= 0,
        ;
        let l = matches_one(f, t1, b.drop_last());
        let m = matches_one(f, t1, b);
        assert forall|x: int| 0 <= x < m.len() implies -(wa * wb) <= (#[trigger] m[x]).1 <= wa
            * wb by {
            if x < l.len() {
                assert(m[x] == l[x]);
            }
        }
    }
}

pub proof fn lemma_jmatches_weights<K: DBData, V1: DBData, V2: DBData, O: DBData, F: JoinFunc<
    K,
    V1,
    V2,
    O,
>>(f: &F, a: Seq<((K::V, V1::V), int)>, b: Seq<((K::V, V2::V), int)>, wa: int, wb: int)
    requires
        wa >= 0,
        wb >= 0,
        forall|x: int| 0 <= x < a.len() ==> -wa <= (#[trigger] a[x]).1 <= wa,
        forall|y: int| 0 <= y < b.len() ==> -wb <= (#[trigger] b[y]).1 <= wb,
    ensures
        forall|x: int|
            0 <= x < jmatches(f, a, b).len() ==> -(wa * wb) <= (#[trigger] jmatches(
                f,
                a,
                b,
            )[x]).1 <= wa * wb,
    decreases a.len(),
{
    if a.len() > 0 {
        lemma_jmatches_weights(f, a.drop_last(), b, wa, wb);
        lemma_matches_one_weights(f, a.last(), b, wa, wb);
        let l = jmatches(f, a.drop_last(), b);
        let r = matches_one(f, a.last(), b);
        let m = jmatches(f, a, b);
        assert forall|x: int| 0 <= x < m.len() implies -(wa * wb) <= (#[trigger] m[x]).1 <= wa
            * wb by {
            if x < l.len() {
                assert(m[x] == l[x]);
            } else {
                assert(m[x] == r[x - l.len()]);
            }
        }
    }
}

/// The number of collected match tuples is at most the product of the
/// input sizes.
pub proof fn lemma_jmatches_len_pub<K: DBData, V1: DBData, V2: DBData, O: DBData, F: JoinFunc<
    K,
    V1,
    V2,
    O,
>>(f: &F, a: Seq<((K::V, V1::V), int)>, b: Seq<((K::V, V2::V), int)>)
    ensures
        jmatches(f, a, b).len() <= a.len() * b.len(),
{
    lemma_jmatches_len(f, a, b);
}

/// Size and weight caps that make a join safe in 64-bit weights: with
/// at most `na` and `nb` entries of magnitude at most `wa` and `wb`,
/// every product and every coalescing step stays in range.
pub proof fn lemma_join_safe<K: DBData, V1: DBData, V2: DBData, O: DBData, F: JoinFunc<
    K,
    V1,
    V2,
    O,
>>(f: &F, a: Seq<((K::V, V1::V), int)>, b: Seq<((K::V, V2::V), int)>, na: int, nb: int, wa: int, wb: int)
    requires
        0 <= a.len() <= na,
        0 <= b.len() <= nb,
        wa >= 0,
        wb >= 0,
        forall|x: int| 0 <= x < a.len() ==> -wa <= (#[trigger] a[x]).1 <= wa,
        forall|y: int| 0 <= y < b.len() ==> -wb <= (#[trigger] b[y]).1 <= wb,
        (na * nb + 1) * (wa * wb) <= i64::MAX,
    ensures
        products_bounded(a, b),
        sums_bounded(jmatches(f, a, b)),
{
    let ww = wa * wb;
    assert(wa * wb >= 0) by (nonlinear_arith)
        requires wa >= 0, wb >= 0,
    ;
    assert(wa * wb <= (na * nb + 1) * (wa * wb)) by (nonlinear_arith)
        requires wa * wb >= 0, na >= 0, nb >= 0,
    ;
    assert forall|x: int, y: int|
        0 <= x < a.len() && 0 <= y < b.len() && #[trigger] a[x].0.0 == #[trigger] b[y].0.0
            implies i64::MIN <= a[x].1 * b[y].1 <= i64::MAX by {
        assert(-(wa * wb) <= a[x].1 * b[y].1 <= wa * wb) by (nonlinear_arith)
            requires -wa <= a[x].1 <= wa, -wb <= b[y].1 <= wb, wa >= 0, wb >= 0,
        ;
    }
    let jm = jmatches(f, a, b);
    lemma_jmatches_weights(f, a, b, wa, wb);
    lemma_jmatches_len(f, a, b);
    assert(jm.len() <= na * nb) by (nonlinear_arith)
        requires jm.len() <= a.len() * b.len(), 0 <= a.len() <= na, 0 <= b.len() <= nb,
    ;
    assert forall|j: int|
        0 <= j < jm.len() implies i64::MIN <= zweight(
        tuples_sum(#[trigger] jm.take(j)),
        jm[j].0,
    ) + jm[j].1 <= i64::MAX by {
        assert forall|x: int| 0 <= x < j implies -ww <= (#[trigger] jm.take(j)[x]).1 <= ww by {
            assert(jm.take(j)[x] == jm[x]);
        }
        lemma_sum_weight_bound(jm.take(j), ww);
        assert(-(j * ww) <= zweight(tuples_sum(jm.take(j)), jm[j].0) <= j * ww);
        assert(j * (wa * wb) + wa * wb <= (na * nb + 1) * (wa * wb)) by (nonlinear_arith)
            requires 0 <= j, j + 1 <= na * nb, wa * wb >= 0,
        ;
        assert(j + 1 <= na * nb);
        assert(-((na * nb + 1) * (wa * wb)) >= i64::MIN) by {
            assert((na * nb + 1) * (wa * wb) >= 0) by (nonlinear_arith)
                requires wa * wb >= 0, na >= 0, nb >= 0,
            ;
        }
    }
}

/// The arithmetic side conditions under which two Z-set models can be
/// joined with 64-bit weights.
pub open spec fn join_ok<K: DBData, V1: DBData, V2: DBData, O: DBData, F: JoinFunc<
    K,
    V1,
    V2,
    O,
>>(f: &F, a: Map<(K::V, V1::V), int>, b: Map<(K::V, V2::V), int>) -> bool {
    &&& products_bounded(canon_of::<(K, V1)>(a), canon_of::<(K, V2)>(b))
    &&& sums_bounded(jmatches(f, canon_of::<(K, V1)>(a), canon_of::<(K, V2)>(b)))
}

/// Finds the first position at or after `lo` whose key is not below
/// `target`, by binary search on the sorted key column.
fn seek_key_ge<K: DBData, V: DBData>(pairs: &Vec<((K, V), i64)>, lo: usize, target: &K) -> (r:
    usize)
    requires
        pm_wf::<(K, V)>(models(pairs@)),
        lo <= pairs@.len(),
    ensures
        lo <= r <= pairs@.len(),
        forall|j: int|
            lo <= j < r ==> #[trigger] K::mlt(models(pairs@)[j].0.0, target.deep_view()),
        r < pairs@.len() ==> !K::mlt(models(pairs@)[r as int].0.0, target.deep_view()),
{
    let ghost s = models(pairs@);
    let ghost td = target.deep_view();
    proof {
        lemma_pair_keys_mono::<K, V>(s);
        assert forall|x: int, y: int|
            0 <= x < y < s.len() && #[trigger] K::mlt(s[y].0.0, td) implies #[trigger] K::mlt(
            s[x].0.0,
            td,
        ) by {
            if K::mlt(s[x].0.0, s[y].0.0) {
                K::mlt_transitive(s[x].0.0, s[y].0.0, td);
            }
        }
    }
    let mut low = lo;
    let mut high = pairs.len();
    while low < high
        invariant
            lo <= low <= high <= pairs@.len(),
            s == models(pairs@),
            td == target.deep_view(),
            forall|j: int| lo <= j < low ==> #[trigger] K::mlt(s[j].0.0, td),
            forall|j: int| high <= j < s.len() ==> !(#[trigger] K::mlt(s[j].0.0, td)),
            forall|x: int, y: int|
                0 <= x < y < s.len() && #[trigger] K::mlt(s[y].0.0, td) ==> #[trigger] K::mlt(
                    s[x].0.0,
                    td,
                ),
        decreases high - low,
    {
        let mid = low + (high - low) / 2;
        if pairs[mid].0.0.lt_exec(target) {
            proof {
                assert(K::mlt(s[mid as int].0.0, td));
                assert forall|j: int| lo <= j < mid as int + 1 implies #[trigger] K::mlt(
                    s[j].0.0,
                    td,
                ) by {
                    if j < mid as int {
                        assert(K::mlt(s[mid as int].0.0, td));
                    }
                }
            }
            low = mid + 1;
        } else {
            proof {
                assert forall|j: int| mid as int <= j < s.len() implies !(#[trigger] K::mlt(
                    s[j].0.0,
                    td,
                )) by {
                    if j > mid as int {
                        if K::mlt(s[j].0.0, td) {
                            assert(K::mlt(s[mid as int].0.0, td));
                        }
                    }
                }
            }
            high = mid;
        }
    }
    low
}

/// Join two indexed Z-sets entry by entry.
///
/// The operator walks both inputs with a dual-cursor merge on keys,
/// seeking past unmatched keys, and emits one weighted output tuple per
/// matching `(k, v1, v2)`.
pub struct Join<F> {
    pub join_func: F,
}

impl<F> Join<F> {
    pub fn new(join_func: F) -> (r: Self)
        ensures
            r.join_func == join_func,
    {
        Join { join_func }
    }

    /// Stable diagnostic name.
    pub fn name(&self) -> (r: &'static str)
        ensures
            r@ == "Join"@,
    {
        "Join"
    }

    /// A stateless operator is always at a fixed point.
    pub fn fixedpoint(&self, _scope: usize) -> (r: bool)
        ensures
            r,
    {
        true
    }

    /// One evaluation: the full join of the two input Z-sets.
    pub fn eval<K: DBData, V1: DBData, V2: DBData, O: DBData>(
        &mut self,
        i1: &OrdIndexedZSet<K, V1>,
        i2: &OrdIndexedZSet<K, V2>,
    ) -> (r: OrdZSet<O>) where F: JoinFunc<K, V1, V2, O>
        requires
            i1.wf(),
            i2.wf(),
            products_bounded(i1.model_seq(), i2.model_seq()),
            sums_bounded(jmatches(&old(self).join_func, i1.model_seq(), i2.model_seq())),
        ensures
            r.wf(),
            r@ == tuples_sum(jmatches(&old(self).join_func, i1.model_seq(), i2.model_seq())),
            r@ == zjoin(&old(self).join_func, i1@, i2@),
            final(self).join_func == old(self).join_func,
    {
        let ghost am = i1.model_seq();
        let ghost bm = i2.model_seq();
        proof {
            lemma_canon_of::<(K, V1)>(am);
            lemma_canon_of::<(K, V2)>(bm);
        }
        let a = &i1.zs.pairs;
        let b = &i2.zs.pairs;
        let mut batch: Vec<(O, i64)> = Vec::new();
        let mut x: usize = 0;
        let mut y: usize = 0;
        proof {
            assert(am.take(0) =~= Seq::<((K::V, V1::V), int)>::empty());
            assert(models(batch@) =~= Seq::<(O::V, int)>::empty());
        }
        while x < a.len() && y < b.len()
            invariant
                x <= a@.len(),
                y <= b@.len(),
                am == models(a@),
                bm == models(b@),
                a@ == i1.zs.pairs@,
                b@ == i2.zs.pairs@,
                pm_wf::<(K, V1)>(am),
                pm_wf::<(K, V2)>(bm),
                products_bounded(am, bm),
                models(batch@) == jmatches(&self.join_func, am.take(x as int), bm),
                forall|yy: int, xx: int|
                    0 <= yy < y as int && x as int <= xx < am.len() ==> K::mlt(
                        #[trigger] bm[yy].0.0,
                        #[trigger] am[xx].0.0,
                    ),
                self.join_func == old(self).join_func,
            decreases a@.len() - x + b@.len() - y,
        {
            let k1 = &a[x].0.0;
            let k2 = &b[y].0.0;
            if k1.lt_exec(k2) {
                // no entry of `b` matches keys below `k2`: seek past them
                let nx = seek_key_ge::<K, V1>(a, x, k2);
                proof {
                    let kt = k2.deep_view();
                    lemma_pair_keys_mono::<K, V2>(bm);
                    assert(bm[y as int].0.0 == kt);
                    assert(K::mlt(am[x as int].0.0, kt));
                    assert(x < nx);
                    assert forall|xx: int| x as int <= xx < nx as int implies matches_one(
                        &self.join_func,
                        am[xx],
                        bm,
                    ) == Seq::<(O::V, int)>::empty() by {
                        assert(K::mlt(am[xx].0.0, kt));
                        assert forall|yy: int| 0 <= yy < bm.len() implies bm[yy].0.0
                            != am[xx].0.0 by {
                            if yy < y as int {
                                K::mlt_trichotomy(bm[yy].0.0, am[xx].0.0);
                            } else {
                                if yy > y as int {
                                    assert(K::mlt(bm[y as int].0.0, bm[yy].0.0) || bm[
                                        y as int
                                    ].0.0 == bm[yy].0.0);
                                }
                                if bm[yy].0.0 == kt {
                                    K::mlt_trichotomy(am[xx].0.0, kt);
                                } else {
                                    assert(K::mlt(kt, bm[yy].0.0));
                                    K::mlt_transitive(am[xx].0.0, kt, bm[yy].0.0);
                                    K::mlt_trichotomy(am[xx].0.0, bm[yy].0.0);
                                }
                            }
                        }
                        lemma_matches_one_const(
                            &self.join_func,
                            am[xx],
                            bm,
                            0,
                            bm.len() as int,
                        );
                        assert(bm.take(bm.len() as int) =~= bm);
                        assert(bm.take(0) =~= Seq::<((K::V, V2::V), int)>::empty());
                    }
                    lemma_jmatches_const(&self.join_func, am, bm, x as int, nx as int);
                    // invariant (2) is preserved: the surviving suffix shrank
                    assert forall|yy: int, xx: int|
                        0 <= yy < y as int && nx as int <= xx < am.len() implies K::mlt(
                        #[trigger] bm[yy].0.0,
                        #[trigger] am[xx].0.0,
                    ) by {
                        assert(K::mlt(bm[yy].0.0, am[xx].0.0));
                    }
                }
                x = nx;
            } else if k2.lt_exec(k1) {
                // symmetric: skip the unmatched keys of `b`
                let ny = seek_key_ge::<K, V2>(b, y, k1);
                proof {
                    let kt = k1.deep_view();
                    lemma_pair_keys_mono::<K, V1>(am);
                    assert(K::mlt(bm[y as int].0.0, kt));
                    assert(y < ny);
                    assert forall|yy: int, xx: int|
                        0 <= yy < ny as int && x as int <= xx < am.len() implies K::mlt(
                        #[trigger] bm[yy].0.0,
                        #[trigger] am[xx].0.0,
                    ) by {
                        if yy < y as int {
                            assert(K::mlt(bm[yy].0.0, am[xx].0.0));
                        } else {
                            assert(K::mlt(bm[yy].0.0, kt));
                            if xx > x as int {
                                assert(K::mlt(am[x as int].0.0, am[xx].0.0) || am[
                                    x as int
                                ].0.0 == am[xx].0.0);
                            }
                            if am[x as int].0.0 == am[xx].0.0 {
                            } else {
                                K::mlt_transitive(bm[yy].0.0, kt, am[xx].0.0);
                            }
                        }
                    }
                }
                y = ny;
            } else {
                // equal keys: cross the values of this entry of `a` with
                // the value run of `b`
                proof {
                    K::mlt_trichotomy(am[x as int].0.0, bm[y as int].0.0);
                    assert(am[x as int].0.0 == bm[y as int].0.0);
                }
                let ghost k = am[x as int].0.0;
                let ghost t1 = am[x as int];
                let w1 = a[x].1;
                let mut yy = y;
                proof {
                    assert forall|j: int| 0 <= j < y as int implies bm[j].0.0 != t1.0.0 by {
                        K::mlt_trichotomy(bm[j].0.0, am[x as int].0.0);
                    }
                    lemma_matches_one_const(&self.join_func, t1, bm, 0, y as int);
                    assert(bm.take(0) =~= Seq::<((K::V, V2::V), int)>::empty());
                }
                loop
                    invariant
                        y <= yy <= b@.len(),
                        x < a@.len(),
                        y < b@.len(),
                        am == models(a@),
                        bm == models(b@),
                        a@ == i1.zs.pairs@,
                        b@ == i2.zs.pairs@,
                        pm_wf::<(K, V1)>(am),
                        pm_wf::<(K, V2)>(bm),
                        products_bounded(am, bm),
                        t1 == am[x as int],
                        k == am[x as int].0.0,
                        w1 == a@[x as int].1,
                        forall|j: int| y as int <= j < yy as int ==> bm[j].0.0 == k,
                        models(batch@) == jmatches(&self.join_func, am.take(x as int), bm)
                            + matches_one(&self.join_func, t1, bm.take(yy as int)),
                        self.join_func == old(self).join_func,
                    ensures
                        y <= yy <= b@.len(),
                        forall|j: int| y as int <= j < yy as int ==> bm[j].0.0 == k,
                        models(batch@) == jmatches(&self.join_func, am.take(x as int), bm)
                            + matches_one(&self.join_func, t1, bm.take(yy as int)),
                        yy == b@.len() || bm[yy as int].0.0 != k,
                        self.join_func == old(self).join_func,
                    decreases b@.len() - yy,
                {
                    if yy == b.len() {
                        break ;
                    }
                    if !b[yy].0.0.eq_exec(&a[x].0.0) {
                        proof {
                            assert(bm[yy as int].0.0 != am[x as int].0.0);
                        }
                        break ;
                    }
                    let w2 = b[yy].1;
                    proof {
                        assert(bm[yy as int].0.0 == am[x as int].0.0);
                        assert(i64::MIN <= am[x as int].1 * bm[yy as int].1 <= i64::MAX);
                        assert(am[x as int].1 == w1 as int && bm[yy as int].1 == w2 as int);
                    }
                    let o = self.join_func.feval(&a[x].0.0, &a[x].0.1, &b[yy].0.1);
                    let ghost batch_before = models(batch@);
                    batch.push((o, w1 * w2));
                    proof {
                        lemma_matches_one_take_step(&self.join_func, t1, bm, yy as int);
                        assert(am[x as int] == ((a@[x as int].0.0.deep_view(),
                        a@[x as int].0.1.deep_view()), a@[x as int].1 as int));
                        assert(bm[yy as int] == ((b@[yy as int].0.0.deep_view(),
                        b@[yy as int].0.1.deep_view()), b@[yy as int].1 as int));
                        assert(o.deep_view() == self.join_func.fmodel(t1.0.0, t1.0.1,
                        bm[yy as int].0.1));
                        assert(models(batch@) =~= batch_before.push(
                            (o.deep_view(), (w1 * w2) as int),
                        ));
                        assert(models(batch@) =~= jmatches(
                            &self.join_func,
                            am.take(x as int),
                            bm,
                        ) + matches_one(&self.join_func, t1, bm.take(yy as int + 1)));
                    }
                    yy = yy + 1;
                }
                // the rest of `b` has keys above `k`
                proof {
                    lemma_pair_keys_mono::<K, V2>(bm);
                    assert forall|j: int| yy as int <= j < bm.len() implies bm[j].0.0
                        != t1.0.0 by {
                        if yy == y {
                            // impossible: the run starts with key `k`
                            assert(bm[y as int].0.0 == k);
                            assert(bm[yy as int].0.0 != k);
                            assert(false);
                        } else {
                            assert(bm[yy as int - 1].0.0 == k);
                            assert(bm[yy as int].0.0 != k);
                            assert(K::mlt(bm[yy as int - 1].0.0, bm[yy as int].0.0) || bm[
                                yy as int - 1
                            ].0.0 == bm[yy as int].0.0);
                            assert(K::mlt(k, bm[yy as int].0.0));
                            if j > yy as int {
                                assert(K::mlt(bm[yy as int].0.0, bm[j].0.0) || bm[
                                    yy as int
                                ].0.0 == bm[j].0.0);
                                if K::mlt(bm[yy as int].0.0, bm[j].0.0) {
                                    K::mlt_transitive(k, bm[yy as int].0.0, bm[j].0.0);
                                }
                            }
                            K::mlt_trichotomy(k, bm[j].0.0);
                        }
                    }
                    lemma_matches_one_const(&self.join_func, t1, bm, yy as int, bm.len() as int);
                    assert(bm.take(bm.len() as int) =~= bm);
                    lemma_jmatches_take_step(&self.join_func, am, bm, x as int);
                    assert(models(batch@) == jmatches(
                        &self.join_func,
                        am.take(x as int + 1),
                        bm,
                    ));
                }
                x = x + 1;
            }
        }
        proof {
            // whichever side ran out, the remaining entries match nothing
            if x < a@.len() {
                assert(y == b@.len());
                assert forall|xx: int| x as int <= xx < am.len() implies matches_one(
                    &self.join_func,
                    am[xx],
                    bm,
                ) == Seq::<(O::V, int)>::empty() by {
                    assert forall|j: int| 0 <= j < bm.len() implies bm[j].0.0 != am[xx].0.0 by {
                        K::mlt_trichotomy(bm[j].0.0, am[xx].0.0);
                    }
                    lemma_matches_one_const(&self.join_func, am[xx], bm, 0, bm.len() as int);
                    assert(bm.take(bm.len() as int) =~= bm);
                    assert(bm.take(0) =~= Seq::<((K::V, V2::V), int)>::empty());
                }
                lemma_jmatches_const(&self.join_func, am, bm, x as int, am.len() as int);
            }
            assert(am.take(am.len() as int) =~= am);
        }
        OrdZSet::from_tuples(batch)
    }
}

} // verus!
