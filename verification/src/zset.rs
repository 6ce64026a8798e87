//! Z-set algebra: multisets with signed integer multiplicities.
//!
//! The mathematical model of a Z-set is a finite map from key models to
//! non-zero integer weights.  The executable representation is a vector of
//! (key, weight) pairs strictly sorted by the key order, with no zero
//! weights, so equal Z-sets have equal representations.

use vstd::prelude::*;
use crate::data::DBData;

verus! {

/// Weight of `k` in `m`, zero when absent.
pub open spec fn zweight<KM>(m: Map<KM, int>, k: KM) -> int {
    if m.contains_key(k) {
        m[k]
    } else {
        0
    }
}

/// A well-formed Z-set model: finite, and no key maps to zero.
pub open spec fn zset_wf<KM>(m: Map<KM, int>) -> bool {
    &&& m.dom().finite()
    &&& forall|k: KM| m.contains_key(k) ==> m[k] != 0
}

/// Pointwise sum with zero elimination.
pub open spec fn zadd<KM>(a: Map<KM, int>, b: Map<KM, int>) -> Map<KM, int> {
    Map::new(
        |k: KM| (a.contains_key(k) || b.contains_key(k)) && zweight(a, k) + zweight(b, k) != 0,
        |k: KM| zweight(a, k) + zweight(b, k),
    )
}

/// Pointwise negation.
pub open spec fn zneg<KM>(m: Map<KM, int>) -> Map<KM, int> {
    Map::new(|k: KM| m.contains_key(k), |k: KM| -m[k])
}

/// Set-valued image: weight one for every key with positive weight.
pub open spec fn zdistinct<KM>(m: Map<KM, int>) -> Map<KM, int> {
    Map::new(|k: KM| m.contains_key(k) && m[k] > 0, |k: KM| 1)
}

/// The support of a Z-set: weight one for every present key.
pub open spec fn zsupport<KM>(m: Map<KM, int>) -> Map<KM, int> {
    Map::new(|k: KM| m.contains_key(k), |k: KM| 1)
}

/// Adds one weighted key to a model, removing the key if the sum is zero.
pub open spec fn add_pair<KM>(m: Map<KM, int>, k: KM, w: int) -> Map<KM, int> {
    if w == 0 {
        m
    } else if m.contains_key(k) {
        if m[k] + w == 0 {
            m.remove(k)
        } else {
            m.insert(k, m[k] + w)
        }
    } else {
        m.insert(k, w)
    }
}

/// The Z-set denoted by an unordered tuple sequence: coalesces duplicate
/// keys by summing weights and drops keys whose sum is zero.
pub open spec fn tuples_sum<KM>(s: Seq<(KM, int)>) -> Map<KM, int>
    decreases s.len(),
{
    if s.len() == 0 {
        Map::empty()
    } else {
        add_pair(tuples_sum(s.drop_last()), s.last().0, s.last().1)
    }
}

/// Signed sum of all weights of a tuple sequence.
pub open spec fn wsum<KM>(s: Seq<(KM, int)>) -> int
    decreases s.len(),
{
    if s.len() == 0 {
        0
    } else {
        wsum(s.drop_last()) + s.last().1
    }
}

pub proof fn lemma_add_pair_weight<KM>(m: Map<KM, int>, k: KM, w: int, q: KM)
    ensures
        zweight(add_pair(m, k, w), q) == zweight(m, q) + if q == k {
            w
        } else {
            0
        },
{
}

pub proof fn lemma_add_pair_wf<KM>(m: Map<KM, int>, k: KM, w: int)
    requires
        zset_wf(m),
    ensures
        zset_wf(add_pair(m, k, w)),
{
}

pub proof fn lemma_tuples_sum_wf<KM>(s: Seq<(KM, int)>)
    ensures
        zset_wf(tuples_sum(s)),
    decreases s.len(),
{
    if s.len() > 0 {
        lemma_tuples_sum_wf(s.drop_last());
        lemma_add_pair_wf(tuples_sum(s.drop_last()), s.last().0, s.last().1);
    }
}

/// The result of `zadd`, `zneg` or `zdistinct` on well-formed models is
/// well formed.
pub proof fn lemma_ops_wf<KM>(a: Map<KM, int>, b: Map<KM, int>)
    requires
        zset_wf(a),
        zset_wf(b),
    ensures
        zset_wf(zadd(a, b)),
        zset_wf(zneg(a)),
        zset_wf(zdistinct(a)),
{
    broadcast use vstd::set_lib::lemma_set_subset_finite;
    broadcast use vstd::set::axiom_set_union_finite;

    assert(zadd(a, b).dom().subset_of(a.dom().union(b.dom())));
    assert(zneg(a).dom().subset_of(a.dom()));
    assert(zdistinct(a).dom().subset_of(a.dom()));
}

/// Two well-formed models with equal weights everywhere are equal.
pub proof fn lemma_weight_ext<KM>(a: Map<KM, int>, b: Map<KM, int>)
    requires
        zset_wf(a),
        zset_wf(b),
        forall|k: KM| zweight(a, k) == zweight(b, k),
    ensures
        a == b,
{
    assert forall|k: KM| a.dom().contains(k) <==> b.dom().contains(k) by {
        assert(zweight(a, k) == zweight(b, k));
    }
    assert forall|k: KM| a.dom().contains(k) implies a[k] == b[k] by {
        assert(zweight(a, k) == zweight(b, k));
    }
    assert(a.dom() =~= b.dom());
    assert(a =~= b);
}

/// Characterizes the sum of a duplicate-free, zero-free tuple sequence:
/// exactly the listed keys with the listed weights.
pub proof fn lemma_sum_distinct<KM>(s: Seq<(KM, int)>)
    requires
        forall|i: int, j: int| 0 <= i < j < s.len() ==> s[i].0 != s[j].0,
        forall|i: int| 0 <= i < s.len() ==> s[i].1 != 0,
    ensures
        tuples_sum(s).dom().finite(),
        tuples_sum(s).dom().len() == s.len(),
        forall|i: int|
            0 <= i < s.len() ==> tuples_sum(s).contains_key(s[i].0) && tuples_sum(s)[s[i].0]
                == s[i].1,
        forall|k: KM|
            tuples_sum(s).contains_key(k) ==> exists|i: int| 0 <= i < s.len() && s[i].0 == k,
    decreases s.len(),
{
    lemma_tuples_sum_wf(s);
    if s.len() > 0 {
        let pre = s.drop_last();
        let k = s.last().0;
        let w = s.last().1;
        lemma_sum_distinct(pre);
        let m = tuples_sum(pre);
        assert(!m.contains_key(k));
        assert(tuples_sum(s) == m.insert(k, w));
        assert(forall|i: int| 0 <= i < pre.len() ==> s[i] == pre[i]);
        assert(m.dom().insert(k).len() == m.dom().len() + 1) by {
            vstd::set::axiom_set_insert_len(m.dom(), k);
        }
    }
}

/// Z-set addition is carried by `add_pair`: adding a tuple to one summand
/// adds it to the sum.
pub proof fn lemma_zadd_add_pair<KM>(a: Map<KM, int>, b: Map<KM, int>, k: KM, w: int)
    requires
        zset_wf(a),
        zset_wf(b),
    ensures
        zadd(a, add_pair(b, k, w)) == add_pair(zadd(a, b), k, w),
{
    let lhs = zadd(a, add_pair(b, k, w));
    let rhs = add_pair(zadd(a, b), k, w);
    lemma_ops_wf(a, b);
    lemma_add_pair_wf(zadd(a, b), k, w);
    lemma_add_pair_wf(b, k, w);
    lemma_ops_wf(a, add_pair(b, k, w));
    assert forall|q: KM| zweight(lhs, q) == zweight(rhs, q) by {
        lemma_add_pair_weight(b, k, w, q);
        lemma_add_pair_weight(zadd(a, b), k, w, q);
    }
    lemma_weight_ext(lhs, rhs);
}

/// The empty Z-set is a neutral element of addition.
pub proof fn lemma_zadd_zero<KM>(a: Map<KM, int>)
    requires
        zset_wf(a),
    ensures
        zadd(a, Map::<KM, int>::empty()) == a,
{
    assert(zadd(a, Map::<KM, int>::empty()) =~= a);
}

/// Z-set addition is commutative.
pub proof fn lemma_zadd_comm<KM>(a: Map<KM, int>, b: Map<KM, int>)
    ensures
        zadd(a, b) == zadd(b, a),
{
    assert(zadd(a, b) =~= zadd(b, a));
}

/// Z-set addition is associative.
pub proof fn lemma_zadd_assoc<KM>(a: Map<KM, int>, b: Map<KM, int>, c: Map<KM, int>)
    requires
        zset_wf(a),
        zset_wf(b),
        zset_wf(c),
    ensures
        zadd(a, zadd(b, c)) == zadd(zadd(a, b), c),
{
    assert(zadd(a, zadd(b, c)) =~= zadd(zadd(a, b), c));
}

/// `distinct` is idempotent.
pub proof fn lemma_distinct_idempotent<KM>(m: Map<KM, int>)
    ensures
        zdistinct(zdistinct(m)) == zdistinct(m),
{
    assert(zdistinct(zdistinct(m)) =~= zdistinct(m));
}

/// Building a Z-set from a concatenation of tuple sequences equals adding
/// the Z-sets built from each part.
pub proof fn lemma_tuples_sum_concat<KM>(xs: Seq<(KM, int)>, ys: Seq<(KM, int)>)
    ensures
        tuples_sum(xs + ys) == zadd(tuples_sum(xs), tuples_sum(ys)),
    decreases ys.len(),
{
    lemma_tuples_sum_wf(xs);
    if ys.len() == 0 {
        assert(xs + ys =~= xs);
        lemma_zadd_zero(tuples_sum(xs));
    } else {
        let pre = ys.drop_last();
        lemma_tuples_sum_concat(xs, pre);
        lemma_tuples_sum_wf(pre);
        assert((xs + ys).drop_last() =~= xs + pre);
        lemma_zadd_add_pair(tuples_sum(xs), tuples_sum(pre), ys.last().0, ys.last().1);
    }
}

/// The models of an executable tuple vector.
pub open spec fn models<K: DBData>(s: Seq<(K, i64)>) -> Seq<(K::V, int)> {
    s.map_values(|p: (K, i64)| (p.0.deep_view(), p.1 as int))
}

/// Strictly sorted by key model, with no zero weights: the canonical
/// representation of a Z-set.
pub open spec fn pm_wf<K: DBData>(s: Seq<(K::V, int)>) -> bool {
    &&& forall|i: int, j: int| 0 <= i < j < s.len() ==> #[trigger] K::mlt(s[i].0, s[j].0)
    &&& forall|i: int| 0 <= i < s.len() ==> s[i].1 != 0
}

pub proof fn lemma_pm_wf_distinct<K: DBData>(s: Seq<(K::V, int)>)
    requires
        pm_wf::<K>(s),
    ensures
        forall|i: int, j: int| 0 <= i < j < s.len() ==> s[i].0 != s[j].0,
{
    assert forall|i: int, j: int| 0 <= i < j < s.len() implies s[i].0 != s[j].0 by {
        K::mlt_trichotomy(s[i].0, s[j].0);
    }
}

/// A canonical vector denotes exactly the map that lists its entries.
pub proof fn lemma_canonical_eq<K: DBData>(s: Seq<(K::V, int)>, target: Map<K::V, int>)
    requires
        pm_wf::<K>(s),
        zset_wf(target),
        forall|i: int|
            0 <= i < s.len() ==> target.contains_key(#[trigger] s[i].0) && target[s[i].0]
                == s[i].1,
        forall|q: K::V| target.contains_key(q) ==> exists|i: int| 0 <= i < s.len() && s[i].0 == q,
    ensures
        tuples_sum(s) == target,
{
    lemma_pm_wf_distinct::<K>(s);
    lemma_sum_distinct(s);
    lemma_tuples_sum_wf(s);
    let m = tuples_sum(s);
    assert forall|q: K::V| zweight(m, q) == zweight(target, q) by {
        if m.contains_key(q) {
            let i = choose|i: int| 0 <= i < s.len() && s[i].0 == q;
            assert(m[q] == s[i].1);
        } else if target.contains_key(q) {
            let i = choose|i: int| 0 <= i < s.len() && s[i].0 == q;
            assert(m.contains_key(s[i].0));
        }
    }
    lemma_weight_ext(m, target);
}

/// Summing one more tuple extends a prefix sum by `add_pair`.
pub proof fn lemma_sum_take_step<KM>(s: Seq<(KM, int)>, j: int)
    requires
        0 <= j < s.len(),
    ensures
        tuples_sum(s.take(j + 1)) == add_pair(tuples_sum(s.take(j)), s[j].0, s[j].1),
{
    assert(s.take(j + 1).drop_last() =~= s.take(j));
    assert(s.take(j + 1).last() == s[j]);
}

/// One sorted-order fact of a canonical vector, by index pair.
pub proof fn lemma_pm_wf_entry<K: DBData>(s: Seq<(K::V, int)>, i: int, j: int)
    requires
        pm_wf::<K>(s),
        0 <= i < j < s.len(),
    ensures
        K::mlt(s[i].0, s[j].0),
{
}

/// In a canonical pair-sorted vector the key column is non-decreasing.
pub proof fn lemma_pair_keys_mono<A: DBData, B: DBData>(s: Seq<((A::V, B::V), int)>)
    requires
        pm_wf::<(A, B)>(s),
    ensures
        forall|i: int, j: int|
            0 <= i < j < s.len() ==> A::mlt(#[trigger] s[i].0.0, #[trigger] s[j].0.0) || s[i].0.0
                == s[j].0.0,
{
    assert forall|i: int, j: int| 0 <= i < j < s.len() implies A::mlt(
        #[trigger] s[i].0.0,
        #[trigger] s[j].0.0,
    ) || s[i].0.0 == s[j].0.0 by {
        lemma_pm_wf_entry::<(A, B)>(s, i, j);
        assert(crate::data::pair_mlt::<A, B>(s[i].0, s[j].0));
    }
}

/// Pointwise addition stays within 64-bit weights.
pub open spec fn plus_ok<KM>(a: Map<KM, int>, b: Map<KM, int>) -> bool {
    forall|q: KM| i64::MIN <= #[trigger] zweight(a, q) + zweight(b, q) <= i64::MAX
}

/// The integral of a history of Z-set models: the sum of all of them.
pub open spec fn isum<KM>(vs: Seq<Map<KM, int>>) -> Map<KM, int>
    decreases vs.len(),
{
    if vs.len() == 0 {
        Map::empty()
    } else {
        zadd(isum(vs.drop_last()), vs.last())
    }
}

pub proof fn lemma_isum_wf<KM>(vs: Seq<Map<KM, int>>)
    requires
        forall|i: int| 0 <= i < vs.len() ==> zset_wf(#[trigger] vs[i]),
    ensures
        zset_wf(isum(vs)),
    decreases vs.len(),
{
    if vs.len() == 0 {
        assert(isum(vs).dom() =~= Set::<KM>::empty());
    } else {
        lemma_isum_wf(vs.drop_last());
        lemma_ops_wf(isum(vs.drop_last()), vs.last());
    }
}

/// One more step extends the integral by one addition.
pub proof fn lemma_isum_step<KM>(vs: Seq<Map<KM, int>>, i: int)
    requires
        0 <= i < vs.len(),
    ensures
        isum(vs.take(i + 1)) == zadd(isum(vs.take(i)), vs[i]),
{
    assert(vs.take(i + 1).drop_last() =~= vs.take(i));
    assert(vs.take(i + 1).last() == vs[i]);
}

/// A well-formed Z-set model has exactly one canonical representation.
pub proof fn lemma_canonical_unique<K: DBData>(s1: Seq<(K::V, int)>, s2: Seq<(K::V, int)>)
    requires
        pm_wf::<K>(s1),
        pm_wf::<K>(s2),
        tuples_sum(s1) == tuples_sum(s2),
    ensures
        s1 == s2,
    decreases s1.len(),
{
    lemma_pm_wf_distinct::<K>(s1);
    lemma_pm_wf_distinct::<K>(s2);
    lemma_sum_distinct(s1);
    lemma_sum_distinct(s2);
    let m = tuples_sum(s1);
    if s1.len() == 0 {
        if s2.len() > 0 {
            assert(m.contains_key(s2[0].0));
        }
        assert(s1 =~= s2);
    } else {
        assert(s2.len() > 0) by {
            assert(m.contains_key(s1[0].0));
        }
        let k1 = s1.last().0;
        let k2 = s2.last().0;
        // both last keys are the maximum of the same domain
        assert(k1 == k2) by {
            if k1 != k2 {
                assert(m.contains_key(k2));
                let i = choose|i: int| 0 <= i < s1.len() && s1[i].0 == k2;
                assert(i < s1.len() - 1);
                assert(K::mlt(s1[i].0, k1));
                assert(tuples_sum(s2).contains_key(k1));
                let j = choose|j: int| 0 <= j < s2.len() && s2[j].0 == k1;
                assert(j < s2.len() - 1);
                assert(K::mlt(s2[j].0, k2));
                K::mlt_trichotomy(k1, k2);
            }
        }
        assert(s1.last().1 == m[k1] && s2.last().1 == m[k1]);
        let p1 = s1.drop_last();
        let p2 = s2.drop_last();
        lemma_sum_distinct(p1);
        lemma_sum_distinct(p2);
        assert(!tuples_sum(p1).contains_key(k1) && !tuples_sum(p2).contains_key(k1));
        assert(tuples_sum(s1) == tuples_sum(p1).insert(k1, s1.last().1));
        assert(tuples_sum(s2) == tuples_sum(p2).insert(k1, s1.last().1));
        assert(tuples_sum(p1) =~= tuples_sum(s1).remove(k1));
        assert(tuples_sum(p2) =~= tuples_sum(s2).remove(k1));
        lemma_canonical_unique::<K>(p1, p2);
        assert(s1 =~= s2);
    }
}

/// Two Z-sets with the same key-to-weight mapping are the same value,
/// whatever order their tuples arrived in.
pub proof fn lemma_zset_extensional<K: DBData>(z1: &OrdZSet<K>, z2: &OrdZSet<K>)
    requires
        z1.wf(),
        z2.wf(),
        z1@ == z2@,
    ensures
        z1.model_seq() == z2.model_seq(),
{
    lemma_canonical_unique::<K>(z1.model_seq(), z2.model_seq());
}

/// The canonical representation of a well-formed Z-set model.
pub open spec fn canon_of<K: DBData>(m: Map<K::V, int>) -> Seq<(K::V, int)> {
    choose|s: Seq<(K::V, int)>| pm_wf::<K>(s) && tuples_sum(s) == m
}

/// `canon_of` returns the one canonical representation.
pub proof fn lemma_canon_of<K: DBData>(s: Seq<(K::V, int)>)
    requires
        pm_wf::<K>(s),
    ensures
        canon_of::<K>(tuples_sum(s)) == s,
{
    let m = tuples_sum(s);
    assert(pm_wf::<K>(s) && tuples_sum(s) == m);
    let c = canon_of::<K>(m);
    assert(pm_wf::<K>(c) && tuples_sum(c) == m);
    lemma_canonical_unique::<K>(c, s);
}

/// A Z-set over keys of type `K`, stored in canonical sorted form.
pub struct OrdZSet<K: DBData> {
    pub pairs: Vec<(K, i64)>,
}

impl<K: DBData> View for OrdZSet<K> {
    type V = Map<K::V, int>;

    open spec fn view(&self) -> Map<K::V, int> {
        tuples_sum(models(self.pairs@))
    }
}

impl<K: DBData> OrdZSet<K> {
    /// Canonical representation invariant.
    pub open spec fn wf(&self) -> bool {
        pm_wf::<K>(models(self.pairs@))
    }

    pub open spec fn model_seq(&self) -> Seq<(K::V, int)> {
        models(self.pairs@)
    }

    /// The weights listed in a well-formed Z-set are its view's weights.
    pub proof fn lemma_view(&self)
        requires
            self.wf(),
        ensures
            zset_wf(self@),
            self@.dom().len() == self.pairs@.len(),
            forall|i: int|
                0 <= i < self.model_seq().len() ==> self@.contains_key(self.model_seq()[i].0)
                    && self@[self.model_seq()[i].0] == self.model_seq()[i].1,
            forall|k: K::V|
                self@.contains_key(k) ==> exists|i: int|
                    0 <= i < self.model_seq().len() && self.model_seq()[i].0 == k,
    {
        lemma_pm_wf_distinct::<K>(self.model_seq());
        lemma_sum_distinct(self.model_seq());
        lemma_tuples_sum_wf(self.model_seq());
    }

    /// The empty Z-set.
    pub fn empty() -> (r: Self)
        ensures
            r.wf(),
            r@ == Map::<K::V, int>::empty(),
    {
        let r = OrdZSet { pairs: Vec::new() };
        proof {
            assert(models(r.pairs@) =~= Seq::<(K::V, int)>::empty());
        }
        r
    }

    pub fn entries(&self) -> (r: &Vec<(K, i64)>)
        ensures
            r == &self.pairs,
    {
        &self.pairs
    }

    /// Number of distinct keys.
    pub fn len(&self) -> (r: usize)
        requires
            self.wf(),
        ensures
            r == self@.dom().len(),
    {
        proof {
            self.lemma_view();
        }
        self.pairs.len()
    }

    /// True exactly when the Z-set has no keys.
    pub fn is_empty(&self) -> (r: bool)
        requires
            self.wf(),
        ensures
            r == (self@ == Map::<K::V, int>::empty()),
    {
        proof {
            self.lemma_view();
            if self.pairs@.len() == 0 {
                assert(self@ =~= Map::<K::V, int>::empty());
            } else {
                assert(self@.contains_key(self.model_seq()[0].0));
            }
        }
        self.pairs.len() == 0
    }

    /// A copy with the same content.
    pub fn dup(&self) -> (r: Self)
        requires
            self.wf(),
        ensures
            r.wf(),
            r@ == self@,
            r.model_seq() == self.model_seq(),
    {
        let mut pairs: Vec<(K, i64)> = Vec::new();
        let n = self.pairs.len();
        let mut i: usize = 0;
        while i < n
            invariant
                i <= n,
                n == self.pairs@.len(),
                pairs@.len() == i as int,
                forall|j: int|
                    0 <= j < i as int ==> #[trigger] pairs@[j].0.deep_view()
                        == self.pairs@[j].0.deep_view() && pairs@[j].1 == self.pairs@[j].1,
            decreases n - i,
        {
            let p = &self.pairs[i];
            let k = p.0.dup();
            let w = p.1;
            pairs.push((k, w));
            i = i + 1;
        }
        let r = OrdZSet { pairs };
        proof {
            assert(models(r.pairs@) =~= models(self.pairs@));
        }
        r
    }

    /// Builds a Z-set from unordered tuples, coalescing duplicate keys by
    /// summing weights and dropping keys whose sum is zero.
    pub fn from_tuples(tuples: Vec<(K, i64)>) -> (r: Self)
        requires
            sums_bounded(models(tuples@)),
        ensures
            r.wf(),
            r@ == tuples_sum(models(tuples@)),
    {
        let ghost s = models(tuples@);
        let mut pairs: Vec<(K, i64)> = Vec::new();
        let n = tuples.len();
        let mut i: usize = 0;
        proof {
            assert(models(pairs@) =~= Seq::<(K::V, int)>::empty());
            assert(s.take(0) =~= Seq::<(K::V, int)>::empty());
        }
        while i < n
            invariant
                i <= n,
                n == tuples@.len(),
                s == models(tuples@),
                pm_wf::<K>(models(pairs@)),
                tuples_sum(models(pairs@)) == tuples_sum(s.take(i as int)),
                sums_bounded(s),
            decreases n - i,
        {
            let w = tuples[i].1;
            proof {
                assert(s[i as int] == (tuples@[i as int].0.deep_view(), tuples@[i as int].1 as int));
                lemma_sum_take_step(s, i as int);
            }
            zset_upsert(&mut pairs, &tuples[i].0, w);
            i = i + 1;
        }
        proof {
            assert(s.take(n as int) =~= s);
        }
        OrdZSet { pairs }
    }

    /// Pointwise addition with zero elimination.
    pub fn plus(&self, other: &Self) -> (r: Self)
        requires
            self.wf(),
            other.wf(),
            forall|q: K::V| i64::MIN <= #[trigger] zweight(self@, q) + zweight(other@, q) <= i64::MAX,
        ensures
            r.wf(),
            r@ == zadd(self@, other@),
    {
        proof {
            self.lemma_view();
            other.lemma_view();
        }
        let ghost s = models(other.pairs@);
        let copy = self.dup();
        let mut pairs = copy.pairs;
        let n = other.pairs.len();
        let mut i: usize = 0;
        proof {
            assert(s.take(0) =~= Seq::<(K::V, int)>::empty());
            lemma_zadd_zero(self@);
            assert forall|j: int| 0 <= j < s.len() implies other@.contains_key(
                #[trigger] s[j].0,
            ) && other@[s[j].0] == s[j].1 by {
                assert(s[j] == other.model_seq()[j]);
                assert(other@.contains_key(other.model_seq()[j].0));
            }
        }
        while i < n
            invariant
                i <= n,
                n == other.pairs@.len(),
                s == models(other.pairs@),
                pm_wf::<K>(s),
                pm_wf::<K>(models(pairs@)),
                tuples_sum(models(pairs@)) == zadd(self@, tuples_sum(s.take(i as int))),
                zset_wf(self@),
                forall|q: K::V| i64::MIN <= #[trigger] zweight(self@, q) + zweight(other@, q) <= i64::MAX,
                forall|j: int|
                    0 <= j < s.len() ==> other@.contains_key(#[trigger] s[j].0) && other@[s[j].0]
                        == s[j].1,
            decreases n - i,
        {
            let w = other.pairs[i].1;
            proof {
                let pre = s.take(i as int);
                let km = s[i as int].0;
                assert(forall|a: int, b: int| 0 <= a < b < s.len() ==> s[a].0 != s[b].0) by {
                    lemma_pm_wf_distinct::<K>(s);
                }
                assert(pm_wf::<K>(pre));
                lemma_sum_distinct(pre);
                lemma_tuples_sum_wf(pre);
                // the current key is not among the first i keys
                assert(!tuples_sum(pre).contains_key(km));
                assert(zweight(tuples_sum(models(pairs@)), km) == zweight(self@, km));
                assert(w as int == other@[km]);
                lemma_zadd_add_pair(self@, tuples_sum(pre), km, w as int);
                lemma_sum_take_step(s, i as int);
            }
            zset_upsert(&mut pairs, &other.pairs[i].0, w);
            i = i + 1;
        }
        proof {
            assert(s.take(n as int) =~= s);
        }
        OrdZSet { pairs }
    }

    /// Pointwise negation.
    pub fn neg(&self) -> (r: Self)
        requires
            self.wf(),
            forall|q: K::V| #[trigger] zweight(self@, q) != i64::MIN as int,
        ensures
            r.wf(),
            r@ == zneg(self@),
    {
        proof {
            self.lemma_view();
            lemma_ops_wf(self@, self@);
        }
        let mut pairs: Vec<(K, i64)> = Vec::new();
        let n = self.pairs.len();
        let mut i: usize = 0;
        while i < n
            invariant
                i <= n,
                n == self.pairs@.len(),
                self.wf(),
                zset_wf(self@),
                forall|q: K::V| #[trigger] zweight(self@, q) != i64::MIN as int,
                forall|j: int|
                    0 <= j < self.model_seq().len() ==> self@.contains_key(
                        #[trigger] self.model_seq()[j].0,
                    ) && self@[self.model_seq()[j].0] == self.model_seq()[j].1,
                pairs@.len() == i as int,
                forall|j: int|
                    0 <= j < i as int ==> #[trigger] pairs@[j].0.deep_view()
                        == self.pairs@[j].0.deep_view() && pairs@[j].1 as int ==
                    -(self.pairs@[j].1 as int),
            decreases n - i,
        {
            let p = &self.pairs[i];
            proof {
                assert(self@.contains_key(self.model_seq()[i as int].0));
                assert(zweight(self@, self.model_seq()[i as int].0) != i64::MIN as int);
                assert(self.model_seq()[i as int].1 == self.pairs@[i as int].1 as int);
            }
            let k = p.0.dup();
            let w = -p.1;
            pairs.push((k, w));
            i = i + 1;
        }
        let r = OrdZSet { pairs };
        proof {
            let s2 = models(r.pairs@);
            assert forall|j: int| 0 <= j < s2.len() implies s2[j] == (
                self.model_seq()[j].0,
                -self.model_seq()[j].1,
            ) by {
                assert(s2[j].0 == r.pairs@[j].0.deep_view());
            }
            assert forall|j: int| 0 <= j < s2.len() implies zneg(self@).contains_key(
                #[trigger] s2[j].0,
            ) && zneg(self@)[s2[j].0] == s2[j].1 by {
                assert(s2[j] == (self.model_seq()[j].0, -self.model_seq()[j].1));
            }
            assert forall|q: K::V| zneg(self@).contains_key(q) implies exists|j: int|
                0 <= j < s2.len() && s2[j].0 == q by {
                let j = choose|j: int|
                    0 <= j < self.model_seq().len() && self.model_seq()[j].0 == q;
                assert(s2[j].0 == q);
            }
            assert(pm_wf::<K>(s2));
            lemma_canonical_eq::<K>(s2, zneg(self@));
        }
        r
    }

    /// Pointwise subtraction with zero elimination.
    pub fn minus(&self, other: &Self) -> (r: Self)
        requires
            self.wf(),
            other.wf(),
            forall|q: K::V| #[trigger] zweight(other@, q) != i64::MIN as int,
            forall|q: K::V| i64::MIN <= #[trigger] zweight(self@, q) - zweight(other@, q) <= i64::MAX,
        ensures
            r.wf(),
            r@ == zadd(self@, zneg(other@)),
    {
        let negated = other.neg();
        proof {
            assert forall|q: K::V| i64::MIN <= #[trigger] zweight(self@, q) + zweight(negated@, q)
                <= i64::MAX by {
                assert(zweight(negated@, q) == -zweight(other@, q));
            }
        }
        self.plus(&negated)
    }

    /// The support: every present key with weight one.
    pub fn keys_set(&self) -> (r: Self)
        requires
            self.wf(),
        ensures
            r.wf(),
            r@ == zsupport(self@),
    {
        proof {
            self.lemma_view();
        }
        let mut pairs: Vec<(K, i64)> = Vec::new();
        let n = self.pairs.len();
        let mut i: usize = 0;
        while i < n
            invariant
                i <= n,
                n == self.pairs@.len(),
                self.wf(),
                pairs@.len() == i as int,
                forall|j: int|
                    0 <= j < i as int ==> #[trigger] pairs@[j].0.deep_view()
                        == self.pairs@[j].0.deep_view() && pairs@[j].1 == 1i64,
            decreases n - i,
        {
            let k = self.pairs[i].0.dup();
            pairs.push((k, 1));
            i = i + 1;
        }
        let r = OrdZSet { pairs };
        proof {
            let s2 = models(r.pairs@);
            let target = zsupport(self@);
            self.lemma_view();
            assert forall|j: int| 0 <= j < s2.len() implies #[trigger] s2[j] == (
                self.model_seq()[j].0,
                1int,
            ) by {
                assert(s2[j].0 == r.pairs@[j].0.deep_view());
            }
            assert(pm_wf::<K>(s2));
            assert(zset_wf(target)) by {
                assert(target.dom() =~= self@.dom());
            }
            assert forall|j: int| 0 <= j < s2.len() implies target.contains_key(
                #[trigger] s2[j].0,
            ) && target[s2[j].0] == s2[j].1 by {
                assert(self@.contains_key(self.model_seq()[j].0));
            }
            assert forall|q: K::V| target.contains_key(q) implies exists|j: int|
                0 <= j < s2.len() && s2[j].0 == q by {
                let j = choose|j: int|
                    0 <= j < self.model_seq().len() && self.model_seq()[j].0 == q;
                assert(s2[j].0 == q);
            }
            lemma_canonical_eq::<K>(s2, target);
        }
        r
    }

    /// Sets the weight of every key with positive weight to one and drops
    /// the rest.
    pub fn distinct(&self) -> (r: Self)
        requires
            self.wf(),
        ensures
            r.wf(),
            r@ == zdistinct(self@),
    {
        proof {
            self.lemma_view();
            lemma_ops_wf(self@, self@);
        }
        let ghost s = models(self.pairs@);
        let mut pairs: Vec<(K, i64)> = Vec::new();
        // source index of each kept entry, in increasing order
        let ghost mut srcs: Seq<int> = Seq::empty();
        let n = self.pairs.len();
        let mut i: usize = 0;
        while i < n
            invariant
                i <= n,
                n == self.pairs@.len(),
                self.wf(),
                s == models(self.pairs@),
                srcs.len() == pairs@.len(),
                forall|jj: int|
                    0 <= jj < srcs.len() ==> 0 <= #[trigger] srcs[jj] < i as int && s[srcs[jj]].1
                        > 0 && pairs@[jj].0.deep_view() == s[srcs[jj]].0 && pairs@[jj].1 == 1i64,
                forall|a: int, b: int| 0 <= a < b < srcs.len() ==> srcs[a] < srcs[b],
                forall|j: int|
                    0 <= j < i as int && s[j].1 > 0 ==> exists|jj: int|
                        0 <= jj < srcs.len() && #[trigger] srcs[jj] == j,
            decreases n - i,
        {
            let p = &self.pairs[i];
            proof {
                assert(s[i as int] == (self.pairs@[i as int].0.deep_view(),
                self.pairs@[i as int].1 as int));
            }
            if p.1 > 0 {
                let k = p.0.dup();
                pairs.push((k, 1));
                proof {
                    let prev = srcs;
                    srcs = srcs.push(i as int);
                    assert forall|j: int| 0 <= j < i as int + 1 && s[j].1 > 0 implies exists|
                        jj: int,
                    |
                        0 <= jj < srcs.len() && #[trigger] srcs[jj] == j by {
                        if j < i as int {
                            let jj = choose|jj: int|
                                0 <= jj < prev.len() && #[trigger] prev[jj] == j;
                            assert(srcs[jj] == j);
                        } else {
                            assert(srcs[srcs.len() - 1] == i as int);
                        }
                    }
                }
            }
            i = i + 1;
        }
        let r = OrdZSet { pairs };
        proof {
            let s2 = models(r.pairs@);
            let target = zdistinct(self@);
            assert(s2.len() == srcs.len());
            assert forall|jj: int| 0 <= jj < s2.len() implies #[trigger] s2[jj] == (
                s[srcs[jj]].0,
                1int,
            ) by {
                assert(r.pairs@[jj].0.deep_view() == s[srcs[jj]].0);
            }
            assert forall|a: int, b: int| 0 <= a < b < s2.len() implies K::mlt(
                s2[a].0,
                s2[b].0,
            ) by {
                assert(srcs[a] < srcs[b]);
                assert(K::mlt(s[srcs[a]].0, s[srcs[b]].0));
            }
            assert(pm_wf::<K>(s2));
            assert forall|jj: int| 0 <= jj < s2.len() implies target.contains_key(
                #[trigger] s2[jj].0,
            ) && target[s2[jj].0] == s2[jj].1 by {
                self.lemma_view();
                let j = srcs[jj];
                assert(s[j] == self.model_seq()[j]);
                assert(self@.contains_key(self.model_seq()[j].0) && self@[self.model_seq()[j].0]
                    == self.model_seq()[j].1);
            }
            assert forall|q: K::V| target.contains_key(q) implies exists|jj: int|
                0 <= jj < s2.len() && s2[jj].0 == q by {
                let j = choose|j: int| 0 <= j < s.len() && s[j].0 == q;
                assert(s[j] == self.model_seq()[j]);
                assert(self@[s[j].0] == s[j].1);
                assert(s[j].1 > 0);
                let jj = choose|jj: int| 0 <= jj < srcs.len() && #[trigger] srcs[jj] == j;
                assert(s2[jj].0 == q);
            }
            lemma_canonical_eq::<K>(s2, target);
        }
        r
    }
}

/// A read-only cursor over the sorted keys of a Z-set.
pub struct ZSetCursor<'a, K: DBData> {
    pub z: &'a OrdZSet<K>,
    pub pos: usize,
}

impl<'a, K: DBData> ZSetCursor<'a, K> {
    /// Whether the cursor stands on a key.
    pub fn key_valid(&self) -> (r: bool)
        ensures
            r == (self.pos < self.z.model_seq().len()),
    {
        self.pos < self.z.pairs.len()
    }

    /// The current key.
    pub fn key(&self) -> (r: &'a K)
        requires
            self.pos < self.z.model_seq().len(),
        ensures
            r.deep_view() == self.z.model_seq()[self.pos as int].0,
    {
        &self.z.pairs[self.pos].0
    }

    /// The weight of the current key.
    pub fn weight(&self) -> (r: i64)
        requires
            self.pos < self.z.model_seq().len(),
        ensures
            r as int == self.z.model_seq()[self.pos as int].1,
    {
        self.z.pairs[self.pos].1
    }

    /// Advances to the next key.
    pub fn step_key(&mut self)
        requires
            old(self).pos < old(self).z.model_seq().len(),
        ensures
            final(self).z == old(self).z,
            final(self).pos == old(self).pos + 1,
    {
        let n = self.z.pairs.len();
        if self.pos < n {
            self.pos = self.pos + 1;
        }
    }
}

/// The number of positions of `s` that hold key `k`.
pub open spec fn key_count<KM>(s: Seq<(KM, int)>, k: KM) -> int
    decreases s.len(),
{
    if s.len() == 0 {
        0
    } else {
        key_count(s.drop_last(), k) + if s.last().0 == k {
            1int
        } else {
            0int
        }
    }
}

/// In an all-ones tuple sequence, each key's weight is its number of
/// occurrences.
pub proof fn lemma_sum_ones<KM>(s: Seq<(KM, int)>)
    requires
        forall|i: int| 0 <= i < s.len() ==> s[i].1 == 1,
    ensures
        forall|k: KM| zweight(tuples_sum(s), k) == key_count(s, k),
        forall|k: KM| key_count(s, k) >= 0,
        forall|k: KM| #[trigger] tuples_sum(s).contains_key(k) <==> key_count(s, k) > 0,
    decreases s.len(),
{
    lemma_tuples_sum_wf(s);
    if s.len() > 0 {
        lemma_sum_ones(s.drop_last());
        assert forall|k: KM| zweight(tuples_sum(s), k) == key_count(s, k) by {
            lemma_add_pair_weight(tuples_sum(s.drop_last()), s.last().0, s.last().1, k);
        }
    }
    if s.len() > 0 {
        assert forall|k: KM| key_count(s, k) >= 0 by {
            assert(key_count(s.drop_last(), k) >= 0);
        }
    }
    assert forall|k: KM| #[trigger] tuples_sum(s).contains_key(k) <==> key_count(s, k) > 0 by {
        assert(zweight(tuples_sum(s), k) == key_count(s, k));
        assert(key_count(s, k) >= 0);
        if tuples_sum(s).contains_key(k) {
            assert(tuples_sum(s)[k] != 0);
            assert(zweight(tuples_sum(s), k) != 0);
        } else {
            assert(zweight(tuples_sum(s), k) == 0);
        }
    }
}

/// Weights of a sum are bounded by the length times the largest tuple
/// weight.
pub proof fn lemma_sum_weight_bound<KM>(s: Seq<(KM, int)>, p: int)
    requires
        p >= 0,
        forall|i: int| 0 <= i < s.len() ==> -p <= #[trigger] s[i].1 <= p,
    ensures
        forall|k: KM| -(s.len() * p) <= #[trigger] zweight(tuples_sum(s), k) <= s.len() * p,
    decreases s.len(),
{
    if s.len() == 0 {
        assert(s.len() * p == 0) by (nonlinear_arith)
            requires s.len() == 0,
        ;
    } else {
        lemma_sum_weight_bound(s.drop_last(), p);
        assert((s.len() - 1) * p + p == s.len() * p) by (nonlinear_arith);
        assert forall|k: KM| -(s.len() * p) <= #[trigger] zweight(tuples_sum(s), k) <= s.len()
            * p by {
            lemma_add_pair_weight(tuples_sum(s.drop_last()), s.last().0, s.last().1, k);
            assert(-((s.len() - 1) * p) <= zweight(tuples_sum(s.drop_last()), k) <= (s.len()
                - 1) * p);
        }
    }
}

/// All weights of a model are within the given magnitude.
pub open spec fn zbounded<KM>(m: Map<KM, int>, w: int) -> bool {
    forall|q: KM| -w <= #[trigger] zweight(m, q) <= w
}

impl<K: DBData> OrdZSet<K> {
    /// Decides whether every weight is within the given magnitude.
    pub fn weights_within(&self, w: i64) -> (r: bool)
        requires
            self.wf(),
            w >= 0,
        ensures
            r == zbounded(self@, w as int),
    {
        proof {
            self.lemma_view();
        }
        let n = self.pairs.len();
        let mut i: usize = 0;
        while i < n
            invariant
                i <= n,
                n == self.pairs@.len(),
                self.wf(),
                w >= 0,
                forall|j: int|
                    0 <= j < i as int ==> -(w as int) <= #[trigger] self.model_seq()[j].1
                        <= w as int,
            decreases n - i,
        {
            let pw = self.pairs[i].1;
            if pw > w || pw < -w {
                proof {
                    self.lemma_view();
                    assert(self.model_seq()[i as int].1 == self.pairs@[i as int].1 as int);
                    assert(self@.contains_key(self.model_seq()[i as int].0));
                    assert(zweight(self@, self.model_seq()[i as int].0)
                        == self.model_seq()[i as int].1);
                }
                return false;
            }
            proof {
                assert(self.model_seq()[i as int].1 == self.pairs@[i as int].1 as int);
            }
            i = i + 1;
        }
        proof {
            self.lemma_view();
            assert forall|q: K::V| -(w as int) <= #[trigger] zweight(self@, q) <= w as int by {
                if self@.contains_key(q) {
                    let j = choose|j: int|
                        0 <= j < self.model_seq().len() && self.model_seq()[j].0 == q;
                    assert(self@[q] == self.model_seq()[j].1);
                }
            }
        }
        true
    }

    /// The signed sum of all weights.
    pub fn weighted_count(&self) -> (r: i128)
        requires
            self.wf(),
        ensures
            r == wsum(self.model_seq()),
    {
        let ghost s = self.model_seq();
        let mut acc: i128 = 0;
        let n = self.pairs.len();
        let mut i: usize = 0;
        proof {
            assert(s.take(0) =~= Seq::<(K::V, int)>::empty());
        }
        while i < n
            invariant
                i <= n,
                n == self.pairs@.len(),
                s == self.model_seq(),
                acc == wsum(s.take(i as int)),
                -((i as int) * 0x8000_0000_0000_0000) <= acc <= (i as int)
                    * 0x7FFF_FFFF_FFFF_FFFF,
            decreases n - i,
        {
            let w = self.pairs[i].1;
            proof {
                assert(s[i as int] == (self.pairs@[i as int].0.deep_view(),
                self.pairs@[i as int].1 as int));
                assert(s.take(i as int + 1).drop_last() =~= s.take(i as int));
                assert(s.take(i as int + 1).last() == s[i as int]);
                assert(((i as int) + 1) * 0x8000_0000_0000_0000 == (i as int)
                    * 0x8000_0000_0000_0000 + 0x8000_0000_0000_0000) by (nonlinear_arith);
                assert(((i as int) + 1) * 0x7FFF_FFFF_FFFF_FFFF == (i as int)
                    * 0x7FFF_FFFF_FFFF_FFFF + 0x7FFF_FFFF_FFFF_FFFF) by (nonlinear_arith);
                assert(((i as int) + 1) * 0x8000_0000_0000_0000 <= 0x1_0000_0000_0000_0000
                    * 0x8000_0000_0000_0000) by (nonlinear_arith)
                    requires (i as int) + 1 <= 0x1_0000_0000_0000_0000,
                ;
                assert(((i as int) + 1) * 0x7FFF_FFFF_FFFF_FFFF <= 0x1_0000_0000_0000_0000
                    * 0x7FFF_FFFF_FFFF_FFFF) by (nonlinear_arith)
                    requires (i as int) + 1 <= 0x1_0000_0000_0000_0000,
                ;
            }
            acc = acc + w as i128;
            i = i + 1;
        }
        proof {
            assert(s.take(n as int) =~= s);
        }
        acc
    }

    /// A cursor positioned at the first key.
    pub fn cursor<'a>(&'a self) -> (c: ZSetCursor<'a, K>)
        ensures
            c.z == self,
            c.pos == 0,
    {
        ZSetCursor { z: self, pos: 0 }
    }

    /// Whether a key is present (with a non-zero weight).
    pub fn contains_key_exec(&self, k: &K) -> (r: bool)
        requires
            self.wf(),
        ensures
            r == self@.contains_key(k.deep_view()),
    {
        proof {
            self.lemma_view();
        }
        let n = self.pairs.len();
        let mut i: usize = 0;
        while i < n
            invariant
                i <= n,
                n == self.pairs@.len(),
                self.wf(),
                forall|j: int|
                    0 <= j < i as int ==> #[trigger] self.model_seq()[j].0 != k.deep_view(),
            decreases n - i,
        {
            if self.pairs[i].0.eq_exec(k) {
                proof {
                    self.lemma_view();
                    assert(self@.contains_key(self.model_seq()[i as int].0));
                }
                return true;
            }
            i = i + 1;
        }
        proof {
            if self@.contains_key(k.deep_view()) {
                self.lemma_view();
                let j = choose|j: int|
                    0 <= j < self.model_seq().len() && self.model_seq()[j].0 == k.deep_view();
                assert(self.model_seq()[j].0 != k.deep_view());
            }
        }
        false
    }
}

/// Entry weights of a canonical vector inherit a bound on its model.
pub proof fn lemma_seq_weights_from_bound<K: DBData>(z: &OrdZSet<K>, w: int)
    requires
        z.wf(),
        zbounded(z@, w),
    ensures
        forall|x: int| 0 <= x < z.model_seq().len() ==> -w <= (#[trigger] z.model_seq()[x]).1
            <= w,
{
    z.lemma_view();
    assert forall|x: int| 0 <= x < z.model_seq().len() implies -w <= (
    #[trigger] z.model_seq()[x]).1 <= w by {
        assert(z@.contains_key(z.model_seq()[x].0));
        assert(zweight(z@, z.model_seq()[x].0) == z.model_seq()[x].1);
    }
}

/// Coalescing stays in range when the sequence is short and its weights
/// are small.
pub proof fn lemma_sums_bounded_from_caps<KM>(s: Seq<(KM, int)>, n: int, w: int)
    requires
        s.len() <= n,
        w >= 0,
        n >= 0,
        forall|x: int| 0 <= x < s.len() ==> -w <= (#[trigger] s[x]).1 <= w,
        (n + 1) * w <= i64::MAX,
    ensures
        sums_bounded(s),
{
    assert forall|j: int|
        0 <= j < s.len() implies i64::MIN <= zweight(
        tuples_sum(#[trigger] s.take(j)),
        s[j].0,
    ) + s[j].1 <= i64::MAX by {
        assert forall|x: int| 0 <= x < j implies -w <= (#[trigger] s.take(j)[x]).1 <= w by {
            assert(s.take(j)[x] == s[x]);
        }
        lemma_sum_weight_bound(s.take(j), w);
        assert(j * w + w <= (n + 1) * w) by (nonlinear_arith)
            requires 0 <= j, j + 1 <= n + 1, w >= 0,
        ;
        assert((n + 1) * w >= 0) by (nonlinear_arith)
            requires n + 1 >= 0, w >= 0,
        ;
    }
}

/// A pure, total re-keying function with its model.
pub trait KeyFunc<K: DBData, O: DBData>: Sized {
    /// The model of the function on models.
    spec fn kmodel(&self, k: K::V) -> O::V;

    fn keval(&self, k: &K) -> (r: O)
        ensures
            r.deep_view() == self.kmodel(k.deep_view()),
    ;
}

/// The tuples of a Z-set with every key re-mapped.
pub open spec fn kmapped<K: DBData, O: DBData, G: KeyFunc<K, O>>(
    g: &G,
    s: Seq<(K::V, int)>,
) -> Seq<(O::V, int)> {
    s.map_values(|p: (K::V, int)| (g.kmodel(p.0), p.1))
}

/// Applies a function to every key, coalescing keys that collide.
pub fn map_keys<K: DBData, O: DBData, G: KeyFunc<K, O>>(z: &OrdZSet<K>, g: &G) -> (r: OrdZSet<
    O,
>)
    requires
        z.wf(),
        sums_bounded(kmapped(g, z.model_seq())),
    ensures
        r.wf(),
        r@ == tuples_sum(kmapped(g, z.model_seq())),
{
    let ghost s = z.model_seq();
    let mut tuples: Vec<(O, i64)> = Vec::new();
    let n = z.pairs.len();
    let mut i: usize = 0;
    while i < n
        invariant
            i <= n,
            n == z.pairs@.len(),
            z.wf(),
            s == z.model_seq(),
            tuples@.len() == i as int,
            forall|j: int|
                0 <= j < i as int ==> #[trigger] tuples@[j].0.deep_view() == g.kmodel(s[j].0)
                    && tuples@[j].1 as int == s[j].1,
        decreases n - i,
    {
        let p = &z.pairs[i];
        let k2 = g.keval(&p.0);
        let ghost before = tuples@;
        tuples.push((k2, p.1));
        proof {
            assert(s[i as int] == (z.pairs@[i as int].0.deep_view(),
            z.pairs@[i as int].1 as int));
            assert forall|j: int| 0 <= j < i as int + 1 implies #[trigger] tuples@[
                j
            ].0.deep_view() == g.kmodel(s[j].0) && tuples@[j].1 as int == s[j].1 by {
                if j < i as int {
                    assert(tuples@[j] == before[j]);
                    assert(before[j].0.deep_view() == g.kmodel(s[j].0));
                    assert(before[j].1 as int == s[j].1);
                } else {
                    assert(tuples@[j] == (k2, z.pairs@[i as int].1));
                }
            }
        }
        i = i + 1;
    }
    proof {
        assert(models(tuples@) =~= kmapped(g, s));
    }
    OrdZSet::from_tuples(tuples)
}

/// Bound needed so coalescing can run in 64-bit arithmetic: every prefix
/// sum of the weights of every key fits in `i64`.
pub open spec fn sums_bounded<KM>(s: Seq<(KM, int)>) -> bool {
    forall|j: int|
        0 <= j < s.len() ==> i64::MIN <= zweight(
            tuples_sum(#[trigger] s.take(j)),
            s[j].0,
        ) + s[j].1 <= i64::MAX
}

/// Inserts one weighted key into a canonical vector, keeping it canonical
/// and adding the weight into the denoted Z-set.
fn zset_upsert<K: DBData>(pairs: &mut Vec<(K, i64)>, k: &K, w: i64)
    requires
        pm_wf::<K>(models(old(pairs)@)),
        i64::MIN <= zweight(tuples_sum(models(old(pairs)@)), k.deep_view()) + w <= i64::MAX,
    ensures
        pm_wf::<K>(models(final(pairs)@)),
        tuples_sum(models(final(pairs)@)) == add_pair(
            tuples_sum(models(old(pairs)@)),
            k.deep_view(),
            w as int,
        ),
{
    let ghost s = models(old(pairs)@);
    let ghost km = k.deep_view();
    let ghost m = tuples_sum(s);
    proof {
        lemma_pm_wf_distinct::<K>(s);
        lemma_sum_distinct(s);
        lemma_tuples_sum_wf(s);
        lemma_add_pair_wf(m, km, w as int);
    }
    if w == 0 {
        return ;
    }
    let n = pairs.len();
    let mut idx: usize = 0;
    while idx < n && pairs[idx].0.lt_exec(k)
        invariant
            idx <= n,
            n == pairs@.len(),
            pairs@ == old(pairs)@,
            s == models(pairs@),
            km == k.deep_view(),
            forall|j: int| 0 <= j < idx as int ==> K::mlt(#[trigger] s[j].0, km),
        decreases n - idx,
    {
        idx = idx + 1;
    }
    proof {
        if idx < n {
            K::mlt_trichotomy(s[idx as int].0, km);
        }
    }
    if idx < n && pairs[idx].0.eq_exec(k) {
        // key present: coalesce, dropping the entry if the sum is zero
        let cur = pairs[idx].1;
        proof {
            assert(m.contains_key(s[idx as int].0));
            assert(zweight(m, km) == cur as int);
        }
        let nw = cur + w;
        let _ = pairs.remove(idx);
        if nw != 0 {
            pairs.insert(idx, (k.dup(), nw));
            proof {
                let s2 = models(pairs@);
                assert(s2 =~= s.update(idx as int, (km, nw as int)));
                assert forall|a: int, b: int| 0 <= a < b < s2.len() implies K::mlt(
                    s2[a].0,
                    s2[b].0,
                ) by {
                    assert(s2[a].0 == s[a].0 && s2[b].0 == s[b].0);
                }
                assert forall|j: int| 0 <= j < s2.len() implies add_pair(m, km, w as int)
                    .contains_key(#[trigger] s2[j].0) && add_pair(m, km, w as int)[s2[j].0]
                    == s2[j].1 by {
                    lemma_add_pair_weight(m, km, w as int, s2[j].0);
                    if j != idx as int {
                        assert(s2[j] == s[j]);
                        assert(s[j].0 != km);
                        assert(m[s[j].0] == s[j].1);
                    }
                }
                assert forall|q: K::V| add_pair(m, km, w as int).contains_key(q) implies exists|
                    j: int,
                |
                    0 <= j < s2.len() && s2[j].0 == q by {
                    lemma_add_pair_weight(m, km, w as int, q);
                    if q == km {
                        assert(s2[idx as int].0 == q);
                    } else {
                        assert(m.contains_key(q));
                        let j = choose|j: int| 0 <= j < s.len() && s[j].0 == q;
                        assert(s2[j].0 == q);
                    }
                }
                lemma_canonical_eq::<K>(s2, add_pair(m, km, w as int));
            }
        } else {
            proof {
                let s2 = models(pairs@);
                assert(s2 =~= s.remove(idx as int));
                assert(add_pair(m, km, w as int) == m.remove(km));
                assert forall|a: int, b: int| 0 <= a < b < s2.len() implies K::mlt(
                    s2[a].0,
                    s2[b].0,
                ) by {
                    if a < idx as int {
                        assert(s2[a].0 == s[a].0);
                    } else {
                        assert(s2[a].0 == s[a + 1].0);
                    }
                    if b < idx as int {
                        assert(s2[b].0 == s[b].0);
                    } else {
                        assert(s2[b].0 == s[b + 1].0);
                    }
                }
                assert forall|j: int| 0 <= j < s2.len() implies m.remove(km).contains_key(
                    #[trigger] s2[j].0,
                ) && m.remove(km)[s2[j].0] == s2[j].1 by {
                    if j < idx as int {
                        assert(s2[j] == s[j]);
                        assert(s[j].0 != km);
                    } else {
                        assert(s2[j] == s[j + 1]);
                        assert(s[j + 1].0 != km);
                    }
                }
                assert forall|q: K::V| m.remove(km).contains_key(q) implies exists|j: int|
                    0 <= j < s2.len() && s2[j].0 == q by {
                    let j = choose|j: int| 0 <= j < s.len() && s[j].0 == q;
                    if j < idx as int {
                        assert(s2[j].0 == q);
                    } else {
                        assert(j != idx as int);
                        assert(s2[j - 1].0 == q);
                    }
                }
                lemma_canonical_eq::<K>(s2, m.remove(km));
            }
        }
    } else {
        // key absent: insert at the sorted position
        proof {
            assert forall|j: int| 0 <= j < s.len() implies s[j].0 != km by {
                if j < idx as int {
                    K::mlt_trichotomy(s[j].0, km);
                } else if j == idx as int {
                } else {
                    K::mlt_trichotomy(s[j].0, km);
                    if (idx as int) < (n as int) {
                        K::mlt_transitive(km, s[idx as int].0, s[j].0);
                    }
                }
            }
            assert(!m.contains_key(km));
        }
        pairs.insert(idx, (k.dup(), w));
        proof {
            let s2 = models(pairs@);
            assert(s2 =~= s.insert(idx as int, (km, w as int)));
            assert forall|a: int, b: int| 0 <= a < b < s2.len() implies K::mlt(
                s2[a].0,
                s2[b].0,
            ) by {
                let sa: K::V = if a < idx as int {
                    s[a].0
                } else if a == idx as int {
                    km
                } else {
                    s[a - 1].0
                };
                let sb: K::V = if b < idx as int {
                    s[b].0
                } else if b == idx as int {
                    km
                } else {
                    s[b - 1].0
                };
                assert(s2[a].0 == sa && s2[b].0 == sb);
                if a == idx as int && b > idx as int {
                    // km < s[idx] <= s[b-1]
                    if b - 1 > idx as int {
                        K::mlt_transitive(km, s[idx as int].0, s[b - 1].0);
                    }
                }
                if a < idx as int && b > idx as int {
                    if b - 1 > idx as int {
                        K::mlt_transitive(s[a].0, s[idx as int].0, s[b - 1].0);
                    }
                }
            }
            assert forall|j: int| 0 <= j < s2.len() implies add_pair(m, km, w as int)
                .contains_key(#[trigger] s2[j].0) && add_pair(m, km, w as int)[s2[j].0]
                == s2[j].1 by {
                lemma_add_pair_weight(m, km, w as int, s2[j].0);
                if j < idx as int {
                    assert(s2[j] == s[j]);
                } else if j > idx as int {
                    assert(s2[j] == s[j - 1]);
                }
            }
            assert forall|q: K::V| add_pair(m, km, w as int).contains_key(q) implies exists|
                j: int,
            |
                0 <= j < s2.len() && s2[j].0 == q by {
                lemma_add_pair_weight(m, km, w as int, q);
                if q == km {
                    assert(s2[idx as int].0 == q);
                } else {
                    let j = choose|j: int| 0 <= j < s.len() && s[j].0 == q;
                    if j < idx as int {
                        assert(s2[j].0 == q);
                    } else {
                        assert(s2[j + 1].0 == q);
                    }
                }
            }
            lemma_canonical_eq::<K>(s2, add_pair(m, km, w as int));
        }
    }
}

} // verus!
