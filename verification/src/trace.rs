//! Traces: time-indexed logs of (key, value, weight) triples.
//!
//! A trace is the sum of the batches inserted so far, each batch tagged
//! with the time of its insertion.  The spine stores the triples as one
//! canonical Z-set over `(key, (value, time))`, so the entries of one
//! key are contiguous and, within a key and value, times come in
//! observation order.

use vstd::prelude::*;
use crate::data::DBData;
use crate::indexed::OrdIndexedZSet;
use crate::time::Timestamp;
use crate::zset::{OrdZSet, lemma_canonical_eq, lemma_ops_wf, lemma_pm_wf_entry,
    lemma_tuples_sum_wf, models, pm_wf, zadd, zset_wf, zweight};

verus! {

/// A batch tagged with one time: every pair of the batch at that time.
pub open spec fn tlift<KM, VM, TM>(b: Map<(KM, VM), int>, t: TM) -> Map<(KM, (VM, TM)), int> {
    Map::new(
        |p: (KM, (VM, TM))| p.1.1 == t && b.contains_key((p.0, p.1.0)),
        |p: (KM, (VM, TM))| b[(p.0, p.1.0)],
    )
}

/// The Z-set a time-indexed Z-set holds at one time.
pub open spec fn tslice<TM, OM>(m: Map<(TM, OM), int>, t: TM) -> Map<OM, int> {
    Map::new(|o: OM| m.contains_key((t, o)), |o: OM| m[(t, o)])
}

/// A time-indexed Z-set without the entries of one time.
pub open spec fn tremove<TM, OM>(m: Map<(TM, OM), int>, t: TM) -> Map<(TM, OM), int> {
    Map::new(|p: (TM, OM)| m.contains_key(p) && p.0 != t, |p: (TM, OM)| m[p])
}

/// An append-only trace of batches, one per insertion time.
pub struct Spine<K: DBData, V: DBData, T: Timestamp> {
    pub iz: OrdIndexedZSet<K, (V, T)>,
}

impl<K: DBData, V: DBData, T: Timestamp> View for Spine<K, V, T> {
    type V = Map<(K::V, (V::V, T::V)), int>;

    open spec fn view(&self) -> Map<(K::V, (V::V, T::V)), int> {
        self.iz@
    }
}

impl<K: DBData, V: DBData, T: Timestamp> Spine<K, V, T> {
    pub open spec fn wf(&self) -> bool {
        self.iz.wf()
    }

    pub open spec fn model_seq(&self) -> Seq<((K::V, (V::V, T::V)), int)> {
        self.iz.model_seq()
    }

    /// A new, empty trace.
    pub fn new() -> (r: Self)
        ensures
            r.wf(),
            r@ == Map::<(K::V, (V::V, T::V)), int>::empty(),
    {
        Spine { iz: OrdIndexedZSet::empty() }
    }

    /// A copy with the same content: the delayed view of a trace is the
    /// copy taken before the current step's insert.
    pub fn dup(&self) -> (r: Self)
        requires
            self.wf(),
        ensures
            r.wf(),
            r@ == self@,
            r.model_seq() == self.model_seq(),
    {
        Spine { iz: self.iz.dup() }
    }

    /// Appends one batch at a time not yet present in the trace.
    pub fn insert(&mut self, batch: &OrdIndexedZSet<K, V>, time: &T)
        requires
            old(self).wf(),
            batch.wf(),
            forall|p: (K::V, (V::V, T::V))|
                old(self)@.contains_key(p) ==> #[trigger] p.1.1 != time.deep_view(),
        ensures
            final(self).wf(),
            final(self)@ == zadd(old(self)@, tlift(batch@, time.deep_view())),
    {
        let ghost tm = time.deep_view();
        let ghost bs = batch.model_seq();
        let mut lifted: Vec<((K, (V, T)), i64)> = Vec::new();
        let n = batch.zs.pairs.len();
        let mut i: usize = 0;
        proof {
            batch.zs.lemma_view();
        }
        while i < n
            invariant
                i <= n,
                n == batch.zs.pairs@.len(),
                batch.wf(),
                bs == batch.model_seq(),
                tm == time.deep_view(),
                lifted@.len() == i as int,
                forall|j: int|
                    0 <= j < i as int ==> #[trigger] lifted@[j].0.0.deep_view() == bs[j].0.0
                        && lifted@[j].0.1.0.deep_view() == bs[j].0.1
                        && lifted@[j].0.1.1.deep_view() == tm && lifted@[j].1 as int == bs[j].1,
            decreases n - i,
        {
            let p = &batch.zs.pairs[i];
            let entry = ((p.0.0.dup(), (p.0.1.dup(), time.dup())), p.1);
            let ghost before = lifted@;
            lifted.push(entry);
            proof {
                assert(bs[i as int] == ((batch.zs.pairs@[i as int].0.0.deep_view(),
                batch.zs.pairs@[i as int].0.1.deep_view()), batch.zs.pairs@[i as int].1 as int));
                assert forall|j: int| 0 <= j < i as int + 1 implies #[trigger] lifted@[
                    j
                ].0.0.deep_view() == bs[j].0.0 && lifted@[j].0.1.0.deep_view() == bs[j].0.1
                    && lifted@[j].0.1.1.deep_view() == tm && lifted@[j].1 as int == bs[j].1 by {
                    if j < i as int {
                        assert(lifted@[j] == before[j]);
                        assert(before[j].0.0.deep_view() == bs[j].0.0);
                        assert(before[j].0.1.0.deep_view() == bs[j].0.1);
                        assert(before[j].0.1.1.deep_view() == tm);
                        assert(before[j].1 as int == bs[j].1);
                    } else {
                        assert(lifted@[j] == entry);
                    }
                }
            }
            i = i + 1;
        }
        proof {
            let ls = models(lifted@);
            let target = tlift(batch@, tm);
            assert forall|j: int| 0 <= j < ls.len() implies #[trigger] ls[j] == ((bs[j].0.0, (
                bs[j].0.1,
                tm,
            )), bs[j].1) by {
                assert(ls[j].0 == lifted@[j].0.deep_view());
            }
            // the lifted vector is canonical: same order as the batch
            assert forall|x: int, y: int| 0 <= x < y < ls.len() implies <(K, (V, T)) as DBData>::mlt(
                ls[x].0,
                ls[y].0,
            ) by {
                lemma_pm_wf_entry::<(K, V)>(bs, x, y);
                assert(crate::data::pair_mlt::<K, V>(bs[x].0, bs[y].0));
                assert(crate::data::pair_mlt::<K, (V, T)>(ls[x].0, ls[y].0));
            }
            assert(pm_wf::<(K, (V, T))>(ls));
            assert(zset_wf(target)) by {
                batch.zs.lemma_view();
                lemma_ops_wf(batch@, batch@);
                assert(target.dom().subset_of(
                    Set::new(|p: (K::V, (V::V, T::V))| batch@.dom().contains((p.0, p.1.0))
                        && p.1.1 == tm),
                ));
                assert forall|p: (K::V, (V::V, T::V))| target.dom().contains(p) implies
                    Set::new(|q: (K::V, V::V)| batch@.dom().contains(q)).contains((p.0, p.1.0))
                        && p == ((p.0, p.1.0).0, ((p.0, p.1.0).1, tm)) by {}
                lemma_tlift_finite::<K::V, V::V, T::V>(batch@, tm);
            }
            assert forall|j: int| 0 <= j < ls.len() implies target.contains_key(
                #[trigger] ls[j].0,
            ) && target[ls[j].0] == ls[j].1 by {
                batch.zs.lemma_view();
                assert(batch@.contains_key(bs[j].0) && batch@[bs[j].0] == bs[j].1);
                assert(ls[j].0 == (bs[j].0.0, (bs[j].0.1, tm)));
                assert((ls[j].0.0, ls[j].0.1.0) == bs[j].0);
            }
            assert forall|q: (K::V, (V::V, T::V))| target.contains_key(q) implies exists|j: int|
                0 <= j < ls.len() && ls[j].0 == q by {
                batch.zs.lemma_view();
                assert(batch@.contains_key((q.0, q.1.0)));
                let j = choose|j: int| 0 <= j < bs.len() && bs[j].0 == (q.0, q.1.0);
                assert(ls[j].0 == (bs[j].0.0, (bs[j].0.1, tm)));
                assert(ls[j].0 == q);
            }
            lemma_canonical_eq::<(K, (V, T))>(ls, target);
            // disjoint keys, so the pointwise sums cannot overflow
            self.iz.zs.lemma_view();
            assert forall|q: (K::V, (V::V, T::V))|
                i64::MIN <= #[trigger] zweight(self.iz@, q) + zweight(target, q)
                    <= i64::MAX by {
                if self.iz@.contains_key(q) {
                    assert(q.1.1 != tm);
                    assert(!target.contains_key(q));
                    assert(self.iz@[q] == zweight(self.iz@, q));
                    let j = choose|j: int|
                        0 <= j < self.model_seq().len() && self.model_seq()[j].0 == q;
                    assert(self.model_seq()[j].1 == self.iz@[q]);
                    assert(i64::MIN <= self.model_seq()[j].1 <= i64::MAX);
                } else {
                    if target.contains_key(q) {
                        assert(batch@.contains_key((q.0, q.1.0)));
                        batch.zs.lemma_view();
                        let j = choose|j: int|
                            0 <= j < bs.len() && bs[j].0 == (q.0, q.1.0);
                        assert(bs[j].1 == batch@[(q.0, q.1.0)]);
                        assert(i64::MIN <= bs[j].1 <= i64::MAX);
                    }
                }
            }
        }
        let lifted_set = OrdIndexedZSet { zs: OrdZSet { pairs: lifted } };
        self.iz = self.iz.plus(&lifted_set);
    }
}

proof fn lemma_tlift_finite<KM, VM, TM>(b: Map<(KM, VM), int>, t: TM)
    requires
        b.dom().finite(),
    ensures
        tlift(b, t).dom().finite(),
{
    let f = |q: (KM, VM)| (q.0, (q.1, t));
    let target = tlift(b, t);
    assert(target.dom().subset_of(b.dom().map(f)));
    assert forall|p: (KM, (VM, TM))| target.dom().contains(p) implies b.dom().map(f).contains(
        p,
    ) by {
        assert(b.dom().contains((p.0, p.1.0)));
        assert(f((p.0, p.1.0)) == p);
    }
    b.dom().lemma_map_finite(f);
    vstd::set_lib::lemma_set_subset_finite(b.dom().map(f), target.dom());
}

/// Splits a time-indexed Z-set into the Z-set at one time and the rest.
pub fn split_time<T: DBData, O: DBData>(z: OrdZSet<(T, O)>, t: &T) -> (r: (
    OrdZSet<O>,
    OrdZSet<(T, O)>,
))
    requires
        z.wf(),
    ensures
        r.0.wf(),
        r.0@ == tslice(z@, t.deep_view()),
        r.1.wf(),
        r.1@ == tremove(z@, t.deep_view()),
{
    let ghost tm = t.deep_view();
    let ghost s = z.model_seq();
    let mut now_pairs: Vec<(O, i64)> = Vec::new();
    let mut rest_pairs: Vec<((T, O), i64)> = Vec::new();
    let ghost mut now_srcs: Seq<int> = Seq::empty();
    let ghost mut rest_srcs: Seq<int> = Seq::empty();
    let n = z.pairs.len();
    let mut i: usize = 0;
    proof {
        z.lemma_view();
    }
    while i < n
        invariant
            i <= n,
            n == z.pairs@.len(),
            z.wf(),
            s == z.model_seq(),
            tm == t.deep_view(),
            now_srcs.len() == now_pairs@.len(),
            rest_srcs.len() == rest_pairs@.len(),
            forall|jj: int|
                0 <= jj < now_srcs.len() ==> 0 <= #[trigger] now_srcs[jj] < i as int
                    && s[now_srcs[jj]].0.0 == tm && models(now_pairs@)[jj] == (
                s[now_srcs[jj]].0.1,
                s[now_srcs[jj]].1,
                ),
            forall|jj: int|
                0 <= jj < rest_srcs.len() ==> 0 <= #[trigger] rest_srcs[jj] < i as int
                    && s[rest_srcs[jj]].0.0 != tm && models(rest_pairs@)[jj] == s[rest_srcs[jj]],
            forall|a: int, b: int| 0 <= a < b < now_srcs.len() ==> now_srcs[a] < now_srcs[b],
            forall|a: int, b: int| 0 <= a < b < rest_srcs.len() ==> rest_srcs[a] < rest_srcs[b],
            forall|j: int|
                0 <= j < i as int && s[j].0.0 == tm ==> exists|jj: int|
                    0 <= jj < now_srcs.len() && #[trigger] now_srcs[jj] == j,
            forall|j: int|
                0 <= j < i as int && s[j].0.0 != tm ==> exists|jj: int|
                    0 <= jj < rest_srcs.len() && #[trigger] rest_srcs[jj] == j,
        decreases n - i,
    {
        let p = &z.pairs[i];
        proof {
            assert(s[i as int] == ((z.pairs@[i as int].0.0.deep_view(),
            z.pairs@[i as int].0.1.deep_view()), z.pairs@[i as int].1 as int));
        }
        if p.0.0.eq_exec(t) {
            now_pairs.push((p.0.1.dup(), p.1));
            proof {
                let prev = now_srcs;
                now_srcs = now_srcs.push(i as int);
                assert forall|j: int| 0 <= j < i as int + 1 && s[j].0.0 == tm implies exists|
                    jj: int,
                |
                    0 <= jj < now_srcs.len() && #[trigger] now_srcs[jj] == j by {
                    if j < i as int {
                        let jj = choose|jj: int|
                            0 <= jj < prev.len() && #[trigger] prev[jj] == j;
                        assert(now_srcs[jj] == j);
                    } else {
                        assert(now_srcs[now_srcs.len() - 1] == i as int);
                    }
                }
            }
        } else {
            rest_pairs.push(((p.0.0.dup(), p.0.1.dup()), p.1));
            proof {
                let prev = rest_srcs;
                rest_srcs = rest_srcs.push(i as int);
                assert forall|j: int| 0 <= j < i as int + 1 && s[j].0.0 != tm implies exists|
                    jj: int,
                |
                    0 <= jj < rest_srcs.len() && #[trigger] rest_srcs[jj] == j by {
                    if j < i as int {
                        let jj = choose|jj: int|
                            0 <= jj < prev.len() && #[trigger] prev[jj] == j;
                        assert(rest_srcs[jj] == j);
                    } else {
                        assert(rest_srcs[rest_srcs.len() - 1] == i as int);
                    }
                }
            }
        }
        i = i + 1;
    }
    let now_z = OrdZSet { pairs: now_pairs };
    let rest_z = OrdZSet { pairs: rest_pairs };
    proof {
        let ns = models(now_z.pairs@);
        let rs = models(rest_z.pairs@);
        z.lemma_view();
        lemma_tuples_sum_wf(s);
        // the extracted run is canonical: values of one time stay sorted
        assert forall|a: int, b: int| 0 <= a < b < ns.len() implies O::mlt(ns[a].0, ns[b].0) by {
            lemma_pm_wf_entry::<(T, O)>(s, now_srcs[a], now_srcs[b]);
            assert(crate::data::pair_mlt::<T, O>(s[now_srcs[a]].0, s[now_srcs[b]].0));
            T::mlt_trichotomy(s[now_srcs[a]].0.0, s[now_srcs[b]].0.0);
        }
        assert forall|jj: int| 0 <= jj < ns.len() implies ns[jj].1 != 0 by {
            assert(ns[jj].1 == s[now_srcs[jj]].1);
        }
        assert(pm_wf::<O>(ns));
        assert forall|a: int, b: int| 0 <= a < b < rs.len() implies <(T, O) as DBData>::mlt(
            rs[a].0,
            rs[b].0,
        ) by {
            lemma_pm_wf_entry::<(T, O)>(s, rest_srcs[a], rest_srcs[b]);
        }
        assert forall|jj: int| 0 <= jj < rs.len() implies rs[jj].1 != 0 by {
            assert(rs[jj].1 == s[rest_srcs[jj]].1);
        }
        assert(pm_wf::<(T, O)>(rs));
        let t_now = tslice(z@, tm);
        let t_rest = tremove(z@, tm);
        assert(zset_wf(t_rest)) by {
            assert(t_rest.dom().subset_of(z@.dom()));
            vstd::set_lib::lemma_set_subset_finite(z@.dom(), t_rest.dom());
        }
        assert(zset_wf(t_now)) by {
            let g = |o: O::V| (tm, o);
            assert forall|o: O::V| t_now.dom().contains(o) implies z@.dom().map(
                |p: (T::V, O::V)| p.1,
            ).contains(o) by {
                assert(z@.dom().contains((tm, o)));
            }
            assert(t_now.dom().subset_of(z@.dom().map(|p: (T::V, O::V)| p.1)));
            z@.dom().lemma_map_finite(|p: (T::V, O::V)| p.1);
            vstd::set_lib::lemma_set_subset_finite(
                z@.dom().map(|p: (T::V, O::V)| p.1),
                t_now.dom(),
            );
        }
        assert forall|jj: int| 0 <= jj < ns.len() implies t_now.contains_key(
            #[trigger] ns[jj].0,
        ) && t_now[ns[jj].0] == ns[jj].1 by {
            let j = now_srcs[jj];
            assert(z@.contains_key(s[j].0) && z@[s[j].0] == s[j].1);
            assert(s[j].0 == (tm, ns[jj].0));
        }
        assert forall|o: O::V| t_now.contains_key(o) implies exists|jj: int|
            0 <= jj < ns.len() && ns[jj].0 == o by {
            assert(z@.contains_key((tm, o)));
            let j = choose|j: int| 0 <= j < s.len() && s[j].0 == (tm, o);
            let jj = choose|jj: int| 0 <= jj < now_srcs.len() && #[trigger] now_srcs[jj] == j;
            assert(ns[jj] == (s[j].0.1, s[j].1));
        }
        lemma_canonical_eq::<O>(ns, t_now);
        assert forall|jj: int| 0 <= jj < rs.len() implies t_rest.contains_key(
            #[trigger] rs[jj].0,
        ) && t_rest[rs[jj].0] == rs[jj].1 by {
            let j = rest_srcs[jj];
            assert(z@.contains_key(s[j].0) && z@[s[j].0] == s[j].1);
        }
        assert forall|q: (T::V, O::V)| t_rest.contains_key(q) implies exists|jj: int|
            0 <= jj < rs.len() && rs[jj].0 == q by {
            let j = choose|j: int| 0 <= j < s.len() && s[j].0 == q;
            let jj = choose|jj: int| 0 <= jj < rest_srcs.len() && #[trigger] rest_srcs[jj] == j;
            assert(rs[jj] == s[j]);
        }
        lemma_canonical_eq::<(T, O)>(rs, t_rest);
    }
    (now_z, rest_z)
}

} // verus!
