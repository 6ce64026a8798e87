//! Incremental `distinct` over nested time.
//!
//! The operator maintains a trace of its input deltas and, on each
//! tick, emits the delta that keeps the set-image law: at every time,
//! the integral of the output over the down-set of that time is the
//! distinct of the integral of the input.  A key can need a correction
//! at an inner time it has no fresh input at, when entries of earlier
//! epochs sit at later inner times; such keys are scheduled when their
//! fresh input arrives and picked up when their inner time comes.

use vstd::prelude::*;
use crate::data::{DBData, NoVal};
use crate::indexed::{attach_unit, unit_lift};
use crate::time::{NestedTimestamp32, Timestamp};
use crate::trace::{Spine, split_time, tlift, tremove, tslice};
use crate::zset::{OrdZSet, lemma_canonical_eq, lemma_sum_ones, models, pm_wf, sums_bounded,
    tuples_sum, zadd, zdistinct, zset_wf, zsupport, zweight};

verus! {

/// Sum of the weights of one key over the entries of the trace whose
/// time is within the given epoch and iteration bounds.
pub open spec fn csum<K: DBData>(
    s: Seq<((K::V, (NoVal, NestedTimestamp32)), int)>,
    k: K::V,
    emax: int,
    imax: int,
) -> int
    decreases s.len(),
{
    if s.len() == 0 {
        0
    } else {
        csum::<K>(s.drop_last(), k, emax, imax) + if s.last().0.0 == k && s.last().0.1.1.epoch
            <= emax && s.last().0.1.1.iter <= imax {
            s.last().1
        } else {
            0
        }
    }
}

/// Set-image of a count: one when positive.
pub open spec fn dpos(x: int) -> int {
    if x > 0 {
        1
    } else {
        0
    }
}

/// The reconciliation weight of one key at time `(e, i)`: the change,
/// between iterations `i - 1` and `i`, of the difference that epoch `e`
/// makes to the key's set-image.
pub open spec fn dd<K: DBData>(
    s: Seq<((K::V, (NoVal, NestedTimestamp32)), int)>,
    k: K::V,
    e: u32,
    i: u32,
) -> int {
    dpos(csum::<K>(s, k, e as int, i as int)) - dpos(csum::<K>(s, k, e as int - 1, i as int))
        - dpos(csum::<K>(s, k, e as int, i as int - 1)) + dpos(
        csum::<K>(s, k, e as int - 1, i as int - 1),
    )
}

/// The tuples a scheduling pass over the trace collects: one per trace
/// entry of a fresh-input key at a later inner time.
pub open spec fn sched_tuples<K: DBData>(
    s: Seq<((K::V, (NoVal, NestedTimestamp32)), int)>,
    dl: Map<K::V, int>,
    i: u32,
) -> Seq<((u32, K::V), int)>
    decreases s.len(),
{
    if s.len() == 0 {
        Seq::empty()
    } else {
        sched_tuples::<K>(s.drop_last(), dl, i) + if s.last().0.1.1.iter > i && dl.contains_key(
            s.last().0.0,
        ) {
            seq![((s.last().0.1.1.iter, s.last().0.0), 1int)]
        } else {
            Seq::empty()
        }
    }
}

/// The output of one tick: the reconciliation weight of every
/// considered key that needs one.
pub open spec fn dt_out<K: DBData>(
    cands: Map<K::V, int>,
    s: Seq<((K::V, (NoVal, NestedTimestamp32)), int)>,
    e: u32,
    i: u32,
) -> Map<K::V, int> {
    Map::new(
        |k: K::V| cands.contains_key(k) && dd::<K>(s, k, e, i) != 0,
        |k: K::V| dd::<K>(s, k, e, i),
    )
}

/// Bounded sums of one key agree when no entry separates the bounds.
proof fn lemma_csum_same<K: DBData>(
    s: Seq<((K::V, (NoVal, NestedTimestamp32)), int)>,
    k: K::V,
    e1: int,
    i1: int,
    e2: int,
    i2: int,
)
    requires
        e1 <= e2,
        i1 <= i2,
        forall|j: int|
            0 <= j < s.len() && (#[trigger] s[j]).0.0 == k ==> !(e1 < s[j].0.1.1.epoch <= e2
                && s[j].0.1.1.iter <= i2) && !(i1 < s[j].0.1.1.iter <= i2 && s[j].0.1.1.epoch
                <= e2),
    ensures
        csum::<K>(s, k, e2, i2) == csum::<K>(s, k, e1, i1),
    decreases s.len(),
{
    if s.len() > 0 {
        lemma_csum_same::<K>(s.drop_last(), k, e1, i1, e2, i2);
    }
}

/// A key with no trace entry at the current inner time needs no
/// reconciliation: the change between the neighbouring iterations is
/// zero.  Together with `lemma_dd_zero_without_epoch_entry` this is
/// why reconciling the fresh-input keys and the scheduled keys covers
/// every key the tick owes a correction to.
pub proof fn lemma_dd_zero_without_iter_entry<K: DBData>(
    s: Seq<((K::V, (NoVal, NestedTimestamp32)), int)>,
    k: K::V,
    e: u32,
    i: u32,
)
    requires
        forall|j: int|
            0 <= j < s.len() && (#[trigger] s[j]).0.0 == k ==> !(s[j].0.1.1.iter == i
                && s[j].0.1.1.epoch <= e),
    ensures
        dd::<K>(s, k, e, i) == 0,
{
    lemma_csum_same::<K>(s, k, e as int, i as int - 1, e as int, i as int);
    lemma_csum_same::<K>(s, k, e as int - 1, i as int - 1, e as int - 1, i as int);
}

/// A key with no entry in the current epoch up to the current inner
/// time needs no reconciliation there: the epoch's contribution is
/// still empty.
pub proof fn lemma_dd_zero_without_epoch_entry<K: DBData>(
    s: Seq<((K::V, (NoVal, NestedTimestamp32)), int)>,
    k: K::V,
    e: u32,
    i: u32,
)
    requires
        forall|j: int|
            0 <= j < s.len() && (#[trigger] s[j]).0.0 == k ==> !(s[j].0.1.1.epoch == e
                && s[j].0.1.1.iter <= i),
    ensures
        dd::<K>(s, k, e, i) == 0,
{
    lemma_csum_same::<K>(s, k, e as int - 1, i as int, e as int, i as int);
    lemma_csum_same::<K>(s, k, e as int - 1, i as int - 1, e as int, i as int - 1);
}

/// Computes the reconciliation weight of one key by one pass over the
/// trace, accumulating the four bounded sums.
fn dd_exec<K: DBData>(
    pairs: &Vec<((K, (NoVal, NestedTimestamp32)), i64)>,
    k: &K,
    e: u32,
    i: u32,
) -> (dw: i64)
    ensures
        dw == dd::<K>(models(pairs@), k.deep_view(), e, i),
        -2 <= dw <= 2,
{
    let ghost s = models(pairs@);
    let ghost km = k.deep_view();
    let mut sa: i128 = 0;
    let mut sb: i128 = 0;
    let mut sc: i128 = 0;
    let mut sd: i128 = 0;
    let n = pairs.len();
    let mut j: usize = 0;
    proof {
        assert(s.take(0) =~= Seq::<((K::V, (NoVal, NestedTimestamp32)), int)>::empty());
    }
    while j < n
        invariant
            j <= n,
            n == pairs@.len(),
            s == models(pairs@),
            km == k.deep_view(),
            sa == csum::<K>(s.take(j as int), km, e as int, i as int),
            sb == csum::<K>(s.take(j as int), km, e as int - 1, i as int),
            sc == csum::<K>(s.take(j as int), km, e as int, i as int - 1),
            sd == csum::<K>(s.take(j as int), km, e as int - 1, i as int - 1),
            -((j as int) * 0x8000_0000_0000_0000) <= sa
                <= (j as int) * 0x7FFF_FFFF_FFFF_FFFF,
            -((j as int) * 0x8000_0000_0000_0000) <= sb
                <= (j as int) * 0x7FFF_FFFF_FFFF_FFFF,
            -((j as int) * 0x8000_0000_0000_0000) <= sc
                <= (j as int) * 0x7FFF_FFFF_FFFF_FFFF,
            -((j as int) * 0x8000_0000_0000_0000) <= sd
                <= (j as int) * 0x7FFF_FFFF_FFFF_FFFF,
        decreases n - j,
    {
        let p = &pairs[j];
        let w = p.1;
        proof {
            assert(s[j as int] == (pairs@[j as int].0.deep_view(),
            pairs@[j as int].1 as int));
            assert(s[j as int].0.0 == pairs@[j as int].0.0.deep_view());
            assert(s[j as int].0.1.1 == pairs@[j as int].0.1.1);
            assert(s.take(j as int + 1).drop_last() =~= s.take(j as int));
            assert(s.take(j as int + 1).last() == s[j as int]);
            assert(((j as int) + 1) * 0x8000_0000_0000_0000 == (j as int)
                * 0x8000_0000_0000_0000 + 0x8000_0000_0000_0000) by (nonlinear_arith);
            assert(((j as int) + 1) * 0x7FFF_FFFF_FFFF_FFFF == (j as int)
                * 0x7FFF_FFFF_FFFF_FFFF + 0x7FFF_FFFF_FFFF_FFFF) by (nonlinear_arith);
            assert((j as int) + 1 <= 0x1_0000_0000_0000_0000) by {
                assert(j < n);
            }
            assert(((j as int) + 1) * 0x8000_0000_0000_0000 <= 0x1_0000_0000_0000_0000
                * 0x8000_0000_0000_0000) by (nonlinear_arith)
                requires (j as int) + 1 <= 0x1_0000_0000_0000_0000,
            ;
            assert(((j as int) + 1) * 0x7FFF_FFFF_FFFF_FFFF <= 0x1_0000_0000_0000_0000
                * 0x7FFF_FFFF_FFFF_FFFF) by (nonlinear_arith)
                requires (j as int) + 1 <= 0x1_0000_0000_0000_0000,
            ;
        }
        if p.0.0.eq_exec(k) {
            let t = p.0.1.1;
            if t.epoch <= e && t.iter <= i {
                sa = sa + w as i128;
            }
            if e > 0 && t.epoch <= e - 1 && t.iter <= i {
                sb = sb + w as i128;
            }
            if t.epoch <= e && i > 0 && t.iter <= i - 1 {
                sc = sc + w as i128;
            }
            if e > 0 && t.epoch <= e - 1 && i > 0 && t.iter <= i - 1 {
                sd = sd + w as i128;
            }
        }
        j = j + 1;
    }
    proof {
        assert(s.take(n as int) =~= s);
    }
    let b1: i64 = if sa > 0 {
        1
    } else {
        0
    };
    let b2: i64 = if sb > 0 {
        1
    } else {
        0
    };
    let b3: i64 = if sc > 0 {
        1
    } else {
        0
    };
    let b4: i64 = if sd > 0 {
        1
    } else {
        0
    };
    b1 - b2 - b3 + b4
}

/// Incremental `distinct`: reconciles the multiplicities seen so far
/// with set semantics, one delta per tick.
pub struct DistinctTrace<K: DBData> {
    pub trace: Spine<K, NoVal, NestedTimestamp32>,
    pub time: NestedTimestamp32,
    pub sched: OrdZSet<(u32, K)>,
    pub empty_input: bool,
    pub empty_output: bool,
}

impl<K: DBData> DistinctTrace<K> {
    pub open spec fn wf(&self) -> bool {
        &&& self.trace.wf()
        &&& self.sched.wf()
        &&& forall|p: (K::V, (NoVal, NestedTimestamp32))|
            #[trigger] self.trace@.contains_key(p) ==> <NestedTimestamp32 as DBData>::mlt(
                p.1.1,
                self.time,
            )
        &&& forall|q: (u32, K::V)| #[trigger] self.sched@.contains_key(q) ==> self.sched@[q]
            == 1
    }

    /// A fresh operator at the start of the clock.
    pub fn new() -> (r: Self)
        ensures
            r.wf(),
            r.trace@ == Map::<(K::V, (NoVal, NestedTimestamp32)), int>::empty(),
            r.sched@ == Map::<(u32, K::V), int>::empty(),
            r.time == (NestedTimestamp32 { epoch: 0, iter: 0 }),
            !r.empty_input,
            !r.empty_output,
    {
        DistinctTrace {
            trace: Spine::new(),
            time: NestedTimestamp32 { epoch: 0, iter: 0 },
            sched: OrdZSet::empty(),
            empty_input: false,
            empty_output: false,
        }
    }

    /// Stable diagnostic name.
    pub fn name(&self) -> (r: &'static str)
        ensures
            r@ == "DistinctTrace"@,
    {
        "DistinctTrace"
    }

    /// At the start of the root clock the emptiness flags are cleared.
    pub fn clock_start(&mut self, scope: usize)
        ensures
            final(self).trace == old(self).trace,
            final(self).time == old(self).time,
            final(self).sched == old(self).sched,
            scope == 0 ==> !final(self).empty_input && !final(self).empty_output,
            scope != 0 ==> *final(self) == *old(self),
    {
        if scope == 0 {
            self.empty_input = false;
            self.empty_output = false;
        }
    }

    /// At the end of the scope's clock the epoch advances.
    pub fn clock_end(&mut self)
        requires
            old(self).time.epoch < u32::MAX,
        ensures
            final(self).trace == old(self).trace,
            final(self).sched == old(self).sched,
            final(self).time == (NestedTimestamp32 {
                epoch: (old(self).time.epoch + 1) as u32,
                iter: 0,
            }),
            final(self).empty_input == old(self).empty_input,
            final(self).empty_output == old(self).empty_output,
    {
        self.time = self.time.advance(1);
    }

    /// The operator is stable when input and output were empty and no
    /// key is scheduled for a later inner time.
    pub fn fixedpoint(&self) -> (r: bool)
        requires
            self.wf(),
        ensures
            r == (self.empty_input && self.empty_output && self.sched@ == Map::<
                (u32, K::V),
                int,
            >::empty()),
    {
        self.empty_input && self.empty_output && self.sched.is_empty()
    }

    /// One tick: log the delta, reconcile every considered key, and
    /// schedule the keys that will need corrections later this epoch.
    pub fn eval(&mut self, delta: &OrdZSet<K>) -> (r: OrdZSet<K>)
        requires
            old(self).wf(),
            delta.wf(),
            old(self).time.iter < u32::MAX,
            old(self).trace.model_seq().len() + delta.model_seq().len()
                <= 0x7FFF_FFFF_FFFF_FFFEint,
        ensures
            final(self).wf(),
            r.wf(),
            final(self).trace@ == zadd(
                old(self).trace@,
                tlift(unit_lift(delta@), old(self).time),
            ),
            r@ == dt_out::<K>(
                zdistinct(
                    zadd(zsupport(delta@), zsupport(tslice(old(self).sched@,
                    old(self).time.iter))),
                ),
                final(self).trace.model_seq(),
                old(self).time.epoch,
                old(self).time.iter,
            ),
            final(self).sched@ == zdistinct(
                zadd(
                    tremove(old(self).sched@, old(self).time.iter),
                    zdistinct(
                        tuples_sum(
                            sched_tuples::<K>(
                                final(self).trace.model_seq(),
                                delta@,
                                old(self).time.iter,
                            ),
                        ),
                    ),
                ),
            ),
            final(self).time == (NestedTimestamp32 {
                epoch: old(self).time.epoch,
                iter: (old(self).time.iter + 1) as u32,
            }),
            final(self).empty_input == (delta@ == Map::<K::V, int>::empty()),
            final(self).empty_output == (r@ == Map::<K::V, int>::empty()),
    {
        let e = self.time.epoch;
        let i = self.time.iter;
        let now = self.time;
        self.empty_input = delta.is_empty();
        // log the delta in the trace at the current time
        let unit = attach_unit(delta);
        proof {
            assert forall|p: (K::V, (NoVal, NestedTimestamp32))| self.trace@.contains_key(
                p,
            ) implies #[trigger] p.1.1 != now.deep_view() by {
                assert(<NestedTimestamp32 as DBData>::mlt(p.1.1, self.time));
            }
        }
        self.trace.insert(&unit, &now);
        // the keys to reconcile: fresh input plus those scheduled for
        // this iteration
        let sched_owned = self.sched.dup();
        let (sched_now, sched_rest) = split_time::<u32, K>(sched_owned, &i);
        let d1 = delta.keys_set();
        let d2 = sched_now.keys_set();
        proof {
            delta.lemma_view();
            sched_now.lemma_view();
            assert forall|q: K::V| i64::MIN <= #[trigger] zweight(d1@, q) + zweight(d2@, q)
                <= i64::MAX by {
                assert(zweight(d1@, q) == if zsupport(delta@).contains_key(q) {
                    1int
                } else {
                    0int
                });
            }
        }
        let cands = d1.plus(&d2).distinct();
        // reconcile each considered key against the updated trace
        let ghost ts = self.trace.model_seq();
        let ghost cs = cands.model_seq();
        let mut out_pairs: Vec<(K, i64)> = Vec::new();
        let ghost mut srcs: Seq<int> = Seq::empty();
        let ncand = cands.pairs.len();
        let mut ci: usize = 0;
        proof {
            cands.lemma_view();
        }
        while ci < ncand
            invariant
                ci <= ncand,
                ncand == cands.pairs@.len(),
                cands.wf(),
                cs == cands.model_seq(),
                ts == self.trace.model_seq(),
                self.trace.wf(),
                srcs.len() == out_pairs@.len(),
                forall|jj: int|
                    0 <= jj < srcs.len() ==> 0 <= #[trigger] srcs[jj] < ci as int && dd::<K>(
                        ts,
                        cs[srcs[jj]].0,
                        e,
                        i,
                    ) != 0 && models(out_pairs@)[jj] == (cs[srcs[jj]].0, dd::<K>(
                        ts,
                        cs[srcs[jj]].0,
                        e,
                        i,
                    )),
                forall|a: int, b: int| 0 <= a < b < srcs.len() ==> srcs[a] < srcs[b],
                forall|j: int|
                    0 <= j < ci as int && dd::<K>(ts, cs[j].0, e, i) != 0 ==> exists|jj: int|
                        0 <= jj < srcs.len() && #[trigger] srcs[jj] == j,
            decreases ncand - ci,
        {
            let k = &cands.pairs[ci].0;
            proof {
                assert(cs[ci as int] == (cands.pairs@[ci as int].0.deep_view(),
                cands.pairs@[ci as int].1 as int));
            }
            let dw = dd_exec(&self.trace.iz.zs.pairs, k, e, i);
            if dw != 0 {
                out_pairs.push((k.dup(), dw));
                proof {
                    let prev = srcs;
                    srcs = srcs.push(ci as int);
                    assert forall|j: int| 0 <= j < ci as int + 1 && dd::<K>(ts, cs[j].0, e, i)
                        != 0 implies exists|jj: int|
                        0 <= jj < srcs.len() && #[trigger] srcs[jj] == j by {
                        if j < ci as int {
                            let jj = choose|jj: int|
                                0 <= jj < prev.len() && #[trigger] prev[jj] == j;
                            assert(srcs[jj] == j);
                        } else {
                            assert(srcs[srcs.len() - 1] == ci as int);
                        }
                    }
                }
            }
            ci = ci + 1;
        }
        let out = OrdZSet { pairs: out_pairs };
        proof {
            let os = models(out.pairs@);
            let target = dt_out::<K>(cands@, ts, e, i);
            cands.lemma_view();
            assert forall|a: int, b: int| 0 <= a < b < os.len() implies K::mlt(
                os[a].0,
                os[b].0,
            ) by {
                crate::zset::lemma_pm_wf_entry::<K>(cs, srcs[a], srcs[b]);
            }
            assert forall|jj: int| 0 <= jj < os.len() implies os[jj].1 != 0 by {
                assert(os[jj] == (cs[srcs[jj]].0, dd::<K>(ts, cs[srcs[jj]].0, e, i)));
            }
            assert(pm_wf::<K>(os));
            assert(zset_wf(target)) by {
                assert(target.dom().subset_of(cands@.dom()));
                vstd::set_lib::lemma_set_subset_finite(cands@.dom(), target.dom());
            }
            assert forall|jj: int| 0 <= jj < os.len() implies target.contains_key(
                #[trigger] os[jj].0,
            ) && target[os[jj].0] == os[jj].1 by {
                assert(os[jj] == (cs[srcs[jj]].0, dd::<K>(ts, cs[srcs[jj]].0, e, i)));
                assert(cands@.contains_key(cs[srcs[jj]].0));
            }
            assert forall|q: K::V| target.contains_key(q) implies exists|jj: int|
                0 <= jj < os.len() && os[jj].0 == q by {
                let j = choose|j: int| 0 <= j < cs.len() && cs[j].0 == q;
                assert(dd::<K>(ts, cs[j].0, e, i) != 0);
                let jj = choose|jj: int| 0 <= jj < srcs.len() && #[trigger] srcs[jj] == j;
                assert(os[jj].0 == q);
            }
            lemma_canonical_eq::<K>(os, target);
            // the considered keys are exactly the candidate Z-set
            assert(cands@ == zdistinct(
                zadd(zsupport(delta@), zsupport(tslice(old(self).sched@, i))),
            ));
        }
        // schedule fresh-input keys for the later inner times their
        // trace entries sit at
        let ghost dl = delta@;
        let mut coll: Vec<((u32, K), i64)> = Vec::new();
        let ntr = self.trace.iz.zs.pairs.len();
        let mut tj: usize = 0;
        proof {
            assert(models(coll@) =~= sched_tuples::<K>(ts.take(0), dl, i)) by {
                assert(ts.take(0) =~= Seq::<((K::V, (NoVal, NestedTimestamp32)),
                int)>::empty());
            }
        }
        while tj < ntr
            invariant
                tj <= ntr,
                ntr == self.trace.iz.zs.pairs@.len(),
                self.trace.wf(),
                ts == self.trace.model_seq(),
                delta.wf(),
                dl == delta@,
                models(coll@) == sched_tuples::<K>(ts.take(tj as int), dl, i),
                coll@.len() <= tj as int,
                forall|c: int| 0 <= c < coll@.len() ==> #[trigger] coll@[c].1 == 1i64,
            decreases ntr - tj,
        {
            let p = &self.trace.iz.zs.pairs[tj];
            proof {
                assert(ts[tj as int] == (self.trace.iz.zs.pairs@[tj as int].0.deep_view(),
                self.trace.iz.zs.pairs@[tj as int].1 as int));
                assert(ts.take(tj as int + 1).drop_last() =~= ts.take(tj as int));
                assert(ts.take(tj as int + 1).last() == ts[tj as int]);
            }
            let t = p.0.1.1;
            if t.iter > i && delta.contains_key_exec(&p.0.0) {
                let ghost before = models(coll@);
                coll.push(((t.iter, p.0.0.dup()), 1));
                proof {
                    assert(models(coll@) =~= before.push(((t.iter, ts[tj as int].0.0), 1int)));
                }
            }
            tj = tj + 1;
        }
        proof {
            assert(ts.take(ntr as int) =~= ts);
            // all-ones tuples sum safely: each prefix weight is at most
            // the (bounded) number of trace entries
            let ms = models(coll@);
            assert(ms.len() <= 0x7FFF_FFFF_FFFF_FFFEint) by {
                self.trace.iz.zs.lemma_view();
                delta.lemma_view();
                old(self).trace.iz.zs.lemma_view();
                let tl = tlift(unit_lift(delta@), old(self).time.deep_view());
                let g = |q: K::V| (q, (NoVal, old(self).time.deep_view()));
                assert forall|p: (K::V, (NoVal, NestedTimestamp32))| tl.dom().contains(
                    p,
                ) implies delta@.dom().map(g).contains(p) by {
                    assert(delta@.dom().contains(p.0));
                    assert(g(p.0) == p);
                }
                assert(tl.dom().subset_of(delta@.dom().map(g)));
                delta@.dom().lemma_map_finite(g);
                vstd::set_lib::lemma_set_subset_finite(delta@.dom().map(g), tl.dom());
                vstd::set_lib::lemma_len_subset(tl.dom(), delta@.dom().map(g));
                vstd::set_lib::lemma_map_size_bound(delta@.dom(), delta@.dom().map(g), g);
                assert(zset_wf(tl));
                crate::zset::lemma_ops_wf(old(self).trace@, tl);
                assert(self.trace@ == zadd(old(self).trace@, tl));
                assert(self.trace@.dom().subset_of(old(self).trace@.dom().union(tl.dom())));
                vstd::set_lib::lemma_len_union(old(self).trace@.dom(), tl.dom());
                vstd::set_lib::lemma_len_subset(
                    self.trace@.dom(),
                    old(self).trace@.dom().union(tl.dom()),
                );
            }
            assert forall|c: int| 0 <= c < ms.len() implies #[trigger] ms[c].1 == 1int by {
                assert(coll@[c].1 == 1i64);
            }
            lemma_sum_ones(ms);
            assert forall|j: int|
                0 <= j < ms.len() implies i64::MIN <= zweight(
                tuples_sum(#[trigger] ms.take(j)),
                ms[j].0,
            ) + ms[j].1 <= i64::MAX by {
                assert forall|c: int| 0 <= c < j implies #[trigger] ms.take(j)[c].1
                    == 1int by {
                    assert(ms.take(j)[c] == ms[c]);
                }
                lemma_sum_ones(ms.take(j));
                lemma_key_count_len::<(u32, K)>(ms.take(j), ms[j].0);
                assert(zweight(tuples_sum(ms.take(j)), ms[j].0) <= j);
                assert(zweight(tuples_sum(ms.take(j)), ms[j].0) >= 0);
            }
            assert(sums_bounded(ms));
        }
        let fresh = OrdZSet::from_tuples(coll);
        let fresh_d = fresh.distinct();
        proof {
            fresh.lemma_view();
            crate::zset::lemma_ops_wf(fresh@, fresh@);
            sched_rest.lemma_view();
            assert forall|q: (u32, K::V)|
                i64::MIN <= #[trigger] zweight(sched_rest@, q) + zweight(fresh_d@, q)
                    <= i64::MAX by {
                assert(zweight(sched_rest@, q) == if tremove(old(self).sched@, i).contains_key(
                    q,
                ) {
                    old(self).sched@[q]
                } else {
                    0int
                });
                assert(old(self).sched@.contains_key(q) ==> old(self).sched@[q] == 1);
            }
        }
        let new_sched = sched_rest.plus(&fresh_d).distinct();
        self.sched = new_sched;
        // advance and report
        let t2 = self.time.advance(0);
        self.time = t2;
        self.empty_output = out.is_empty();
        proof {
            assert forall|p: (K::V, (NoVal, NestedTimestamp32))| self.trace@.contains_key(
                p,
            ) implies <NestedTimestamp32 as DBData>::mlt(p.1.1, self.time) by {
                if old(self).trace@.contains_key(p) {
                    assert(<NestedTimestamp32 as DBData>::mlt(p.1.1, now));
                } else {
                    assert(p.1.1 == now.deep_view());
                }
            }
            assert forall|q: (u32, K::V)| #[trigger] self.sched@.contains_key(q) implies
                self.sched@[q] == 1 by {}
        }
        out
    }
}

/// A key occurs at most as often as the sequence is long.
proof fn lemma_key_count_len<K: DBData>(s: Seq<(K::V, int)>, k: K::V)
    ensures
        crate::zset::key_count(s, k) <= s.len(),
        crate::zset::key_count(s, k) >= 0,
    decreases s.len(),
{
    if s.len() > 0 {
        lemma_key_count_len::<K>(s.drop_last(), k);
    }
}

} // verus!
