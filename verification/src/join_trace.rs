//! The `JoinTrace` operator: joins a stream of indexed Z-sets against a
//! trace, tagging every output tuple with the least upper bound of the
//! trace time and the operator's current time.
//!
//! Output due now is returned at once; output for later times waits in
//! a pending time-indexed Z-set, the operator's output batchers.

use vstd::prelude::*;
use crate::data::DBData;
use crate::indexed::OrdIndexedZSet;
use crate::join::{Join, JoinFunc, jmatches, matches_one, products_bounded};
use crate::time::Timestamp;
use crate::trace::{Spine, split_time, tremove, tslice};
use crate::zset::{OrdZSet, canon_of, lemma_canon_of, sums_bounded, tuples_sum, zadd, zweight};

verus! {

/// A join function lifted to trace entries: pairs each output with the
/// least upper bound of the entry's time and a fixed current time.
pub struct TimedJoin<'a, F, T> {
    pub func: &'a F,
    pub now: &'a T,
}

impl<'a, K: DBData, V1: DBData, V2: DBData, T: Timestamp, O: DBData, F: JoinFunc<
    K,
    V1,
    V2,
    O,
>> JoinFunc<K, V1, (V2, T), (T, O)> for TimedJoin<'a, F, T> {
    open spec fn fmodel(&self, k: K::V, v1: V1::V, v2t: (V2::V, T::V)) -> (T::V, O::V) {
        (T::join_model(v2t.1, self.now.deep_view()), self.func.fmodel(k, v1, v2t.0))
    }

    fn feval(&self, k: &K, v1: &V1, v2t: &(V2, T)) -> (r: (T, O)) {
        (v2t.1.join(self.now), self.func.feval(k, v1, &v2t.0))
    }
}

/// The timed match tuples of one index entry against a trace.
pub open spec fn tmatches_one<K: DBData, V1: DBData, V2: DBData, T: Timestamp, O: DBData,
    F: JoinFunc<K, V1, V2, O>>(
    f: &F,
    nowm: T::V,
    t1: ((K::V, V1::V), int),
    b: Seq<((K::V, (V2::V, T::V)), int)>,
) -> Seq<((T::V, O::V), int)>
    decreases b.len(),
{
    if b.len() == 0 {
        Seq::empty()
    } else {
        tmatches_one::<K, V1, V2, T, O, F>(f, nowm, t1, b.drop_last()) + if b.last().0.0 == t1.0.0 {
            seq![
                (
                    (
                        T::join_model(b.last().0.1.1, nowm),
                        f.fmodel(t1.0.0, t1.0.1, b.last().0.1.0),
                    ),
                    t1.1 * b.last().1,
                ),
            ]
        } else {
            Seq::empty()
        }
    }
}

/// The timed match tuples of an indexed Z-set against a trace: one per
/// matching `(k, v1, v2, t2)`, timed `t2.join(now)`, weighted `w1 * w2`.
pub open spec fn tmatches<K: DBData, V1: DBData, V2: DBData, T: Timestamp, O: DBData,
    F: JoinFunc<K, V1, V2, O>>(
    f: &F,
    nowm: T::V,
    a: Seq<((K::V, V1::V), int)>,
    b: Seq<((K::V, (V2::V, T::V)), int)>,
) -> Seq<((T::V, O::V), int)>
    decreases a.len(),
{
    if a.len() == 0 {
        Seq::empty()
    } else {
        tmatches::<K, V1, V2, T, O, F>(f, nowm, a.drop_last(), b) + tmatches_one::<K, V1, V2, T, O, F>(f, nowm, a.last(), b)
    }
}

/// The timed join of an indexed Z-set model against a trace model.
pub open spec fn ztjoin<K: DBData, V1: DBData, V2: DBData, T: Timestamp, O: DBData,
    F: JoinFunc<K, V1, V2, O>>(
    f: &F,
    nowm: T::V,
    a: Map<(K::V, V1::V), int>,
    b: Map<(K::V, (V2::V, T::V)), int>,
) -> Map<(T::V, O::V), int> {
    tuples_sum(
        tmatches::<K, V1, V2, T, O, F>(
            f,
            nowm,
            canon_of::<(K, V1)>(a),
            canon_of::<(K, (V2, T))>(b),
        ),
    )
}

proof fn lemma_timed_one<'a, K: DBData, V1: DBData, V2: DBData, T: Timestamp, O: DBData,
    F: JoinFunc<K, V1, V2, O>>(
    tj: &TimedJoin<'a, F, T>,
    t1: ((K::V, V1::V), int),
    b: Seq<((K::V, (V2::V, T::V)), int)>,
)
    ensures
        matches_one(tj, t1, b) == tmatches_one::<K, V1, V2, T, O, F>(tj.func, tj.now.deep_view(), t1, b),
    decreases b.len(),
{
    if b.len() > 0 {
        lemma_timed_one(tj, t1, b.drop_last());
    }
}

proof fn lemma_timed_matches<'a, K: DBData, V1: DBData, V2: DBData, T: Timestamp, O: DBData,
    F: JoinFunc<K, V1, V2, O>>(
    tj: &TimedJoin<'a, F, T>,
    a: Seq<((K::V, V1::V), int)>,
    b: Seq<((K::V, (V2::V, T::V)), int)>,
)
    ensures
        jmatches(tj, a, b) == tmatches::<K, V1, V2, T, O, F>(tj.func, tj.now.deep_view(), a, b),
    decreases a.len(),
{
    if a.len() > 0 {
        lemma_timed_matches(tj, a.drop_last(), b);
        lemma_timed_one(tj, a.last(), b);
    }
}

/// Size and weight caps that make a trace join safe in 64-bit weights.
pub proof fn lemma_tjoin_safe<'a, K: DBData, V1: DBData, V2: DBData, T: Timestamp, O: DBData,
    F: JoinFunc<K, V1, V2, O>>(
    f: &'a F,
    now: &'a T,
    a: Seq<((K::V, V1::V), int)>,
    b: Seq<((K::V, (V2::V, T::V)), int)>,
    na: int,
    nb: int,
    wa: int,
    wb: int,
)
    requires
        0 <= a.len() <= na,
        0 <= b.len() <= nb,
        wa >= 0,
        wb >= 0,
        forall|x: int| 0 <= x < a.len() ==> -wa <= (#[trigger] a[x]).1 <= wa,
        forall|y: int| 0 <= y < b.len() ==> -wb <= (#[trigger] b[y]).1 <= wb,
        (na * nb + 1) * (wa * wb) <= i64::MAX,
    ensures
        products_bounded(a, b),
        sums_bounded(tmatches::<K, V1, V2, T, O, F>(f, now.deep_view(), a, b)),
{
    let tj = TimedJoin { func: f, now };
    lemma_timed_matches(&tj, a, b);
    crate::join::lemma_join_safe(&tj, a, b, na, nb, wa, wb);
}

/// The weights of a trace join's collected output are bounded by the
/// caps of its inputs.
pub proof fn lemma_tjoin_output_bound<'a, K: DBData, V1: DBData, V2: DBData, T: Timestamp,
    O: DBData, F: JoinFunc<K, V1, V2, O>>(
    f: &'a F,
    now: &'a T,
    a: Seq<((K::V, V1::V), int)>,
    b: Seq<((K::V, (V2::V, T::V)), int)>,
    na: int,
    nb: int,
    wa: int,
    wb: int,
)
    requires
        0 <= a.len() <= na,
        0 <= b.len() <= nb,
        wa >= 0,
        wb >= 0,
        forall|x: int| 0 <= x < a.len() ==> -wa <= (#[trigger] a[x]).1 <= wa,
        forall|y: int| 0 <= y < b.len() ==> -wb <= (#[trigger] b[y]).1 <= wb,
    ensures
        forall|q: (T::V, O::V)|
            -(na * nb * (wa * wb)) <= #[trigger] zweight(
                tuples_sum(tmatches::<K, V1, V2, T, O, F>(f, now.deep_view(), a, b)),
                q,
            ) <= na * nb * (wa * wb),
{
    let tj = TimedJoin { func: f, now };
    lemma_timed_matches(&tj, a, b);
    let jm = jmatches(&tj, a, b);
    crate::join::lemma_jmatches_weights(&tj, a, b, wa, wb);
    crate::join::lemma_jmatches_len_pub(&tj, a, b);
    crate::zset::lemma_sum_weight_bound(jm, wa * wb);
    assert(wa * wb >= 0) by (nonlinear_arith)
        requires wa >= 0, wb >= 0,
    ;
    assert forall|q: (T::V, O::V)|
        -(na * nb * (wa * wb)) <= #[trigger] zweight(tuples_sum(jm), q) <= na * nb * (wa
            * wb) by {
        assert(-(jm.len() * (wa * wb)) <= zweight(tuples_sum(jm), q) <= jm.len() * (wa * wb));
        assert(jm.len() * (wa * wb) <= na * nb * (wa * wb)) by (nonlinear_arith)
            requires jm.len() <= a.len() * b.len(), 0 <= a.len() <= na, 0 <= b.len() <= nb,
                wa * wb >= 0,
        ;
    }
}

/// The fixed-point condition of a trace join: input and output were
/// empty at the current cycle and nothing is pending up to the end of
/// the epoch at the given scope.
pub open spec fn jt_stable<T: Timestamp, O: DBData>(
    empty_in: bool,
    empty_out: bool,
    pending: Map<(T::V, O::V), int>,
    tm: T::V,
    scope: nat,
) -> bool {
    empty_in && empty_out && forall|p: (T::V, O::V)|
        pending.contains_key(p) ==> !T::leq(p.0, T::epoch_end_model(tm, scope))
}

/// Joins a stream of indexed Z-sets against a trace.
///
/// Keeps the operator's logical time, a pending time-indexed Z-set of
/// output computed ahead of time, and the two emptiness flags the
/// fixed-point test reads.
pub struct JoinTrace<F, T: Timestamp, O: DBData> {
    pub join_func: F,
    pub time: T,
    pub pending: OrdZSet<(T, O)>,
    pub empty_input: bool,
    pub empty_output: bool,
}

impl<F, T: Timestamp, O: DBData> JoinTrace<F, T, O> {
    pub open spec fn wf(&self) -> bool {
        self.pending.wf()
    }

    /// A fresh operator at the start of the clock with nothing pending.
    pub fn new(join_func: F) -> (r: Self)
        ensures
            r.wf(),
            r.join_func == join_func,
            r.time.deep_view() == T::start_model(),
            r.pending@ == Map::<(T::V, O::V), int>::empty(),
            !r.empty_input,
            !r.empty_output,
    {
        JoinTrace {
            join_func,
            time: T::clock_start(),
            pending: OrdZSet::empty(),
            empty_input: false,
            empty_output: false,
        }
    }

    /// Stable diagnostic name.
    pub fn name(&self) -> (r: &'static str)
        ensures
            r@ == "JoinTrace"@,
    {
        "JoinTrace"
    }

    /// At the start of the root clock the emptiness flags are cleared.
    pub fn clock_start(&mut self, scope: usize)
        ensures
            final(self).join_func == old(self).join_func,
            final(self).time == old(self).time,
            final(self).pending == old(self).pending,
            scope == 0 ==> !final(self).empty_input && !final(self).empty_output,
            scope != 0 ==> *final(self) == *old(self),
    {
        if scope == 0 {
            self.empty_input = false;
            self.empty_output = false;
        }
    }

    /// At the end of a scope's clock the time advances at the scope
    /// above, resetting the finer coordinates.
    pub fn clock_end(&mut self, scope: usize)
        requires
            scope < usize::MAX,
            T::can_advance(old(self).time.deep_view(), scope as nat + 1),
        ensures
            final(self).join_func == old(self).join_func,
            final(self).time.deep_view() == T::advance_model(
                old(self).time.deep_view(),
                scope as nat + 1,
            ),
            final(self).pending == old(self).pending,
            final(self).empty_input == old(self).empty_input,
            final(self).empty_output == old(self).empty_output,
    {
        self.time = self.time.advance(scope + 1);
    }

    /// A diagnostic line: how many output tuples wait in the pending
    /// batchers.
    pub fn summary(&self) -> (r: String)
        requires
            self.wf(),
        ensures
            r@ == "pending tuples: "@ + crate::csv::dec_of(self.pending@.dom().len() as int),
    {
        let n = self.pending.len();
        let mut out = String::new();
        out.append("pending tuples: ");
        let digits = crate::csv::u64_dec(n as u64);
        out.append(digits.as_str());
        proof {
            assert(out@ =~= "pending tuples: "@ + crate::csv::dec_of(n as int));
        }
        out
    }

    /// The operator is stable when input and output were empty at the
    /// current cycle and nothing is pending up to the epoch's end.
    pub fn fixedpoint(&self, scope: usize) -> (r: bool)
        requires
            self.wf(),
        ensures
            r == jt_stable::<T, O>(
                self.empty_input,
                self.empty_output,
                self.pending@,
                self.time.deep_view(),
                scope as nat,
            ),
    {
        let epoch_end = self.time.epoch_end(scope);
        proof {
            self.pending.lemma_view();
        }
        if !(self.empty_input && self.empty_output) {
            proof {
                if self.pending@ =~= Map::<(T::V, O::V), int>::empty() {
                }
            }
            return false;
        }
        let n = self.pending.pairs.len();
        let mut i: usize = 0;
        while i < n
            invariant
                i <= n,
                n == self.pending.pairs@.len(),
                self.wf(),
                epoch_end.deep_view() == T::epoch_end_model(self.time.deep_view(), scope as nat),
                forall|j: int|
                    0 <= j < i as int ==> !T::leq(
                        #[trigger] self.pending.model_seq()[j].0.0,
                        epoch_end.deep_view(),
                    ),
            decreases n - i,
        {
            if self.pending.pairs[i].0.0.leq_exec(&epoch_end) {
                proof {
                    self.pending.lemma_view();
                    assert(self.pending@.contains_key(self.pending.model_seq()[i as int].0));
                    assert(T::leq(
                        self.pending.model_seq()[i as int].0.0,
                        epoch_end.deep_view(),
                    ));
                }
                return false;
            }
            i = i + 1;
        }
        proof {
            assert forall|p: (T::V, O::V)| self.pending@.contains_key(p) implies !T::leq(
                p.0,
                T::epoch_end_model(self.time.deep_view(), scope as nat),
            ) by {
                self.pending.lemma_view();
                let j = choose|j: int|
                    0 <= j < self.pending.model_seq().len() && self.pending.model_seq()[j].0
                        == p;
                assert(!T::leq(self.pending.model_seq()[j].0.0, epoch_end.deep_view()));
            }
        }
        true
    }

    /// One tick: join the input batch against the trace, bank the
    /// future-timestamped tuples, and return the batch due now.
    pub fn eval<K: DBData, V1: DBData, V2: DBData>(
        &mut self,
        index: &OrdIndexedZSet<K, V1>,
        trace: &Spine<K, V2, T>,
    ) -> (r: OrdZSet<O>) where F: JoinFunc<K, V1, V2, O>
        requires
            old(self).wf(),
            index.wf(),
            trace.wf(),
            products_bounded(index.model_seq(), trace.model_seq()),
            sums_bounded(
                tmatches::<K, V1, V2, T, O, F>(
                    &old(self).join_func,
                    old(self).time.deep_view(),
                    index.model_seq(),
                    trace.model_seq(),
                ),
            ),
            forall|q: (T::V, O::V)|
                i64::MIN <= #[trigger] zweight(old(self).pending@, q) + zweight(
                    tuples_sum(
                        tmatches::<K, V1, V2, T, O, F>(
                            &old(self).join_func,
                            old(self).time.deep_view(),
                            index.model_seq(),
                            trace.model_seq(),
                        ),
                    ),
                    q,
                ) <= i64::MAX,
            T::can_advance(old(self).time.deep_view(), 0),
        ensures
            final(self).wf(),
            r.wf(),
            ({
                let merged = zadd(
                    old(self).pending@,
                    ztjoin::<K, V1, V2, T, O, F>(
                        &old(self).join_func,
                        old(self).time.deep_view(),
                        index@,
                        trace@,
                    ),
                );
                &&& r@ == tslice(merged, old(self).time.deep_view())
                &&& final(self).pending@ == tremove(merged, old(self).time.deep_view())
            }),
            final(self).time.deep_view() == T::advance_model(old(self).time.deep_view(), 0),
            final(self).join_func == old(self).join_func,
            final(self).empty_input == (index@ == Map::<(K::V, V1::V), int>::empty()),
            final(self).empty_output == (r@ == Map::<O::V, int>::empty()),
    {
        self.empty_input = index.is_empty();
        let now = self.time.dup();
        proof {
            lemma_canon_of::<(K, V1)>(index.model_seq());
            lemma_canon_of::<(K, (V2, T))>(trace.model_seq());
        }
        let out1: OrdZSet<(T, O)> = {
            let tj = TimedJoin { func: &self.join_func, now: &now };
            proof {
                lemma_timed_matches(&tj, index.model_seq(), trace.model_seq());
            }
            let mut op = Join::new(tj);
            op.eval(index, &trace.iz)
        };
        proof {
            out1.lemma_view();
            self.pending.lemma_view();
        }
        let merged = self.pending.plus(&out1);
        let (batch, rest) = split_time(merged, &now);
        self.pending = rest;
        self.time = self.time.advance(0);
        self.empty_output = batch.is_empty();
        batch
    }
}

} // verus!
