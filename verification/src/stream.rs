//! Streams of Z-sets: the history of values a circuit edge carried, one
//! per clock step, with the flat join combinators over them.

use vstd::prelude::*;
use crate::data::DBData;
use crate::indexed::OrdIndexedZSet;
use crate::join::{Join, JoinFunc, join_ok, zjoin};
use crate::zset::{OrdZSet, canon_of, isum, lemma_canon_of, lemma_isum_step, plus_ok, zadd};

verus! {

/// The history of one stream: the value it carried at each step so far.
pub struct Stream<D> {
    pub steps: Vec<D>,
}

/// The models of the steps of an indexed Z-set stream.
pub open spec fn iviews<K: DBData, V: DBData>(s: Seq<OrdIndexedZSet<K, V>>) -> Seq<
    Map<(K::V, V::V), int>,
> {
    s.map_values(|z: OrdIndexedZSet<K, V>| z@)
}

impl<K: DBData, V1: DBData> Stream<OrdIndexedZSet<K, V1>> {
    pub open spec fn wf(&self) -> bool {
        forall|i: int| 0 <= i < self.steps@.len() ==> (#[trigger] self.steps@[i]).wf()
    }

    pub open spec fn views(&self) -> Seq<Map<(K::V, V1::V), int>> {
        iviews(self.steps@)
    }

    /// Joins two streams step by step: the output at each step is the
    /// join of the inputs at that step.
    pub fn join<V2: DBData, O: DBData, F: JoinFunc<K, V1, V2, O>>(
        &self,
        other: &Stream<OrdIndexedZSet<K, V2>>,
        f: &F,
    ) -> (r: Stream<OrdZSet<O>>)
        requires
            self.wf(),
            other.wf(),
            self.steps@.len() == other.steps@.len(),
            forall|i: int|
                0 <= i < self.steps@.len() ==> join_ok(
                    f,
                    #[trigger] self.views()[i],
                    other.views()[i],
                ),
        ensures
            r.steps@.len() == self.steps@.len(),
            forall|i: int|
                0 <= i < r.steps@.len() ==> (#[trigger] r.steps@[i]).wf() && r.steps@[i]@
                    == zjoin(f, self.views()[i], other.views()[i]),
    {
        let mut out: Vec<OrdZSet<O>> = Vec::new();
        let n = self.steps.len();
        let mut op = Join::new(FuncRef { f });
        let mut i: usize = 0;
        while i < n
            invariant
                i <= n,
                n == self.steps@.len(),
                n == other.steps@.len(),
                self.wf(),
                other.wf(),
                forall|j: int|
                    0 <= j < n as int ==> join_ok(f, #[trigger] self.views()[j], other.views()[j]),
                out@.len() == i as int,
                op.join_func.f == f,
                forall|j: int|
                    0 <= j < i as int ==> (#[trigger] out@[j]).wf() && out@[j]@ == zjoin(
                        f,
                        self.views()[j],
                        other.views()[j],
                    ),
            decreases n - i,
        {
            let a = &self.steps[i];
            let b = &other.steps[i];
            proof {
                assert(self.views()[i as int] == a@);
                assert(other.views()[i as int] == b@);
                lemma_canon_of::<(K, V1)>(a.model_seq());
                lemma_canon_of::<(K, V2)>(b.model_seq());
                lemma_func_ref_matches(&op.join_func, a.model_seq(), b.model_seq());
            }
            let z = op.eval(a, b);
            proof {
                lemma_zjoin_func_ref(&op.join_func, a@, b@);
            }
            out.push(z);
            i = i + 1;
        }
        Stream { steps: out }
    }

    /// Incremental join: at each step, the output delta is the change of
    /// the join of the integrated inputs.
    ///
    /// The formula joins each input delta against the other side's
    /// integral, the first side delayed by one step so the delta-delta
    /// term is counted once.  `crate::join::lemma_join_incremental_totals`
    /// proves from this contract that, over any partition of the inputs
    /// into deltas, the integrated output equals the join of the
    /// integrated inputs.
    pub fn join_incremental<V2: DBData, O: DBData, F: JoinFunc<K, V1, V2, O>>(
        &self,
        other: &Stream<OrdIndexedZSet<K, V2>>,
        f: &F,
    ) -> (r: Stream<OrdZSet<O>>)
        requires
            self.wf(),
            other.wf(),
            self.steps@.len() == other.steps@.len(),
            forall|i: int|
                0 <= i < self.steps@.len() ==> plus_ok(
                    isum(#[trigger] self.views().take(i)),
                    self.views()[i],
                ),
            forall|i: int|
                0 <= i < self.steps@.len() ==> plus_ok(
                    isum(#[trigger] other.views().take(i)),
                    other.views()[i],
                ),
            forall|i: int|
                0 <= i < self.steps@.len() ==> join_ok(
                    f,
                    isum(#[trigger] self.views().take(i)),
                    other.views()[i],
                ),
            forall|i: int|
                0 <= i < self.steps@.len() ==> join_ok(
                    f,
                    #[trigger] self.views()[i],
                    isum(other.views().take(i + 1)),
                ),
            forall|i: int|
                0 <= i < self.steps@.len() ==> plus_ok(
                    zjoin(f, isum(#[trigger] self.views().take(i)), other.views()[i]),
                    zjoin(f, self.views()[i], isum(other.views().take(i + 1))),
                ),
        ensures
            r.steps@.len() == self.steps@.len(),
            forall|i: int|
                0 <= i < r.steps@.len() ==> (#[trigger] r.steps@[i]).wf() && r.steps@[i]@
                    == zadd(
                    zjoin(f, isum(self.views().take(i)), other.views()[i]),
                    zjoin(f, self.views()[i], isum(other.views().take(i + 1))),
                ),
    {
        let mut out: Vec<OrdZSet<O>> = Vec::new();
        let n = self.steps.len();
        let mut ia: OrdIndexedZSet<K, V1> = OrdIndexedZSet::empty();
        let mut ib: OrdIndexedZSet<K, V2> = OrdIndexedZSet::empty();
        let mut op = Join::new(FuncRef { f });
        let mut i: usize = 0;
        proof {
            assert(self.views().take(0) =~= Seq::<Map<(K::V, V1::V), int>>::empty());
            assert(other.views().take(0) =~= Seq::<Map<(K::V, V2::V), int>>::empty());
            assert(ia@ =~= isum(self.views().take(0)));
            assert(ib@ =~= isum(other.views().take(0)));
        }
        while i < n
            invariant
                i <= n,
                n == self.steps@.len(),
                n == other.steps@.len(),
                self.wf(),
                other.wf(),
                op.join_func.f == f,
                ia.wf(),
                ib.wf(),
                ia@ == isum(self.views().take(i as int)),
                ib@ == isum(other.views().take(i as int)),
                forall|j: int|
                    0 <= j < n as int ==> plus_ok(
                        isum(#[trigger] self.views().take(j)),
                        self.views()[j],
                    ),
                forall|j: int|
                    0 <= j < n as int ==> plus_ok(
                        isum(#[trigger] other.views().take(j)),
                        other.views()[j],
                    ),
                forall|j: int|
                    0 <= j < n as int ==> join_ok(
                        f,
                        isum(#[trigger] self.views().take(j)),
                        other.views()[j],
                    ),
                forall|j: int|
                    0 <= j < n as int ==> join_ok(
                        f,
                        #[trigger] self.views()[j],
                        isum(other.views().take(j + 1)),
                    ),
                forall|j: int|
                    0 <= j < n as int ==> plus_ok(
                        zjoin(f, isum(#[trigger] self.views().take(j)), other.views()[j]),
                        zjoin(f, self.views()[j], isum(other.views().take(j + 1))),
                    ),
                out@.len() == i as int,
                forall|j: int|
                    0 <= j < i as int ==> (#[trigger] out@[j]).wf() && out@[j]@ == zadd(
                        zjoin(f, isum(self.views().take(j)), other.views()[j]),
                        zjoin(f, self.views()[j], isum(other.views().take(j + 1))),
                    ),
            decreases n - i,
        {
            let a = &self.steps[i];
            let b = &other.steps[i];
            proof {
                assert(self.views()[i as int] == a@);
                assert(other.views()[i as int] == b@);
                lemma_isum_step(other.views(), i as int);
            }
            // integrate the right input through this step
            let ib2 = ib.plus(b);
            proof {
                // left term: delayed integral of `self` against the delta
                lemma_canon_of::<(K, V1)>(ia.model_seq());
                lemma_canon_of::<(K, V2)>(b.model_seq());
                lemma_func_ref_matches(&op.join_func, ia.model_seq(), b.model_seq());
            }
            let left = op.eval(&ia, b);
            proof {
                lemma_zjoin_func_ref(&op.join_func, ia@, b@);
                lemma_canon_of::<(K, V1)>(a.model_seq());
                lemma_canon_of::<(K, V2)>(ib2.model_seq());
                lemma_func_ref_matches(&op.join_func, a.model_seq(), ib2.model_seq());
            }
            let right = op.eval(a, &ib2);
            proof {
                lemma_zjoin_func_ref(&op.join_func, a@, ib2@);
            }
            let z = left.plus(&right);
            out.push(z);
            proof {
                lemma_isum_step(self.views(), i as int);
            }
            let ia2 = ia.plus(a);
            ia = ia2;
            ib = ib2;
            i = i + 1;
        }
        Stream { steps: out }
    }
    /// The integral of an indexed stream: at each step, the sum of all
    /// deltas so far, that step included.
    pub fn integrate(&self) -> (r: Stream<OrdIndexedZSet<K, V1>>)
        requires
            self.wf(),
            forall|i: int|
                0 <= i < self.steps@.len() ==> plus_ok(
                    isum(#[trigger] self.views().take(i)),
                    self.views()[i],
                ),
        ensures
            r.steps@.len() == self.steps@.len(),
            forall|i: int|
                0 <= i < r.steps@.len() ==> (#[trigger] r.steps@[i]).wf() && r.steps@[i]@
                    == isum(self.views().take(i + 1)),
    {
        let mut out: Vec<OrdIndexedZSet<K, V1>> = Vec::new();
        let n = self.steps.len();
        let mut acc: OrdIndexedZSet<K, V1> = OrdIndexedZSet::empty();
        let mut i: usize = 0;
        proof {
            assert(self.views().take(0) =~= Seq::<Map<(K::V, V1::V), int>>::empty());
            assert(acc@ =~= isum(self.views().take(0)));
        }
        while i < n
            invariant
                i <= n,
                n == self.steps@.len(),
                self.wf(),
                acc.wf(),
                acc@ == isum(self.views().take(i as int)),
                forall|j: int|
                    0 <= j < n as int ==> plus_ok(
                        isum(#[trigger] self.views().take(j)),
                        self.views()[j],
                    ),
                out@.len() == i as int,
                forall|j: int|
                    0 <= j < i as int ==> (#[trigger] out@[j]).wf() && out@[j]@ == isum(
                        self.views().take(j + 1),
                    ),
            decreases n - i,
        {
            proof {
                assert(self.views()[i as int] == self.steps@[i as int]@);
                lemma_isum_step(self.views(), i as int);
            }
            let acc2 = acc.plus(&self.steps[i]);
            acc = acc2;
            out.push(acc.dup());
            i = i + 1;
        }
        Stream { steps: out }
    }

    /// One step of delay: the stream's value lags by one step, with
    /// nothing before the first.  Composed with `integrate` and
    /// `join`, the join of the delayed integral is empty at the first
    /// step and lags one step after, whatever the current delta holds.
    pub fn delay(&self) -> (r: Stream<OrdIndexedZSet<K, V1>>)
        requires
            self.wf(),
        ensures
            r.steps@.len() == self.steps@.len(),
            forall|i: int|
                0 <= i < r.steps@.len() ==> (#[trigger] r.steps@[i]).wf() && r.steps@[i]@
                    == if i == 0 {
                    Map::<(K::V, V1::V), int>::empty()
                } else {
                    self.views()[i - 1]
                },
    {
        let mut out: Vec<OrdIndexedZSet<K, V1>> = Vec::new();
        let n = self.steps.len();
        let mut i: usize = 0;
        while i < n
            invariant
                i <= n,
                n == self.steps@.len(),
                self.wf(),
                out@.len() == i as int,
                forall|j: int|
                    0 <= j < i as int ==> (#[trigger] out@[j]).wf() && out@[j]@ == if j == 0 {
                        Map::<(K::V, V1::V), int>::empty()
                    } else {
                        self.views()[j - 1]
                    },
            decreases n - i,
        {
            if i == 0 {
                out.push(OrdIndexedZSet::empty());
            } else {
                proof {
                    assert(self.views()[i as int - 1] == self.steps@[i as int - 1]@);
                }
                out.push(self.steps[i - 1].dup());
            }
            i = i + 1;
        }
        Stream { steps: out }
    }
}

impl<K: DBData> Stream<OrdZSet<K>> {
    pub open spec fn zwf(&self) -> bool {
        forall|i: int| 0 <= i < self.steps@.len() ==> (#[trigger] self.steps@[i]).wf()
    }

    pub open spec fn zviews(&self) -> Seq<Map<K::V, int>> {
        self.steps@.map_values(|z: OrdZSet<K>| z@)
    }

    /// Adds two streams step by step.
    pub fn plus(&self, other: &Stream<OrdZSet<K>>) -> (r: Stream<OrdZSet<K>>)
        requires
            self.zwf(),
            other.zwf(),
            self.steps@.len() == other.steps@.len(),
            forall|i: int|
                0 <= i < self.steps@.len() ==> plus_ok(
                    #[trigger] self.zviews()[i],
                    other.zviews()[i],
                ),
        ensures
            r.steps@.len() == self.steps@.len(),
            forall|i: int|
                0 <= i < r.steps@.len() ==> (#[trigger] r.steps@[i]).wf() && r.steps@[i]@
                    == zadd(self.zviews()[i], other.zviews()[i]),
    {
        let mut out: Vec<OrdZSet<K>> = Vec::new();
        let n = self.steps.len();
        let mut i: usize = 0;
        while i < n
            invariant
                i <= n,
                n == self.steps@.len(),
                n == other.steps@.len(),
                self.zwf(),
                other.zwf(),
                forall|j: int|
                    0 <= j < n as int ==> plus_ok(
                        #[trigger] self.zviews()[j],
                        other.zviews()[j],
                    ),
                out@.len() == i as int,
                forall|j: int|
                    0 <= j < i as int ==> (#[trigger] out@[j]).wf() && out@[j]@ == zadd(
                        self.zviews()[j],
                        other.zviews()[j],
                    ),
            decreases n - i,
        {
            proof {
                assert(self.zviews()[i as int] == self.steps@[i as int]@);
                assert(other.zviews()[i as int] == other.steps@[i as int]@);
            }
            let z = self.steps[i].plus(&other.steps[i]);
            out.push(z);
            i = i + 1;
        }
        Stream { steps: out }
    }

    /// The integral of a stream: at each step, the sum of all deltas so
    /// far, that step included.
    pub fn integrate(&self) -> (r: Stream<OrdZSet<K>>)
        requires
            self.zwf(),
            forall|i: int|
                0 <= i < self.steps@.len() ==> plus_ok(
                    isum(#[trigger] self.zviews().take(i)),
                    self.zviews()[i],
                ),
        ensures
            r.steps@.len() == self.steps@.len(),
            forall|i: int|
                0 <= i < r.steps@.len() ==> (#[trigger] r.steps@[i]).wf() && r.steps@[i]@
                    == isum(self.zviews().take(i + 1)),
    {
        let mut out: Vec<OrdZSet<K>> = Vec::new();
        let n = self.steps.len();
        let mut acc: OrdZSet<K> = OrdZSet::empty();
        let mut i: usize = 0;
        proof {
            assert(self.zviews().take(0) =~= Seq::<Map<K::V, int>>::empty());
            assert(acc@ =~= isum(self.zviews().take(0)));
        }
        while i < n
            invariant
                i <= n,
                n == self.steps@.len(),
                self.zwf(),
                acc.wf(),
                acc@ == isum(self.zviews().take(i as int)),
                forall|j: int|
                    0 <= j < n as int ==> plus_ok(
                        isum(#[trigger] self.zviews().take(j)),
                        self.zviews()[j],
                    ),
                out@.len() == i as int,
                forall|j: int|
                    0 <= j < i as int ==> (#[trigger] out@[j]).wf() && out@[j]@ == isum(
                        self.zviews().take(j + 1),
                    ),
            decreases n - i,
        {
            proof {
                assert(self.zviews()[i as int] == self.steps@[i as int]@);
                lemma_isum_step(self.zviews(), i as int);
            }
            let acc2 = acc.plus(&self.steps[i]);
            acc = acc2;
            out.push(acc.dup());
            i = i + 1;
        }
        Stream { steps: out }
    }
}

/// A borrowed join function, so one operator value can be built around a
/// caller's function.
pub struct FuncRef<'a, F> {
    pub f: &'a F,
}

impl<'a, K: DBData, V1: DBData, V2: DBData, O: DBData, F: JoinFunc<K, V1, V2, O>> JoinFunc<
    K,
    V1,
    V2,
    O,
> for FuncRef<'a, F> {
    open spec fn fmodel(&self, k: K::V, v1: V1::V, v2: V2::V) -> O::V {
        self.f.fmodel(k, v1, v2)
    }

    fn feval(&self, k: &K, v1: &V1, v2: &V2) -> (r: O) {
        self.f.feval(k, v1, v2)
    }
}

proof fn lemma_func_ref_one<'a, K: DBData, V1: DBData, V2: DBData, O: DBData, F: JoinFunc<
    K,
    V1,
    V2,
    O,
>>(
    fr: &FuncRef<'a, F>,
    t1: ((K::V, V1::V), int),
    b: Seq<((K::V, V2::V), int)>,
)
    ensures
        crate::join::matches_one(fr, t1, b) == crate::join::matches_one(fr.f, t1, b),
    decreases b.len(),
{
    if b.len() > 0 {
        lemma_func_ref_one(fr, t1, b.drop_last());
    }
}

/// A borrowed join function matches exactly as the function it borrows.
proof fn lemma_func_ref_matches<'a, K: DBData, V1: DBData, V2: DBData, O: DBData, F: JoinFunc<
    K,
    V1,
    V2,
    O,
>>(
    fr: &FuncRef<'a, F>,
    a: Seq<((K::V, V1::V), int)>,
    b: Seq<((K::V, V2::V), int)>,
)
    ensures
        crate::join::jmatches(fr, a, b) == crate::join::jmatches(fr.f, a, b),
    decreases a.len(),
{
    if a.len() > 0 {
        lemma_func_ref_matches(fr, a.drop_last(), b);
        lemma_func_ref_one(fr, a.last(), b);
    }
}

proof fn lemma_zjoin_func_ref<'a, K: DBData, V1: DBData, V2: DBData, O: DBData, F: JoinFunc<
    K,
    V1,
    V2,
    O,
>>(fr: &FuncRef<'a, F>, a: Map<(K::V, V1::V), int>, b: Map<(K::V, V2::V), int>)
    ensures
        zjoin(fr, a, b) == zjoin(fr.f, a, b),
{
    lemma_func_ref_matches(fr, canon_of::<(K, V1)>(a), canon_of::<(K, V2)>(b));
}

} // verus!
