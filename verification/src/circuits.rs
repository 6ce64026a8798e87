//! Nested circuits: fixed-point loops wired from the verified
//! operators, with a per-scope clock and deterministic evaluation
//! order.
//!
//! Each step runs the scope's operators in topological order until
//! every operator reports a fixed point, then closes the scope's
//! clock.  A step fails (returning nothing, and leaving no partial
//! output behind) when a capacity guard trips: an intermediate
//! Z-set grew past the circuit's size cap, a weight left the
//! circuit's weight cap, or the clock ran out of ticks.

use vstd::prelude::*;
use crate::data::DBData;
use crate::data::NoVal;
use crate::distinct_trace::{DistinctTrace, dt_out, sched_tuples};
use crate::funcs::{Edge, EdgeToPair, InvertPair, Label, LabelToPair, PairVals, PairValsFlipped,
    PropagateLabel, PropagateLabelFlipped};
use crate::indexed::{OrdIndexedZSet, index_zset, unit_lift};
use crate::join::JoinFunc;
use crate::join_trace::{JoinTrace, lemma_tjoin_output_bound, lemma_tjoin_safe, tmatches, ztjoin};
use crate::time::{NestedTimestamp32, Timestamp};
use crate::trace::{Spine, tlift, tremove, tslice};
use crate::zset::{KeyFunc, OrdZSet, canon_of, kmapped, lemma_canon_of,
    lemma_seq_weights_from_bound, lemma_sums_bounded_from_caps, map_keys, models, pm_wf,
    tuples_sum, zadd, zdistinct, zsupport, zweight};

verus! {

/// Size cap on the Z-sets an operator input may hold.
pub const SIZE_CAP: usize = 65536;

/// Magnitude cap on the weights an operator input may hold.
pub const WEIGHT_CAP: i64 = 32768;

/// Magnitude cap on accumulator weights.
pub const ACC_CAP: i64 = 0x2000_0000_0000_0000;

/// Iteration cap of one fixed-point loop.
pub const ITER_CAP: usize = 100000;

/// Re-keys a Z-set if it is within the circuit caps.
fn map_keys_guarded<K: DBData, O: DBData, G: KeyFunc<K, O>>(z: &OrdZSet<K>, g: &G) -> (r:
    Option<OrdZSet<O>>)
    requires
        z.wf(),
    ensures
        r is Some ==> r->0.wf() && r->0@ == tuples_sum(kmapped(g, z.model_seq())),
        r is None ==> z@.dom().len() > SIZE_CAP || !crate::zset::zbounded(
            z@,
            WEIGHT_CAP as int,
        ),
{
    if z.entries().len() > SIZE_CAP {
        proof {
            z.lemma_view();
        }
        return None;
    }
    if !z.weights_within(WEIGHT_CAP) {
        return None;
    }
    proof {
        lemma_seq_weights_from_bound(z, WEIGHT_CAP as int);
        let km = kmapped(g, z.model_seq());
        assert forall|x: int| 0 <= x < km.len() implies -(WEIGHT_CAP as int) <= (
        #[trigger] km[x]).1 <= WEIGHT_CAP as int by {
            assert(km[x].1 == z.model_seq()[x].1);
        }
        lemma_sums_bounded_from_caps(km, SIZE_CAP as int, WEIGHT_CAP as int);
    }
    Some(map_keys(z, g))
}

/// Adds two Z-sets if their weights are within the accumulator cap.
fn plus_guarded<K: DBData>(a: &OrdZSet<K>, b: &OrdZSet<K>) -> (r: Option<OrdZSet<K>>)
    requires
        a.wf(),
        b.wf(),
    ensures
        r is Some ==> r->0.wf() && r->0@ == crate::zset::zadd(a@, b@),
        r is None ==> !crate::zset::zbounded(a@, ACC_CAP as int) || !crate::zset::zbounded(
            b@,
            ACC_CAP as int,
        ),
{
    if !a.weights_within(ACC_CAP) {
        return None;
    }
    if !b.weights_within(ACC_CAP) {
        return None;
    }
    Some(a.plus(b))
}

/// One side of a trace join, evaluated under the circuit caps.
fn jt_eval_guarded<K: DBData, V1: DBData, V2: DBData, T: Timestamp, O: DBData, F: JoinFunc<
    K,
    V1,
    V2,
    O,
>>(
    op: &mut JoinTrace<F, T, O>,
    index: &OrdIndexedZSet<K, V1>,
    trace: &Spine<K, V2, T>,
) -> (r: Option<OrdZSet<O>>)
    requires
        old(op).wf(),
        index.wf(),
        trace.wf(),
        T::can_advance(old(op).time.deep_view(), 0),
    ensures
        r is Some ==> ({
            let merged = zadd(
                old(op).pending@,
                ztjoin::<K, V1, V2, T, O, F>(
                    &old(op).join_func,
                    old(op).time.deep_view(),
                    index@,
                    trace@,
                ),
            );
            &&& r->0.wf()
            &&& final(op).wf()
            &&& r->0@ == tslice(merged, old(op).time.deep_view())
            &&& final(op).pending@ == tremove(merged, old(op).time.deep_view())
            &&& final(op).time.deep_view() == T::advance_model(old(op).time.deep_view(), 0)
            &&& final(op).join_func == old(op).join_func
            &&& final(op).empty_input == (index@ == Map::<(K::V, V1::V), int>::empty())
            &&& final(op).empty_output == (r->0@ == Map::<O::V, int>::empty())
        }),
        r is None ==> *final(op) == *old(op) && (index@.dom().len() > SIZE_CAP || trace@
            .dom().len() > SIZE_CAP || !crate::zset::zbounded(index@, WEIGHT_CAP as int)
            || !crate::zset::zbounded(trace@, WEIGHT_CAP as int) || !crate::zset::zbounded(
            old(op).pending@,
            ACC_CAP as int,
        )),
{
    if index.zs.entries().len() > SIZE_CAP {
        proof {
            index.zs.lemma_view();
        }
        return None;
    }
    if trace.iz.zs.entries().len() > SIZE_CAP {
        proof {
            trace.iz.zs.lemma_view();
        }
        return None;
    }
    if !index.zs.weights_within(WEIGHT_CAP) {
        return None;
    }
    if !trace.iz.zs.weights_within(WEIGHT_CAP) {
        return None;
    }
    if !op.pending.weights_within(ACC_CAP) {
        return None;
    }
    proof {
        lemma_seq_weights_from_bound(&index.zs, WEIGHT_CAP as int);
        lemma_seq_weights_from_bound(&trace.iz.zs, WEIGHT_CAP as int);
        lemma_tjoin_safe(
            &op.join_func,
            &op.time,
            index.model_seq(),
            trace.model_seq(),
            SIZE_CAP as int,
            SIZE_CAP as int,
            WEIGHT_CAP as int,
            WEIGHT_CAP as int,
        );
        lemma_tjoin_output_bound(
            &op.join_func,
            &op.time,
            index.model_seq(),
            trace.model_seq(),
            SIZE_CAP as int,
            SIZE_CAP as int,
            WEIGHT_CAP as int,
            WEIGHT_CAP as int,
        );
        assert forall|q: (T::V, O::V)|
            i64::MIN <= #[trigger] zweight(op.pending@, q) + zweight(
                tuples_sum(
                    tmatches::<K, V1, V2, T, O, F>(
                        &op.join_func,
                        op.time.deep_view(),
                        index.model_seq(),
                        trace.model_seq(),
                    ),
                ),
                q,
            ) <= i64::MAX by {
            assert(-(ACC_CAP as int) <= zweight(op.pending@, q) <= ACC_CAP as int);
        }
    }
    Some(op.eval(index, trace))
}

/// A Z-set re-keyed at the model level.
pub open spec fn keys_mapped<K: DBData, O: DBData, G: KeyFunc<K, O>>(
    g: &G,
    m: Map<K::V, int>,
) -> Map<O::V, int> {
    tuples_sum(kmapped(g, canon_of::<K>(m)))
}

/// The model of a label-propagation scope: the state its operators
/// denote, plus the running output and the stability flag of the last
/// tick.
pub struct PropagatorModel<T: Timestamp> {
    pub time: T::V,
    pub trace_result: Map<(usize, (u16, T::V)), int>,
    pub trace_edges: Map<(usize, (usize, T::V)), int>,
    pub left_pending: Map<(T::V, Label), int>,
    pub right_pending: Map<(T::V, Label), int>,
    pub feedback: Map<Label, int>,
    pub acc: Map<Label, int>,
    pub stable: bool,
}

/// One tick of the scope at the model level: exactly the operator
/// equations, composed in evaluation order.
pub open spec fn prop_step_model<T: Timestamp>(
    s: PropagatorModel<T>,
    epairs: Map<(usize, usize), int>,
    labels: Map<Label, int>,
    first: bool,
) -> PropagatorModel<T> {
    let lab_i = if first {
        labels
    } else {
        Map::<Label, int>::empty()
    };
    let e_i = if first {
        epairs
    } else {
        Map::<(usize, usize), int>::empty()
    };
    let result = zadd(lab_i, s.feedback);
    let result_kv = keys_mapped(&LabelToPair, result);
    let tr_edges2 = zadd(s.trace_edges, tlift(e_i, s.time));
    let ml = zadd(
        s.left_pending,
        ztjoin::<usize, u16, usize, T, Label, PropagateLabel>(
            &PropagateLabel,
            s.time,
            result_kv,
            tr_edges2,
        ),
    );
    let l_out = tslice(ml, s.time);
    let lp2 = tremove(ml, s.time);
    let mr = zadd(
        s.right_pending,
        ztjoin::<usize, usize, u16, T, Label, PropagateLabelFlipped>(
            &PropagateLabelFlipped,
            s.time,
            e_i,
            s.trace_result,
        ),
    );
    let r_out = tslice(mr, s.time);
    let rp2 = tremove(mr, s.time);
    let tr_result2 = zadd(s.trace_result, tlift(result_kv, s.time));
    let nxt = zadd(l_out, r_out);
    let t2 = T::advance_model(s.time, 0);
    let stable = crate::join_trace::jt_stable::<T, Label>(
        result_kv == Map::<(usize, u16), int>::empty(),
        l_out == Map::<Label, int>::empty(),
        lp2,
        t2,
        0,
    ) && crate::join_trace::jt_stable::<T, Label>(
        e_i == Map::<(usize, usize), int>::empty(),
        r_out == Map::<Label, int>::empty(),
        rp2,
        t2,
        0,
    ) && (nxt == Map::<Label, int>::empty());
    PropagatorModel {
        time: t2,
        trace_result: tr_result2,
        trace_edges: tr_edges2,
        left_pending: lp2,
        right_pending: rp2,
        feedback: nxt,
        acc: zadd(s.acc, result),
        stable,
    }
}

/// The scope after `n` ticks on the given inputs, which enter at the
/// first tick only.
pub open spec fn prop_run_model<T: Timestamp>(
    s0: PropagatorModel<T>,
    epairs: Map<(usize, usize), int>,
    labels: Map<Label, int>,
    n: nat,
) -> PropagatorModel<T>
    decreases n,
{
    if n == 0 {
        s0
    } else {
        prop_step_model(prop_run_model(s0, epairs, labels, (n - 1) as nat), epairs, labels, n
            == 1)
    }
}

/// The scope ran the inputs to its first stable tick, ending in state
/// `m` with accumulated output `out`.
pub open spec fn scope_run_ok<T: Timestamp>(
    s0: PropagatorModel<T>,
    epairs: Map<(usize, usize), int>,
    labels: Map<Label, int>,
    m: PropagatorModel<T>,
    out: Map<Label, int>,
) -> bool {
    exists|n: nat|
        1 <= n && m == prop_run_model(s0, epairs, labels, n) && m.stable && out == m.acc && (
        forall|k: nat|
            1 <= k < n ==> !(#[trigger] prop_run_model(s0, epairs, labels, k)).stable)
}

/// The capacity conditions one tick of the scope checks, in the order
/// its guards check them: clock headroom, then size and weight caps on
/// every operator input and accumulator.
pub open spec fn prop_tick_ok<T: Timestamp>(
    s: PropagatorModel<T>,
    epairs: Map<(usize, usize), int>,
    labels: Map<Label, int>,
    first: bool,
) -> bool {
    let lab_i = if first {
        labels
    } else {
        Map::<Label, int>::empty()
    };
    let e_i = if first {
        epairs
    } else {
        Map::<(usize, usize), int>::empty()
    };
    let result = zadd(lab_i, s.feedback);
    let result_kv = keys_mapped(&LabelToPair, result);
    let te2 = zadd(s.trace_edges, tlift(e_i, s.time));
    let ml = zadd(
        s.left_pending,
        ztjoin::<usize, u16, usize, T, Label, PropagateLabel>(
            &PropagateLabel,
            s.time,
            result_kv,
            te2,
        ),
    );
    let l_out = tslice(ml, s.time);
    let mr = zadd(
        s.right_pending,
        ztjoin::<usize, usize, u16, T, Label, PropagateLabelFlipped>(
            &PropagateLabelFlipped,
            s.time,
            e_i,
            s.trace_result,
        ),
    );
    let r_out = tslice(mr, s.time);
    &&& T::can_advance(s.time, 0)
    &&& crate::zset::zbounded(lab_i, ACC_CAP as int)
    &&& crate::zset::zbounded(s.feedback, ACC_CAP as int)
    &&& result.dom().len() <= SIZE_CAP
    &&& crate::zset::zbounded(result, WEIGHT_CAP as int)
    &&& te2.dom().len() <= SIZE_CAP
    &&& result_kv.dom().len() <= SIZE_CAP
    &&& crate::zset::zbounded(result_kv, WEIGHT_CAP as int)
    &&& crate::zset::zbounded(te2, WEIGHT_CAP as int)
    &&& crate::zset::zbounded(s.left_pending, ACC_CAP as int)
    &&& e_i.dom().len() <= SIZE_CAP
    &&& crate::zset::zbounded(e_i, WEIGHT_CAP as int)
    &&& s.trace_result.dom().len() <= SIZE_CAP
    &&& crate::zset::zbounded(s.trace_result, WEIGHT_CAP as int)
    &&& crate::zset::zbounded(s.right_pending, ACC_CAP as int)
    &&& crate::zset::zbounded(l_out, ACC_CAP as int)
    &&& crate::zset::zbounded(r_out, ACC_CAP as int)
    &&& crate::zset::zbounded(s.acc, ACC_CAP as int)
    &&& crate::zset::zbounded(result, ACC_CAP as int)
}

/// Why a scope run was refused: its edge input is over the caps, or
/// some tick before the first stable one hits a cap or the iteration
/// bound.
pub open spec fn scope_refused<T: Timestamp>(
    s0: PropagatorModel<T>,
    edgesm: Map<Edge, int>,
    labels: Map<Label, int>,
) -> bool {
    ||| edgesm.dom().len() > SIZE_CAP
    ||| !crate::zset::zbounded(edgesm, WEIGHT_CAP as int)
    ||| exists|n: nat|
        #![trigger prop_run_model(s0, keys_mapped(&EdgeToPair, edgesm), labels, n)]
        {
            &&& forall|k: nat|
                1 <= k <= n ==> !(#[trigger] prop_run_model(
                    s0,
                    keys_mapped(&EdgeToPair, edgesm),
                    labels,
                    k,
                )).stable
            &&& (n >= ITER_CAP || !prop_tick_ok(
                prop_run_model(s0, keys_mapped(&EdgeToPair, edgesm), labels, n),
                keys_mapped(&EdgeToPair, edgesm),
                labels,
                n == 0,
            ))
        }
}

/// Packages one refusal witness into `scope_refused`.
proof fn lemma_scope_refusal<T: Timestamp>(
    s0: PropagatorModel<T>,
    edgesm: Map<Edge, int>,
    labels: Map<Label, int>,
    n: nat,
)
    requires
        forall|k: nat|
            1 <= k <= n ==> !(#[trigger] prop_run_model(
                s0,
                keys_mapped(&EdgeToPair, edgesm),
                labels,
                k,
            )).stable,
        n >= ITER_CAP || !prop_tick_ok(
            prop_run_model(s0, keys_mapped(&EdgeToPair, edgesm), labels, n),
            keys_mapped(&EdgeToPair, edgesm),
            labels,
            n == 0,
        ),
    ensures
        scope_refused(s0, edgesm, labels),
{
    let ep = keys_mapped(&EdgeToPair, edgesm);
    let m = prop_run_model(s0, ep, labels, n);
    assert((forall|k: nat| 1 <= k <= n ==> !(#[trigger] prop_run_model(s0, ep, labels,
    k)).stable) && (n >= ITER_CAP || !prop_tick_ok(m, ep, labels, n == 0)));
}

/// The model after the scope's clock closes: the coordinate above the
/// scope advances, everything else stays.
pub open spec fn clock_closed_model<T: Timestamp>(
    m: PropagatorModel<T>,
    scope: nat,
) -> PropagatorModel<T> {
    PropagatorModel {
        time: T::advance_model(m.time, scope + 1),
        trace_result: m.trace_result,
        trace_edges: m.trace_edges,
        left_pending: m.left_pending,
        right_pending: m.right_pending,
        feedback: m.feedback,
        acc: m.acc,
        stable: m.stable,
    }
}

/// The model a fresh scope starts from: feedback and output reset.
pub open spec fn fresh_scope<T: Timestamp>(m: PropagatorModel<T>) -> PropagatorModel<T> {
    PropagatorModel {
        time: m.time,
        trace_result: m.trace_result,
        trace_edges: m.trace_edges,
        left_pending: m.left_pending,
        right_pending: m.right_pending,
        feedback: Map::empty(),
        acc: Map::empty(),
        stable: false,
    }
}

/// A propagation scope at rest: nothing pending, traces within the
/// circuit caps, and clock headroom for one tick.
pub open spec fn prop_quiescent<T: Timestamp>(m: PropagatorModel<T>) -> bool {
    &&& m.feedback == Map::<Label, int>::empty()
    &&& m.left_pending == Map::<(T::V, Label), int>::empty()
    &&& m.right_pending == Map::<(T::V, Label), int>::empty()
    &&& m.trace_result.dom().len() <= SIZE_CAP
    &&& m.trace_edges.dom().len() <= SIZE_CAP
    &&& crate::zset::zbounded(m.trace_result, WEIGHT_CAP as int)
    &&& crate::zset::zbounded(m.trace_edges, WEIGHT_CAP as int)
    &&& T::can_advance(m.time, 0)
}

/// On empty inputs, one tick of a quiescent scope changes nothing but
/// the clock and reports a fixed point.
pub proof fn lemma_prop_quiescent_tick<T: Timestamp>(s0: PropagatorModel<T>)
    requires
        prop_quiescent(s0),
        s0.acc == Map::<Label, int>::empty(),
        crate::zset::zset_wf(s0.trace_result),
        crate::zset::zset_wf(s0.trace_edges),
    ensures
        ({
            let ep = Map::<(usize, usize), int>::empty();
            let m = prop_run_model(s0, ep, Map::<Label, int>::empty(), 1);
            &&& m.stable
            &&& m.trace_result == s0.trace_result
            &&& m.trace_edges == s0.trace_edges
            &&& m.left_pending == s0.left_pending
            &&& m.right_pending == s0.right_pending
            &&& m.feedback == s0.feedback
            &&& m.acc == s0.acc
        }),
{
    let ep = Map::<(usize, usize), int>::empty();
    let nl = Map::<Label, int>::empty();
    let m = prop_step_model(s0, ep, nl, true);
    let result = zadd(nl, s0.feedback);
    assert(result =~= nl);
    let rkv = keys_mapped(&LabelToPair, result);
    assert(rkv == Map::<(usize, u16), int>::empty()) by {
        let w: Seq<(Label, int)> = Seq::empty();
        assert(pm_wf::<Label>(w));
        crate::zset::lemma_canon_of::<Label>(w);
        assert(tuples_sum(w) =~= Map::<Label, int>::empty());
        assert(canon_of::<Label>(result) == w);
        assert(kmapped(&LabelToPair, w) =~= Seq::<((usize, u16), int)>::empty());
        assert(tuples_sum(Seq::<((usize, u16), int)>::empty()) =~= Map::<
            (usize, u16),
            int,
        >::empty());
    }
    assert(tlift(ep, s0.time) =~= Map::<(usize, (usize, T::V)), int>::empty());
    crate::zset::lemma_zadd_zero(s0.trace_edges);
    assert(zadd(s0.trace_edges, tlift(ep, s0.time)) == s0.trace_edges);
    let jl = ztjoin::<usize, u16, usize, T, Label, PropagateLabel>(
        &PropagateLabel,
        s0.time,
        rkv,
        s0.trace_edges,
    );
    assert(jl =~= Map::<(T::V, Label), int>::empty()) by {
        let w: Seq<((usize, u16), int)> = Seq::empty();
        assert(pm_wf::<(usize, u16)>(w));
        crate::zset::lemma_canon_of::<(usize, u16)>(w);
        assert(tuples_sum(w) =~= Map::<(usize, u16), int>::empty());
        assert(canon_of::<(usize, u16)>(rkv) == w);
    }
    let jr = ztjoin::<usize, usize, u16, T, Label, PropagateLabelFlipped>(
        &PropagateLabelFlipped,
        s0.time,
        ep,
        s0.trace_result,
    );
    assert(jr =~= Map::<(T::V, Label), int>::empty()) by {
        let w: Seq<((usize, usize), int)> = Seq::empty();
        assert(pm_wf::<(usize, usize)>(w));
        crate::zset::lemma_canon_of::<(usize, usize)>(w);
        assert(tuples_sum(w) =~= Map::<(usize, usize), int>::empty());
        assert(canon_of::<(usize, usize)>(ep) == w);
    }
    let nonep = Map::<(T::V, Label), int>::empty();
    assert(zadd(s0.left_pending, jl) =~= nonep);
    assert(zadd(s0.right_pending, jr) =~= nonep);
    assert(tslice(nonep, s0.time) =~= nl);
    assert(tremove(nonep, s0.time) =~= nonep);
    assert(tlift(rkv, s0.time) =~= Map::<(usize, (u16, T::V)), int>::empty());
    crate::zset::lemma_zadd_zero(s0.trace_result);
    assert(zadd(s0.trace_result, tlift(rkv, s0.time)) == s0.trace_result);
    assert(zadd(nl, nl) =~= nl);
    crate::zset::lemma_zadd_zero(s0.acc);
    assert(m.stable);
    assert(prop_run_model(s0, ep, nl, 0) == s0);
    assert(prop_run_model(s0, ep, nl, 1) == m);
}

/// The scope ran to its first stable tick, leaving `post` in the
/// model's end state with accumulated output `out`.
pub open spec fn ran_to<T: Timestamp>(
    s0: PropagatorModel<T>,
    epairs: Map<(usize, usize), int>,
    labels: Map<Label, int>,
    post: LabelPropagator<T>,
    out: Map<Label, int>,
) -> bool {
    exists|m: PropagatorModel<T>|
        #[trigger] scope_run_ok(s0, epairs, labels, m, out) && post.agrees(m)
}

/// The label-propagation core: one nested scope that feeds computed
/// labels back through a one-tick delay and joins them with the edge
/// relation's trace, at any timestamp depth.
///
/// The trace join is split by observation order: the left half joins
/// each label delta against the edge trace up to the current tick, the
/// right half joins each edge delta against the label trace one tick
/// behind, so every pair of times is matched exactly once.
pub struct LabelPropagator<T: Timestamp> {
    pub time: T,
    pub trace_result: Spine<usize, u16, T>,
    pub trace_edges: Spine<usize, usize, T>,
    pub left: JoinTrace<PropagateLabel, T, Label>,
    pub right: JoinTrace<PropagateLabelFlipped, T, Label>,
    pub feedback: OrdZSet<Label>,
}

impl<T: Timestamp> LabelPropagator<T> {
    pub open spec fn wf(&self) -> bool {
        &&& self.trace_result.wf()
        &&& self.trace_edges.wf()
        &&& self.left.wf()
        &&& self.right.wf()
        &&& self.feedback.wf()
        &&& self.left.time.deep_view() == self.time.deep_view()
        &&& self.right.time.deep_view() == self.time.deep_view()
        &&& forall|p: (usize, (u16, T::V))|
            #[trigger] self.trace_result@.contains_key(p) ==> T::mlt(
                p.1.1,
                self.time.deep_view(),
            )
        &&& forall|p: (usize, (usize, T::V))|
            #[trigger] self.trace_edges@.contains_key(p) ==> T::mlt(
                p.1.1,
                self.time.deep_view(),
            )
    }

    /// The model this state starts a scope from: the feedback and the
    /// running output reset.
    pub open spec fn scope_start(&self) -> PropagatorModel<T> {
        PropagatorModel {
            time: self.time.deep_view(),
            trace_result: self.trace_result@,
            trace_edges: self.trace_edges@,
            left_pending: self.left.pending@,
            right_pending: self.right.pending@,
            feedback: Map::empty(),
            acc: Map::empty(),
            stable: false,
        }
    }

    /// Whether this state carries exactly the model's persistent part.
    pub open spec fn agrees(&self, m: PropagatorModel<T>) -> bool {
        &&& self.time.deep_view() == m.time
        &&& self.trace_result@ == m.trace_result
        &&& self.trace_edges@ == m.trace_edges
        &&& self.left.pending@ == m.left_pending
        &&& self.right.pending@ == m.right_pending
        &&& self.feedback@ == m.feedback
    }

    pub fn new() -> (r: Self)
        ensures
            r.wf(),
    {
        LabelPropagator {
            time: T::clock_start(),
            trace_result: Spine::new(),
            trace_edges: Spine::new(),
            left: JoinTrace::new(PropagateLabel),
            right: JoinTrace::new(PropagateLabelFlipped),
            feedback: OrdZSet::empty(),
        }
    }

    /// A working copy carrying the same state, so a failed run can
    /// leave the original untouched.
    pub fn working_copy(&self) -> (r: Self)
        requires
            self.wf(),
        ensures
            r.wf(),
            r.scope_start() == self.scope_start(),
            r.time.deep_view() == self.time.deep_view(),
            r.trace_result@ == self.trace_result@,
            r.trace_edges@ == self.trace_edges@,
            r.left.pending@ == self.left.pending@,
            r.right.pending@ == self.right.pending@,
            r.feedback@ == self.feedback@,
    {
        LabelPropagator {
            time: self.time.dup(),
            trace_result: self.trace_result.dup(),
            trace_edges: self.trace_edges.dup(),
            left: JoinTrace {
                join_func: PropagateLabel,
                time: self.left.time.dup(),
                pending: self.left.pending.dup(),
                empty_input: self.left.empty_input,
                empty_output: self.left.empty_output,
            },
            right: JoinTrace {
                join_func: PropagateLabelFlipped,
                time: self.right.time.dup(),
                pending: self.right.pending.dup(),
                empty_input: self.right.empty_input,
                empty_output: self.right.empty_output,
            },
            feedback: self.feedback.dup(),
        }
    }

    /// Runs the innermost scope to its fixed point: one tick per
    /// iteration, the deltas entering only the first.
    #[verifier::rlimit(80)]
    pub fn run_scope(&mut self, edges: &OrdZSet<Edge>, labels: &OrdZSet<Label>) -> (r: Option<
        OrdZSet<Label>,
    >)
        requires
            old(self).wf(),
            edges.wf(),
            labels.wf(),
        ensures
            r is Some ==> final(self).wf(),
            r is Some ==> r->0.wf(),
            r is Some ==> ran_to(
                old(self).scope_start(),
                keys_mapped(&EdgeToPair, edges@),
                labels@,
                *final(self),
                r->0@,
            ),
            prop_quiescent(old(self).scope_start()) && edges@ == Map::<Edge, int>::empty()
                && labels@ == Map::<Label, int>::empty() ==> r is Some,
            r is None ==> *final(self) == *old(self),
            r is None ==> scope_refused(old(self).scope_start(), edges@, labels@),
    {
        let ghost s0 = old(self).scope_start();
        let ghost quiet = prop_quiescent(s0) && edges@ == Map::<Edge, int>::empty() && labels@
            == Map::<Label, int>::empty();
        // run on a working copy: a refused run leaves the state as it was
        let mut work = self.working_copy();
        // the delayed feedback starts each scope empty
        work.feedback = OrdZSet::empty();
        let e_pairs = match map_keys_guarded(edges, &EdgeToPair) {
            Some(z) => z,
            None => {
                proof {
                    if quiet {
                        edges.lemma_view();
                        assert(edges@.dom() =~= Set::<Edge>::empty());
                        assert(false);
                    }
                    assert(scope_refused(s0, edges@, labels@));
                }
                return None;
            },
        };
        proof {
            lemma_canon_of::<Edge>(edges.model_seq());
            if quiet {
                edges.lemma_view();
                assert(edges.model_seq() =~= Seq::<(Edge, int)>::empty());
                assert(kmapped(&EdgeToPair, edges.model_seq()) =~= Seq::<
                    ((usize, usize), int),
                >::empty());
                assert(keys_mapped(&EdgeToPair, edges@) =~= Map::<(usize, usize), int>::empty());
            }
        }
        let ghost ep = keys_mapped(&EdgeToPair, edges@);
        let mut acc: OrdZSet<Label> = OrdZSet::empty();
        let mut first = true;
        let mut fuel: usize = 0;
        let ghost mut ticks: nat = 0;
        proof {
            assert(work.agrees(prop_run_model(s0, ep, labels@, 0))) by {
                assert(work.feedback@ =~= Map::<Label, int>::empty());
            }
            assert(acc@ =~= prop_run_model(s0, ep, labels@, 0).acc);
        }
        loop
            invariant_except_break
                forall|k: nat|
                    1 <= k <= ticks ==> !(#[trigger] prop_run_model(s0, ep, labels@, k)).stable,
            invariant
                work.wf(),
                acc.wf(),
                labels.wf(),
                e_pairs.wf(),
                fuel <= ITER_CAP,
                s0 == old(self).scope_start(),
                quiet == (prop_quiescent(s0) && edges@ == Map::<Edge, int>::empty() && labels@
                    == Map::<Label, int>::empty()),
                quiet ==> ep == Map::<(usize, usize), int>::empty(),
                ep == keys_mapped(&EdgeToPair, edges@),
                e_pairs@ == ep,
                ticks == fuel,
                first <==> ticks == 0,
                work.agrees(prop_run_model(s0, ep, labels@, ticks)),
                acc@ == prop_run_model(s0, ep, labels@, ticks).acc,
            ensures
                work.wf(),
                acc.wf(),
                exists|m: PropagatorModel<T>|
                    #[trigger] scope_run_ok(s0, ep, labels@, m, acc@) && work.agrees(m),
            decreases ITER_CAP - fuel,
        {
            let ghost pre = prop_run_model(s0, ep, labels@, ticks);
            proof {
                assert(work.agrees(pre));
                if quiet {
                    // a quiescent scope is stable after one tick, so a
                    // guard can only be met at the very first one
                    crate::zset::lemma_tuples_sum_wf(
                        models(old(self).trace_result.iz.zs.pairs@),
                    );
                    crate::zset::lemma_tuples_sum_wf(
                        models(old(self).trace_edges.iz.zs.pairs@),
                    );
                    lemma_prop_quiescent_tick(s0);
                    assert(ticks == 0);
                    assert(pre == s0);
                    assert(Map::<Label, int>::empty().dom() =~= Set::<Label>::empty());
                    assert(Map::<(T::V, Label), int>::empty().dom() =~= Set::<
                        (T::V, Label),
                    >::empty());
                }
            }
            if fuel >= ITER_CAP {
                proof {
                    if quiet {
                        assert(false);
                    }
                    lemma_scope_refusal::<T>(s0, edges@, labels@, ticks);
                }
                return None;
            }
            fuel = fuel + 1;
            if !work.time.can_advance_exec(0) {
                proof {
                    if quiet {
                        assert(false);
                    }
                    assert(!prop_tick_ok(pre, ep, labels@, ticks == 0));
                    lemma_scope_refusal::<T>(s0, edges@, labels@, ticks);
                }
                return None;
            }
            // inputs enter the scope at its first tick only
            let lab_i = if first {
                labels.dup()
            } else {
                OrdZSet::empty()
            };
            let e_i = if first {
                e_pairs.dup()
            } else {
                OrdZSet::empty()
            };
            proof {
                if !first {
                    assert(lab_i@ =~= Map::<Label, int>::empty());
                    assert(e_i@ =~= Map::<(usize, usize), int>::empty());
                }
            }
            proof {
                if quiet {
                    assert(lab_i@ =~= Map::<Label, int>::empty());
                    assert(e_i@ =~= Map::<(usize, usize), int>::empty());
                }
            }
            let result = match plus_guarded(&lab_i, &work.feedback) {
                Some(z) => z,
                None => {
                    proof {
                        if quiet {
                            assert(false);
                        }
                        assert(!prop_tick_ok(pre, ep, labels@, ticks == 0));
                        lemma_scope_refusal::<T>(s0, edges@, labels@, ticks);
                    }
                    return None;
                },
            };
            let result_kv = match map_keys_guarded(&result, &LabelToPair) {
                Some(z) => z,
                None => {
                    proof {
                        if quiet {
                            assert(result@ =~= Map::<Label, int>::empty());
                            result.lemma_view();
                            assert(result@.dom() =~= Set::<Label>::empty());
                            assert(false);
                        }
                        assert(!prop_tick_ok(pre, ep, labels@, ticks == 0));
                        lemma_scope_refusal::<T>(s0, edges@, labels@, ticks);
                    }
                    return None;
                },
            };
            proof {
                lemma_canon_of::<Label>(result.model_seq());
                assert(result_kv@ == keys_mapped(&LabelToPair, result@));
            }
            let ghost rkv = result_kv@;
            let ghost eiv = e_i@;
            let result_ix = index_zset(result_kv);
            let e_ix = index_zset(e_i);
            let now = work.time.dup();
            // the edge trace reflects the current tick; the result
            // trace is read before its insert, one tick delayed
            proof {
                assert forall|p: (usize, (usize, T::V))| work.trace_edges@.contains_key(
                    p,
                ) implies #[trigger] p.1.1 != now.deep_view() by {
                    T::mlt_trichotomy(p.1.1, now.deep_view());
                }
            }
            work.trace_edges.insert(&e_ix, &now);
            proof {
                assert(work.trace_edges@ == zadd(pre.trace_edges, tlift(e_ix@, pre.time)));
                if quiet {
                    assert(tlift(e_ix@, pre.time) =~= Map::<(usize, (usize, T::V)), int>::empty());
                    crate::zset::lemma_zadd_zero(s0.trace_edges);
                    assert(work.trace_edges@ == s0.trace_edges);
                    work.trace_edges.iz.zs.lemma_view();
                }
            }
            if work.trace_edges.iz.zs.entries().len() > SIZE_CAP {
                proof {
                    if quiet {
                        assert(false);
                    }
                    work.trace_edges.iz.zs.lemma_view();
                    assert(!prop_tick_ok(pre, ep, labels@, ticks == 0));
                    lemma_scope_refusal::<T>(s0, edges@, labels@, ticks);
                }
                return None;
            }
            let l_out = match jt_eval_guarded(&mut work.left, &result_ix, &work.trace_edges) {
                Some(z) => z,
                None => {
                    proof {
                        if quiet {
                            assert(result_ix@ =~= Map::<(usize, u16), int>::empty());
                            assert(result_ix@.dom() =~= Set::<(usize, u16)>::empty());
                            assert(false);
                        }
                        assert(!prop_tick_ok(pre, ep, labels@, ticks == 0));
                        lemma_scope_refusal::<T>(s0, edges@, labels@, ticks);
                    }
                    return None;
                },
            };
            let r_out = match jt_eval_guarded(&mut work.right, &e_ix, &work.trace_result) {
                Some(z) => z,
                None => {
                    proof {
                        if quiet {
                            assert(e_ix@.dom() =~= Set::<(usize, usize)>::empty());
                            assert(false);
                        }
                        assert(!prop_tick_ok(pre, ep, labels@, ticks == 0));
                        lemma_scope_refusal::<T>(s0, edges@, labels@, ticks);
                    }
                    return None;
                },
            };
            proof {
                // name the two merge results for the cap conditions
                assert(work.left.join_func == PropagateLabel);
                assert(work.right.join_func == PropagateLabelFlipped);
                assert(l_out@ == tslice(
                    zadd(
                        pre.left_pending,
                        ztjoin::<usize, u16, usize, T, Label, PropagateLabel>(
                            &PropagateLabel,
                            pre.time,
                            result_kv@,
                            work.trace_edges@,
                        ),
                    ),
                    pre.time,
                ));
                assert(r_out@ == tslice(
                    zadd(
                        pre.right_pending,
                        ztjoin::<usize, usize, u16, T, Label, PropagateLabelFlipped>(
                            &PropagateLabelFlipped,
                            pre.time,
                            e_ix@,
                            pre.trace_result,
                        ),
                    ),
                    pre.time,
                ));
            }
            proof {
                if quiet {
                    // with nothing to join, both halves stay empty
                    let w1: Seq<((usize, u16), int)> = Seq::empty();
                    assert(pm_wf::<(usize, u16)>(w1));
                    crate::zset::lemma_canon_of::<(usize, u16)>(w1);
                    assert(tuples_sum(w1) =~= Map::<(usize, u16), int>::empty());
                    assert(canon_of::<(usize, u16)>(result_ix@) == w1);
                    let w2: Seq<((usize, usize), int)> = Seq::empty();
                    assert(pm_wf::<(usize, usize)>(w2));
                    crate::zset::lemma_canon_of::<(usize, usize)>(w2);
                    assert(tuples_sum(w2) =~= Map::<(usize, usize), int>::empty());
                    assert(canon_of::<(usize, usize)>(e_ix@) == w2);
                    assert(ztjoin::<usize, u16, usize, T, Label, PropagateLabel>(
                        &work.left.join_func,
                        now.deep_view(),
                        result_ix@,
                        work.trace_edges@,
                    ) =~= Map::<(T::V, Label), int>::empty());
                    assert(ztjoin::<usize, usize, u16, T, Label, PropagateLabelFlipped>(
                        &work.right.join_func,
                        now.deep_view(),
                        e_ix@,
                        s0.trace_result,
                    ) =~= Map::<(T::V, Label), int>::empty());
                    let nonep = Map::<(T::V, Label), int>::empty();
                    assert(zadd(s0.left_pending, nonep) =~= nonep);
                    assert(zadd(s0.right_pending, nonep) =~= nonep);
                    assert(tslice(nonep, now.deep_view()) =~= Map::<Label, int>::empty());
                    assert(l_out@ =~= Map::<Label, int>::empty());
                    assert(r_out@ =~= Map::<Label, int>::empty());
                }
            }
            proof {
                assert forall|p: (usize, (u16, T::V))| work.trace_result@.contains_key(
                    p,
                ) implies #[trigger] p.1.1 != now.deep_view() by {
                    T::mlt_trichotomy(p.1.1, now.deep_view());
                }
            }
            work.trace_result.insert(&result_ix, &now);
            let nxt = match plus_guarded(&l_out, &r_out) {
                Some(z) => z,
                None => {
                    proof {
                        if quiet {
                            assert(false);
                        }
                        assert(!prop_tick_ok(pre, ep, labels@, ticks == 0));
                        lemma_scope_refusal::<T>(s0, edges@, labels@, ticks);
                    }
                    return None;
                },
            };
            let acc2 = match plus_guarded(&acc, &result) {
                Some(z) => z,
                None => {
                    proof {
                        if quiet {
                            assert(acc@ =~= Map::<Label, int>::empty());
                            assert(false);
                        }
                        assert(!prop_tick_ok(pre, ep, labels@, ticks == 0));
                        lemma_scope_refusal::<T>(s0, edges@, labels@, ticks);
                    }
                    return None;
                },
            };
            acc = acc2;
            let l_fp = work.left.fixedpoint(0);
            let r_fp = work.right.fixedpoint(0);
            let n_empty = nxt.is_empty();
            let stable = l_fp && r_fp && n_empty;
            work.feedback = nxt;
            let t2 = work.time.advance(0);
            proof {
                T::advance_increases(now.deep_view(), 0);
                assert forall|p: (usize, (u16, T::V))| work.trace_result@.contains_key(
                    p,
                ) implies T::mlt(p.1.1, t2.deep_view()) by {
                    if T::mlt(p.1.1, now.deep_view()) {
                        T::mlt_transitive(p.1.1, now.deep_view(), t2.deep_view());
                    }
                }
                assert forall|p: (usize, (usize, T::V))| work.trace_edges@.contains_key(
                    p,
                ) implies T::mlt(p.1.1, t2.deep_view()) by {
                    if T::mlt(p.1.1, now.deep_view()) {
                        T::mlt_transitive(p.1.1, now.deep_view(), t2.deep_view());
                    }
                }
            }
            work.time = t2;
            proof {
                ticks = ticks + 1;
                let post = prop_run_model(s0, ep, labels@, ticks);
                assert(post == prop_step_model(pre, ep, labels@, ticks == 1));
                // each state component carries exactly the model's step
                assert(work.left.join_func == PropagateLabel);
                assert(work.right.join_func == PropagateLabelFlipped);
                let ml = zadd(
                    pre.left_pending,
                    ztjoin::<usize, u16, usize, T, Label, PropagateLabel>(
                        &PropagateLabel,
                        pre.time,
                        rkv,
                        zadd(pre.trace_edges, tlift(eiv, pre.time)),
                    ),
                );
                let mr = zadd(
                    pre.right_pending,
                    ztjoin::<usize, usize, u16, T, Label, PropagateLabelFlipped>(
                        &PropagateLabelFlipped,
                        pre.time,
                        eiv,
                        pre.trace_result,
                    ),
                );
                assert(work.left.pending@ == tremove(ml, pre.time));
                assert(work.right.pending@ == tremove(mr, pre.time));
                assert(l_out@ == tslice(ml, pre.time));
                assert(r_out@ == tslice(mr, pre.time));
                assert(work.agrees(post));
                assert(acc@ == post.acc);
                let t2m = T::advance_model(pre.time, 0);
                assert(l_fp == crate::join_trace::jt_stable::<T, Label>(
                    rkv == Map::<(usize, u16), int>::empty(),
                    l_out@ == Map::<Label, int>::empty(),
                    tremove(ml, pre.time),
                    t2m,
                    0,
                ));
                assert(r_fp == crate::join_trace::jt_stable::<T, Label>(
                    eiv == Map::<(usize, usize), int>::empty(),
                    r_out@ == Map::<Label, int>::empty(),
                    tremove(mr, pre.time),
                    t2m,
                    0,
                ));
                assert(n_empty == (work.feedback@ == Map::<Label, int>::empty()));
                assert(stable == post.stable);
            }
            first = false;
            if stable {
                proof {
                    let m = prop_run_model(s0, ep, labels@, ticks);
                    assert(scope_run_ok(s0, ep, labels@, m, acc@));
                }
                break ;
            }
        }
        proof {
            assert(ran_to(s0, ep, labels@, work, acc@));
        }
        *self = work;
        Some(acc)
    }

    /// Closes the scope's clock: the coordinate above the scope
    /// advances and the finer coordinates reset; refused only when the
    /// clock has no tick left there.
    pub fn clock_end(&mut self, scope: usize) -> (ok: bool)
        requires
            old(self).wf(),
            scope < usize::MAX,
        ensures
            ok == T::can_advance(old(self).time.deep_view(), scope as nat + 1),
            ok ==> final(self).wf() && final(self).time.deep_view() == T::advance_model(
                old(self).time.deep_view(),
                scope as nat + 1,
            ) && final(self).trace_result@ == old(self).trace_result@
                && final(self).trace_edges@ == old(self).trace_edges@
                && final(self).left.pending@ == old(self).left.pending@
                && final(self).right.pending@ == old(self).right.pending@
                && final(self).feedback@ == old(self).feedback@,
            !ok ==> *final(self) == *old(self),
    {
        if !self.time.can_advance_exec(scope + 1) {
            return false;
        }
        let now = self.time.dup();
        self.left.clock_end(scope);
        self.right.clock_end(scope);
        let t2 = self.time.advance(scope + 1);
        proof {
            T::advance_increases(now.deep_view(), scope as nat + 1);
            assert forall|p: (usize, (u16, T::V))| self.trace_result@.contains_key(
                p,
            ) implies T::mlt(p.1.1, t2.deep_view()) by {
                if T::mlt(p.1.1, now.deep_view()) {
                    T::mlt_transitive(p.1.1, now.deep_view(), t2.deep_view());
                }
            }
            assert forall|p: (usize, (usize, T::V))| self.trace_edges@.contains_key(
                p,
            ) implies T::mlt(p.1.1, t2.deep_view()) by {
                if T::mlt(p.1.1, now.deep_view()) {
                    T::mlt_transitive(p.1.1, now.deep_view(), t2.deep_view());
                }
            }
        }
        self.time = t2;
        true
    }
}

/// Label propagation as a single-scope circuit: one epoch per step.
pub struct PropagateCircuit {
    pub core: LabelPropagator<NestedTimestamp32>,
}

impl PropagateCircuit {
    pub open spec fn wf(&self) -> bool {
        self.core.wf()
    }

    pub fn new() -> (r: Self)
        ensures
            r.wf(),
    {
        PropagateCircuit { core: LabelPropagator::new() }
    }

    /// One outer step: iterate the scope to its fixed point, emit the
    /// step's delta of computed labels, and close the scope's clock.
    pub fn step(&mut self, edges: &OrdZSet<Edge>, labels: &OrdZSet<Label>) -> (r: Option<
        OrdZSet<Label>,
    >)
        requires
            old(self).wf(),
            edges.wf(),
            labels.wf(),
        ensures
            r is Some ==> final(self).wf(),
            r is Some ==> r->0.wf(),
            r is Some ==> exists|m: PropagatorModel<NestedTimestamp32>|
                #[trigger] scope_run_ok(
                    old(self).core.scope_start(),
                    keys_mapped(&EdgeToPair, edges@),
                    labels@,
                    m,
                    r->0@,
                ) && final(self).core.agrees(clock_closed_model(m, 0)),
            r is None ==> *final(self) == *old(self),
            r is None ==> scope_refused(old(self).core.scope_start(), edges@, labels@)
                || exists|m: PropagatorModel<NestedTimestamp32>, o: Map<Label, int>|
                #[trigger] scope_run_ok(
                    old(self).core.scope_start(),
                    keys_mapped(&EdgeToPair, edges@),
                    labels@,
                    m,
                    o,
                ) && !<NestedTimestamp32 as Timestamp>::can_advance(m.time, 1),
    {
        // run on a working copy: a failed step leaves the state as it
        // was, as a failed step must
        let mut core2 = self.core.working_copy();
        let out = match core2.run_scope(edges, labels) {
            Some(z) => z,
            None => {
                proof {
                    assert(scope_refused(old(self).core.scope_start(), edges@, labels@));
                }
                return None;
            },
        };
        proof {
            assert(ran_to(
                old(self).core.scope_start(),
                keys_mapped(&EdgeToPair, edges@),
                labels@,
                core2,
                out@,
            ));
        }
        let ghost m = choose|m: PropagatorModel<NestedTimestamp32>|
            #[trigger] scope_run_ok(
                old(self).core.scope_start(),
                keys_mapped(&EdgeToPair, edges@),
                labels@,
                m,
                out@,
            ) && core2.agrees(m);
        if !core2.clock_end(0) {
            proof {
                assert(m.time == core2.time.deep_view());
                assert(!<NestedTimestamp32 as Timestamp>::can_advance(m.time, 1));
            }
            return None;
        }
        proof {
            assert(core2.agrees(clock_closed_model(m, 0)));
        }
        self.core = core2;
        Some(out)
    }
}

/// Why a nested step was refused: a cap or clock bound at one of its
/// stages — the label input, either scope run, or one of the three
/// clock closes.
pub open spec fn nested_refused(
    s0: PropagatorModel<crate::time::ProductTimestamp>,
    edgesm: Map<Edge, int>,
    labelsm: Map<Label, int>,
) -> bool {
    let ep = keys_mapped(&EdgeToPair, edgesm);
    let ep0 = keys_mapped(&EdgeToPair, Map::<Edge, int>::empty());
    let none = Map::<Label, int>::empty();
    ||| !crate::zset::zbounded(labelsm, ACC_CAP as int)
    ||| scope_refused(s0, edgesm, zadd(labelsm, none))
    ||| exists|m1: PropagatorModel<crate::time::ProductTimestamp>, o1: Map<Label, int>|
        #![trigger scope_run_ok(s0, ep, zadd(labelsm, none), m1, o1)]
        {
            &&& scope_run_ok(s0, ep, zadd(labelsm, none), m1, o1)
            &&& {
                ||| !<crate::time::ProductTimestamp as Timestamp>::can_advance(m1.time, 1)
                ||| !crate::zset::zbounded(o1, ACC_CAP as int)
                ||| scope_refused(
                    fresh_scope(clock_closed_model(m1, 0)),
                    Map::<Edge, int>::empty(),
                    zadd(none, o1),
                )
                ||| exists|m2: PropagatorModel<crate::time::ProductTimestamp>, o2: Map<
                    Label,
                    int,
                >|
                    #![trigger scope_run_ok(
                        fresh_scope(clock_closed_model(m1, 0)),
                        ep0,
                        zadd(none, o1),
                        m2,
                        o2,
                    )]
                    {
                        &&& scope_run_ok(
                            fresh_scope(clock_closed_model(m1, 0)),
                            ep0,
                            zadd(none, o1),
                            m2,
                            o2,
                        )
                        &&& {
                            ||| !<crate::time::ProductTimestamp as Timestamp>::can_advance(
                                m2.time,
                                1,
                            )
                            ||| !crate::zset::zbounded(zadd(none, o1), ACC_CAP as int)
                            ||| !crate::zset::zbounded(o2, ACC_CAP as int)
                            ||| !<crate::time::ProductTimestamp as Timestamp>::can_advance(
                                <crate::time::ProductTimestamp as Timestamp>::advance_model(
                                    m2.time,
                                    1,
                                ),
                                2,
                            )
                        }
                    }
            }
        }
}

/// Label propagation inside one more scope: each step runs a fixed
/// number of middle iterations, each of which runs the inner scope to
/// its fixed point, feeding the result back with a one-iteration
/// delay.
pub struct PropagateNestedCircuit {
    pub core: LabelPropagator<crate::time::ProductTimestamp>,
    pub middle_feedback: OrdZSet<Label>,
}

impl PropagateNestedCircuit {
    pub open spec fn wf(&self) -> bool {
        &&& self.core.wf()
        &&& self.middle_feedback.wf()
    }

    pub fn new() -> (r: Self)
        ensures
            r.wf(),
    {
        PropagateNestedCircuit {
            core: LabelPropagator::new(),
            middle_feedback: OrdZSet::empty(),
        }
    }

    /// One outer step: two middle iterations, each running the inner
    /// scope to its fixed point with the previous iteration's result
    /// fed back, then the middle clock closes.
    pub fn step(&mut self, edges: &OrdZSet<Edge>, labels: &OrdZSet<Label>) -> (r: Option<
        OrdZSet<Label>,
    >)
        requires
            old(self).wf(),
            edges.wf(),
            labels.wf(),
        ensures
            r is Some ==> final(self).wf(),
            r is Some ==> r->0.wf(),
            r is Some ==> ({
                let ep = keys_mapped(&EdgeToPair, edges@);
                let ep0 = keys_mapped(&EdgeToPair, Map::<Edge, int>::empty());
                let none = Map::<Label, int>::empty();
                exists|m1: PropagatorModel<crate::time::ProductTimestamp>, o1: Map<Label, int>,
                    m2: PropagatorModel<crate::time::ProductTimestamp>, o2: Map<Label, int>|
                    {
                        &&& #[trigger] scope_run_ok(
                            old(self).core.scope_start(),
                            ep,
                            zadd(labels@, none),
                            m1,
                            o1,
                        )
                        &&& #[trigger] scope_run_ok(
                            fresh_scope(clock_closed_model(m1, 0)),
                            ep0,
                            zadd(none, o1),
                            m2,
                            o2,
                        )
                        &&& r->0@ == zadd(zadd(none, o1), o2)
                        &&& final(self).core.agrees(
                            clock_closed_model(clock_closed_model(m2, 0), 1),
                        )
                        &&& final(self).middle_feedback@ == o2
                    }
            }),
            r is None ==> *final(self) == *old(self),
            r is None ==> nested_refused(old(self).core.scope_start(), edges@, labels@),
    {
        let ghost none = Map::<Label, int>::empty();
        // run on a working copy: a failed step leaves the state as it
        // was, as a failed step must
        let mut core2 = self.core.working_copy();
        let mut mfb: OrdZSet<Label> = OrdZSet::empty();
        let mut out: OrdZSet<Label> = OrdZSet::empty();
        proof {
            assert(mfb@ =~= none);
        }
        // first middle iteration: the outer deltas enter
        let lab_in1 = match plus_guarded(labels, &mfb) {
            Some(z) => z,
            None => {
                proof {
                    assert(crate::zset::zbounded(none, ACC_CAP as int));
                    assert(nested_refused(old(self).core.scope_start(), edges@, labels@));
                }
                return None;
            },
        };
        let r1 = match core2.run_scope(edges, &lab_in1) {
            Some(z) => z,
            None => {
                proof {
                    assert(scope_refused(
                        old(self).core.scope_start(),
                        edges@,
                        zadd(labels@, none),
                    ));
                }
                return None;
            },
        };
        proof {
            assert(ran_to(
                old(self).core.scope_start(),
                keys_mapped(&EdgeToPair, edges@),
                zadd(labels@, none),
                core2,
                r1@,
            ));
        }
        let ghost m1 = choose|m: PropagatorModel<crate::time::ProductTimestamp>|
            #[trigger] scope_run_ok(
                old(self).core.scope_start(),
                keys_mapped(&EdgeToPair, edges@),
                zadd(labels@, none),
                m,
                r1@,
            ) && core2.agrees(m);
        if !core2.clock_end(0) {
            proof {
                assert(m1.time == core2.time.deep_view());
                assert(nested_refused(old(self).core.scope_start(), edges@, labels@));
            }
            return None;
        }
        proof {
            assert(core2.agrees(clock_closed_model(m1, 0)));
            assert(core2.scope_start() == fresh_scope(clock_closed_model(m1, 0)));
        }
        mfb = r1.dup();
        let out1 = match plus_guarded(&out, &r1) {
            Some(z) => z,
            None => {
                proof {
                    assert(out@ =~= none);
                    assert(crate::zset::zbounded(none, ACC_CAP as int));
                    assert(!crate::zset::zbounded(r1@, ACC_CAP as int));
                    assert(nested_refused(old(self).core.scope_start(), edges@, labels@));
                }
                return None;
            },
        };
        out = out1;
        // second middle iteration: only the fed-back result enters
        let e2: OrdZSet<Edge> = OrdZSet::empty();
        let l2: OrdZSet<Label> = OrdZSet::empty();
        proof {
            assert(e2@ =~= Map::<Edge, int>::empty());
            assert(l2@ =~= none);
        }
        let lab_in2 = match plus_guarded(&l2, &mfb) {
            Some(z) => z,
            None => {
                proof {
                    assert(crate::zset::zbounded(none, ACC_CAP as int));
                    assert(!crate::zset::zbounded(r1@, ACC_CAP as int));
                    assert(nested_refused(old(self).core.scope_start(), edges@, labels@));
                }
                return None;
            },
        };
        let ghost start2 = core2.scope_start();
        let r2 = match core2.run_scope(&e2, &lab_in2) {
            Some(z) => z,
            None => {
                proof {
                    assert(scope_refused(start2, e2@, zadd(none, r1@)));
                    assert(e2@ == Map::<Edge, int>::empty());
                    assert(nested_refused(old(self).core.scope_start(), edges@, labels@));
                }
                return None;
            },
        };
        proof {
            assert(ran_to(start2, keys_mapped(&EdgeToPair, e2@), zadd(none, r1@), core2,
            r2@));
        }
        let ghost m2 = choose|m: PropagatorModel<crate::time::ProductTimestamp>|
            #[trigger] scope_run_ok(
                start2,
                keys_mapped(&EdgeToPair, e2@),
                zadd(none, r1@),
                m,
                r2@,
            ) && core2.agrees(m);
        if !core2.clock_end(0) {
            proof {
                assert(m2.time == core2.time.deep_view());
                assert(e2@ == Map::<Edge, int>::empty());
                assert(nested_refused(old(self).core.scope_start(), edges@, labels@));
            }
            return None;
        }
        mfb = r2.dup();
        let out2 = match plus_guarded(&out, &r2) {
            Some(z) => z,
            None => {
                proof {
                    assert(out@ == zadd(none, r1@));
                    assert(e2@ == Map::<Edge, int>::empty());
                    assert(nested_refused(old(self).core.scope_start(), edges@, labels@));
                }
                return None;
            },
        };
        out = out2;
        if !core2.clock_end(1) {
            proof {
                assert(core2.time.deep_view()
                    == <crate::time::ProductTimestamp as Timestamp>::advance_model(
                    m2.time,
                    1,
                ));
                assert(e2@ == Map::<Edge, int>::empty());
                assert(nested_refused(old(self).core.scope_start(), edges@, labels@));
            }
            return None;
        }
        proof {
            assert(core2.agrees(clock_closed_model(clock_closed_model(m2, 0), 1)));
            assert(keys_mapped(&EdgeToPair, e2@) == keys_mapped(
                &EdgeToPair,
                Map::<Edge, int>::empty(),
            ));
        }
        self.core = core2;
        self.middle_feedback = mfb;
        Some(out)
    }
}

/// The model of the reachability circuit: the state its operators
/// denote, the epoch's running output, and the stability flag of the
/// last tick.
pub struct ReachabilityModel {
    pub time: NestedTimestamp32,
    pub trace_paths: Map<(usize, (usize, NestedTimestamp32)), int>,
    pub trace_edges: Map<(usize, (usize, NestedTimestamp32)), int>,
    pub left_pending: Map<(NestedTimestamp32, (usize, usize)), int>,
    pub right_pending: Map<(NestedTimestamp32, (usize, usize)), int>,
    pub dt_trace: Map<((usize, usize), (NoVal, NestedTimestamp32)), int>,
    pub dt_sched: Map<(u32, (usize, usize)), int>,
    pub feedback: Map<(usize, usize), int>,
    pub epoch_out: Map<(usize, usize), int>,
    pub integral: Map<(usize, usize), int>,
    pub stable: bool,
}

/// One tick of the reachability scope at the model level: exactly the
/// operator equations, composed in evaluation order.
pub open spec fn reach_step_model(
    s: ReachabilityModel,
    b: Map<(usize, usize), int>,
    first: bool,
) -> ReachabilityModel {
    let am = keys_mapped(&InvertPair, s.feedback);
    let b2 = if first {
        b
    } else {
        Map::<(usize, usize), int>::empty()
    };
    let te2 = zadd(s.trace_edges, tlift(b2, s.time));
    let ml = zadd(
        s.left_pending,
        ztjoin::<usize, usize, usize, NestedTimestamp32, (usize, usize), PairVals>(
            &PairVals,
            s.time,
            am,
            te2,
        ),
    );
    let l_out = tslice(ml, s.time);
    let lp2 = tremove(ml, s.time);
    let mr = zadd(
        s.right_pending,
        ztjoin::<usize, usize, usize, NestedTimestamp32, (usize, usize), PairValsFlipped>(
            &PairValsFlipped,
            s.time,
            b2,
            s.trace_paths,
        ),
    );
    let r_out = tslice(mr, s.time);
    let rp2 = tremove(mr, s.time);
    let tp2 = zadd(s.trace_paths, tlift(am, s.time));
    let joined = zadd(l_out, r_out);
    let cand = zadd(b2, joined);
    let dtr2 = zadd(s.dt_trace, tlift(unit_lift(cand), s.time));
    let paths = dt_out::<(usize, usize)>(
        zdistinct(zadd(zsupport(cand), zsupport(tslice(s.dt_sched, s.time.iter)))),
        canon_of::<((usize, usize), (NoVal, NestedTimestamp32))>(dtr2),
        s.time.epoch,
        s.time.iter,
    );
    let sched2 = zdistinct(
        zadd(
            tremove(s.dt_sched, s.time.iter),
            zdistinct(
                tuples_sum(
                    sched_tuples::<(usize, usize)>(
                        canon_of::<((usize, usize), (NoVal, NestedTimestamp32))>(dtr2),
                        cand,
                        s.time.iter,
                    ),
                ),
            ),
        ),
    );
    let t2 = NestedTimestamp32 { epoch: s.time.epoch, iter: (s.time.iter + 1) as u32 };
    let stable = crate::join_trace::jt_stable::<NestedTimestamp32, (usize, usize)>(
        am == Map::<(usize, usize), int>::empty(),
        l_out == Map::<(usize, usize), int>::empty(),
        lp2,
        t2,
        0,
    ) && crate::join_trace::jt_stable::<NestedTimestamp32, (usize, usize)>(
        b2 == Map::<(usize, usize), int>::empty(),
        r_out == Map::<(usize, usize), int>::empty(),
        rp2,
        t2,
        0,
    ) && ((cand == Map::<(usize, usize), int>::empty()) && (paths == Map::<
        (usize, usize),
        int,
    >::empty()) && (sched2 == Map::<(u32, (usize, usize)), int>::empty())) && (paths == Map::<
        (usize, usize),
        int,
    >::empty());
    ReachabilityModel {
        time: t2,
        trace_paths: tp2,
        trace_edges: te2,
        left_pending: lp2,
        right_pending: rp2,
        dt_trace: dtr2,
        dt_sched: sched2,
        feedback: paths,
        epoch_out: zadd(s.epoch_out, paths),
        integral: zadd(s.integral, paths),
        stable,
    }
}

/// The scope after `n` ticks on one edge delta, which enters at the
/// first tick only.
pub open spec fn reach_run_model(s0: ReachabilityModel, b: Map<(usize, usize), int>, n: nat)
    -> ReachabilityModel
    decreases n,
{
    if n == 0 {
        s0
    } else {
        reach_step_model(reach_run_model(s0, b, (n - 1) as nat), b, n == 1)
    }
}

/// The scope ran the edge delta to its first stable tick, ending in
/// state `m` with the epoch's output `out`.
pub open spec fn reach_run_ok(
    s0: ReachabilityModel,
    b: Map<(usize, usize), int>,
    m: ReachabilityModel,
    out: Map<(usize, usize), int>,
) -> bool {
    exists|n: nat|
        1 <= n && m == reach_run_model(s0, b, n) && m.stable && out == m.epoch_out && (forall|
            k: nat,
        |
            1 <= k < n ==> !(#[trigger] reach_run_model(s0, b, k)).stable)
}

/// The model after the epoch's clock closes.
pub open spec fn reach_closed_model(m: ReachabilityModel) -> ReachabilityModel {
    ReachabilityModel {
        time: NestedTimestamp32 { epoch: (m.time.epoch + 1) as u32, iter: 0 },
        trace_paths: m.trace_paths,
        trace_edges: m.trace_edges,
        left_pending: m.left_pending,
        right_pending: m.right_pending,
        dt_trace: m.dt_trace,
        dt_sched: m.dt_sched,
        feedback: m.feedback,
        epoch_out: m.epoch_out,
        integral: m.integral,
        stable: m.stable,
    }
}

/// A reachability state at rest: nothing fed back, nothing pending,
/// nothing scheduled, traces within the circuit caps, and clock
/// headroom for one tick and one epoch close.
pub open spec fn reach_quiescent(m: ReachabilityModel) -> bool {
    &&& m.feedback == Map::<(usize, usize), int>::empty()
    &&& m.left_pending == Map::<(NestedTimestamp32, (usize, usize)), int>::empty()
    &&& m.right_pending == Map::<(NestedTimestamp32, (usize, usize)), int>::empty()
    &&& m.dt_sched == Map::<(u32, (usize, usize)), int>::empty()
    &&& m.trace_edges.dom().len() <= SIZE_CAP
    &&& m.trace_paths.dom().len() <= SIZE_CAP
    &&& m.dt_trace.dom().len() <= SIZE_CAP
    &&& crate::zset::zbounded(m.trace_edges, WEIGHT_CAP as int)
    &&& crate::zset::zbounded(m.trace_paths, WEIGHT_CAP as int)
    &&& crate::zset::zbounded(m.integral, ACC_CAP as int)
    &&& m.time.iter < u32::MAX - 1
    &&& m.time.epoch < u32::MAX - 1
}

/// On an empty delta, one tick of a quiescent state changes nothing
/// but the clock and reports a fixed point.
pub proof fn lemma_quiescent_tick(s0: ReachabilityModel)
    requires
        reach_quiescent(s0),
        s0.epoch_out == Map::<(usize, usize), int>::empty(),
        crate::zset::zset_wf(s0.trace_edges),
        crate::zset::zset_wf(s0.trace_paths),
        crate::zset::zset_wf(s0.dt_trace),
        crate::zset::zset_wf(s0.integral),
    ensures
        ({
            let m = reach_run_model(s0, Map::<(usize, usize), int>::empty(), 1);
            &&& m.stable
            &&& m.trace_edges == s0.trace_edges
            &&& m.trace_paths == s0.trace_paths
            &&& m.dt_trace == s0.dt_trace
            &&& m.left_pending == s0.left_pending
            &&& m.right_pending == s0.right_pending
            &&& m.dt_sched == s0.dt_sched
            &&& m.feedback == s0.feedback
            &&& m.epoch_out == s0.epoch_out
            &&& m.integral == s0.integral
        }),
{
    let none = Map::<(usize, usize), int>::empty();
    let m = reach_step_model(s0, none, true);
    let am = keys_mapped(&InvertPair, s0.feedback);
    // nothing is fed back, so nothing is joined
    assert(am == none) by {
        let w: Seq<((usize, usize), int)> = Seq::empty();
        assert(pm_wf::<(usize, usize)>(w));
        crate::zset::lemma_canon_of::<(usize, usize)>(w);
        assert(tuples_sum(w) =~= Map::<(usize, usize), int>::empty());
        assert(kmapped(&InvertPair, w) =~= Seq::<((usize, usize), int)>::empty());
        assert(am =~= none);
    }
    assert(tlift(none, s0.time) =~= Map::<(usize, (usize, NestedTimestamp32)), int>::empty());
    crate::zset::lemma_zadd_zero(s0.trace_edges);
    assert(zadd(s0.trace_edges, tlift(none, s0.time)) == s0.trace_edges);
    let jl = ztjoin::<usize, usize, usize, NestedTimestamp32, (usize, usize), PairVals>(
        &PairVals,
        s0.time,
        am,
        s0.trace_edges,
    );
    assert(jl =~= Map::<(NestedTimestamp32, (usize, usize)), int>::empty()) by {
        let w: Seq<((usize, usize), int)> = Seq::empty();
        assert(pm_wf::<(usize, usize)>(w));
        crate::zset::lemma_canon_of::<(usize, usize)>(w);
        assert(tuples_sum(w) =~= Map::<(usize, usize), int>::empty());
        assert(canon_of::<(usize, usize)>(am) == w);
    }
    let jr = ztjoin::<usize, usize, usize, NestedTimestamp32, (usize, usize), PairValsFlipped>(
        &PairValsFlipped,
        s0.time,
        none,
        s0.trace_paths,
    );
    assert(jr =~= Map::<(NestedTimestamp32, (usize, usize)), int>::empty()) by {
        let w: Seq<((usize, usize), int)> = Seq::empty();
        assert(pm_wf::<(usize, usize)>(w));
        crate::zset::lemma_canon_of::<(usize, usize)>(w);
        assert(tuples_sum(w) =~= Map::<(usize, usize), int>::empty());
        assert(canon_of::<(usize, usize)>(none) == w);
    }
    assert(zadd(s0.left_pending, jl) =~= Map::<
        (NestedTimestamp32, (usize, usize)),
        int,
    >::empty());
    assert(zadd(s0.right_pending, jr) =~= Map::<
        (NestedTimestamp32, (usize, usize)),
        int,
    >::empty());
    let nonep = Map::<(NestedTimestamp32, (usize, usize)), int>::empty();
    assert(tslice(nonep, s0.time) =~= none);
    assert(tremove(nonep, s0.time) =~= nonep);
    assert(tlift(keys_mapped(&InvertPair, s0.feedback), s0.time) =~= Map::<
        (usize, (usize, NestedTimestamp32)),
        int,
    >::empty());
    crate::zset::lemma_zadd_zero(s0.trace_paths);
    assert(zadd(s0.trace_paths, tlift(am, s0.time)) == s0.trace_paths);
    assert(zadd(none, none) =~= none);
    assert(unit_lift(none) =~= Map::<((usize, usize), crate::data::NoVal), int>::empty());
    assert(tlift(unit_lift(none), s0.time) =~= Map::<
        ((usize, usize), (NoVal, NestedTimestamp32)),
        int,
    >::empty());
    crate::zset::lemma_zadd_zero(s0.dt_trace);
    assert(zadd(s0.dt_trace, tlift(unit_lift(none), s0.time)) == s0.dt_trace);
    // no candidates, so the reconciliation and the schedule are empty
    assert(zsupport(none) =~= none);
    assert(tslice(s0.dt_sched, s0.time.iter) =~= Map::<(usize, usize), int>::empty());
    assert(zsupport(tslice(s0.dt_sched, s0.time.iter)) =~= none);
    assert(zdistinct(zadd(none, none)) =~= none);
    assert(dt_out::<(usize, usize)>(
        zdistinct(zadd(zsupport(none), zsupport(tslice(s0.dt_sched, s0.time.iter)))),
        canon_of::<((usize, usize), (NoVal, NestedTimestamp32))>(s0.dt_trace),
        s0.time.epoch,
        s0.time.iter,
    ) =~= none);
    assert(tremove(s0.dt_sched, s0.time.iter) =~= Map::<(u32, (usize, usize)), int>::empty());
    assert(zdistinct(
        tuples_sum(
            sched_tuples::<(usize, usize)>(
                canon_of::<((usize, usize), (NoVal, NestedTimestamp32))>(s0.dt_trace),
                none,
                s0.time.iter,
            ),
        ),
    ) =~= Map::<(u32, (usize, usize)), int>::empty()) by {
        lemma_sched_tuples_no_keys(
            canon_of::<((usize, usize), (NoVal, NestedTimestamp32))>(s0.dt_trace),
            none,
            s0.time.iter,
        );
        assert(zdistinct(tuples_sum(Seq::<((u32, (usize, usize)), int)>::empty())) =~= Map::<
            (u32, (usize, usize)),
            int,
        >::empty());
    }
    assert(zdistinct(
        zadd(
            tremove(s0.dt_sched, s0.time.iter),
            Map::<(u32, (usize, usize)), int>::empty(),
        ),
    ) =~= Map::<(u32, (usize, usize)), int>::empty());
    assert(zadd(s0.epoch_out, none) =~= s0.epoch_out);
    crate::zset::lemma_zadd_zero(s0.integral);
    assert(zadd(s0.integral, none) == s0.integral);
    assert(m.stable);
    assert(reach_run_model(s0, none, 0) == s0);
    assert(reach_run_model(s0, none, 1) == m);
}

/// Scheduling collects nothing when the fresh-input set is empty.
proof fn lemma_sched_tuples_no_keys(
    tr: Seq<(((usize, usize), (NoVal, NestedTimestamp32)), int)>,
    dl: Map<(usize, usize), int>,
    i: u32,
)
    requires
        dl == Map::<(usize, usize), int>::empty(),
    ensures
        sched_tuples::<(usize, usize)>(tr, dl, i) == Seq::<((u32, (usize, usize)), int)>::empty(),
    decreases tr.len(),
{
    if tr.len() > 0 {
        lemma_sched_tuples_no_keys(tr.drop_last(), dl, i);
        assert(sched_tuples::<(usize, usize)>(tr, dl, i) =~= Seq::<
            ((u32, (usize, usize)),
            int),
        >::empty());
    }
}

/// The capacity conditions one tick of the reachability scope checks,
/// in the order its guards check them.
pub open spec fn reach_tick_ok(
    s: ReachabilityModel,
    b: Map<(usize, usize), int>,
    first: bool,
) -> bool {
    let am = keys_mapped(&InvertPair, s.feedback);
    let b2 = if first {
        b
    } else {
        Map::<(usize, usize), int>::empty()
    };
    let te2 = zadd(s.trace_edges, tlift(b2, s.time));
    let ml = zadd(
        s.left_pending,
        ztjoin::<usize, usize, usize, NestedTimestamp32, (usize, usize), PairVals>(
            &PairVals,
            s.time,
            am,
            te2,
        ),
    );
    let l_out = tslice(ml, s.time);
    let mr = zadd(
        s.right_pending,
        ztjoin::<usize, usize, usize, NestedTimestamp32, (usize, usize), PairValsFlipped>(
            &PairValsFlipped,
            s.time,
            b2,
            s.trace_paths,
        ),
    );
    let r_out = tslice(mr, s.time);
    let joined = zadd(l_out, r_out);
    let cand = zadd(b2, joined);
    let dtr2 = zadd(s.dt_trace, tlift(unit_lift(cand), s.time));
    let paths = dt_out::<(usize, usize)>(
        zdistinct(zadd(zsupport(cand), zsupport(tslice(s.dt_sched, s.time.iter)))),
        canon_of::<((usize, usize), (NoVal, NestedTimestamp32))>(dtr2),
        s.time.epoch,
        s.time.iter,
    );
    &&& s.time.iter < u32::MAX - 1
    &&& s.feedback.dom().len() <= SIZE_CAP
    &&& crate::zset::zbounded(s.feedback, WEIGHT_CAP as int)
    &&& am.dom().len() <= SIZE_CAP
    &&& crate::zset::zbounded(am, WEIGHT_CAP as int)
    &&& te2.dom().len() <= SIZE_CAP
    &&& crate::zset::zbounded(te2, WEIGHT_CAP as int)
    &&& crate::zset::zbounded(s.left_pending, ACC_CAP as int)
    &&& b2.dom().len() <= SIZE_CAP
    &&& crate::zset::zbounded(b2, WEIGHT_CAP as int)
    &&& s.trace_paths.dom().len() <= SIZE_CAP
    &&& crate::zset::zbounded(s.trace_paths, WEIGHT_CAP as int)
    &&& crate::zset::zbounded(s.right_pending, ACC_CAP as int)
    &&& crate::zset::zbounded(l_out, ACC_CAP as int)
    &&& crate::zset::zbounded(r_out, ACC_CAP as int)
    &&& crate::zset::zbounded(b2, ACC_CAP as int)
    &&& crate::zset::zbounded(joined, ACC_CAP as int)
    &&& s.dt_trace.dom().len() <= SIZE_CAP
    &&& cand.dom().len() <= SIZE_CAP
    &&& crate::zset::zbounded(s.epoch_out, ACC_CAP as int)
    &&& crate::zset::zbounded(paths, ACC_CAP as int)
    &&& crate::zset::zbounded(s.integral, ACC_CAP as int)
}

/// Why a reachability step was refused: some tick before the first
/// stable one hits a cap or the iteration bound, or the run stabilized
/// but the epoch clock has no tick left.
pub open spec fn reach_refused(s0: ReachabilityModel, b: Map<(usize, usize), int>) -> bool {
    ||| exists|n: nat|
        #![trigger reach_run_model(s0, b, n)]
        {
            &&& forall|k: nat| 1 <= k <= n ==> !(#[trigger] reach_run_model(s0, b, k)).stable
            &&& (n >= ITER_CAP || !reach_tick_ok(reach_run_model(s0, b, n), b, n == 0))
        }
    ||| exists|n: nat|
        #![trigger reach_run_model(s0, b, n)]
        {
            &&& 1 <= n
            &&& reach_run_model(s0, b, n).stable
            &&& reach_run_model(s0, b, n).time.epoch >= u32::MAX - 1
        }
}

/// Packages one tick-refusal witness into `reach_refused`.
proof fn lemma_reach_refusal_tick(
    s0: ReachabilityModel,
    b: Map<(usize, usize), int>,
    n: nat,
)
    requires
        forall|k: nat| 1 <= k <= n ==> !(#[trigger] reach_run_model(s0, b, k)).stable,
        n >= ITER_CAP || !reach_tick_ok(reach_run_model(s0, b, n), b, n == 0),
    ensures
        reach_refused(s0, b),
{
    let m = reach_run_model(s0, b, n);
    assert((forall|k: nat| 1 <= k <= n ==> !(#[trigger] reach_run_model(s0, b, k)).stable) && (
    n >= ITER_CAP || !reach_tick_ok(m, b, n == 0)));
}

/// Packages one clock-exhaustion witness into `reach_refused`.
proof fn lemma_reach_refusal_close(
    s0: ReachabilityModel,
    b: Map<(usize, usize), int>,
    n: nat,
)
    requires
        1 <= n,
        reach_run_model(s0, b, n).stable,
        reach_run_model(s0, b, n).time.epoch >= u32::MAX - 1,
    ensures
        reach_refused(s0, b),
{
    let m = reach_run_model(s0, b, n);
    assert(1 <= n && m.stable && m.time.epoch >= u32::MAX - 1);
}

/// The circuit ran one epoch to its first stable tick and closed the
/// clock, leaving `post` in the model's end state with output `out`.
pub open spec fn reach_ran_to(
    s0: ReachabilityModel,
    b: Map<(usize, usize), int>,
    post: ReachabilityCircuit,
    out: Map<(usize, usize), int>,
) -> bool {
    exists|m: ReachabilityModel|
        #[trigger] reach_run_ok(s0, b, m, out) && post.agrees(reach_closed_model(m))
}

/// Pairwise reachability as the transitive closure of an edge
/// relation: a nested circuit that joins the delayed path relation
/// with the edges, keeps the set-image with incremental `distinct`,
/// and feeds the result back.
///
/// As in the propagation core, the trace join is split in two: paths
/// against the edge trace of the current tick, edges against the path
/// trace one tick behind.
pub struct ReachabilityCircuit {
    pub time: NestedTimestamp32,
    pub trace_paths: Spine<usize, usize, NestedTimestamp32>,
    pub trace_edges: Spine<usize, usize, NestedTimestamp32>,
    pub left: JoinTrace<PairVals, NestedTimestamp32, (usize, usize)>,
    pub right: JoinTrace<PairValsFlipped, NestedTimestamp32, (usize, usize)>,
    pub dt: DistinctTrace<(usize, usize)>,
    pub feedback: OrdZSet<(usize, usize)>,
    pub integral: OrdZSet<(usize, usize)>,
}

impl ReachabilityCircuit {
    pub open spec fn wf(&self) -> bool {
        &&& self.trace_paths.wf()
        &&& self.trace_edges.wf()
        &&& self.left.wf()
        &&& self.right.wf()
        &&& self.dt.wf()
        &&& self.feedback.wf()
        &&& self.integral.wf()
        &&& self.left.time == self.time
        &&& self.right.time == self.time
        &&& self.dt.time == self.time
        &&& forall|p: (usize, (usize, NestedTimestamp32))|
            #[trigger] self.trace_paths@.contains_key(p) ==> <NestedTimestamp32 as DBData>::mlt(
                p.1.1,
                self.time,
            )
        &&& forall|p: (usize, (usize, NestedTimestamp32))|
            #[trigger] self.trace_edges@.contains_key(p) ==> <NestedTimestamp32 as DBData>::mlt(
                p.1.1,
                self.time,
            )
    }

    pub fn new() -> (r: Self)
        ensures
            r.wf(),
            r.integral@ == Map::<(usize, usize), int>::empty(),
    {
        ReachabilityCircuit {
            time: NestedTimestamp32 { epoch: 0, iter: 0 },
            trace_paths: Spine::new(),
            trace_edges: Spine::new(),
            left: JoinTrace::new(PairVals),
            right: JoinTrace::new(PairValsFlipped),
            dt: DistinctTrace::new(),
            feedback: OrdZSet::empty(),
            integral: OrdZSet::empty(),
        }
    }

    /// A working copy carrying the same state, so a failed step can
    /// leave the original untouched.
    pub fn working_copy(&self) -> (r: Self)
        requires
            self.wf(),
        ensures
            r.wf(),
            r.epoch_start() == self.epoch_start(),
            r.time == self.time,
            r.trace_paths@ == self.trace_paths@,
            r.trace_edges@ == self.trace_edges@,
            r.left.pending@ == self.left.pending@,
            r.right.pending@ == self.right.pending@,
            r.dt.trace@ == self.dt.trace@,
            r.dt.sched@ == self.dt.sched@,
            r.feedback@ == self.feedback@,
            r.integral@ == self.integral@,
    {
        ReachabilityCircuit {
            time: self.time,
            trace_paths: self.trace_paths.dup(),
            trace_edges: self.trace_edges.dup(),
            left: JoinTrace {
                join_func: PairVals,
                time: self.left.time,
                pending: self.left.pending.dup(),
                empty_input: self.left.empty_input,
                empty_output: self.left.empty_output,
            },
            right: JoinTrace {
                join_func: PairValsFlipped,
                time: self.right.time,
                pending: self.right.pending.dup(),
                empty_input: self.right.empty_input,
                empty_output: self.right.empty_output,
            },
            dt: DistinctTrace {
                trace: self.dt.trace.dup(),
                time: self.dt.time,
                sched: self.dt.sched.dup(),
                empty_input: self.dt.empty_input,
                empty_output: self.dt.empty_output,
            },
            feedback: self.feedback.dup(),
            integral: self.integral.dup(),
        }
    }

    /// The model this state starts an epoch from: the epoch output
    /// reset, everything else carried over.
    pub open spec fn epoch_start(&self) -> ReachabilityModel {
        ReachabilityModel {
            time: self.time,
            trace_paths: self.trace_paths@,
            trace_edges: self.trace_edges@,
            left_pending: self.left.pending@,
            right_pending: self.right.pending@,
            dt_trace: self.dt.trace@,
            dt_sched: self.dt.sched@,
            feedback: self.feedback@,
            epoch_out: Map::empty(),
            integral: self.integral@,
            stable: false,
        }
    }

    /// Whether this state carries exactly the model's persistent part.
    pub open spec fn agrees(&self, m: ReachabilityModel) -> bool {
        &&& self.time == m.time
        &&& self.trace_paths@ == m.trace_paths
        &&& self.trace_edges@ == m.trace_edges
        &&& self.left.pending@ == m.left_pending
        &&& self.right.pending@ == m.right_pending
        &&& self.dt.trace@ == m.dt_trace
        &&& self.dt.sched@ == m.dt_sched
        &&& self.feedback@ == m.feedback
        &&& self.integral@ == m.integral
    }

    /// The reachability relation accumulated so far.
    pub fn reachable(&self) -> (r: OrdZSet<(usize, usize)>)
        requires
            self.wf(),
        ensures
            r.wf(),
            r@ == crate::zset::zdistinct(self.integral@),
    {
        self.integral.distinct()
    }

    /// One outer step: iterate the scope to its fixed point on the new
    /// edge delta and emit the step's path delta, which is also the
    /// change of the kept integral.
    #[verifier::rlimit(60)]
    pub fn step(&mut self, delta_edges: &OrdZSet<(usize, usize)>) -> (r: Option<
        OrdZSet<(usize, usize)>,
    >)
        requires
            old(self).wf(),
            delta_edges.wf(),
        ensures
            r is Some ==> final(self).wf(),
            r is Some ==> r->0.wf(),
            r is Some ==> reach_ran_to(
                old(self).epoch_start(),
                delta_edges@,
                *final(self),
                r->0@,
            ),
            r is Some ==> final(self).integral@ == crate::zset::zadd(
                old(self).integral@,
                r->0@,
            ),
            reach_quiescent(old(self).epoch_start()) && delta_edges@ == Map::<
                (usize, usize),
                int,
            >::empty() ==> r is Some,
            r is None ==> *final(self) == *old(self),
            r is None ==> reach_refused(old(self).epoch_start(), delta_edges@),
    {
        let ghost quiet = reach_quiescent(old(self).epoch_start()) && delta_edges@ == Map::<
            (usize, usize),
            int,
        >::empty();
        // run on a working copy: a refused step leaves the state as it
        // was, as a failed step must
        let mut work = self.working_copy();
        proof {
            if quiet {
                old(self).trace_edges.iz.zs.lemma_view();
                old(self).trace_paths.iz.zs.lemma_view();
                old(self).dt.trace.iz.zs.lemma_view();
                old(self).integral.lemma_view();
                lemma_quiescent_tick(old(self).epoch_start());
            }
        }
        let ghost s0 = old(self).epoch_start();
        let mut epoch_out: OrdZSet<(usize, usize)> = OrdZSet::empty();
        let mut first = true;
        let mut fuel: usize = 0;
        let ghost mut ticks: nat = 0;
        proof {
            crate::zset::lemma_tuples_sum_wf(models(epoch_out.pairs@));
            work.integral.lemma_view();
            crate::zset::lemma_zadd_zero(old(self).integral@);
            assert(epoch_out@ =~= Map::<(usize, usize), int>::empty());
            assert(work.agrees(reach_run_model(s0, delta_edges@, 0)));
        }
        loop
            invariant_except_break
                forall|k: nat|
                    1 <= k <= ticks ==> !(#[trigger] reach_run_model(
                        s0,
                        delta_edges@,
                        k,
                    )).stable,
            invariant
                work.wf(),
                epoch_out.wf(),
                delta_edges.wf(),
                fuel <= ITER_CAP,
                s0 == old(self).epoch_start(),
                quiet == (reach_quiescent(s0) && delta_edges@ == Map::<
                    (usize, usize),
                    int,
                >::empty()),
                ticks == fuel,
                first <==> ticks == 0,
                work.agrees(reach_run_model(s0, delta_edges@, ticks)),
                epoch_out@ == reach_run_model(s0, delta_edges@, ticks).epoch_out,
                work.integral@ == crate::zset::zadd(old(self).integral@, epoch_out@),
            ensures
                work.wf(),
                epoch_out.wf(),
                work.integral@ == crate::zset::zadd(old(self).integral@, epoch_out@),
                exists|m: ReachabilityModel|
                    #[trigger] reach_run_ok(s0, delta_edges@, m, epoch_out@) && work.agrees(m),
            decreases ITER_CAP - fuel,
        {
            let ghost pre = reach_run_model(s0, delta_edges@, ticks);
            proof {
                assert(work.agrees(pre));
                if quiet {
                    // a quiescent scope is stable after one tick, so a
                    // guard can only be met at the very first one
                    crate::zset::lemma_tuples_sum_wf(
                        models(old(self).trace_edges.iz.zs.pairs@),
                    );
                    crate::zset::lemma_tuples_sum_wf(
                        models(old(self).trace_paths.iz.zs.pairs@),
                    );
                    crate::zset::lemma_tuples_sum_wf(models(old(self).dt.trace.iz.zs.pairs@));
                    crate::zset::lemma_tuples_sum_wf(models(old(self).integral.pairs@));
                    lemma_quiescent_tick(s0);
                    assert(ticks == 0);
                    assert(pre == s0);
                    work.feedback.lemma_view();
                    assert(work.feedback.model_seq() =~= Seq::<((usize, usize), int)>::empty());
                    assert(Map::<(usize, usize), int>::empty().dom() =~= Set::<
                        (usize, usize),
                    >::empty());
                    assert(Map::<(NestedTimestamp32, (usize, usize)), int>::empty().dom()
                        =~= Set::<(NestedTimestamp32, (usize, usize))>::empty());
                }
            }
            if fuel >= ITER_CAP {
                proof {
                    if quiet {
                        assert(false);
                    }
                    lemma_reach_refusal_tick(s0, delta_edges@, ticks);
                }
                return None;
            }
            fuel = fuel + 1;
            if work.time.iter >= u32::MAX - 1 {
                proof {
                    if quiet {
                        assert(work.time == s0.time);
                        assert(false);
                    }
                    assert(!reach_tick_ok(pre, delta_edges@, ticks == 0));
                    lemma_reach_refusal_tick(s0, delta_edges@, ticks);
                }
                return None;
            }
            let a_flat = match map_keys_guarded(&work.feedback, &InvertPair) {
                Some(z) => z,
                None => {
                    proof {
                        if quiet {
                            assert(false);
                        }
                        assert(!reach_tick_ok(pre, delta_edges@, ticks == 0));
                        lemma_reach_refusal_tick(s0, delta_edges@, ticks);
                    }
                    return None;
                },
            };
            proof {
                lemma_canon_of::<(usize, usize)>(work.feedback.model_seq());
                assert(a_flat@ == keys_mapped(&InvertPair, pre.feedback));
                if quiet {
                    assert(kmapped(&InvertPair, work.feedback.model_seq()) =~= Seq::<
                        ((usize, usize), int),
                    >::empty());
                    assert(a_flat@ =~= Map::<(usize, usize), int>::empty());
                }
            }
            let b_flat = if first {
                delta_edges.dup()
            } else {
                OrdZSet::empty()
            };
            proof {
                if !first {
                    assert(b_flat@ =~= Map::<(usize, usize), int>::empty());
                }
                if quiet {
                    assert(b_flat@ =~= Map::<(usize, usize), int>::empty());
                }
            }
            let b_flat2 = b_flat.dup();
            let ghost amv = a_flat@;
            let ghost b2v = b_flat@;
            let a_ix = index_zset(a_flat);
            let b_ix = index_zset(b_flat);
            let now = work.time;
            proof {
                assert forall|p: (usize, (usize, NestedTimestamp32))| work.trace_edges@
                    .contains_key(p) implies #[trigger] p.1.1 != now.deep_view() by {}
            }
            work.trace_edges.insert(&b_ix, &now);
            proof {
                if quiet {
                    assert(tlift(b_ix@, now.deep_view()) =~= Map::<
                        (usize, (usize, NestedTimestamp32)),
                        int,
                    >::empty());
                    crate::zset::lemma_zadd_zero(s0.trace_edges);
                    assert(work.trace_edges@ == s0.trace_edges);
                }
            }
            let l_out = match jt_eval_guarded(&mut work.left, &a_ix, &work.trace_edges) {
                Some(z) => z,
                None => {
                    proof {
                        if quiet {
                            assert(a_ix@.dom() =~= Set::<(usize, usize)>::empty());
                            assert(false);
                        }
                        assert(!reach_tick_ok(pre, delta_edges@, ticks == 0));
                        lemma_reach_refusal_tick(s0, delta_edges@, ticks);
                    }
                    return None;
                },
            };
            let r_out = match jt_eval_guarded(&mut work.right, &b_ix, &work.trace_paths) {
                Some(z) => z,
                None => {
                    proof {
                        if quiet {
                            assert(b_ix@.dom() =~= Set::<(usize, usize)>::empty());
                            assert(false);
                        }
                        assert(!reach_tick_ok(pre, delta_edges@, ticks == 0));
                        lemma_reach_refusal_tick(s0, delta_edges@, ticks);
                    }
                    return None;
                },
            };
            proof {
                // name the two merge results for the cap conditions
                assert(work.left.join_func == PairVals);
                assert(work.right.join_func == PairValsFlipped);
                assert(l_out@ == tslice(
                    zadd(
                        pre.left_pending,
                        ztjoin::<
                            usize,
                            usize,
                            usize,
                            NestedTimestamp32,
                            (usize, usize),
                            PairVals,
                        >(&PairVals, pre.time, a_ix@, work.trace_edges@),
                    ),
                    pre.time,
                ));
                assert(r_out@ == tslice(
                    zadd(
                        pre.right_pending,
                        ztjoin::<
                            usize,
                            usize,
                            usize,
                            NestedTimestamp32,
                            (usize, usize),
                            PairValsFlipped,
                        >(&PairValsFlipped, pre.time, b_ix@, pre.trace_paths),
                    ),
                    pre.time,
                ));
            }
            proof {
                if quiet {
                    // with nothing to join, both halves stay empty
                    let w: Seq<((usize, usize), int)> = Seq::empty();
                    assert(pm_wf::<(usize, usize)>(w));
                    crate::zset::lemma_canon_of::<(usize, usize)>(w);
                    assert(tuples_sum(w) =~= Map::<(usize, usize), int>::empty());
                    assert(canon_of::<(usize, usize)>(a_ix@) == w);
                    assert(canon_of::<(usize, usize)>(b_ix@) == w);
                    assert(ztjoin::<
                        usize,
                        usize,
                        usize,
                        NestedTimestamp32,
                        (usize, usize),
                        PairVals,
                    >(&work.left.join_func, now.deep_view(), a_ix@, work.trace_edges@) =~= Map::<
                        (NestedTimestamp32, (usize, usize)),
                        int,
                    >::empty());
                    assert(ztjoin::<
                        usize,
                        usize,
                        usize,
                        NestedTimestamp32,
                        (usize, usize),
                        PairValsFlipped,
                    >(&work.right.join_func, now.deep_view(), b_ix@, s0.trace_paths) =~= Map::<
                        (NestedTimestamp32, (usize, usize)),
                        int,
                    >::empty());
                    let nonep = Map::<(NestedTimestamp32, (usize, usize)), int>::empty();
                    assert(zadd(s0.left_pending, nonep) =~= nonep);
                    assert(zadd(s0.right_pending, nonep) =~= nonep);
                    assert(tslice(nonep, now.deep_view()) =~= Map::<(usize, usize), int>::empty());
                    assert(l_out@ =~= Map::<(usize, usize), int>::empty());
                    assert(r_out@ =~= Map::<(usize, usize), int>::empty());
                }
            }
            proof {
                assert forall|p: (usize, (usize, NestedTimestamp32))| work.trace_paths@
                    .contains_key(p) implies #[trigger] p.1.1 != now.deep_view() by {}
            }
            work.trace_paths.insert(&a_ix, &now);
            let joined = match plus_guarded(&l_out, &r_out) {
                Some(z) => z,
                None => {
                    proof {
                        if quiet {
                            assert(false);
                        }
                        assert(!reach_tick_ok(pre, delta_edges@, ticks == 0));
                        lemma_reach_refusal_tick(s0, delta_edges@, ticks);
                    }
                    return None;
                },
            };
            let cand = match plus_guarded(&b_flat2, &joined) {
                Some(z) => z,
                None => {
                    proof {
                        if quiet {
                            assert(joined@ =~= Map::<(usize, usize), int>::empty());
                            assert(b_flat2@ =~= Map::<(usize, usize), int>::empty());
                            assert(false);
                        }
                        assert(!reach_tick_ok(pre, delta_edges@, ticks == 0));
                        lemma_reach_refusal_tick(s0, delta_edges@, ticks);
                    }
                    return None;
                },
            };
            proof {
                if quiet {
                    assert(cand@ =~= Map::<(usize, usize), int>::empty());
                    work.dt.trace.iz.zs.lemma_view();
                    cand.lemma_view();
                }
            }
            if work.dt.trace.iz.zs.entries().len() > SIZE_CAP || cand.entries().len()
                > SIZE_CAP {
                proof {
                    if quiet {
                        assert(work.dt.trace@ == s0.dt_trace);
                        assert(false);
                    }
                    work.dt.trace.iz.zs.lemma_view();
                    cand.lemma_view();
                    assert(!reach_tick_ok(pre, delta_edges@, ticks == 0));
                    lemma_reach_refusal_tick(s0, delta_edges@, ticks);
                }
                return None;
            }
            let paths = work.dt.eval(&cand);
            proof {
                if quiet {
                    // an empty candidate set reconciles nothing
                    assert(zsupport(cand@) =~= Map::<(usize, usize), int>::empty());
                    assert(tslice(s0.dt_sched, s0.time.iter) =~= Map::<
                        (usize, usize),
                        int,
                    >::empty());
                    assert(zsupport(tslice(s0.dt_sched, s0.time.iter)) =~= Map::<
                        (usize, usize),
                        int,
                    >::empty());
                    assert(zdistinct(
                        zadd(zsupport(cand@), zsupport(tslice(s0.dt_sched, s0.time.iter))),
                    ) =~= Map::<(usize, usize), int>::empty());
                    assert(paths@ =~= Map::<(usize, usize), int>::empty());
                }
            }
            proof {
                lemma_canon_of::<((usize, usize), (NoVal, NestedTimestamp32))>(
                    work.dt.trace.model_seq(),
                );
            }
            let eo2 = match plus_guarded(&epoch_out, &paths) {
                Some(z) => z,
                None => {
                    proof {
                        if quiet {
                            assert(epoch_out@ =~= Map::<(usize, usize), int>::empty());
                            assert(false);
                        }
                        assert(!reach_tick_ok(pre, delta_edges@, ticks == 0));
                        lemma_reach_refusal_tick(s0, delta_edges@, ticks);
                    }
                    return None;
                },
            };
            let ghost old_integral = work.integral@;
            let ghost old_epoch_out = epoch_out@;
            let integral2 = match plus_guarded(&work.integral, &paths) {
                Some(z) => z,
                None => {
                    proof {
                        if quiet {
                            assert(work.integral@ == s0.integral);
                            assert(false);
                        }
                        assert(!reach_tick_ok(pre, delta_edges@, ticks == 0));
                        lemma_reach_refusal_tick(s0, delta_edges@, ticks);
                    }
                    return None;
                },
            };
            proof {
                epoch_out.lemma_view();
                paths.lemma_view();
                work.integral.lemma_view();
                crate::zset::lemma_tuples_sum_wf(models(old(self).integral.pairs@));
                crate::zset::lemma_zadd_assoc(old(self).integral@, old_epoch_out, paths@);
            }
            epoch_out = eo2;
            work.integral = integral2;
            let l_fp = work.left.fixedpoint(0);
            let r_fp = work.right.fixedpoint(0);
            let d_fp = work.dt.fixedpoint();
            let p_empty = paths.is_empty();
            let stable = l_fp && r_fp && d_fp && p_empty;
            work.feedback = paths;
            let t2 = work.time.advance(0);
            work.time = t2;
            proof {
                ticks = ticks + 1;
                let post = reach_run_model(s0, delta_edges@, ticks);
                assert(post == reach_step_model(pre, delta_edges@, ticks == 1));
                assert(work.left.join_func == PairVals);
                assert(work.right.join_func == PairValsFlipped);
                let ml = zadd(
                    pre.left_pending,
                    ztjoin::<usize, usize, usize, NestedTimestamp32, (usize, usize), PairVals>(
                        &PairVals,
                        pre.time,
                        amv,
                        zadd(pre.trace_edges, tlift(b2v, pre.time)),
                    ),
                );
                let mr = zadd(
                    pre.right_pending,
                    ztjoin::<
                        usize,
                        usize,
                        usize,
                        NestedTimestamp32,
                        (usize, usize),
                        PairValsFlipped,
                    >(&PairValsFlipped, pre.time, b2v, pre.trace_paths),
                );
                assert(work.left.pending@ == tremove(ml, pre.time));
                assert(work.right.pending@ == tremove(mr, pre.time));
                assert(l_out@ == tslice(ml, pre.time));
                assert(r_out@ == tslice(mr, pre.time));
                assert(work.agrees(post));
                assert(epoch_out@ == post.epoch_out);
                let t2m = NestedTimestamp32 { epoch: pre.time.epoch, iter: (pre.time.iter
                    + 1) as u32 };
                assert(l_fp == crate::join_trace::jt_stable::<
                    NestedTimestamp32,
                    (usize, usize),
                >(
                    amv == Map::<(usize, usize), int>::empty(),
                    l_out@ == Map::<(usize, usize), int>::empty(),
                    tremove(ml, pre.time),
                    t2m,
                    0,
                ));
                assert(r_fp == crate::join_trace::jt_stable::<
                    NestedTimestamp32,
                    (usize, usize),
                >(
                    b2v == Map::<(usize, usize), int>::empty(),
                    r_out@ == Map::<(usize, usize), int>::empty(),
                    tremove(mr, pre.time),
                    t2m,
                    0,
                ));
                assert(p_empty == (work.feedback@ == Map::<(usize, usize), int>::empty()));
                assert(stable == post.stable);
            }
            first = false;
            if stable {
                proof {
                    let m = reach_run_model(s0, delta_edges@, ticks);
                    assert(reach_run_ok(s0, delta_edges@, m, epoch_out@));
                }
                break ;
            }
        }
        let ghost m = choose|m: ReachabilityModel|
            #[trigger] reach_run_ok(s0, delta_edges@, m, epoch_out@) && work.agrees(m);
        let ghost nstable = choose|n: nat|
            1 <= n && m == reach_run_model(s0, delta_edges@, n) && m.stable && epoch_out@
                == m.epoch_out && (forall|k: nat|
                1 <= k < n ==> !(#[trigger] reach_run_model(s0, delta_edges@, k)).stable);
        // close the scope's clock: next step is a new epoch
        if work.time.epoch >= u32::MAX - 1 {
            proof {
                if quiet {
                    lemma_quiescent_tick(s0);
                    assert(nstable == 1);
                    assert(m.time.epoch == s0.time.epoch);
                    assert(false);
                }
                assert(m.time == work.time);
                lemma_reach_refusal_close(s0, delta_edges@, nstable);
            }
            return None;
        }
        work.left.clock_end(0);
        work.right.clock_end(0);
        work.dt.clock_end();
        let t3 = work.time.advance(1);
        work.time = t3;
        proof {
            assert(work.agrees(reach_closed_model(m)));
            assert(reach_ran_to(s0, delta_edges@, work, epoch_out@));
        }
        *self = work;
        Some(epoch_out)
    }
}

} // verus!
