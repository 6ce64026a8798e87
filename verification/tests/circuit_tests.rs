use dbsp::circuits::{PropagateCircuit, PropagateNestedCircuit, ReachabilityCircuit};
use dbsp::funcs::{Edge, Label, PairVals, PairValsFlipped};
use dbsp::indexed::index_zset;
use dbsp::join::Join;
use dbsp::join_trace::JoinTrace;
use dbsp::time::NestedTimestamp32;
use dbsp::trace::Spine;
use dbsp::zset::OrdZSet;

fn pz(tuples: Vec<((usize, usize), i64)>) -> OrdZSet<(usize, usize)> {
    OrdZSet::from_tuples(tuples)
}

fn lz(tuples: Vec<(Label, i64)>) -> OrdZSet<Label> {
    OrdZSet::from_tuples(tuples)
}

fn ez(tuples: Vec<(Edge, i64)>) -> OrdZSet<Edge> {
    OrdZSet::from_tuples(tuples)
}

// Compute pairwise reachability as the transitive closure of the edge
// relation.
#[test]
fn join_trace_test() {
    let edges: Vec<OrdZSet<(usize, usize)>> = vec![
        pz(vec![((1, 2), 1)]),
        pz(vec![((2, 3), 1)]),
        pz(vec![((1, 3), 1)]),
        pz(vec![((3, 1), 1)]),
        pz(vec![((3, 1), -1)]),
        pz(vec![((1, 2), -1)]),
        pz(vec![((2, 4), 1), ((4, 1), 1)]),
        pz(vec![((2, 3), -1), ((3, 2), 1)]),
    ];
    let outputs: Vec<OrdZSet<(usize, usize)>> = vec![
        pz(vec![((1, 2), 1)]),
        pz(vec![((1, 2), 1), ((2, 3), 1), ((1, 3), 1)]),
        pz(vec![((1, 2), 1), ((2, 3), 1), ((1, 3), 1)]),
        pz(vec![
            ((1, 1), 1),
            ((2, 2), 1),
            ((3, 3), 1),
            ((1, 2), 1),
            ((1, 3), 1),
            ((2, 3), 1),
            ((2, 1), 1),
            ((3, 1), 1),
            ((3, 2), 1),
        ]),
        pz(vec![((1, 2), 1), ((2, 3), 1), ((1, 3), 1)]),
        pz(vec![((2, 3), 1), ((1, 3), 1)]),
        pz(vec![
            ((1, 3), 1),
            ((2, 3), 1),
            ((2, 4), 1),
            ((2, 1), 1),
            ((4, 1), 1),
            ((4, 3), 1),
        ]),
        pz(vec![
            ((1, 1), 1),
            ((2, 2), 1),
            ((3, 3), 1),
            ((4, 4), 1),
            ((1, 2), 1),
            ((1, 3), 1),
            ((1, 4), 1),
            ((2, 1), 1),
            ((2, 3), 1),
            ((2, 4), 1),
            ((3, 1), 1),
            ((3, 2), 1),
            ((3, 4), 1),
            ((4, 1), 1),
            ((4, 2), 1),
            ((4, 3), 1),
        ]),
    ];
    let mut circuit = ReachabilityCircuit::new();
    for step in 0..8 {
        let delta = &edges[step];
        let out = circuit.step(delta);
        assert!(out.is_some());
        let reach = circuit.reachable();
        assert_eq!(reach.entries(), outputs[step].entries());
    }
}

// Recursively propagate node labels in an acyclic graph.
#[test]
fn propagate_test() {
    let edges: Vec<OrdZSet<Edge>> = vec![
        ez(vec![(Edge(1, 2), 1), (Edge(1, 3), 1), (Edge(2, 4), 1), (Edge(3, 4), 1)]),
        ez(vec![(Edge(5, 7), 1), (Edge(6, 7), 1)]),
        ez(vec![(Edge(4, 5), 1), (Edge(4, 6), 1)]),
        ez(vec![(Edge(3, 8), 1), (Edge(8, 9), 1)]),
        ez(vec![(Edge(2, 4), -1), (Edge(7, 10), 1)]),
        ez(vec![(Edge(3, 4), -1)]),
        ez(vec![(Edge(1, 4), 1)]),
        ez(vec![(Edge(9, 7), 1)]),
    ];
    let labels: Vec<OrdZSet<Label>> = vec![
        lz(vec![(Label(1, 0), 1)]),
        lz(vec![(Label(4, 1), 1)]),
        lz(vec![]),
        lz(vec![(Label(1, 0), -1), (Label(1, 2), 1)]),
        lz(vec![]),
        lz(vec![(Label(8, 3), 1)]),
        lz(vec![(Label(4, 1), -1)]),
        lz(vec![]),
    ];
    let outputs: Vec<OrdZSet<Label>> = vec![
        lz(vec![(Label(1, 0), 1), (Label(2, 0), 1), (Label(3, 0), 1), (Label(4, 0), 2)]),
        lz(vec![(Label(4, 1), 1)]),
        lz(vec![
            (Label(5, 0), 2),
            (Label(5, 1), 1),
            (Label(6, 0), 2),
            (Label(6, 1), 1),
            (Label(7, 0), 4),
            (Label(7, 1), 2),
        ]),
        lz(vec![
            (Label(1, 0), -1),
            (Label(1, 2), 1),
            (Label(2, 0), -1),
            (Label(2, 2), 1),
            (Label(3, 0), -1),
            (Label(3, 2), 1),
            (Label(4, 0), -2),
            (Label(4, 2), 2),
            (Label(5, 0), -2),
            (Label(5, 2), 2),
            (Label(6, 0), -2),
            (Label(6, 2), 2),
            (Label(7, 0), -4),
            (Label(7, 2), 4),
            (Label(8, 2), 1),
            (Label(9, 2), 1),
        ]),
        lz(vec![
            (Label(4, 2), -1),
            (Label(5, 2), -1),
            (Label(6, 2), -1),
            (Label(7, 2), -2),
            (Label(10, 1), 2),
            (Label(10, 2), 2),
        ]),
        lz(vec![
            (Label(4, 2), -1),
            (Label(5, 2), -1),
            (Label(6, 2), -1),
            (Label(7, 2), -2),
            (Label(8, 3), 1),
            (Label(9, 3), 1),
            (Label(10, 2), -2),
        ]),
        lz(vec![
            (Label(4, 1), -1),
            (Label(4, 2), 1),
            (Label(5, 1), -1),
            (Label(5, 2), 1),
            (Label(6, 1), -1),
            (Label(6, 2), 1),
            (Label(7, 1), -2),
            (Label(7, 2), 2),
            (Label(10, 1), -2),
            (Label(10, 2), 2),
        ]),
        lz(vec![
            (Label(7, 2), 1),
            (Label(7, 3), 1),
            (Label(10, 2), 1),
            (Label(10, 3), 1),
        ]),
    ];
    let mut circuit = PropagateCircuit::new();
    for step in 0..8 {
        let out = circuit.step(&edges[step], &labels[step]);
        assert!(out.is_some());
        let got = out.unwrap();
        assert_eq!(got.entries(), outputs[step].entries());
    }
}

#[test]
fn propagate_nested_test() {
    let edges: Vec<OrdZSet<Edge>> = vec![
        ez(vec![(Edge(1, 2), 1), (Edge(1, 3), 1), (Edge(2, 4), 1), (Edge(3, 4), 1)]),
        ez(vec![(Edge(5, 7), 1), (Edge(6, 7), 1)]),
        ez(vec![(Edge(4, 5), 1), (Edge(4, 6), 1)]),
        ez(vec![(Edge(3, 8), 1), (Edge(8, 9), 1)]),
        ez(vec![(Edge(2, 4), -1), (Edge(7, 10), 1)]),
        ez(vec![(Edge(3, 4), -1)]),
        ez(vec![(Edge(1, 4), 1)]),
        ez(vec![(Edge(9, 7), 1)]),
    ];
    let labels: Vec<OrdZSet<Label>> = vec![
        lz(vec![(Label(1, 0), 1)]),
        lz(vec![(Label(4, 1), 1)]),
        lz(vec![]),
        lz(vec![(Label(1, 0), -1), (Label(1, 2), 1)]),
        lz(vec![]),
        lz(vec![(Label(8, 3), 1)]),
        lz(vec![(Label(4, 1), -1)]),
        lz(vec![]),
    ];
    let outputs: Vec<OrdZSet<Label>> = vec![
        lz(vec![(Label(1, 0), 2), (Label(2, 0), 3), (Label(3, 0), 3), (Label(4, 0), 8)]),
        lz(vec![(Label(4, 1), 2)]),
        lz(vec![
            (Label(5, 0), 10),
            (Label(5, 1), 3),
            (Label(6, 0), 10),
            (Label(6, 1), 3),
            (Label(7, 0), 24),
            (Label(7, 1), 8),
        ]),
        lz(vec![
            (Label(1, 0), -2),
            (Label(1, 2), 2),
            (Label(2, 0), -3),
            (Label(2, 2), 3),
            (Label(3, 0), -3),
            (Label(3, 2), 3),
            (Label(4, 0), -8),
            (Label(4, 2), 8),
            (Label(5, 0), -10),
            (Label(5, 2), 10),
            (Label(6, 0), -10),
            (Label(6, 2), 10),
            (Label(7, 0), -24),
            (Label(7, 2), 24),
            (Label(8, 2), 4),
            (Label(9, 2), 5),
        ]),
        lz(vec![
            (Label(4, 2), -4),
            (Label(5, 2), -5),
            (Label(6, 2), -5),
            (Label(7, 2), -12),
            (Label(10, 1), 10),
            (Label(10, 2), 14),
        ]),
        lz(vec![
            (Label(4, 2), -4),
            (Label(5, 2), -5),
            (Label(6, 2), -5),
            (Label(7, 2), -12),
            (Label(8, 3), 2),
            (Label(9, 3), 3),
            (Label(10, 2), -14),
        ]),
        lz(vec![
            (Label(4, 1), -2),
            (Label(4, 2), 3),
            (Label(5, 1), -3),
            (Label(5, 2), 4),
            (Label(6, 1), -3),
            (Label(6, 2), 4),
            (Label(7, 1), -8),
            (Label(7, 2), 10),
            (Label(10, 1), -10),
            (Label(10, 2), 12),
        ]),
        lz(vec![
            (Label(7, 2), 6),
            (Label(7, 3), 4),
            (Label(10, 2), 7),
            (Label(10, 3), 5),
        ]),
    ];
    let mut circuit = PropagateNestedCircuit::new();
    for step in 0..8 {
        let out = circuit.step(&edges[step], &labels[step]);
        assert!(out.is_some());
        let got = out.unwrap();
        assert_eq!(got.entries(), outputs[step].entries());
    }
}

#[test]
fn circuit_refuses_oversized_weights() {
    // weights past the circuit's cap trip a capacity guard: the step
    // fails and delivers nothing
    let mut circuit = ReachabilityCircuit::new();
    let delta = pz(vec![((1, 2), 100000)]);
    assert!(circuit.step(&delta).is_none());
}

#[test]
fn join_trace_diagnostics() {
    let jt: JoinTrace<PairVals, NestedTimestamp32, (usize, usize)> = JoinTrace::new(PairVals);
    assert_eq!(jt.name(), "JoinTrace");
    assert_eq!(jt.summary().as_str(), "pending tuples: 0");
    assert!(!jt.fixedpoint(0));
    let mut flat = Join::new(PairVals);
    assert_eq!(flat.name(), "Join");
    assert!(flat.fixedpoint(0));
}

#[test]
fn delay_trace_join_lags_one_step() {
    // delay_trace(A).join(A): empty at the first step, A1 x A2 at the
    // second, whatever A2 holds
    let a1 = pz(vec![((1, 10), 1), ((2, 20), 2)]);
    let a2 = pz(vec![((1, 30), 3)]);
    let a1_ix = index_zset(a1.dup());
    let a2_ix = index_zset(a2.dup());
    let mut jt: JoinTrace<PairValsFlipped, NestedTimestamp32, (usize, usize)> =
        JoinTrace::new(PairValsFlipped);
    let mut trace: Spine<usize, usize, NestedTimestamp32> = Spine::new();
    // step 1: the delayed trace is empty
    let t0 = NestedTimestamp32 { epoch: 0, iter: 0 };
    let out1 = jt.eval(&a1_ix, &trace);
    assert!(out1.is_empty());
    trace.insert(&a1_ix, &t0);
    // step 2: the delayed trace now holds the first step
    let out2 = jt.eval(&a2_ix, &trace);
    let mut flat = Join::new(PairVals);
    let expected = flat.eval(&a1_ix, &a2_ix);
    assert_eq!(out2.entries(), expected.entries());
    assert_eq!(out2.entries(), &vec![((10usize, 30usize), 3i64)]);
}
