use dbsp::funcs::{ConcatVals, MinOf, PairVals, PairValsFlipped};
use dbsp::indexed::index_zset;
use dbsp::join::Join;
use dbsp::map2::Map2;
use dbsp::stream::Stream;
use dbsp::zset::OrdZSet;

fn zp(k: usize, v: &str, w: i64) -> ((usize, String), i64) {
    ((k, v.to_string()), w)
}

fn zs(tuples: Vec<((usize, String), i64)>) -> OrdZSet<(usize, String)> {
    OrdZSet::from_tuples(tuples)
}

fn zn(tuples: Vec<(usize, i64)>) -> OrdZSet<usize> {
    OrdZSet::from_tuples(tuples)
}

#[test]
fn plus_monoid_laws() {
    let a = zn(vec![(1, 2), (2, -1), (5, 7)]);
    let b = zn(vec![(2, 1), (3, 4)]);
    let c = zn(vec![(1, -2), (3, 1)]);
    let zero = zn(vec![]);
    // neutral element
    assert_eq!(a.plus(&zero).entries(), a.entries());
    // commutativity
    assert_eq!(a.plus(&b).entries(), b.plus(&a).entries());
    // associativity
    assert_eq!(
        a.plus(&b.plus(&c)).entries(),
        a.plus(&b).plus(&c).entries()
    );
    // negative weights cancel positive ones exactly
    let cancelled = a.plus(&c);
    assert_eq!(cancelled.entries(), &vec![(2usize, -1i64), (3, 1), (5, 7)]);
}

#[test]
fn minus_and_neg() {
    let a = zn(vec![(1, 3), (2, 2)]);
    let b = zn(vec![(1, 3), (4, -1)]);
    let d = a.minus(&b);
    assert_eq!(d.entries(), &vec![(2usize, 2i64), (4, 1)]);
    let n = b.neg();
    assert_eq!(n.entries(), &vec![(1usize, -3i64), (4, 1)]);
}

#[test]
fn distinct_idempotent() {
    let a = zn(vec![(1, 5), (2, -3), (7, 1)]);
    let once = a.distinct();
    let twice = once.distinct();
    assert_eq!(once.entries(), twice.entries());
    assert_eq!(once.entries(), &vec![(1usize, 1i64), (7, 1)]);
}

#[test]
fn distinct_collapses_weights() {
    // {a -> 3, b -> -1, c -> 0} becomes {a -> 1}
    let a = OrdZSet::from_tuples(vec![
        ("a".to_string(), 3i64),
        ("b".to_string(), -1),
        ("c".to_string(), 0),
    ]);
    assert_eq!(a.entries().len(), 2); // c was dropped at build time
    let d = a.distinct();
    assert_eq!(d.entries(), &vec![("a".to_string(), 1i64)]);
}

#[test]
fn from_tuples_concat_is_plus() {
    let xs = vec![(3usize, 2i64), (1, 1), (3, -1)];
    let ys = vec![(1usize, 4i64), (2, -2), (3, -1)];
    let mut both = xs.clone();
    both.extend(ys.clone());
    let built = zn(both);
    let summed = zn(xs).plus(&zn(ys));
    assert_eq!(built.entries(), summed.entries());
}

#[test]
fn from_tuples_coalesces() {
    let z = zn(vec![(2, 1), (1, 1), (2, 2), (1, -1)]);
    assert_eq!(z.entries(), &vec![(2usize, 3i64)]);
    assert!(!z.is_empty());
    assert_eq!(z.len(), 1);
    assert_eq!(z.weighted_count(), 3);
}

#[test]
fn weighted_count_sums_signed() {
    let z = zn(vec![(1, 5), (2, -2), (3, 4)]);
    assert_eq!(z.weighted_count(), 7);
    assert_eq!(zn(vec![]).weighted_count(), 0);
}

#[test]
fn cursor_walks_keys_in_order() {
    let z = zn(vec![(5, 1), (1, 2), (3, -4)]);
    let mut c = z.cursor();
    let mut seen: Vec<(usize, i64)> = Vec::new();
    while c.key_valid() {
        seen.push((*c.key(), c.weight()));
        c.step_key();
    }
    assert_eq!(seen, vec![(1, 2), (3, -4), (5, 1)]);
}

#[test]
fn flat_join_scenario() {
    // A = {(1,a)->1, (1,b)->2, (2,c)->3, (2,d)->4}, B = {(2,g)->3, (2,h)->4}
    let a = index_zset(zs(vec![
        zp(1, "a", 1),
        zp(1, "b", 2),
        zp(2, "c", 3),
        zp(2, "d", 4),
    ]));
    let b = index_zset(zs(vec![zp(2, "g", 3), zp(2, "h", 4)]));
    let mut op = Join::new(ConcatVals);
    let out = op.eval(&a, &b);
    let expected = zs(vec![
        zp(2, "c g", 9),
        zp(2, "c h", 12),
        zp(2, "d g", 12),
        zp(2, "d h", 16),
    ]);
    assert_eq!(out.entries(), expected.entries());
}

#[test]
fn join_one_sided_key_contributes_nothing() {
    let a = index_zset(zs(vec![zp(1, "a", 1)]));
    let b = index_zset(zs(vec![zp(2, "g", 3)]));
    let mut op = Join::new(ConcatVals);
    let out = op.eval(&a, &b);
    assert!(out.is_empty());
}

#[test]
fn join_empty_inputs_yield_empty() {
    let a = index_zset(zs(vec![]));
    let b = index_zset(zs(vec![zp(2, "g", 3)]));
    let mut op = Join::new(ConcatVals);
    assert!(op.eval(&a, &b).is_empty());
    let c = index_zset(zs(vec![]));
    assert!(op.eval(&a, &c).is_empty());
}

#[test]
fn join_symmetry_with_flipped_function() {
    let a = index_zset(OrdZSet::from_tuples(vec![
        ((1usize, 10usize), 2i64),
        ((1, 11), 1),
        ((2, 20), -1),
    ]));
    let b = index_zset(OrdZSet::from_tuples(vec![
        ((1usize, 7usize), 3i64),
        ((2, 8), 5),
    ]));
    let mut fwd = Join::new(PairVals);
    let mut flip = Join::new(PairValsFlipped);
    let left = fwd.eval(&a, &b);
    let right = flip.eval(&b, &a);
    assert_eq!(left.entries(), right.entries());
}

#[test]
fn join_does_not_invent_keys() {
    let a = index_zset(OrdZSet::from_tuples(vec![
        ((1usize, 10usize), 1i64),
        ((1, 11), 1),
        ((2, 20), 1),
    ]));
    let b = index_zset(OrdZSet::from_tuples(vec![
        ((1usize, 7usize), 1i64),
        ((1, 8), 1),
    ]));
    let mut op = Join::new(PairVals);
    let out = op.eval(&a, &b);
    assert!(out.len() <= a.len() * b.len());
}

#[test]
fn join_test() {
    let input1: Vec<OrdZSet<(usize, String)>> = vec![
        zs(vec![
            zp(1, "a", 1),
            zp(1, "b", 2),
            zp(2, "c", 3),
            zp(2, "d", 4),
            zp(3, "e", 5),
            zp(3, "f", -2),
        ]),
        zs(vec![zp(1, "a", 1)]),
        zs(vec![zp(1, "a", 1)]),
        zs(vec![zp(4, "n", 2)]),
        zs(vec![zp(1, "a", 0)]),
    ];
    let input2: Vec<OrdZSet<(usize, String)>> = vec![
        zs(vec![
            zp(2, "g", 3),
            zp(2, "h", 4),
            zp(3, "i", 5),
            zp(3, "j", -2),
            zp(4, "k", 5),
            zp(4, "l", -2),
        ]),
        zs(vec![zp(1, "b", 1)]),
        zs(vec![zp(4, "m", 1)]),
        zs(vec![]),
        zs(vec![]),
    ];
    let outputs: Vec<OrdZSet<(usize, String)>> = vec![
        zs(vec![
            zp(2, "c g", 9),
            zp(2, "c h", 12),
            zp(2, "d g", 12),
            zp(2, "d h", 16),
            zp(3, "e i", 25),
            zp(3, "e j", -10),
            zp(3, "f i", -10),
            zp(3, "f j", 4),
        ]),
        zs(vec![zp(1, "a b", 1)]),
        zs(vec![]),
        zs(vec![]),
        zs(vec![]),
    ];
    let inc_outputs: Vec<OrdZSet<(usize, String)>> = vec![
        zs(vec![
            zp(2, "c g", 9),
            zp(2, "c h", 12),
            zp(2, "d g", 12),
            zp(2, "d h", 16),
            zp(3, "e i", 25),
            zp(3, "e j", -10),
            zp(3, "f i", -10),
            zp(3, "f j", 4),
        ]),
        zs(vec![zp(1, "a b", 2), zp(1, "b b", 2)]),
        zs(vec![zp(1, "a b", 1)]),
        zs(vec![zp(4, "n k", 10), zp(4, "n l", -4), zp(4, "n m", 2)]),
        zs(vec![]),
    ];
    let s1 = Stream {
        steps: input1.into_iter().map(index_zset).collect(),
    };
    let s2 = Stream {
        steps: input2.into_iter().map(index_zset).collect(),
    };
    let flat = s1.join(&s2, &ConcatVals);
    assert_eq!(flat.steps.len(), 5);
    for i in 0..5 {
        assert_eq!(flat.steps[i].entries(), outputs[i].entries());
    }
    let inc = s1.join_incremental(&s2, &ConcatVals);
    assert_eq!(inc.steps.len(), 5);
    for i in 0..5 {
        assert_eq!(inc.steps[i].entries(), inc_outputs[i].entries());
    }
}

#[test]
fn incremental_join_two_steps() {
    // step 1 as in the flat scenario; step 2 adds one tuple per side
    let a1 = zs(vec![zp(1, "a", 1), zp(1, "b", 2), zp(2, "c", 3), zp(2, "d", 4)]);
    let a2 = zs(vec![zp(1, "a", 1)]);
    let b1 = zs(vec![zp(2, "g", 3), zp(2, "h", 4)]);
    let b2 = zs(vec![zp(1, "b", 1)]);
    let s1 = Stream {
        steps: vec![index_zset(a1), index_zset(a2)],
    };
    let s2 = Stream {
        steps: vec![index_zset(b1), index_zset(b2)],
    };
    let inc = s1.join_incremental(&s2, &ConcatVals);
    let expected2 = zs(vec![zp(1, "a b", 2), zp(1, "b b", 2)]);
    assert_eq!(inc.steps[1].entries(), expected2.entries());
}

#[test]
fn stream_plus_and_integrate() {
    let s = Stream {
        steps: vec![zn(vec![(1, 1)]), zn(vec![(1, 2), (2, 1)])],
    };
    let t = Stream {
        steps: vec![zn(vec![(1, -1)]), zn(vec![(3, 5)])],
    };
    let sum = s.plus(&t);
    assert_eq!(sum.steps[0].entries(), &Vec::<(usize, i64)>::new());
    assert_eq!(
        sum.steps[1].entries(),
        &vec![(1usize, 2i64), (2, 1), (3, 5)]
    );
    let int = s.integrate();
    assert_eq!(int.steps[0].entries(), &vec![(1usize, 1i64)]);
    assert_eq!(int.steps[1].entries(), &vec![(1usize, 3i64), (2, 1)]);
}

#[test]
fn delayed_integral_join_lags_one_step() {
    // joining the one-step-delayed integral of a stream with itself:
    // empty at the first step, the previous step's content after
    let a1 = OrdZSet::from_tuples(vec![((1usize, 10usize), 1i64), ((2, 20), 2)]);
    let a2 = OrdZSet::from_tuples(vec![((1usize, 30usize), 3i64)]);
    let s = Stream {
        steps: vec![index_zset(a1.dup()), index_zset(a2.dup())],
    };
    let delayed = s.integrate().delay();
    assert_eq!(delayed.steps[0].len(), 0);
    assert_eq!(delayed.steps[1].zs.entries(), index_zset(a1.dup()).zs.entries());
    let out = delayed.join(&s, &PairVals);
    assert!(out.steps[0].is_empty());
    // step 2 equals the flat join of the first and second deltas
    let mut flat = Join::new(PairVals);
    let expected = flat.eval(&index_zset(a1), &index_zset(a2));
    assert_eq!(out.steps[1].entries(), expected.entries());
    assert_eq!(out.steps[1].entries(), &vec![((10usize, 30usize), 3i64)]);
}

#[test]
fn map2_applies_function() {
    let mut op = Map2::new(MinOf);
    op.stream_start();
    let r: u64 = op.eval(&9u64, &4u64);
    assert_eq!(r, 4);
    let r2: u64 = op.eval(&2u64, &11u64);
    assert_eq!(r2, 2);
    op.stream_end();
}
