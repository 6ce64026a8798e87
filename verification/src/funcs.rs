//! Concrete record types and join functions for graph-style circuits:
//! labelled nodes, edges, and the functions that combine them.

use vstd::prelude::*;
use crate::data::DBData;
use crate::join::JoinFunc;
use crate::zset::KeyFunc;

verus! {

/// A node label: the node and its label value.
#[derive(Clone, Copy, Debug, PartialEq, Eq, Structural)]
pub struct Label(pub usize, pub u16);

impl View for Label {
    type V = Label;

    open spec fn view(&self) -> Label {
        *self
    }
}

impl DeepView for Label {
    type V = Label;

    open spec fn deep_view(&self) -> Label {
        *self
    }
}

impl DBData for Label {
    open spec fn mlt(a: Label, b: Label) -> bool {
        a.0 < b.0 || (a.0 == b.0 && a.1 < b.1)
    }

    proof fn mlt_trichotomy(a: Label, b: Label) {
    }

    proof fn mlt_transitive(a: Label, b: Label, c: Label) {
    }

    fn lt_exec(&self, other: &Self) -> (r: bool) {
        self.0 < other.0 || (self.0 == other.0 && self.1 < other.1)
    }

    fn eq_exec(&self, other: &Self) -> (r: bool) {
        self.0 == other.0 && self.1 == other.1
    }

    fn dup(&self) -> (r: Self) {
        *self
    }
}

/// A directed edge from one node to another.
#[derive(Clone, Copy, Debug, PartialEq, Eq, Structural)]
pub struct Edge(pub usize, pub usize);

impl View for Edge {
    type V = Edge;

    open spec fn view(&self) -> Edge {
        *self
    }
}

impl DeepView for Edge {
    type V = Edge;

    open spec fn deep_view(&self) -> Edge {
        *self
    }
}

impl DBData for Edge {
    open spec fn mlt(a: Edge, b: Edge) -> bool {
        a.0 < b.0 || (a.0 == b.0 && a.1 < b.1)
    }

    proof fn mlt_trichotomy(a: Edge, b: Edge) {
    }

    proof fn mlt_transitive(a: Edge, b: Edge, c: Edge) {
    }

    fn lt_exec(&self, other: &Self) -> (r: bool) {
        self.0 < other.0 || (self.0 == other.0 && self.1 < other.1)
    }

    fn eq_exec(&self, other: &Self) -> (r: bool) {
        self.0 == other.0 && self.1 == other.1
    }

    fn dup(&self) -> (r: Self) {
        *self
    }
}

/// Joins a key with two string values into the key and the two values
/// separated by one space.
pub struct ConcatVals;

impl JoinFunc<usize, String, String, (usize, String)> for ConcatVals {
    open spec fn fmodel(&self, k: usize, v1: Seq<char>, v2: Seq<char>) -> (usize, Seq<char>) {
        (k, v1 + seq![' '] + v2)
    }

    fn feval(&self, k: &usize, v1: &String, v2: &String) -> (r: (usize, String)) {
        let mut out = v1.clone();
        out.append(" ");
        out.append(v2.as_str());
        proof {
            reveal_strlit(" ");
            assert(" "@ =~= seq![' ']);
            assert(out@ =~= v1@ + seq![' '] + v2@);
        }
        (*k, out)
    }
}

/// Emits the pair of values of a match: with paths inverted on the left
/// and edges on the right, the new path from `from` to `to`.
pub struct PairVals;

impl JoinFunc<usize, usize, usize, (usize, usize)> for PairVals {
    open spec fn fmodel(&self, _k: usize, v1: usize, v2: usize) -> (usize, usize) {
        (v1, v2)
    }

    fn feval(&self, _k: &usize, v1: &usize, v2: &usize) -> (r: (usize, usize)) {
        (*v1, *v2)
    }
}

/// The same with the value arguments flipped, for the right half of a
/// trace join.
pub struct PairValsFlipped;

impl JoinFunc<usize, usize, usize, (usize, usize)> for PairValsFlipped {
    open spec fn fmodel(&self, _k: usize, v1: usize, v2: usize) -> (usize, usize) {
        (v2, v1)
    }

    fn feval(&self, _k: &usize, v1: &usize, v2: &usize) -> (r: (usize, usize)) {
        (*v2, *v1)
    }
}

/// Propagates a label along an edge: the matched node's label moves to
/// the edge's target.
pub struct PropagateLabel;

impl JoinFunc<usize, u16, usize, Label> for PropagateLabel {
    open spec fn fmodel(&self, _k: usize, v1: u16, v2: usize) -> Label {
        Label(v2, v1)
    }

    fn feval(&self, _k: &usize, v1: &u16, v2: &usize) -> (r: Label) {
        Label(*v2, *v1)
    }
}

/// The same with the value arguments flipped.
pub struct PropagateLabelFlipped;

impl JoinFunc<usize, usize, u16, Label> for PropagateLabelFlipped {
    open spec fn fmodel(&self, _k: usize, v1: usize, v2: u16) -> Label {
        Label(v1, v2)
    }

    fn feval(&self, _k: &usize, v1: &usize, v2: &u16) -> (r: Label) {
        Label(*v1, *v2)
    }
}

/// The smaller of two numbers, as a binary map function.
pub struct MinOf;

impl crate::map2::BinFunc<u64, u64, u64> for MinOf {
    open spec fn bmodel(&self, a: u64, b: u64) -> u64 {
        if a <= b {
            a
        } else {
            b
        }
    }

    fn beval(&self, a: &u64, b: &u64) -> (r: u64) {
        if *a <= *b {
            *a
        } else {
            *b
        }
    }
}

/// Swaps the two components of a pair key.
pub struct InvertPair;

impl KeyFunc<(usize, usize), (usize, usize)> for InvertPair {
    open spec fn kmodel(&self, k: (usize, usize)) -> (usize, usize) {
        (k.1, k.0)
    }

    fn keval(&self, k: &(usize, usize)) -> (r: (usize, usize)) {
        (k.1, k.0)
    }
}

/// Reads a label as a (node, value) pair.
pub struct LabelToPair;

impl KeyFunc<Label, (usize, u16)> for LabelToPair {
    open spec fn kmodel(&self, k: Label) -> (usize, u16) {
        (k.0, k.1)
    }

    fn keval(&self, k: &Label) -> (r: (usize, u16)) {
        (k.0, k.1)
    }
}

/// Reads an edge as a (source, target) pair.
pub struct EdgeToPair;

impl KeyFunc<Edge, (usize, usize)> for EdgeToPair {
    open spec fn kmodel(&self, k: Edge) -> (usize, usize) {
        (k.0, k.1)
    }

    fn keval(&self, k: &Edge) -> (r: (usize, usize)) {
        (k.0, k.1)
    }
}

} // verus!
