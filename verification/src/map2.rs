//! Binary map operator: applies an arbitrary binary function to its
//! inputs at each step.

use vstd::prelude::*;

verus! {

/// A pure binary function together with its model.
pub trait BinFunc<A: DeepView, B: DeepView, C: DeepView>: Sized {
    /// The model of the function on models.
    spec fn bmodel(&self, a: A::V, b: B::V) -> C::V;

    fn beval(&self, a: &A, b: &B) -> (r: C)
        ensures
            r.deep_view() == self.bmodel(a.deep_view(), b.deep_view()),
    ;
}

/// Binary map operator: stateless, one output per pair of inputs.
pub struct Map2<F> {
    pub map: F,
}

impl<F> Map2<F> {
    pub fn new(map: F) -> (r: Self)
        ensures
            r.map == map,
    {
        Map2 { map }
    }

    /// Nothing to set up: the operator holds no stream state.
    pub fn stream_start(&mut self)
        ensures
            *final(self) == *old(self),
    {
    }

    /// Nothing to tear down.
    pub fn stream_end(&mut self)
        ensures
            *final(self) == *old(self),
    {
    }

    /// Applies the function to the inputs of the current step.
    pub fn eval<A: DeepView, B: DeepView, C: DeepView>(&mut self, i1: &A, i2: &B) -> (r: C) where
        F: BinFunc<A, B, C>
        ensures
            r.deep_view() == old(self).map.bmodel(i1.deep_view(), i2.deep_view()),
            *final(self) == *old(self),
    {
        self.map.beval(i1, i2)
    }
}

} // verus!
