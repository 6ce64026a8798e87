//! Logical timestamps: a partial order with least upper bound, embedded
//! in the total observation order that `DBData` provides.
//!
//! Flat circuits use a single coordinate; nested circuits use
//! lexicographic products of the outer and inner coordinates.

use vstd::prelude::*;
use crate::data::DBData;

verus! {

/// The timestamp contract: a partial order `leq` with join, a first
/// time, a per-scope advance and a per-scope epoch end.
///
/// The `DBData` order of a timestamp type is its total observation
/// order: the order in which times occur during execution.
pub trait Timestamp: DBData {
    /// The partial order on time models.
    spec fn leq(a: Self::V, b: Self::V) -> bool;

    /// Model of the first time of a clock.
    spec fn start_model() -> Self::V;

    /// Model of the least upper bound.
    spec fn join_model(a: Self::V, b: Self::V) -> Self::V;

    /// Whether one more tick fits at the given scope.
    spec fn can_advance(a: Self::V, scope: nat) -> bool;

    /// Model of one tick at the given scope: the coordinate at that
    /// depth advances and all finer coordinates reset.
    spec fn advance_model(a: Self::V, scope: nat) -> Self::V;

    /// Model of the last time of the current epoch at the given scope.
    spec fn epoch_end_model(a: Self::V, scope: nat) -> Self::V;

    /// Advancing moves strictly forward in the observation order.
    proof fn advance_increases(a: Self::V, scope: nat)
        requires
            Self::can_advance(a, scope),
        ensures
            Self::mlt(a, Self::advance_model(a, scope)),
    ;

    /// `leq` is a partial order with `join_model` as its least upper
    /// bound, and one tick at the innermost scope moves up in it.
    proof fn lattice_laws(a: Self::V, b: Self::V, c: Self::V)
        ensures
            Self::leq(a, a),
            Self::leq(a, b) && Self::leq(b, a) ==> a == b,
            Self::leq(a, b) && Self::leq(b, c) ==> Self::leq(a, c),
            Self::leq(a, Self::join_model(a, b)),
            Self::leq(b, Self::join_model(a, b)),
            Self::leq(a, c) && Self::leq(b, c) ==> Self::leq(Self::join_model(a, b), c),
            Self::can_advance(a, 0) ==> Self::leq(a, Self::advance_model(a, 0)),
    ;

    fn clock_start() -> (r: Self)
        ensures
            r.deep_view() == Self::start_model(),
    ;

    fn leq_exec(&self, other: &Self) -> (r: bool)
        ensures
            r == Self::leq(self.deep_view(), other.deep_view()),
    ;

    fn join(&self, other: &Self) -> (r: Self)
        ensures
            r.deep_view() == Self::join_model(self.deep_view(), other.deep_view()),
    ;

    fn can_advance_exec(&self, scope: usize) -> (r: bool)
        ensures
            r == Self::can_advance(self.deep_view(), scope as nat),
    ;

    fn advance(&self, scope: usize) -> (r: Self)
        requires
            Self::can_advance(self.deep_view(), scope as nat),
        ensures
            r.deep_view() == Self::advance_model(self.deep_view(), scope as nat),
    ;

    fn epoch_end(&self, scope: usize) -> (r: Self)
        ensures
            r.deep_view() == Self::epoch_end_model(self.deep_view(), scope as nat),
    ;
}

/// A two-coordinate nested timestamp: an outer epoch and an inner
/// iteration, each 32 bits wide.
#[derive(Clone, Copy, Debug, PartialEq, Eq, Structural)]
pub struct NestedTimestamp32 {
    pub epoch: u32,
    pub iter: u32,
}

impl View for NestedTimestamp32 {
    type V = NestedTimestamp32;

    open spec fn view(&self) -> NestedTimestamp32 {
        *self
    }
}

impl DeepView for NestedTimestamp32 {
    type V = NestedTimestamp32;

    open spec fn deep_view(&self) -> NestedTimestamp32 {
        *self
    }
}

impl DBData for NestedTimestamp32 {
    open spec fn mlt(a: NestedTimestamp32, b: NestedTimestamp32) -> bool {
        a.epoch < b.epoch || (a.epoch == b.epoch && a.iter < b.iter)
    }

    proof fn mlt_trichotomy(a: NestedTimestamp32, b: NestedTimestamp32) {
    }

    proof fn mlt_transitive(a: NestedTimestamp32, b: NestedTimestamp32, c: NestedTimestamp32) {
    }

    fn lt_exec(&self, other: &Self) -> (r: bool) {
        self.epoch < other.epoch || (self.epoch == other.epoch && self.iter < other.iter)
    }

    fn eq_exec(&self, other: &Self) -> (r: bool) {
        self.epoch == other.epoch && self.iter == other.iter
    }

    fn dup(&self) -> (r: Self) {
        *self
    }
}

impl Timestamp for NestedTimestamp32 {
    open spec fn leq(a: NestedTimestamp32, b: NestedTimestamp32) -> bool {
        a.epoch <= b.epoch && a.iter <= b.iter
    }

    open spec fn start_model() -> NestedTimestamp32 {
        NestedTimestamp32 { epoch: 0, iter: 0 }
    }

    open spec fn join_model(a: NestedTimestamp32, b: NestedTimestamp32) -> NestedTimestamp32 {
        NestedTimestamp32 {
            epoch: if a.epoch >= b.epoch {
                a.epoch
            } else {
                b.epoch
            },
            iter: if a.iter >= b.iter {
                a.iter
            } else {
                b.iter
            },
        }
    }

    open spec fn can_advance(a: NestedTimestamp32, scope: nat) -> bool {
        if scope == 0 {
            a.iter < u32::MAX
        } else {
            a.epoch < u32::MAX
        }
    }

    open spec fn advance_model(a: NestedTimestamp32, scope: nat) -> NestedTimestamp32 {
        if scope == 0 {
            NestedTimestamp32 { epoch: a.epoch, iter: (a.iter + 1) as u32 }
        } else {
            NestedTimestamp32 { epoch: (a.epoch + 1) as u32, iter: 0 }
        }
    }

    open spec fn epoch_end_model(a: NestedTimestamp32, scope: nat) -> NestedTimestamp32 {
        if scope == 0 {
            NestedTimestamp32 { epoch: a.epoch, iter: u32::MAX }
        } else {
            NestedTimestamp32 { epoch: u32::MAX, iter: u32::MAX }
        }
    }

    proof fn advance_increases(a: NestedTimestamp32, scope: nat) {
    }

    proof fn lattice_laws(a: NestedTimestamp32, b: NestedTimestamp32, c: NestedTimestamp32) {
    }

    fn clock_start() -> (r: Self) {
        NestedTimestamp32 { epoch: 0, iter: 0 }
    }

    fn leq_exec(&self, other: &Self) -> (r: bool) {
        self.epoch <= other.epoch && self.iter <= other.iter
    }

    fn join(&self, other: &Self) -> (r: Self) {
        NestedTimestamp32 {
            epoch: if self.epoch >= other.epoch {
                self.epoch
            } else {
                other.epoch
            },
            iter: if self.iter >= other.iter {
                self.iter
            } else {
                other.iter
            },
        }
    }

    fn can_advance_exec(&self, scope: usize) -> (r: bool) {
        if scope == 0 {
            self.iter < u32::MAX
        } else {
            self.epoch < u32::MAX
        }
    }

    fn advance(&self, scope: usize) -> (r: Self) {
        if scope == 0 {
            NestedTimestamp32 { epoch: self.epoch, iter: self.iter + 1 }
        } else {
            NestedTimestamp32 { epoch: self.epoch + 1, iter: 0 }
        }
    }

    fn epoch_end(&self, scope: usize) -> (r: Self) {
        if scope == 0 {
            NestedTimestamp32 { epoch: self.epoch, iter: u32::MAX }
        } else {
            NestedTimestamp32 { epoch: u32::MAX, iter: u32::MAX }
        }
    }
}

/// A three-coordinate timestamp: the product of a nested timestamp for
/// the two outer scopes with one more inner iteration counter.
#[derive(Clone, Copy, Debug, PartialEq, Eq, Structural)]
pub struct ProductTimestamp {
    pub outer: u32,
    pub epoch: u32,
    pub iter: u32,
}

impl View for ProductTimestamp {
    type V = ProductTimestamp;

    open spec fn view(&self) -> ProductTimestamp {
        *self
    }
}

impl DeepView for ProductTimestamp {
    type V = ProductTimestamp;

    open spec fn deep_view(&self) -> ProductTimestamp {
        *self
    }
}

impl DBData for ProductTimestamp {
    open spec fn mlt(a: ProductTimestamp, b: ProductTimestamp) -> bool {
        a.outer < b.outer || (a.outer == b.outer && (a.epoch < b.epoch || (a.epoch == b.epoch
            && a.iter < b.iter)))
    }

    proof fn mlt_trichotomy(a: ProductTimestamp, b: ProductTimestamp) {
    }

    proof fn mlt_transitive(a: ProductTimestamp, b: ProductTimestamp, c: ProductTimestamp) {
    }

    fn lt_exec(&self, other: &Self) -> (r: bool) {
        self.outer < other.outer || (self.outer == other.outer && (self.epoch < other.epoch || (
        self.epoch == other.epoch && self.iter < other.iter)))
    }

    fn eq_exec(&self, other: &Self) -> (r: bool) {
        self.outer == other.outer && self.epoch == other.epoch && self.iter == other.iter
    }

    fn dup(&self) -> (r: Self) {
        *self
    }
}

impl Timestamp for ProductTimestamp {
    open spec fn leq(a: ProductTimestamp, b: ProductTimestamp) -> bool {
        a.outer <= b.outer && a.epoch <= b.epoch && a.iter <= b.iter
    }

    open spec fn start_model() -> ProductTimestamp {
        ProductTimestamp { outer: 0, epoch: 0, iter: 0 }
    }

    open spec fn join_model(a: ProductTimestamp, b: ProductTimestamp) -> ProductTimestamp {
        ProductTimestamp {
            outer: if a.outer >= b.outer {
                a.outer
            } else {
                b.outer
            },
            epoch: if a.epoch >= b.epoch {
                a.epoch
            } else {
                b.epoch
            },
            iter: if a.iter >= b.iter {
                a.iter
            } else {
                b.iter
            },
        }
    }

    open spec fn can_advance(a: ProductTimestamp, scope: nat) -> bool {
        if scope == 0 {
            a.iter < u32::MAX
        } else if scope == 1 {
            a.epoch < u32::MAX
        } else {
            a.outer < u32::MAX
        }
    }

    open spec fn advance_model(a: ProductTimestamp, scope: nat) -> ProductTimestamp {
        if scope == 0 {
            ProductTimestamp { outer: a.outer, epoch: a.epoch, iter: (a.iter + 1) as u32 }
        } else if scope == 1 {
            ProductTimestamp { outer: a.outer, epoch: (a.epoch + 1) as u32, iter: 0 }
        } else {
            ProductTimestamp { outer: (a.outer + 1) as u32, epoch: 0, iter: 0 }
        }
    }

    open spec fn epoch_end_model(a: ProductTimestamp, scope: nat) -> ProductTimestamp {
        if scope == 0 {
            ProductTimestamp { outer: a.outer, epoch: a.epoch, iter: u32::MAX }
        } else if scope == 1 {
            ProductTimestamp { outer: a.outer, epoch: u32::MAX, iter: u32::MAX }
        } else {
            ProductTimestamp { outer: u32::MAX, epoch: u32::MAX, iter: u32::MAX }
        }
    }

    proof fn advance_increases(a: ProductTimestamp, scope: nat) {
    }

    proof fn lattice_laws(a: ProductTimestamp, b: ProductTimestamp, c: ProductTimestamp) {
    }

    fn clock_start() -> (r: Self) {
        ProductTimestamp { outer: 0, epoch: 0, iter: 0 }
    }

    fn leq_exec(&self, other: &Self) -> (r: bool) {
        self.outer <= other.outer && self.epoch <= other.epoch && self.iter <= other.iter
    }

    fn join(&self, other: &Self) -> (r: Self) {
        ProductTimestamp {
            outer: if self.outer >= other.outer {
                self.outer
            } else {
                other.outer
            },
            epoch: if self.epoch >= other.epoch {
                self.epoch
            } else {
                other.epoch
            },
            iter: if self.iter >= other.iter {
                self.iter
            } else {
                other.iter
            },
        }
    }

    fn can_advance_exec(&self, scope: usize) -> (r: bool) {
        if scope == 0 {
            self.iter < u32::MAX
        } else if scope == 1 {
            self.epoch < u32::MAX
        } else {
            self.outer < u32::MAX
        }
    }

    fn advance(&self, scope: usize) -> (r: Self) {
        if scope == 0 {
            ProductTimestamp { outer: self.outer, epoch: self.epoch, iter: self.iter + 1 }
        } else if scope == 1 {
            ProductTimestamp { outer: self.outer, epoch: self.epoch + 1, iter: 0 }
        } else {
            ProductTimestamp { outer: self.outer + 1, epoch: 0, iter: 0 }
        }
    }

    fn epoch_end(&self, scope: usize) -> (r: Self) {
        if scope == 0 {
            ProductTimestamp { outer: self.outer, epoch: self.epoch, iter: u32::MAX }
        } else if scope == 1 {
            ProductTimestamp { outer: self.outer, epoch: u32::MAX, iter: u32::MAX }
        } else {
            ProductTimestamp { outer: u32::MAX, epoch: u32::MAX, iter: u32::MAX }
        }
    }
}

} // verus!
