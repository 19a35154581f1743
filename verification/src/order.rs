//! The ordering capability that sample types provide.
//!
//! Aggregates never inspect a sample beyond comparing it with another one, so
//! the whole requirement on a sample type is a total order together with an
//! executable comparison that agrees with it.

use vstd::prelude::*;

verus! {

/// A totally ordered sample type.
///
/// The specification-level relation `le` must be a total order, and the
/// executable comparison must decide exactly that relation. Statistics that
/// sort or compare samples state their contracts over `le`.
pub trait Ordered: Sized + Copy {
    /// The total order on samples, at the specification level.
    spec fn le(self, other: Self) -> bool;

    /// Decides the specification order.
    fn le_exec(&self, other: &Self) -> (r: bool)
        ensures
            r == self.le(*other),
    ;

    proof fn le_reflexive(a: Self)
        ensures
            a.le(a),
    ;

    proof fn le_antisymmetric(a: Self, b: Self)
        requires
            a.le(b),
            b.le(a),
        ensures
            a == b,
    ;

    proof fn le_transitive(a: Self, b: Self, c: Self)
        requires
            a.le(b),
            b.le(c),
        ensures
            a.le(c),
    ;

    proof fn le_total(a: Self, b: Self)
        ensures
            a.le(b) || b.le(a),
    ;
}

impl Ordered for u32 {
    open spec fn le(self, other: Self) -> bool {
        self <= other
    }

    fn le_exec(&self, other: &Self) -> (r: bool) {
        *self <= *other
    }

    proof fn le_reflexive(a: Self) {
    }

    proof fn le_antisymmetric(a: Self, b: Self) {
    }

    proof fn le_transitive(a: Self, b: Self, c: Self) {
    }

    proof fn le_total(a: Self, b: Self) {
    }
}

impl Ordered for u64 {
    open spec fn le(self, other: Self) -> bool {
        self <= other
    }

    fn le_exec(&self, other: &Self) -> (r: bool) {
        *self <= *other
    }

    proof fn le_reflexive(a: Self) {
    }

    proof fn le_antisymmetric(a: Self, b: Self) {
    }

    proof fn le_transitive(a: Self, b: Self, c: Self) {
    }

    proof fn le_total(a: Self, b: Self) {
    }
}

impl Ordered for i32 {
    open spec fn le(self, other: Self) -> bool {
        self <= other
    }

    fn le_exec(&self, other: &Self) -> (r: bool) {
        *self <= *other
    }

    proof fn le_reflexive(a: Self) {
    }

    proof fn le_antisymmetric(a: Self, b: Self) {
    }

    proof fn le_transitive(a: Self, b: Self, c: Self) {
    }

    proof fn le_total(a: Self, b: Self) {
    }
}

impl Ordered for i64 {
    open spec fn le(self, other: Self) -> bool {
        self <= other
    }

    fn le_exec(&self, other: &Self) -> (r: bool) {
        *self <= *other
    }

    proof fn le_reflexive(a: Self) {
    }

    proof fn le_antisymmetric(a: Self, b: Self) {
    }

    proof fn le_transitive(a: Self, b: Self, c: Self) {
    }

    proof fn le_total(a: Self, b: Self) {
    }
}

} // verus!
