//! A verified total order: the comparison interface the tree is generic over.

use vstd::prelude::*;

verus! {

/// The outcome of a three-way comparison.
pub enum Comparison {
    Less,
    Equal,
    Greater,
}

/// A strict total order on a type, together with an executable three-way
/// comparison that decides it.
///
/// `lt` is the mathematical order; the proof obligations make it a strict
/// total order that respects specification equality, and `compare` is the
/// executable decision procedure the tree descends with.
pub trait TotalOrder: Sized {
    /// The strict order relation.
    spec fn lt(self, other: Self) -> bool;

    /// The order is transitive.
    proof fn lt_transitive(x: Self, y: Self, z: Self)
        requires
            x.lt(y),
            y.lt(z),
        ensures
            x.lt(z),
    ;

    /// The order is asymmetric (hence also irreflexive).
    proof fn lt_asymmetric(x: Self, y: Self)
        requires
            x.lt(y),
        ensures
            !y.lt(x),
            x != y,
    ;

    /// Any two values are comparable.
    proof fn lt_total(x: Self, y: Self)
        ensures
            x.lt(y) || x == y || y.lt(x),
    ;

    /// Decide the order of two values.
    fn compare(&self, other: &Self) -> (c: Comparison)
        ensures
            c matches Comparison::Less <==> self.lt(*other),
            c matches Comparison::Equal <==> *self == *other,
            c matches Comparison::Greater <==> other.lt(*self),
    ;
}

impl TotalOrder for i32 {
    open spec fn lt(self, other: Self) -> bool {
        self < other
    }

    proof fn lt_transitive(x: Self, y: Self, z: Self) {
    }

    proof fn lt_asymmetric(x: Self, y: Self) {
    }

    proof fn lt_total(x: Self, y: Self) {
    }

    fn compare(&self, other: &Self) -> (c: Comparison) {
        if *self < *other {
            Comparison::Less
        } else if *self == *other {
            Comparison::Equal
        } else {
            Comparison::Greater
        }
    }
}

impl TotalOrder for i64 {
    open spec fn lt(self, other: Self) -> bool {
        self < other
    }

    proof fn lt_transitive(x: Self, y: Self, z: Self) {
    }

    proof fn lt_asymmetric(x: Self, y: Self) {
    }

    proof fn lt_total(x: Self, y: Self) {
    }

    fn compare(&self, other: &Self) -> (c: Comparison) {
        if *self < *other {
            Comparison::Less
        } else if *self == *other {
            Comparison::Equal
        } else {
            Comparison::Greater
        }
    }
}

impl TotalOrder for u64 {
    open spec fn lt(self, other: Self) -> bool {
        self < other
    }

    proof fn lt_transitive(x: Self, y: Self, z: Self) {
    }

    proof fn lt_asymmetric(x: Self, y: Self) {
    }

    proof fn lt_total(x: Self, y: Self) {
    }

    fn compare(&self, other: &Self) -> (c: Comparison) {
        if *self < *other {
            Comparison::Less
        } else if *self == *other {
            Comparison::Equal
        } else {
            Comparison::Greater
        }
    }
}

} // verus!
