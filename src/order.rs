//! Partially ordered values, timestamps and path summaries.
use vstd::prelude::*;

verus! {

/// A value with a partial order `le` that agrees with its executable comparison.
pub trait PartialOrder: Sized + Copy {
    spec fn le(self, other: Self) -> bool;

    fn less_equal(&self, other: &Self) -> (r: bool)
        ensures
            r == self.le(*other),
    ;

    fn equals(&self, other: &Self) -> (r: bool)
        ensures
            r == (*self == *other),
    ;

    proof fn le_reflexive(a: Self)
        ensures
            a.le(a),
    ;

    proof fn le_transitive(a: Self, b: Self, c: Self)
        requires
            a.le(b),
            b.le(c),
        ensures
            a.le(c),
    ;

    proof fn le_antisymmetric(a: Self, b: Self)
        requires
            a.le(b),
            b.le(a),
        ensures
            a == b,
    ;
}

/// A timestamp: a partially ordered value with a least ("zero") element used as default.
pub trait Timestamp: PartialOrder {
    spec fn spec_zero() -> Self;

    fn zero() -> (r: Self)
        ensures
            r == Self::spec_zero(),
    ;
}

/// A path summary: a monotone transformation of timestamps, composable and partially ordered.
pub trait PathSummary<T: Timestamp>: PartialOrder {
    spec fn spec_results_in(self, t: T) -> T;

    spec fn spec_followed_by(self, other: Self) -> Self;

    /// The summary of an empty path.
    spec fn spec_identity() -> Self;

    fn results_in(&self, t: &T) -> (r: T)
        ensures
            r == self.spec_results_in(*t),
    ;

    fn followed_by(&self, other: &Self) -> (r: Self)
        ensures
            r == self.spec_followed_by(*other),
    ;

    fn identity() -> (r: Self)
        ensures
            r == Self::spec_identity(),
    ;

    proof fn results_in_monotone(s: Self, a: T, b: T)
        requires
            a.le(b),
        ensures
            s.spec_results_in(a).le(s.spec_results_in(b)),
    ;

    proof fn followed_by_associative(a: Self, b: Self, c: Self)
        ensures
            a.spec_followed_by(b).spec_followed_by(c) == a.spec_followed_by(b.spec_followed_by(c)),
    ;

    proof fn identity_neutral(a: Self)
        ensures
            Self::spec_identity().spec_followed_by(a) == a,
            a.spec_followed_by(Self::spec_identity()) == a,
    ;
}

/// Addition of naturals that stops at `u64::MAX`.
pub open spec fn saturating_sum(a: u64, b: u64) -> u64 {
    if a + b > u64::MAX {
        u64::MAX
    } else {
        (a + b) as u64
    }
}

impl PartialOrder for u64 {
    open spec fn le(self, other: Self) -> bool {
        self <= other
    }

    fn less_equal(&self, other: &Self) -> (r: bool) {
        *self <= *other
    }

    fn equals(&self, other: &Self) -> (r: bool) {
        *self == *other
    }

    proof fn le_reflexive(a: Self) {
    }

    proof fn le_transitive(a: Self, b: Self, c: Self) {
    }

    proof fn le_antisymmetric(a: Self, b: Self) {
    }
}

impl Timestamp for u64 {
    open spec fn spec_zero() -> Self {
        0
    }

    fn zero() -> (r: Self) {
        0
    }
}

/// A loop counter summary: advance the counter by a fixed number of iterations.
impl PathSummary<u64> for u64 {
    open spec fn spec_results_in(self, t: u64) -> u64 {
        saturating_sum(t, self)
    }

    open spec fn spec_followed_by(self, other: Self) -> Self {
        saturating_sum(self, other)
    }

    open spec fn spec_identity() -> Self {
        0
    }

    fn results_in(&self, t: &u64) -> (r: u64) {
        t.saturating_add(*self)
    }

    fn followed_by(&self, other: &Self) -> (r: Self) {
        self.saturating_add(*other)
    }

    fn identity() -> (r: Self) {
        0
    }

    proof fn results_in_monotone(s: Self, a: u64, b: u64) {
    }

    proof fn followed_by_associative(a: Self, b: Self, c: Self) {
    }

    proof fn identity_neutral(a: Self) {
    }
}

/// A timestamp of a nested scope: the enclosing scope's time and a time local to the scope.
#[derive(Clone, Copy, Debug, PartialEq, Eq, Hash)]
pub struct Product<A, B> {
    pub outer: A,
    pub inner: B,
}

impl<A, B> Product<A, B> {
    pub fn new(outer: A, inner: B) -> (r: Self)
        ensures
            r.outer == outer,
            r.inner == inner,
    {
        Product { outer, inner }
    }
}

/// Product timestamps, ordered coordinate-wise.
impl<A: PartialOrder, B: PartialOrder> PartialOrder for Product<A, B> {
    open spec fn le(self, other: Self) -> bool {
        self.outer.le(other.outer) && self.inner.le(other.inner)
    }

    fn less_equal(&self, other: &Self) -> (r: bool) {
        self.outer.less_equal(&other.outer) && self.inner.less_equal(&other.inner)
    }

    fn equals(&self, other: &Self) -> (r: bool) {
        self.outer.equals(&other.outer) && self.inner.equals(&other.inner)
    }

    proof fn le_reflexive(a: Self) {
        A::le_reflexive(a.outer);
        B::le_reflexive(a.inner);
    }

    proof fn le_transitive(a: Self, b: Self, c: Self) {
        A::le_transitive(a.outer, b.outer, c.outer);
        B::le_transitive(a.inner, b.inner, c.inner);
    }

    proof fn le_antisymmetric(a: Self, b: Self) {
        A::le_antisymmetric(a.outer, b.outer);
        B::le_antisymmetric(a.inner, b.inner);
    }
}

impl<A: Timestamp, B: Timestamp> Timestamp for Product<A, B> {
    open spec fn spec_zero() -> Self {
        Product { outer: A::spec_zero(), inner: B::spec_zero() }
    }

    fn zero() -> (r: Self) {
        Product { outer: A::zero(), inner: B::zero() }
    }
}

} // verus!
