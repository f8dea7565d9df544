//! Summaries of paths through a nested scope.
use vstd::prelude::*;

use crate::order::{PartialOrder, PathSummary, Product, Timestamp};

verus! {

/// How a timestamp changes along a path of a nested scope.
///
/// `Local(i)` stays inside the scope and advances the scope's own coordinate by `i`;
/// `Outer(s, i)` leaves the scope, follows an outer path summarised by `s`, and re-enters,
/// restarting the scope's own coordinate from zero before applying `i`.
#[derive(Clone, Copy, Debug, PartialEq, Eq)]
pub enum Summary<S, T> {
    Local(T),
    Outer(S, T),
}

impl<S: PartialOrder, T: PartialOrder> PartialOrder for Summary<S, T> {
    /// Leaving the scope is always later than staying in it; outer summaries are compared
    /// first, and the inner parts only when the outer ones are equal.
    open spec fn le(self, other: Self) -> bool {
        match (self, other) {
            (Summary::Local(a), Summary::Local(b)) => a.le(b),
            (Summary::Local(_), Summary::Outer(_, _)) => true,
            (Summary::Outer(_, _), Summary::Local(_)) => false,
            (Summary::Outer(s1, a), Summary::Outer(s2, b)) => if s1 == s2 {
                a.le(b)
            } else {
                s1.le(s2)
            },
        }
    }

    fn less_equal(&self, other: &Self) -> (r: bool) {
        match (self, other) {
            (Summary::Local(a), Summary::Local(b)) => a.less_equal(b),
            (Summary::Local(_), Summary::Outer(_, _)) => true,
            (Summary::Outer(_, _), Summary::Local(_)) => false,
            (Summary::Outer(s1, a), Summary::Outer(s2, b)) => {
                if s1.equals(s2) {
                    a.less_equal(b)
                } else {
                    s1.less_equal(s2)
                }
            },
        }
    }

    fn equals(&self, other: &Self) -> (r: bool) {
        match (self, other) {
            (Summary::Local(a), Summary::Local(b)) => a.equals(b),
            (Summary::Outer(s1, a), Summary::Outer(s2, b)) => s1.equals(s2) && a.equals(b),
            _ => false,
        }
    }

    proof fn le_reflexive(a: Self) {
        match a {
            Summary::Local(i) => T::le_reflexive(i),
            Summary::Outer(_, i) => T::le_reflexive(i),
        }
    }

    proof fn le_transitive(a: Self, b: Self, c: Self) {
        match (a, b, c) {
            (Summary::Local(x), Summary::Local(y), Summary::Local(z)) => T::le_transitive(x, y, z),
            (Summary::Outer(s1, x), Summary::Outer(s2, y), Summary::Outer(s3, z)) => {
                if s1 == s2 && s2 == s3 {
                    T::le_transitive(x, y, z);
                } else if s1 != s2 && s2 != s3 {
                    S::le_transitive(s1, s2, s3);
                    if s1 == s3 {
                        S::le_antisymmetric(s1, s2);
                    }
                }
            },
            _ => {},
        }
    }

    proof fn le_antisymmetric(a: Self, b: Self) {
        match (a, b) {
            (Summary::Local(x), Summary::Local(y)) => T::le_antisymmetric(x, y),
            (Summary::Outer(s1, x), Summary::Outer(s2, y)) => {
                if s1 == s2 {
                    T::le_antisymmetric(x, y);
                } else {
                    S::le_antisymmetric(s1, s2);
                }
            },
            _ => {},
        }
    }
}

impl<TO: Timestamp, TI: Timestamp, S: PathSummary<TO>, T: PathSummary<TI>> PathSummary<
    Product<TO, TI>,
> for Summary<S, T> {
    open spec fn spec_results_in(self, t: Product<TO, TI>) -> Product<TO, TI> {
        match self {
            Summary::Local(i) => Product { outer: t.outer, inner: i.spec_results_in(t.inner) },
            Summary::Outer(s, i) => Product {
                outer: s.spec_results_in(t.outer),
                inner: i.spec_results_in(TI::spec_zero()),
            },
        }
    }

    open spec fn spec_followed_by(self, other: Self) -> Self {
        match (self, other) {
            (Summary::Local(a), Summary::Local(b)) => Summary::Local(a.spec_followed_by(b)),
            (Summary::Local(_), Summary::Outer(s, b)) => Summary::Outer(s, b),
            (Summary::Outer(s, a), Summary::Local(b)) => Summary::Outer(s, a.spec_followed_by(b)),
            (Summary::Outer(s1, _), Summary::Outer(s2, b)) => Summary::Outer(
                s1.spec_followed_by(s2),
                b,
            ),
        }
    }

    open spec fn spec_identity() -> Self {
        Summary::Local(T::spec_identity())
    }

    fn results_in(&self, t: &Product<TO, TI>) -> (r: Product<TO, TI>) {
        match self {
            Summary::Local(i) => Product { outer: t.outer, inner: i.results_in(&t.inner) },
            Summary::Outer(s, i) => {
                let zero = TI::zero();
                Product { outer: s.results_in(&t.outer), inner: i.results_in(&zero) }
            },
        }
    }

    fn followed_by(&self, other: &Self) -> (r: Self) {
        match (self, other) {
            (Summary::Local(a), Summary::Local(b)) => Summary::Local(a.followed_by(b)),
            (Summary::Local(_), Summary::Outer(s, b)) => Summary::Outer(*s, *b),
            (Summary::Outer(s, a), Summary::Local(b)) => Summary::Outer(*s, a.followed_by(b)),
            (Summary::Outer(s1, _), Summary::Outer(s2, b)) => Summary::Outer(
                s1.followed_by(s2),
                *b,
            ),
        }
    }

    fn identity() -> (r: Self) {
        Summary::Local(T::identity())
    }

    proof fn results_in_monotone(s: Self, a: Product<TO, TI>, b: Product<TO, TI>) {
        match s {
            Summary::Local(i) => T::results_in_monotone(i, a.inner, b.inner),
            Summary::Outer(o, i) => {
                S::results_in_monotone(o, a.outer, b.outer);
                TI::le_reflexive(i.spec_results_in(TI::spec_zero()));
            },
        }
    }

    proof fn followed_by_associative(a: Self, b: Self, c: Self) {
        match (a, b, c) {
            (Summary::Local(x), Summary::Local(y), Summary::Local(z)) => {
                T::followed_by_associative(x, y, z)
            },
            (Summary::Outer(_, x), Summary::Local(y), Summary::Local(z)) => {
                T::followed_by_associative(x, y, z)
            },
            (Summary::Outer(s1, _), Summary::Outer(s2, _), Summary::Outer(s3, _)) => {
                S::followed_by_associative(s1, s2, s3)
            },
            _ => {},
        }
    }

    proof fn identity_neutral(a: Self) {
        match a {
            Summary::Local(i) => T::identity_neutral(i),
            Summary::Outer(_, i) => T::identity_neutral(i),
        }
    }
}

/// Composition of nested summaries is associative; the empty local path is neutral on
/// either side, and an outer path followed by a local one keeps its outer part and
/// composes the inner parts.
pub proof fn summary_composition_laws<S: PathSummary<TO>, T: PathSummary<TI>, TO: Timestamp, TI: Timestamp>(
    a: Summary<S, T>,
    b: Summary<S, T>,
    c: Summary<S, T>,
    s: S,
    i: T,
    j: T,
)
    ensures
        a.spec_followed_by(b).spec_followed_by(c) == a.spec_followed_by(b.spec_followed_by(c)),
        Summary::<S, T>::Local(T::spec_identity()).spec_followed_by(a) == a,
        a.spec_followed_by(Summary::<S, T>::Local(T::spec_identity())) == a,
        Summary::<S, T>::Outer(s, i).spec_followed_by(Summary::Local(j)) == Summary::<S, T>::Outer(
            s,
            i.spec_followed_by(j),
        ),
{
    <Summary<S, T> as PathSummary<Product<TO, TI>>>::followed_by_associative(a, b, c);
    <Summary<S, T> as PathSummary<Product<TO, TI>>>::identity_neutral(a);
}

/// Applying a nested summary is monotone in the timestamp it is applied to.
pub proof fn summary_results_in_monotone<S: PathSummary<TO>, T: PathSummary<TI>, TO: Timestamp, TI: Timestamp>(
    u: Summary<S, T>,
    a: Product<TO, TI>,
    b: Product<TO, TI>,
)
    requires
        a.le(b),
    ensures
        u.spec_results_in(a).le(u.spec_results_in(b)),
{
    <Summary<S, T> as PathSummary<Product<TO, TI>>>::results_in_monotone(u, a, b);
}

} // verus!
