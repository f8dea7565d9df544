//! Antichains: sets of mutually incomparable elements.
use vstd::prelude::*;

use crate::order::PartialOrder;

verus! {

/// Whether some element of `s` is less than or equal to `x`.
pub open spec fn dominated<X: PartialOrder>(s: Seq<X>, x: X) -> bool {
    exists|i: int| 0 <= i < s.len() && #[trigger] s[i].le(x)
}

/// Whether no element of `s` is less than or equal to another element of `s`.
pub open spec fn incomparable<X: PartialOrder>(s: Seq<X>) -> bool {
    forall|i: int, j: int|
        0 <= i < s.len() && 0 <= j < s.len() && i != j ==> !(#[trigger] s[i].le(#[trigger] s[j]))
}

/// A set of pairwise incomparable elements, kept as a short vector.
#[derive(Clone, Debug)]
pub struct Antichain<X> {
    elements: Vec<X>,
}

impl<X: PartialOrder> View for Antichain<X> {
    type V = Seq<X>;

    closed spec fn view(&self) -> Seq<X> {
        self.elements@
    }
}

impl<X: PartialOrder> Antichain<X> {
    pub closed spec fn wf(&self) -> bool {
        incomparable(self.elements@)
    }

    /// The empty antichain.
    pub fn new() -> (r: Self)
        ensures
            r.wf(),
            r@ == Seq::<X>::empty(),
    {
        Antichain { elements: Vec::new() }
    }

    /// The antichain holding `x` alone.
    pub fn from_elem(x: X) -> (r: Self)
        ensures
            r.wf(),
            r@ == seq![x],
    {
        let mut elements = Vec::new();
        elements.push(x);
        Antichain { elements }
    }

    /// The minimal elements, in no particular order.
    pub fn elements(&self) -> (r: &Vec<X>)
        ensures
            r@ == self@,
    {
        &self.elements
    }

    /// Adds `x` unless an element already lies at or below it; elements at or above `x`
    /// leave. Returns whether `x` was added.
    pub fn insert(&mut self, x: X) -> (r: bool)
        requires
            old(self).wf(),
        ensures
            final(self).wf(),
            r == !dominated(old(self)@, x),
            !r ==> *final(self) == *old(self),
            r ==> final(self)@.contains(x),
            r ==> forall|y: X|
                #[trigger] final(self)@.contains(y) <==> (y == x || (old(self)@.contains(y) && !x.le(y))),
    {
        let n = self.elements.len();
        let mut i: usize = 0;
        while i < n
            invariant
                n == self.elements.len(),
                self.wf(),
                *self == *old(self),
                0 <= i <= n,
                forall|k: int| 0 <= k < i ==> !(#[trigger] self.elements@[k]).le(x),
            decreases n - i,
        {
            if self.elements[i].less_equal(&x) {
                return false;
            }
            i = i + 1;
        }
        let ghost before = self.elements@;
        let mut kept: Vec<X> = Vec::new();
        let mut j: usize = 0;
        while j < n
            invariant
                n == before.len(),
                before == self.elements@,
                0 <= j <= n,
                incomparable(before),
                forall|k: int| 0 <= k < before.len() ==> !(#[trigger] before[k]).le(x),
                forall|k: int| 0 <= k < kept.len() ==> !x.le(#[trigger] kept@[k]),
                forall|k: int|
                    0 <= k < kept.len() ==> exists|m: int|
                        0 <= m < j && before[m] == #[trigger] kept@[k],
                forall|m: int|
                    0 <= m < j && !x.le(#[trigger] before[m]) ==> kept@.contains(before[m]),
                incomparable(kept@),
                forall|k: int, m: int|
                    0 <= k < kept.len() && j <= m < n ==> !(#[trigger] kept@[k]).le(#[trigger] before[m])
                        && !before[m].le(kept@[k]),
            decreases n - j,
        {
            let y = self.elements[j];
            if !x.less_equal(&y) {
                let ghost old_kept = kept@;
                kept.push(y);
                proof {
                    assert forall|k: int| 0 <= k < kept.len() implies exists|m: int|
                        0 <= m < j + 1 && before[m] == #[trigger] kept@[k] by {
                        if k < old_kept.len() {
                            assert(old_kept[k] == kept@[k]);
                        } else {
                            assert(before[j as int] == kept@[k]);
                        }
                    }
                    assert forall|m: int| 0 <= m < j + 1 && !x.le(#[trigger] before[m]) implies kept@.contains(
                        before[m],
                    ) by {
                        if m < j {
                            assert(old_kept.contains(before[m]));
                            let w = choose|w: int| 0 <= w < old_kept.len() && old_kept[w] == before[m];
                            assert(kept@[w] == before[m]);
                        } else {
                            assert(kept@[kept.len() - 1] == before[m]);
                        }
                    }
                    assert forall|a: int, b: int|
                        0 <= a < kept.len() && 0 <= b < kept.len() && a != b implies !(#[trigger] kept@[a].le(
                        #[trigger] kept@[b],
                    )) by {
                        if a < old_kept.len() && b < old_kept.len() {
                            assert(old_kept[a] == kept@[a] && old_kept[b] == kept@[b]);
                        } else if a < old_kept.len() {
                            assert(old_kept[a] == kept@[a]);
                            assert(kept@[b] == before[j as int]);
                        } else {
                            assert(old_kept[b] == kept@[b]);
                            assert(kept@[a] == before[j as int]);
                        }
                    }
                }
            } else {
                proof {
                    assert forall|m: int| 0 <= m < j + 1 && !x.le(#[trigger] before[m]) implies kept@.contains(
                        before[m],
                    ) by {
                        if m < j {
                        }
                    }
                }
            }
            j = j + 1;
        }
        let ghost kept_before = kept@;
        kept.push(x);
        proof {
            assert forall|a: int, b: int|
                0 <= a < kept.len() && 0 <= b < kept.len() && a != b implies !(#[trigger] kept@[a].le(
                #[trigger] kept@[b],
            )) by {
                if a < kept_before.len() && b < kept_before.len() {
                    assert(kept_before[a] == kept@[a] && kept_before[b] == kept@[b]);
                } else if a < kept_before.len() {
                    assert(kept_before[a] == kept@[a]);
                    let m = choose|m: int| 0 <= m < n && before[m] == kept_before[a];
                    assert(!before[m].le(x));
                } else {
                    assert(kept_before[b] == kept@[b]);
                }
            }
            assert forall|y: X|
                #[trigger] kept@.contains(y) <==> (y == x || (before.contains(y) && !x.le(y))) by {
                if kept@.contains(y) && y != x {
                    let w = choose|w: int| 0 <= w < kept.len() && kept@[w] == y;
                    if w < kept_before.len() {
                        assert(kept_before[w] == y);
                        let m = choose|m: int| 0 <= m < n && before[m] == kept_before[w];
                        assert(before.contains(y));
                    }
                }
                if y == x {
                    assert(kept@[kept.len() - 1] == x);
                } else if before.contains(y) && !x.le(y) {
                    let m = choose|m: int| 0 <= m < n && before[m] == y;
                    assert(kept_before.contains(before[m]));
                    let w = choose|w: int| 0 <= w < kept_before.len() && kept_before[w] == y;
                    assert(kept@[w] == y);
                }
            }
            assert(kept@[kept.len() - 1] == x);
        }
        self.elements = kept;
        true
    }

    /// An antichain with the same elements.
    pub fn copied(&self) -> (r: Self)
        requires
            self.wf(),
        ensures
            r.wf(),
            r@ == self@,
    {
        let mut elements: Vec<X> = Vec::new();
        let n = self.elements.len();
        let mut i: usize = 0;
        while i < n
            invariant
                n == self.elements@.len(),
                0 <= i <= n,
                elements@ == self.elements@.take(i as int),
            decreases n - i,
        {
            elements.push(self.elements[i]);
            proof {
                assert(elements@ =~= self.elements@.take(i + 1));
            }
            i = i + 1;
        }
        proof {
            assert(elements@ =~= self.elements@);
        }
        Antichain { elements }
    }
}

/// Once some element lies at or below `x`, inserting keeps some element at or below `x`.
pub proof fn lemma_insert_keeps_dominated<X: PartialOrder>(before: Seq<X>, after: Seq<X>, z: X, inserted: bool, x: X)
    requires
        dominated(before, x),
        !inserted ==> after == before,
        inserted ==> forall|y: X| #[trigger] after.contains(y) <==> (y == z || (before.contains(y) && !z.le(y))),
    ensures
        dominated(after, x),
{
    if inserted {
        let i = choose|i: int| 0 <= i < before.len() && #[trigger] before[i].le(x);
        let y = before[i];
        assert(before.contains(y));
        if z.le(y) {
            X::le_transitive(z, y, x);
            assert(after.contains(z));
            let k = choose|k: int| 0 <= k < after.len() && after[k] == z;
            assert(after[k].le(x));
        } else {
            assert(after.contains(y));
            let k = choose|k: int| 0 <= k < after.len() && after[k] == y;
            assert(after[k].le(x));
        }
    }
}

/// After inserting `x`, some element lies at or below `x`.
pub proof fn lemma_insert_dominates<X: PartialOrder>(before: Seq<X>, after: Seq<X>, x: X, inserted: bool)
    requires
        inserted == !dominated(before, x),
        !inserted ==> after == before,
        inserted ==> after.contains(x),
    ensures
        dominated(after, x),
{
    if inserted {
        let k = choose|k: int| 0 <= k < after.len() && after[k] == x;
        X::le_reflexive(x);
        assert(after[k].le(x));
    }
}

} // verus!
