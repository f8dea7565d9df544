//! Coalescing lists of signed counts, keyed by value.
use vstd::prelude::*;

use crate::order::PartialOrder;

verus! {

/// `x`, held to the range of `i64`.
pub open spec fn clamped(x: int) -> int {
    if x > i64::MAX {
        i64::MAX as int
    } else if x < i64::MIN {
        i64::MIN as int
    } else {
        x
    }
}

/// The count that a list of `(key, count)` pairs gives `t`: the count of its entry, or zero.
pub open spec fn count_in<T>(s: Seq<(T, i64)>, t: T) -> int {
    if exists|i: int| 0 <= i < s.len() && (#[trigger] s[i]).0 == t {
        s[choose|i: int| 0 <= i < s.len() && (#[trigger] s[i]).0 == t].1 as int
    } else {
        0
    }
}

/// The count of `t` after adding each `(key, delta)` of `batch` in turn to `base`.
pub open spec fn count_after<T>(base: int, batch: Seq<(T, i64)>, t: T) -> int
    decreases batch.len(),
{
    if batch.len() == 0 {
        base
    } else {
        let prev = count_after(base, batch.drop_last(), t);
        if batch.last().0 == t {
            clamped(prev + batch.last().1)
        } else {
            prev
        }
    }
}

/// Applying two batches in turn is applying their concatenation.
pub proof fn lemma_count_after_concat<T>(base: int, first: Seq<(T, i64)>, second: Seq<(T, i64)>, t: T)
    ensures
        count_after(base, first + second, t) == count_after(count_after(base, first, t), second, t),
    decreases second.len(),
{
    if second.len() == 0 {
        assert(first + second =~= first);
    } else {
        assert((first + second).drop_last() =~= first + second.drop_last());
        assert((first + second).last() == second.last());
        lemma_count_after_concat(base, first, second.drop_last(), t);
    }
}

/// The sum of the deltas that `batch` holds for `t`.
pub open spec fn sum_for<T>(batch: Seq<(T, i64)>, t: T) -> int
    decreases batch.len(),
{
    if batch.len() == 0 {
        0
    } else {
        sum_for(batch.drop_last(), t) + if batch.last().0 == t {
            batch.last().1 as int
        } else {
            0
        }
    }
}

/// The sum of the magnitudes of the deltas of `batch`.
pub open spec fn magnitude<T>(batch: Seq<(T, i64)>) -> int
    decreases batch.len(),
{
    if batch.len() == 0 {
        0
    } else {
        magnitude(batch.drop_last()) + if batch.last().1 >= 0 {
            batch.last().1 as int
        } else {
            -(batch.last().1 as int)
        }
    }
}

/// A magnitude is never negative.
pub proof fn lemma_magnitude_nonnegative<T>(batch: Seq<(T, i64)>)
    ensures
        magnitude(batch) >= 0,
    decreases batch.len(),
{
    if batch.len() > 0 {
        lemma_magnitude_nonnegative(batch.drop_last());
    }
}

/// Away from the bounds of `i64`, applying a batch adds its sum: no count saturates while
/// the starting count and every delta together stay within range.
pub proof fn lemma_count_after_sum<T>(base: int, batch: Seq<(T, i64)>, t: T)
    requires
        (if base >= 0 { base } else { -base }) + magnitude(batch) <= i64::MAX,
    ensures
        count_after(base, batch, t) == base + sum_for(batch, t),
        -magnitude(batch) <= sum_for(batch, t) <= magnitude(batch),
    decreases batch.len(),
{
    if batch.len() > 0 {
        lemma_count_after_sum(base, batch.drop_last(), t);
    }
}

/// Keys are distinct and no count is zero.
pub open spec fn coalesced<T>(s: Seq<(T, i64)>) -> bool {
    &&& forall|i: int, j: int|
        0 <= i < s.len() && 0 <= j < s.len() && i != j ==> (#[trigger] s[i]).0 != (#[trigger] s[j]).0
    &&& forall|i: int| 0 <= i < s.len() ==> (#[trigger] s[i]).1 != 0
}

/// In a coalesced list, the count of a key is the count of its entry.
pub proof fn lemma_count_at<T>(s: Seq<(T, i64)>, i: int)
    requires
        coalesced(s),
        0 <= i < s.len(),
    ensures
        count_in(s, s[i].0) == s[i].1,
{
    let t = s[i].0;
    assert(s[i].0 == t);
    let k = choose|k: int| 0 <= k < s.len() && (#[trigger] s[k]).0 == t;
    assert(k == i);
}

/// In a list, a key without an entry counts zero.
pub proof fn lemma_count_absent<T>(s: Seq<(T, i64)>, t: T)
    requires
        forall|i: int| 0 <= i < s.len() ==> (#[trigger] s[i]).0 != t,
    ensures
        count_in(s, t) == 0,
{
}

/// Applying a coalesced list adds its count for `t` once, if it has an entry for `t`.
pub proof fn lemma_count_after_coalesced<T>(base: int, v: Seq<(T, i64)>, t: T)
    requires
        coalesced(v),
    ensures
        count_after(base, v, t) == if exists|i: int| 0 <= i < v.len() && (#[trigger] v[i]).0 == t {
            clamped(base + count_in(v, t))
        } else {
            base
        },
    decreases v.len(),
{
    if v.len() > 0 {
        let w = v.drop_last();
        assert forall|i: int, j: int|
            0 <= i < w.len() && 0 <= j < w.len() && i != j implies (#[trigger] w[i]).0 != (#[trigger] w[j]).0 by {
            assert(w[i] == v[i] && w[j] == v[j]);
        }
        assert forall|i: int| 0 <= i < w.len() implies (#[trigger] w[i]).1 != 0 by {
            assert(w[i] == v[i]);
        }
        lemma_count_after_coalesced(base, w, t);
        let last = v.len() - 1;
        if v.last().0 == t {
            assert forall|i: int| 0 <= i < w.len() implies (#[trigger] w[i]).0 != t by {
                assert(w[i] == v[i]);
            }
            lemma_count_at(v, last);
        } else {
            if exists|i: int| 0 <= i < w.len() && (#[trigger] w[i]).0 == t {
                let i = choose|i: int| 0 <= i < w.len() && (#[trigger] w[i]).0 == t;
                assert(w[i] == v[i]);
                lemma_count_at(w, i);
                lemma_count_at(v, i);
            } else {
                assert forall|i: int| 0 <= i < v.len() implies (#[trigger] v[i]).0 != t by {
                    if i < last {
                        assert(w[i] == v[i]);
                    }
                }
            }
        }
    }
}

/// A keyed multiset of signed counts; entries with equal keys are merged, zeros dropped.
#[derive(Clone, Debug)]
pub struct CountMap<T> {
    updates: Vec<(T, i64)>,
}

impl<T: PartialOrder> View for CountMap<T> {
    type V = Seq<(T, i64)>;

    closed spec fn view(&self) -> Seq<(T, i64)> {
        self.updates@
    }
}

impl<T: PartialOrder> CountMap<T> {
    pub open spec fn wf(&self) -> bool {
        coalesced(self@)
    }

    /// The count held for `t`.
    pub open spec fn count(&self, t: T) -> int {
        count_in(self@, t)
    }

    pub fn new() -> (r: Self)
        ensures
            r.wf(),
            r@.len() == 0,
    {
        CountMap { updates: Vec::new() }
    }

    /// The non-zero entries, in no particular order.
    pub fn elements(&self) -> (r: &Vec<(T, i64)>)
        ensures
            r@ == self@,
    {
        &self.updates
    }

    pub fn len(&self) -> (r: usize)
        ensures
            r == self@.len(),
    {
        self.updates.len()
    }

    pub fn is_empty(&self) -> (r: bool)
        ensures
            r == (self@.len() == 0),
    {
        self.updates.len() == 0
    }

    pub fn clear(&mut self)
        ensures
            final(self).wf(),
            final(self)@.len() == 0,
    {
        self.updates = Vec::new();
    }

    /// Adds `delta` to the count of `t`, saturating at the bounds of `i64`.
    pub fn update(&mut self, t: T, delta: i64)
        requires
            old(self).wf(),
        ensures
            final(self).wf(),
            final(self).count(t) == clamped(old(self).count(t) + delta),
            forall|u: T| u != t ==> #[trigger] final(self).count(u) == old(self).count(u),
            (forall|i: int| 0 <= i < old(self)@.len() ==> (#[trigger] old(self)@[i]).0 != t) && delta != 0
                ==> final(self)@ == old(self)@.push((t, delta)),
    {
        let n = self.updates.len();
        let mut i: usize = 0;
        while i < n
            invariant
                n == self.updates.len(),
                self.updates@ == old(self).updates@,
                coalesced(self.updates@),
                0 <= i <= n,
                forall|k: int| 0 <= k < i ==> (#[trigger] self.updates@[k]).0 != t,
            decreases n - i,
        {
            if self.updates[i].0.equals(&t) {
                let ghost before = self.updates@;
                proof {
                    lemma_count_at(before, i as int);
                }
                let current = self.updates[i].1;
                let sum: i128 = current as i128 + delta as i128;
                let next: i64 = if sum > i64::MAX as i128 {
                    i64::MAX
                } else if sum < i64::MIN as i128 {
                    i64::MIN
                } else {
                    sum as i64
                };
                if next == 0 {
                    self.updates.remove(i);
                    proof {
                        let after = self.updates@;
                        assert(after =~= before.remove(i as int));
                        assert forall|k: int| 0 <= k < after.len() implies (#[trigger] after[k]).0 != t by {
                            if k < i {
                                assert(after[k] == before[k]);
                            } else {
                                assert(after[k] == before[k + 1]);
                            }
                        }
                        lemma_count_absent(after, t);
                        assert forall|u: T| u != t implies #[trigger] count_in(after, u) == count_in(before, u) by {
                            if exists|k: int| 0 <= k < before.len() && (#[trigger] before[k]).0 == u {
                                let k = choose|k: int| 0 <= k < before.len() && (#[trigger] before[k]).0 == u;
                                lemma_count_at(before, k);
                                assert(k != i);
                                let k2 = if k < i { k } else { k - 1 };
                                assert(after[k2] == before[k]);
                                lemma_count_at(after, k2);
                            } else {
                                assert forall|k: int| 0 <= k < after.len() implies (#[trigger] after[k]).0 != u by {
                                    if k < i {
                                        assert(after[k] == before[k]);
                                    } else {
                                        assert(after[k] == before[k + 1]);
                                    }
                                }
                            }
                        }
                    }
                } else {
                    self.updates.set(i, (t, next));
                    proof {
                        let after = self.updates@;
                        lemma_count_at(after, i as int);
                        assert forall|u: T| u != t implies #[trigger] count_in(after, u) == count_in(before, u) by {
                            if exists|k: int| 0 <= k < before.len() && (#[trigger] before[k]).0 == u {
                                let k = choose|k: int| 0 <= k < before.len() && (#[trigger] before[k]).0 == u;
                                lemma_count_at(before, k);
                                assert(after[k] == before[k]);
                                lemma_count_at(after, k);
                            } else {
                                assert forall|k: int| 0 <= k < after.len() implies (#[trigger] after[k]).0 != u by {
                                    if k != i {
                                        assert(after[k] == before[k]);
                                    }
                                }
                            }
                        }
                    }
                }
                return;
            }
            i = i + 1;
        }
        let ghost before = self.updates@;
        proof {
            lemma_count_absent(before, t);
        }
        if delta != 0 {
            self.updates.push((t, delta));
            proof {
                let after = self.updates@;
                lemma_count_at(after, n as int);
                assert forall|u: T| u != t implies #[trigger] count_in(after, u) == count_in(before, u) by {
                    if exists|k: int| 0 <= k < before.len() && (#[trigger] before[k]).0 == u {
                        let k = choose|k: int| 0 <= k < before.len() && (#[trigger] before[k]).0 == u;
                        lemma_count_at(before, k);
                        assert(after[k] == before[k]);
                        lemma_count_at(after, k);
                    } else {
                        assert forall|k: int| 0 <= k < after.len() implies (#[trigger] after[k]).0 != u by {
                            if k < n {
                                assert(after[k] == before[k]);
                            }
                        }
                    }
                }
            }
        }
    }

    /// Adds each `(key, delta)` of `batch` in turn.
    pub fn update_all(&mut self, batch: &Vec<(T, i64)>)
        requires
            old(self).wf(),
        ensures
            final(self).wf(),
            forall|t: T| #[trigger] final(self).count(t) == count_after(old(self).count(t), batch@, t),
    {
        let n = batch.len();
        let mut i: usize = 0;
        while i < n
            invariant
                n == batch.len(),
                0 <= i <= n,
                self.wf(),
                forall|t: T|
                    #[trigger] self.count(t) == count_after(
                        old(self).count(t),
                        batch@.subrange(0, i as int),
                        t,
                    ),
            decreases n - i,
        {
            let (t, delta) = batch[i];
            let ghost mid = *self;
            self.update(t, delta);
            proof {
                let pre = batch@.subrange(0, i as int);
                let post = batch@.subrange(0, i + 1);
                assert(post.drop_last() =~= pre);
                assert forall|u: T| #[trigger] self.count(u) == count_after(old(self).count(u), post, u) by {
                    assert(mid.count(u) == count_after(old(self).count(u), pre, u));
                }
            }
            i = i + 1;
        }
        proof {
            assert(batch@.subrange(0, n as int) =~= batch@);
        }
    }
}

/// Every count held in a count map lies in the range of `i64`.
pub proof fn lemma_count_at_range<T: PartialOrder>(m: CountMap<T>, t: T)
    requires
        m.wf(),
    ensures
        clamped(m.count(t)) == m.count(t),
{
    if exists|i: int| 0 <= i < m@.len() && (#[trigger] m@[i]).0 == t {
        let i = choose|i: int| 0 <= i < m@.len() && (#[trigger] m@[i]).0 == t;
        lemma_count_at(m@, i);
    }
}

} // verus!
