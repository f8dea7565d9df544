//! Multisets of timestamps that expose their minimal elements.
use vstd::prelude::*;

use crate::count_map::{
    clamped, coalesced, count_after, count_in, lemma_count_after_coalesced, lemma_count_at, lemma_count_at_range, CountMap,
};
use crate::order::PartialOrder;

verus! {

/// Whether `t` has a positive count in `s` and no other key with a positive count lies at
/// or below it.
pub open spec fn frontier_member<T: PartialOrder>(s: Seq<(T, i64)>, t: T) -> bool {
    &&& exists|i: int| 0 <= i < s.len() && (#[trigger] s[i]).0 == t && s[i].1 > 0
    &&& forall|j: int| 0 <= j < s.len() && (#[trigger] s[j]).1 > 0 && s[j].0.le(t) ==> s[j].0 == t
}

/// How the frontier's membership of `t` changed from `before` to `after`: `1` if `t` joined
/// it, `-1` if `t` left it, `0` otherwise.
pub open spec fn frontier_delta<T: PartialOrder>(
    before: MutableAntichain<T>,
    after: MutableAntichain<T>,
    t: T,
) -> int {
    if after.in_frontier(t) && !before.in_frontier(t) {
        1
    } else if !after.in_frontier(t) && before.in_frontier(t) {
        -1
    } else {
        0
    }
}

/// A multiset of timestamps, with counts that may pass through negative values, and its
/// frontier: the minimal timestamps among those with a positive count.
#[derive(Clone, Debug)]
pub struct MutableAntichain<T> {
    counts: CountMap<T>,
    frontier: Vec<T>,
}

impl<T: PartialOrder> MutableAntichain<T> {
    pub closed spec fn wf(&self) -> bool {
        &&& self.counts.wf()
        &&& forall|t: T| #[trigger] self.frontier@.contains(t) <==> frontier_member(self.counts@, t)
        &&& self.frontier@.no_duplicates()
    }

    /// The count held for `t`.
    pub closed spec fn count(&self, t: T) -> int {
        self.counts.count(t)
    }

    /// Whether `t` is an element of the frontier.
    pub closed spec fn in_frontier(&self, t: T) -> bool {
        frontier_member(self.counts@, t)
    }

    /// The frontier as a sequence without repetitions.
    pub closed spec fn frontier_seq(&self) -> Seq<T> {
        self.frontier@
    }

    pub proof fn lemma_frontier_seq(&self)
        requires
            self.wf(),
        ensures
            self.frontier_seq().no_duplicates(),
            forall|t: T| #[trigger] self.frontier_seq().contains(t) <==> self.in_frontier(t),
    {
    }

    /// The frontier holds exactly the timestamps with a positive count below which no other
    /// timestamp has a positive count.
    pub proof fn lemma_frontier_minimal(&self, t: T)
        requires
            self.wf(),
        ensures
            self.in_frontier(t) <==> (self.count(t) > 0 && forall|u: T|
                #[trigger] self.count(u) > 0 && u.le(t) ==> u == t),
    {
        let s = self.counts@;
        if self.in_frontier(t) {
            let i = choose|i: int| 0 <= i < s.len() && (#[trigger] s[i]).0 == t && s[i].1 > 0;
            lemma_count_at(s, i);
            assert forall|u: T| #[trigger] self.count(u) > 0 && u.le(t) implies u == t by {
                if exists|j: int| 0 <= j < s.len() && (#[trigger] s[j]).0 == u {
                    let j = choose|j: int| 0 <= j < s.len() && (#[trigger] s[j]).0 == u;
                    lemma_count_at(s, j);
                }
            }
        }
        if self.count(t) > 0 && forall|u: T| #[trigger] self.count(u) > 0 && u.le(t) ==> u == t {
            let i = choose|i: int| 0 <= i < s.len() && (#[trigger] s[i]).0 == t;
            lemma_count_at(s, i);
            assert forall|j: int| 0 <= j < s.len() && (#[trigger] s[j]).1 > 0 && s[j].0.le(t) implies s[j].0 == t by {
                lemma_count_at(s, j);
                assert(self.count(s[j].0) > 0);
            }
        }
    }

    /// Every count lies in the range of `i64`.
    pub proof fn lemma_count_range(&self, t: T)
        requires
            self.wf(),
        ensures
            clamped(self.count(t)) == self.count(t),
    {
        lemma_count_at_range(self.counts, t);
    }

    /// Whether some timestamp has a negative count.
    pub fn has_negative(&self) -> (r: bool)
        requires
            self.wf(),
        ensures
            r == exists|t: T| #[trigger] self.count(t) < 0,
    {
        let entries = self.counts.elements();
        let n = entries.len();
        let mut i: usize = 0;
        while i < n
            invariant
                n == entries@.len(),
                entries@ == self.counts@,
                coalesced(self.counts@),
                0 <= i <= n,
                forall|k: int| 0 <= k < i ==> (#[trigger] entries@[k]).1 >= 0,
            decreases n - i,
        {
            if entries[i].1 < 0 {
                proof {
                    lemma_count_at(self.counts@, i as int);
                    assert(self.count(entries@[i as int].0) < 0);
                }
                return true;
            }
            i = i + 1;
        }
        proof {
            assert forall|t: T| #[trigger] self.count(t) >= 0 by {
                if exists|k: int| 0 <= k < n && (#[trigger] entries@[k]).0 == t {
                    let k = choose|k: int| 0 <= k < n && (#[trigger] entries@[k]).0 == t;
                    lemma_count_at(self.counts@, k);
                }
            }
        }
        false
    }

    /// The frontier of an empty multiset: no element.
    pub fn new() -> (r: Self)
        ensures
            r.wf(),
            forall|t: T| r.count(t) == 0 && !r.in_frontier(t),
    {
        let r = MutableAntichain { counts: CountMap::new(), frontier: Vec::new() };
        proof {
            assert(r.frontier@ =~= Seq::<T>::empty());
        }
        r
    }

    /// The current frontier, in no particular order.
    pub fn elements(&self) -> (r: &Vec<T>)
        requires
            self.wf(),
        ensures
            r@ == self.frontier_seq(),
    {
        &self.frontier
    }

    /// Applies each `(t, delta)` of `batch` in turn and returns the frontier's changes:
    /// `(t, 1)` for each `t` that joined it and `(t, -1)` for each `t` that left it.
    pub fn update_iter_and(&mut self, batch: &Vec<(T, i64)>) -> (changes: Vec<(T, i64)>)
        requires
            old(self).wf(),
        ensures
            final(self).wf(),
            forall|t: T| #[trigger] final(self).count(t) == count_after(old(self).count(t), batch@, t),
            coalesced(changes@),
            forall|k: int| 0 <= k < changes@.len() ==> (#[trigger] changes@[k]).1 == 1 || changes@[k].1 == -1,
            forall|t: T|
                #[trigger] changes@.contains((t, 1i64)) <==> (final(self).in_frontier(t) && !old(self).in_frontier(t)),
            forall|t: T|
                #[trigger] changes@.contains((t, -1i64)) <==> (!final(self).in_frontier(t) && old(self).in_frontier(t)),
    {
        self.counts.update_all(batch);
        let ghost s = self.counts@;
        let entries = self.counts.elements();
        let n = entries.len();
        let mut fresh: Vec<T> = Vec::new();
        let mut i: usize = 0;
        while i < n
            invariant
                n == s.len(),
                entries@ == s,
                coalesced(s),
                self.frontier@ == old(self).frontier@,
                0 <= i <= n,
                fresh@.no_duplicates(),
                forall|k: int| #![trigger fresh@[k]]
                    0 <= k < fresh.len() ==> exists|m: int| 0 <= m < i && (#[trigger] s[m]).0 == fresh@[k],
                forall|t: T| #[trigger] fresh@.contains(t) ==> frontier_member(s, t),
                forall|m: int| 0 <= m < i && frontier_member(s, #[trigger] s[m].0) ==> fresh@.contains(s[m].0),
            decreases n - i,
        {
            let (t, c) = entries[i];
            let mut minimal = c > 0;
            let mut j: usize = 0;
            while j < n && minimal
                invariant
                    n == s.len(),
                    entries@ == s,
                    coalesced(s),
                    0 <= i < n,
                    s[i as int] == (t, c),
                    0 <= j <= n,
                    minimal ==> c > 0,
                    minimal ==> forall|m: int|
                        0 <= m < j && m != i && (#[trigger] s[m]).1 > 0 ==> !s[m].0.le(t),
                    !minimal ==> !frontier_member(s, t),
                decreases n - j,
            {
                let (u, d) = entries[j];
                if j != i && d > 0 && u.less_equal(&t) {
                    minimal = false;
                    assert(s[j as int].0 != t);
                }
                j = j + 1;
            }
            if minimal {
                proof {
                    assert forall|m: int|
                        0 <= m < s.len() && (#[trigger] s[m]).1 > 0 && s[m].0.le(t) implies s[m].0 == t by {
                        if m != i {
                            assert(!s[m].0.le(t));
                        }
                    }
                    assert(s[i as int].0 == t);
                    assert(frontier_member(s, t));
                    assert(!fresh@.contains(t)) by {
                        if fresh@.contains(t) {
                            let k = choose|k: int| 0 <= k < fresh.len() && fresh@[k] == t;
                            let m = choose|m: int| 0 <= m < i && (#[trigger] s[m]).0 == fresh@[k];
                            assert(s[m].0 == s[i as int].0);
                        }
                    }
                }
                let ghost before = fresh@;
                fresh.push(t);
                proof {
                    assert forall|k: int| #![trigger fresh@[k]] 0 <= k < fresh.len() implies exists|m: int|
                        0 <= m < i + 1 && (#[trigger] s[m]).0 == fresh@[k] by {
                        if k < before.len() {
                            assert(before[k] == fresh@[k]);
                            let m = choose|m: int| 0 <= m < i && (#[trigger] s[m]).0 == before[k];
                            assert(s[m].0 == fresh@[k]);
                        } else {
                            assert(s[i as int].0 == fresh@[k]);
                        }
                    }
                    assert forall|t2: T| #[trigger] fresh@.contains(t2) implies frontier_member(s, t2) by {
                        if t2 != t {
                            let k = choose|k: int| 0 <= k < fresh.len() && fresh@[k] == t2;
                            assert(before[k] == t2);
                            assert(before.contains(t2));
                        }
                    }
                    assert forall|m: int| 0 <= m < i + 1 && frontier_member(s, #[trigger] s[m].0) implies fresh@.contains(
                        s[m].0,
                    ) by {
                        if m < i {
                            assert(before.contains(s[m].0));
                            let k = choose|k: int| 0 <= k < before.len() && before[k] == s[m].0;
                            assert(fresh@[k] == s[m].0);
                        } else {
                            assert(fresh@[before.len() as int] == t);
                        }
                    }
                }
            } else {
                proof {
                    assert forall|m: int| 0 <= m < i + 1 && frontier_member(s, #[trigger] s[m].0) implies fresh@.contains(
                        s[m].0,
                    ) by {
                        if m == i {
                            assert(s[m].0 == t);
                        }
                    }
                }
            }
            i = i + 1;
        }
        proof {
            assert forall|t: T| frontier_member(s, t) implies #[trigger] fresh@.contains(t) by {
                let m = choose|m: int| 0 <= m < s.len() && (#[trigger] s[m]).0 == t && s[m].1 > 0;
                assert(frontier_member(s, s[m].0));
            }
        }
        let mut changes: Vec<(T, i64)> = Vec::new();
        let f = fresh.len();
        let mut a: usize = 0;
        while a < f
            invariant
                f == fresh.len(),
                0 <= a <= f,
                self.frontier@ == old(self).frontier@,
                fresh@.no_duplicates(),
                old(self).frontier@.no_duplicates(),
                coalesced(changes@),
                forall|k: int| 0 <= k < changes@.len() ==> (#[trigger] changes@[k]).1 == 1,
                forall|k: int| #![trigger changes@[k]]
                    0 <= k < changes@.len() ==> exists|m: int| 0 <= m < a && (#[trigger] fresh@[m]) == changes@[k].0,
                forall|t: T|
                    #[trigger] changes@.contains((t, 1i64)) <==> (exists|m: int|
                        0 <= m < a && (#[trigger] fresh@[m]) == t) && !old(self).frontier@.contains(t),
            decreases f - a,
        {
            let t = fresh[a];
            let mut present = false;
            let mut b: usize = 0;
            let g = self.frontier.len();
            while b < g
                invariant
                    g == self.frontier.len(),
                    self.frontier@ == old(self).frontier@,
                    0 <= b <= g,
                    present == (exists|m: int| 0 <= m < b && (#[trigger] self.frontier@[m]) == t),
                decreases g - b,
            {
                if self.frontier[b].equals(&t) {
                    present = true;
                }
                b = b + 1;
            }
            let ghost before = changes@;
            if !present {
                changes.push((t, 1i64));
            }
            proof {
                assert forall|k: int| #![trigger changes@[k]] 0 <= k < changes@.len() implies exists|m: int|
                    0 <= m < a + 1 && (#[trigger] fresh@[m]) == changes@[k].0 by {
                    if k < before.len() {
                        assert(before[k] == changes@[k]);
                        let m = choose|m: int| 0 <= m < a && (#[trigger] fresh@[m]) == before[k].0;
                    } else {
                        assert(fresh@[a as int] == changes@[k].0);
                    }
                }
                assert forall|x: int, y: int|
                    0 <= x < changes@.len() && 0 <= y < changes@.len() && x != y implies (#[trigger] changes@[x]).0
                        != (#[trigger] changes@[y]).0 by {
                    if x < before.len() && y < before.len() {
                        assert(before[x] == changes@[x] && before[y] == changes@[y]);
                    } else if x < before.len() {
                        assert(before[x] == changes@[x]);
                        let m = choose|m: int| 0 <= m < a && (#[trigger] fresh@[m]) == before[x].0;
                        assert(fresh@[m] != fresh@[a as int]);
                    } else {
                        assert(before[y] == changes@[y]);
                        let m = choose|m: int| 0 <= m < a && (#[trigger] fresh@[m]) == before[y].0;
                        assert(fresh@[m] != fresh@[a as int]);
                    }
                }
                assert forall|t2: T|
                    #[trigger] changes@.contains((t2, 1i64)) <==> (exists|m: int|
                        0 <= m < a + 1 && (#[trigger] fresh@[m]) == t2) && !old(self).frontier@.contains(t2) by {
                    if changes@.contains((t2, 1i64)) {
                        let k = choose|k: int| 0 <= k < changes@.len() && changes@[k] == (t2, 1i64);
                        if k < before.len() {
                            assert(before[k] == changes@[k]);
                            assert(before.contains((t2, 1i64)));
                        } else {
                            assert(fresh@[a as int] == t2);
                        }
                    }
                    if (exists|m: int| 0 <= m < a + 1 && (#[trigger] fresh@[m]) == t2) && !old(self).frontier@.contains(t2) {
                        let m = choose|m: int| 0 <= m < a + 1 && (#[trigger] fresh@[m]) == t2;
                        if m < a {
                            assert(before.contains((t2, 1i64)));
                            let k = choose|k: int| 0 <= k < before.len() && before[k] == (t2, 1i64);
                            assert(changes@[k] == (t2, 1i64));
                        } else {
                            assert(!present);
                            assert(changes@[before.len() as int] == (t2, 1i64));
                        }
                    }
                    if before.contains((t2, 1i64)) {
                        let k = choose|k: int| 0 <= k < before.len() && before[k] == (t2, 1i64);
                        assert(changes@[k] == (t2, 1i64));
                    }
                }
            }
            a = a + 1;
        }
        let ghost joined = changes@;
        let g = self.frontier.len();
        let mut b: usize = 0;
        while b < g
            invariant
                g == self.frontier.len(),
                f == fresh.len(),
                0 <= b <= g,
                self.frontier@ == old(self).frontier@,
                fresh@.no_duplicates(),
                old(self).frontier@.no_duplicates(),
                coalesced(changes@),
                joined.len() <= changes@.len(),
                forall|k: int| 0 <= k < joined.len() ==> joined[k] == #[trigger] changes@[k],
                forall|k: int| 0 <= k < joined.len() ==> fresh@.contains(#[trigger] changes@[k].0),
                forall|k: int|
                    joined.len() <= k < changes@.len() ==> (#[trigger] changes@[k]).1 == -1 && exists|m: int|
                        0 <= m < b && (#[trigger] self.frontier@[m]) == changes@[k].0,
                forall|k: int| joined.len() <= k < changes@.len() ==> !fresh@.contains(#[trigger] changes@[k].0),
                forall|k: int| 0 <= k < joined.len() ==> (#[trigger] changes@[k]).1 == 1,
                forall|t: T|
                    #[trigger] changes@.contains((t, -1i64)) <==> (exists|m: int|
                        0 <= m < b && (#[trigger] self.frontier@[m]) == t) && !fresh@.contains(t),
            decreases g - b,
        {
            let t = self.frontier[b];
            let mut present = false;
            let mut c: usize = 0;
            while c < f
                invariant
                    f == fresh.len(),
                    0 <= c <= f,
                    present == (exists|m: int| 0 <= m < c && (#[trigger] fresh@[m]) == t),
                decreases f - c,
            {
                if fresh[c].equals(&t) {
                    present = true;
                }
                c = c + 1;
            }
            let ghost before = changes@;
            if !present {
                changes.push((t, -1i64));
            }
            proof {
                assert forall|x: int, y: int|
                    0 <= x < changes@.len() && 0 <= y < changes@.len() && x != y implies (#[trigger] changes@[x]).0
                        != (#[trigger] changes@[y]).0 by {
                    if x < before.len() && y < before.len() {
                        assert(before[x] == changes@[x] && before[y] == changes@[y]);
                    } else if x < before.len() {
                        assert(before[x] == changes@[x]);
                        if x >= joined.len() {
                            let m = choose|m: int| 0 <= m < b && (#[trigger] self.frontier@[m]) == before[x].0;
                            assert(self.frontier@[m] != self.frontier@[b as int]);
                        }
                    } else if y < before.len() {
                        assert(before[y] == changes@[y]);
                        if y >= joined.len() {
                            let m = choose|m: int| 0 <= m < b && (#[trigger] self.frontier@[m]) == before[y].0;
                            assert(self.frontier@[m] != self.frontier@[b as int]);
                        }
                    }
                }
                assert forall|k: int| #![trigger changes@[k]]
                    joined.len() <= k < changes@.len() implies (#[trigger] changes@[k]).1 == -1 && exists|m: int|
                        0 <= m < b + 1 && (#[trigger] self.frontier@[m]) == changes@[k].0 by {
                    if k < before.len() {
                        assert(before[k] == changes@[k]);
                        let m = choose|m: int| 0 <= m < b && (#[trigger] self.frontier@[m]) == before[k].0;
                    } else {
                        assert(self.frontier@[b as int] == changes@[k].0);
                    }
                }
                assert forall|t2: T|
                    #[trigger] changes@.contains((t2, -1i64)) <==> (exists|m: int|
                        0 <= m < b + 1 && (#[trigger] self.frontier@[m]) == t2) && !fresh@.contains(t2) by {
                    if changes@.contains((t2, -1i64)) {
                        let k = choose|k: int| 0 <= k < changes@.len() && changes@[k] == (t2, -1i64);
                        if k < before.len() {
                            assert(before[k] == changes@[k]);
                            assert(before.contains((t2, -1i64)));
                        } else {
                            assert(self.frontier@[b as int] == t2);
                        }
                    }
                    if (exists|m: int| 0 <= m < b + 1 && (#[trigger] self.frontier@[m]) == t2) && !fresh@.contains(t2) {
                        let m = choose|m: int| 0 <= m < b + 1 && (#[trigger] self.frontier@[m]) == t2;
                        if m < b {
                            assert(before.contains((t2, -1i64)));
                            let k = choose|k: int| 0 <= k < before.len() && before[k] == (t2, -1i64);
                            assert(changes@[k] == (t2, -1i64));
                        } else {
                            assert(changes@[before.len() as int] == (t2, -1i64));
                        }
                    }
                    if before.contains((t2, -1i64)) {
                        let k = choose|k: int| 0 <= k < before.len() && before[k] == (t2, -1i64);
                        assert(changes@[k] == (t2, -1i64));
                    }
                }
            }
            b = b + 1;
        }
        proof {
            assert forall|t: T|
                #[trigger] changes@.contains((t, 1i64)) <==> joined.contains((t, 1i64)) by {
                if changes@.contains((t, 1i64)) {
                    let k = choose|k: int| 0 <= k < changes@.len() && changes@[k] == (t, 1i64);
                    if k >= joined.len() {
                        assert(changes@[k].1 == -1);
                    }
                    assert(joined[k] == changes@[k]);
                }
                if joined.contains((t, 1i64)) {
                    let k = choose|k: int| 0 <= k < joined.len() && joined[k] == (t, 1i64);
                    assert(changes@[k] == joined[k]);
                }
            }
            assert forall|t: T| #[trigger] fresh@.contains(t) implies (exists|m: int|
                0 <= m < f && (#[trigger] fresh@[m]) == t) by {
                let m = choose|m: int| 0 <= m < f && fresh@[m] == t;
            }
            assert forall|t: T| #[trigger] old(self).frontier@.contains(t) implies (exists|m: int|
                0 <= m < g && (#[trigger] self.frontier@[m]) == t) by {
                let m = choose|m: int| 0 <= m < g && old(self).frontier@[m] == t;
                assert(self.frontier@[m] == t);
            }
        }
        proof {
            assert forall|t: T| #[trigger] changes@.contains((t, -1i64)) <==> (old(self).frontier@.contains(t)
                && !fresh@.contains(t)) by {
                if old(self).frontier@.contains(t) {
                    let m = choose|m: int| 0 <= m < g && old(self).frontier@[m] == t;
                    assert(self.frontier@[m] == t);
                }
                if changes@.contains((t, -1i64)) {
                    let m = choose|m: int| 0 <= m < g && (#[trigger] self.frontier@[m]) == t;
                    assert(old(self).frontier@[m] == t);
                }
            }
        }
        self.frontier = fresh;
        changes
    }

    /// Applies each `(t, delta)` of `batch` in turn and adds the frontier's changes into
    /// `changes`.
    pub fn update_iter_into(&mut self, batch: &Vec<(T, i64)>, changes: &mut CountMap<T>)
        requires
            old(self).wf(),
            old(changes).wf(),
        ensures
            final(self).wf(),
            final(changes).wf(),
            forall|t: T| #[trigger] final(self).count(t) == count_after(old(self).count(t), batch@, t),
            forall|t: T|
                #[trigger] final(changes).count(t) == clamped(
                    old(changes).count(t) + frontier_delta(*old(self), *final(self), t),
                ),
    {
        let delta = self.update_iter_and(batch);
        let ghost before_changes = *changes;
        changes.update_all(&delta);
        proof {
            assert forall|t: T|
                #[trigger] changes.count(t) == clamped(
                    before_changes.count(t) + frontier_delta(*old(self), *self, t),
                ) by {
                lemma_count_after_coalesced(before_changes.count(t), delta@, t);
                if exists|i: int| 0 <= i < delta@.len() && (#[trigger] delta@[i]).0 == t {
                    let i = choose|i: int| 0 <= i < delta@.len() && (#[trigger] delta@[i]).0 == t;
                    lemma_count_at(delta@, i);
                    if delta@[i].1 == 1 {
                        assert(delta@.contains((t, 1i64)));
                    } else {
                        assert(delta@.contains((t, -1i64)));
                    }
                } else {
                    assert(!delta@.contains((t, 1i64)));
                    assert(!delta@.contains((t, -1i64)));
                    lemma_count_at_range(before_changes, t);
                }
            }
        }
    }

    /// Applies the counts of `updates` and adds the frontier's changes into `changes`.
    pub fn update_into_cm(&mut self, updates: &CountMap<T>, changes: &mut CountMap<T>)
        requires
            old(self).wf(),
            updates.wf(),
            old(changes).wf(),
        ensures
            final(self).wf(),
            final(changes).wf(),
            forall|t: T| #[trigger] final(self).count(t) == count_after(old(self).count(t), updates@, t),
            forall|t: T|
                #[trigger] final(changes).count(t) == clamped(
                    old(changes).count(t) + frontier_delta(*old(self), *final(self), t),
                ),
    {
        self.update_iter_into(updates.elements(), changes);
    }
}

} // verus!
