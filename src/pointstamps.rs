//! Locations of a scope's graph and per-location counts of pending timestamp changes.
use vstd::prelude::*;

use crate::count_map::{clamped, CountMap};
use crate::order::PartialOrder;

verus! {

/// A producer of messages inside a scope: one of the scope's own inputs, or an output of a
/// child scope `(scope, port)`.
#[derive(Clone, Copy, Debug, PartialEq, Eq, Hash, Structural)]
pub enum Source {
    GraphInput(usize),
    ScopeOutput(usize, usize),
}

/// A consumer of messages inside a scope: one of the scope's own outputs, or an input of a
/// child scope `(scope, port)`.
#[derive(Clone, Copy, Debug, PartialEq, Eq, Hash, Structural)]
pub enum Target {
    GraphOutput(usize),
    ScopeInput(usize, usize),
}

/// A place where timestamps may be held: a source or a target.
#[derive(Clone, Copy, Debug, PartialEq, Eq, Hash, Structural)]
pub enum Location {
    SourceLoc(Source),
    TargetLoc(Target),
}

/// Pending changes per location, and the results of propagating them to targets.
#[derive(Debug)]
pub struct PointstampCounter<T> {
    pub source_counts: Vec<Vec<CountMap<T>>>,
    pub target_counts: Vec<Vec<CountMap<T>>>,
    pub input_counts: Vec<CountMap<T>>,
    pub target_pushed: Vec<Vec<CountMap<T>>>,
    pub output_pushed: Vec<CountMap<T>>,
}

/// Every count map of `rows` is well formed, and row `c` has `widths[c]` of them.
pub open spec fn grid_wf<T: PartialOrder>(rows: Seq<Vec<CountMap<T>>>, widths: Seq<usize>) -> bool {
    &&& rows.len() == widths.len()
    &&& forall|c: int| 0 <= c < rows.len() ==> (#[trigger] rows[c])@.len() == widths[c]
    &&& forall|c: int, p: int|
        0 <= c < rows.len() && 0 <= p < rows[c]@.len() ==> (#[trigger] rows[c]@[p]).wf()
}

/// Every count map of `rows` is empty.
pub open spec fn grid_empty<T: PartialOrder>(rows: Seq<Vec<CountMap<T>>>) -> bool {
    forall|c: int, p: int| 0 <= c < rows.len() && 0 <= p < rows[c]@.len() ==> (#[trigger] rows[c]@[p])@.len() == 0
}

/// Every count map of `row` is well formed.
pub open spec fn row_wf<T: PartialOrder>(row: Seq<CountMap<T>>) -> bool {
    forall|p: int| 0 <= p < row.len() ==> (#[trigger] row[p]).wf()
}

/// Every count map of `row` is empty.
pub open spec fn row_empty<T: PartialOrder>(row: Seq<CountMap<T>>) -> bool {
    forall|p: int| 0 <= p < row.len() ==> (#[trigger] row[p])@.len() == 0
}

/// A vector of `n` empty count maps.
pub fn empty_row<T: PartialOrder>(n: usize) -> (r: Vec<CountMap<T>>)
    ensures
        r@.len() == n,
        row_wf(r@),
        row_empty(r@),
{
    let mut r: Vec<CountMap<T>> = Vec::new();
    let mut i: usize = 0;
    while i < n
        invariant
            0 <= i <= n,
            r@.len() == i,
            row_wf(r@),
            row_empty(r@),
        decreases n - i,
    {
        r.push(CountMap::new());
        i = i + 1;
    }
    r
}

impl<T: PartialOrder> PointstampCounter<T> {
    /// Buckets for a scope with `inputs` inputs and `outputs` outputs, and children with
    /// `child_inputs[c]` inputs and `child_outputs[c]` outputs.
    pub open spec fn shaped(&self, child_inputs: Seq<usize>, child_outputs: Seq<usize>, inputs: nat, outputs: nat) -> bool {
        &&& grid_wf(self.source_counts@, child_outputs)
        &&& grid_wf(self.target_counts@, child_inputs)
        &&& grid_wf(self.target_pushed@, child_inputs)
        &&& self.input_counts@.len() == inputs
        &&& row_wf(self.input_counts@)
        &&& self.output_pushed@.len() == outputs
        &&& row_wf(self.output_pushed@)
    }

    /// No pending change at any source or target.
    pub open spec fn counts_empty(&self) -> bool {
        &&& grid_empty(self.source_counts@)
        &&& grid_empty(self.target_counts@)
        &&& row_empty(self.input_counts@)
    }

    /// No propagated change at any target.
    pub open spec fn pushed_empty(&self) -> bool {
        &&& grid_empty(self.target_pushed@)
        &&& row_empty(self.output_pushed@)
    }

    /// Whether `location` has a bucket of pending changes.
    pub open spec fn holds(&self, location: Location) -> bool {
        match location {
            Location::SourceLoc(Source::ScopeOutput(s, o)) => s < self.source_counts@.len() && o
                < self.source_counts@[s as int]@.len(),
            Location::SourceLoc(Source::GraphInput(i)) => i < self.input_counts@.len(),
            Location::TargetLoc(Target::ScopeInput(s, i)) => s < self.target_counts@.len() && i
                < self.target_counts@[s as int]@.len(),
            Location::TargetLoc(Target::GraphOutput(_)) => false,
        }
    }

    /// The bucket of pending changes at `location`.
    pub open spec fn bucket(&self, location: Location) -> CountMap<T>
        recommends
            self.holds(location),
    {
        match location {
            Location::SourceLoc(Source::ScopeOutput(s, o)) => self.source_counts@[s as int]@[o as int],
            Location::SourceLoc(Source::GraphInput(i)) => self.input_counts@[i as int],
            Location::TargetLoc(Target::ScopeInput(s, i)) => self.target_counts@[s as int]@[i as int],
            Location::TargetLoc(Target::GraphOutput(o)) => self.output_pushed@[o as int],
        }
    }

    /// Empties every bucket of propagated changes.
    pub fn clear_pushed(&mut self)
        requires
            row_wf(old(self).output_pushed@),
        ensures
            final(self).pushed_empty(),
            row_wf(final(self).output_pushed@),
            final(self).output_pushed@.len() == old(self).output_pushed@.len(),
            forall|widths: Seq<usize>|
                grid_wf(old(self).target_pushed@, widths) ==> #[trigger] grid_wf(final(self).target_pushed@, widths),
            final(self).source_counts == old(self).source_counts,
            final(self).target_counts == old(self).target_counts,
            final(self).input_counts == old(self).input_counts,
    {
        let n = self.target_pushed.len();
        let mut c: usize = 0;
        while c < n
            invariant
                0 <= c <= n,
                n == self.target_pushed@.len(),
                self.output_pushed == old(self).output_pushed,
                self.source_counts == old(self).source_counts,
                self.target_counts == old(self).target_counts,
                self.input_counts == old(self).input_counts,
                forall|d: int| #![trigger self.target_pushed@[d]]
                    c <= d < n ==> self.target_pushed@[d] == old(self).target_pushed@[d],
                forall|d: int| #![trigger self.target_pushed@[d]]
                    0 <= d < n ==> self.target_pushed@[d]@.len() == old(self).target_pushed@[d]@.len(),
                forall|d: int, p: int|
                    0 <= d < c && 0 <= p < self.target_pushed@[d]@.len() ==> (#[trigger] self.target_pushed@[d]@[p])@.len() == 0
                        && self.target_pushed@[d]@[p].wf(),
            decreases n - c,
        {
            let m = self.target_pushed[c].len();
            let mut p: usize = 0;
            while p < m
                invariant
                    0 <= c < n,
                    0 <= p <= m,
                    n == self.target_pushed@.len(),
                    m == self.target_pushed@[c as int]@.len(),
                    self.output_pushed == old(self).output_pushed,
                    self.source_counts == old(self).source_counts,
                    self.target_counts == old(self).target_counts,
                    self.input_counts == old(self).input_counts,
                    forall|d: int| #![trigger self.target_pushed@[d]]
                        c < d < n ==> self.target_pushed@[d] == old(self).target_pushed@[d],
                    forall|d: int| #![trigger self.target_pushed@[d]]
                        0 <= d < n ==> self.target_pushed@[d]@.len() == old(self).target_pushed@[d]@.len(),
                    forall|d: int, q: int|
                        0 <= d < c && 0 <= q < self.target_pushed@[d]@.len() ==> (#[trigger] self.target_pushed@[d]@[q])@.len() == 0
                            && self.target_pushed@[d]@[q].wf(),
                    forall|q: int|
                        0 <= q < p ==> (#[trigger] self.target_pushed@[c as int]@[q])@.len() == 0
                            && self.target_pushed@[c as int]@[q].wf(),
                decreases m - p,
            {
                self.target_pushed[c][p].clear();
                p = p + 1;
            }
            c = c + 1;
        }
        let k = self.output_pushed.len();
        let mut o: usize = 0;
        while o < k
            invariant
                0 <= o <= k,
                k == self.output_pushed@.len(),
                grid_empty(self.target_pushed@),
                forall|d: int| #![trigger self.target_pushed@[d]]
                    0 <= d < n ==> self.target_pushed@[d]@.len() == old(self).target_pushed@[d]@.len(),
                forall|d: int, p: int|
                    0 <= d < n && 0 <= p < self.target_pushed@[d]@.len() ==> (#[trigger] self.target_pushed@[d]@[p]).wf(),
                n == self.target_pushed@.len(),
                self.source_counts == old(self).source_counts,
                self.target_counts == old(self).target_counts,
                self.input_counts == old(self).input_counts,
                row_wf(self.output_pushed@),
                forall|q: int| 0 <= q < o ==> (#[trigger] self.output_pushed@[q])@.len() == 0,
            decreases k - o,
        {
            self.output_pushed[o].clear();
            o = o + 1;
        }
    }

    /// Adds `value` to the pending count of `time` at `location`.
    pub fn update(&mut self, location: Location, time: T, value: i64)
        requires
            old(self).holds(location),
            old(self).bucket(location).wf(),
        ensures
            final(self).bucket(location).wf(),
            final(self).bucket(location).count(time) == clamped(old(self).bucket(location).count(time) + value),
            forall|u: T| u != time ==> #[trigger] final(self).bucket(location).count(u) == old(self).bucket(location).count(u),
            forall|l: Location| l != location && old(self).holds(l) ==> #[trigger] final(self).bucket(l) == old(self).bucket(l),
            forall|l: Location| #[trigger] final(self).holds(l) == old(self).holds(l),
            (match location {
                Location::SourceLoc(Source::ScopeOutput(_, _)) => final(self).target_counts == old(self).target_counts
                    && final(self).input_counts == old(self).input_counts,
                Location::SourceLoc(Source::GraphInput(_)) => final(self).source_counts == old(self).source_counts
                    && final(self).target_counts == old(self).target_counts,
                Location::TargetLoc(_) => final(self).source_counts == old(self).source_counts
                    && final(self).input_counts == old(self).input_counts,
            }),
            (forall|i: int| 0 <= i < old(self).bucket(location)@.len() ==> (#[trigger] old(self).bucket(location)@[i]).0 != time)
                && value != 0 ==> final(self).bucket(location)@ == old(self).bucket(location)@.push((time, value)),
            final(self).target_pushed == old(self).target_pushed,
            final(self).output_pushed == old(self).output_pushed,
            forall|ci: Seq<usize>, co: Seq<usize>, ni: nat, no: nat|
                old(self).shaped(ci, co, ni, no) ==> #[trigger] final(self).shaped(ci, co, ni, no),
    {
        let ghost before = *self;
        match location {
            Location::SourceLoc(Source::ScopeOutput(s, o)) => {
                self.source_counts[s][o].update(time, value);
                proof {
                    assert forall|l: Location| l != location && before.holds(l) implies #[trigger] self.bucket(l)
                        == before.bucket(l) by {
                        if let Location::SourceLoc(Source::ScopeOutput(s2, o2)) = l {
                            if s2 != s {
                                assert(self.source_counts@[s2 as int] == before.source_counts@[s2 as int]);
                            }
                        }
                    }
                    assert forall|ci: Seq<usize>, co: Seq<usize>, ni: nat, no: nat|
                        before.shaped(ci, co, ni, no) implies #[trigger] self.shaped(ci, co, ni, no) by {
                        assert forall|c: int| 0 <= c < self.source_counts@.len() implies (#[trigger] self.source_counts@[c])@.len()
                            == co[c] by {
                            if c != s {
                                assert(self.source_counts@[c] == before.source_counts@[c]);
                            }
                        }
                        assert forall|c: int, p: int|
                            0 <= c < self.source_counts@.len() && 0 <= p < self.source_counts@[c]@.len() implies (
                            #[trigger] self.source_counts@[c]@[p]).wf() by {
                            if c != s || p != o {
                                assert(self.source_counts@[c]@[p] == before.source_counts@[c]@[p]);
                            }
                        }
                    }
                }
            },
            Location::SourceLoc(Source::GraphInput(i)) => {
                self.input_counts[i].update(time, value);
                proof {
                    assert forall|ci: Seq<usize>, co: Seq<usize>, ni: nat, no: nat|
                        before.shaped(ci, co, ni, no) implies #[trigger] self.shaped(ci, co, ni, no) by {
                        assert forall|p: int| 0 <= p < self.input_counts@.len() implies (#[trigger] self.input_counts@[p]).wf() by {
                            if p != i {
                                assert(self.input_counts@[p] == before.input_counts@[p]);
                            }
                        }
                    }
                }
            },
            Location::TargetLoc(Target::ScopeInput(s, i)) => {
                self.target_counts[s][i].update(time, value);
                proof {
                    assert forall|l: Location| l != location && before.holds(l) implies #[trigger] self.bucket(l)
                        == before.bucket(l) by {
                        if let Location::TargetLoc(Target::ScopeInput(s2, o2)) = l {
                            if s2 != s {
                                assert(self.target_counts@[s2 as int] == before.target_counts@[s2 as int]);
                            }
                        }
                    }
                    assert forall|ci: Seq<usize>, co: Seq<usize>, ni: nat, no: nat|
                        before.shaped(ci, co, ni, no) implies #[trigger] self.shaped(ci, co, ni, no) by {
                        assert forall|c: int| 0 <= c < self.target_counts@.len() implies (#[trigger] self.target_counts@[c])@.len()
                            == ci[c] by {
                            if c != s {
                                assert(self.target_counts@[c] == before.target_counts@[c]);
                            }
                        }
                        assert forall|c: int, p: int|
                            0 <= c < self.target_counts@.len() && 0 <= p < self.target_counts@[c]@.len() implies (
                            #[trigger] self.target_counts@[c]@[p]).wf() by {
                            if c != s || p != i {
                                assert(self.target_counts@[c]@[p] == before.target_counts@[c]@[p]);
                            }
                        }
                    }
                }
            },
            Location::TargetLoc(Target::GraphOutput(_)) => {},
        }
    }
}

} // verus!
