//! The progress engine of a scope: moving counts of timestamps between locations and
//! turning them into frontier changes for the children and for the enclosing scope.
use vstd::prelude::*;

use crate::antichain::{dominated, lemma_insert_dominates, lemma_insert_keeps_dominated, Antichain};
use crate::count_map::CountMap;
use crate::order::{PartialOrder, PathSummary, Product, Timestamp};
use crate::count_map::{coalesced, count_after, count_in, lemma_count_after_concat, lemma_count_after_sum, lemma_magnitude_nonnegative, magnitude, sum_for};
use crate::reachability::{has_row, lemma_row_at, row_of};
use crate::mutable_antichain::MutableAntichain;
use crate::pointstamps::{
    empty_row, grid_empty, grid_wf, row_empty, row_wf, Location, PointstampCounter, Source, Target,
};
use crate::mutable_antichain::frontier_delta;
use crate::subgraph::{table_wf, 
    empty_frontiers, empty_matrix, empty_tables, frontiers_wf, matrix_wf, ScopeInfo, SubscopeBuffers,
    SubscopeState, Subgraph,
};
use crate::summary::Summary;

verus! {

/// Whether `t` names a bucket of `pushed` (for a child's input) or of a vector of
/// `outputs` buckets (for an output of the scope).
pub open spec fn fits<T>(t: Target, pushed: Seq<Vec<CountMap<T>>>, outputs: nat) -> bool {
    match t {
        Target::ScopeInput(c, p) => c < pushed.len() && p < pushed[c as int]@.len(),
        Target::GraphOutput(o) => o < outputs,
    }
}

/// The changes that one pending change `(t, delta)` makes at target `x`: `delta` at
/// `s.results_in(t)` for each summary `s` in the row of `table` for `x`.
pub open spec fn row_items<T: Timestamp, U: PathSummary<T>>(
    entry: (T, i64),
    table: Seq<(Target, Antichain<U>)>,
    x: Target,
) -> Seq<(T, i64)> {
    if has_row(table, x) {
        row_of(table, x).map_values(|s: U| (s.spec_results_in(entry.0), entry.1))
    } else {
        Seq::empty()
    }
}

/// The changes that the pending changes `entries` make at target `x`, in order.
pub open spec fn pushed_items<T: Timestamp, U: PathSummary<T>>(
    entries: Seq<(T, i64)>,
    table: Seq<(Target, Antichain<U>)>,
    x: Target,
) -> Seq<(T, i64)>
    decreases entries.len(),
{
    if entries.len() == 0 {
        Seq::empty()
    } else {
        pushed_items(entries.drop_last(), table, x) + row_items(entries.last(), table, x)
    }
}

/// The bucket of `target_pushed` or `output_pushed` that collects changes for `x`.
pub open spec fn pushed_bucket<T>(target_pushed: Seq<Vec<CountMap<T>>>, output_pushed: Seq<CountMap<T>>, x: Target) -> CountMap<T> {
    match x {
        Target::ScopeInput(c, p) => target_pushed[c as int]@[p as int],
        Target::GraphOutput(o) => output_pushed[o as int],
    }
}

/// Adds, for each `(t, delta)` of `entries`, each row `(target, antichain)` of `table` and
/// each summary `s` of the antichain, `delta` at `s.results_in(t)` to the bucket of `target`.
pub fn propagate_into<T: Timestamp, U: PathSummary<T>>(
    target_pushed: &mut Vec<Vec<CountMap<T>>>,
    output_pushed: &mut Vec<CountMap<T>>,
    entries: &Vec<(T, i64)>,
    table: &Vec<(Target, Antichain<U>)>,
)
    requires
        table_wf(table@),
        forall|a: int| 0 <= a < table@.len() ==> fits((#[trigger] table@[a]).0, old(target_pushed)@, old(output_pushed)@.len()),
        forall|c: int, p: int|
            0 <= c < old(target_pushed)@.len() && 0 <= p < old(target_pushed)@[c]@.len() ==> (#[trigger] old(target_pushed)@[c]@[p]).wf(),
        row_wf(old(output_pushed)@),
    ensures
        final(output_pushed)@.len() == old(output_pushed)@.len(),
        row_wf(final(output_pushed)@),
        final(target_pushed)@.len() == old(target_pushed)@.len(),
        forall|c: int| #![trigger final(target_pushed)@[c]]
            0 <= c < final(target_pushed)@.len() ==> final(target_pushed)@[c]@.len() == old(target_pushed)@[c]@.len(),
        forall|c: int, p: int|
            0 <= c < final(target_pushed)@.len() && 0 <= p < final(target_pushed)@[c]@.len() ==> (#[trigger] final(target_pushed)@[c]@[p]).wf(),
        forall|x: Target, t: T|
            fits(x, old(target_pushed)@, old(output_pushed)@.len()) ==> #[trigger] pushed_bucket(
                final(target_pushed)@,
                final(output_pushed)@,
                x,
            ).count(t) == count_after(
                pushed_bucket(old(target_pushed)@, old(output_pushed)@, x).count(t),
                pushed_items(entries@, table@, x),
                t,
            ),
        entries@.len() == 0 ==> *final(target_pushed) == *old(target_pushed) && *final(output_pushed) == *old(output_pushed),
{
    let n = entries.len();
    let mut k: usize = 0;
    while k < n
        invariant
            n == entries@.len(),
            0 <= k <= n,
            table_wf(table@),
            output_pushed@.len() == old(output_pushed)@.len(),
            row_wf(output_pushed@),
            target_pushed@.len() == old(target_pushed)@.len(),
            forall|c: int| #![trigger target_pushed@[c]]
                0 <= c < target_pushed@.len() ==> target_pushed@[c]@.len() == old(target_pushed)@[c]@.len(),
            forall|c: int, p: int|
                0 <= c < target_pushed@.len() && 0 <= p < target_pushed@[c]@.len() ==> (#[trigger] target_pushed@[c]@[p]).wf(),
            forall|a: int| 0 <= a < table@.len() ==> fits((#[trigger] table@[a]).0, old(target_pushed)@, old(output_pushed)@.len()),
            forall|x: Target, t: T|
                fits(x, old(target_pushed)@, old(output_pushed)@.len()) ==> #[trigger] pushed_bucket(
                    target_pushed@,
                    output_pushed@,
                    x,
                ).count(t) == count_after(
                    pushed_bucket(old(target_pushed)@, old(output_pushed)@, x).count(t),
                    pushed_items(entries@.take(k as int), table@, x),
                    t,
                ),
            k == 0 ==> *target_pushed == *old(target_pushed) && *output_pushed == *old(output_pushed),
        decreases n - k,
    {
        let (time, delta) = entries[k];
        let ghost tp_k = target_pushed@;
        let ghost op_k = output_pushed@;
        let m = table.len();
        let mut a: usize = 0;
        while a < m
            invariant
                m == table@.len(),
                0 <= a <= m,
                0 <= k < n,
                n == entries@.len(),
                entries@[k as int] == (time, delta),
                table_wf(table@),
                output_pushed@.len() == old(output_pushed)@.len(),
                row_wf(output_pushed@),
                target_pushed@.len() == old(target_pushed)@.len(),
                forall|c: int| #![trigger target_pushed@[c]]
                    0 <= c < target_pushed@.len() ==> target_pushed@[c]@.len() == old(target_pushed)@[c]@.len(),
                forall|c: int, p: int|
                    0 <= c < target_pushed@.len() && 0 <= p < target_pushed@[c]@.len() ==> (#[trigger] target_pushed@[c]@[p]).wf(),
                forall|a2: int| 0 <= a2 < table@.len() ==> fits((#[trigger] table@[a2]).0, old(target_pushed)@, old(output_pushed)@.len()),
                forall|x: Target, t: T|
                    fits(x, old(target_pushed)@, old(output_pushed)@.len()) ==> #[trigger] pushed_bucket(
                        target_pushed@,
                        output_pushed@,
                        x,
                    ).count(t) == count_after(
                        pushed_bucket(tp_k, op_k, x).count(t),
                        if exists|b: int| 0 <= b < a && (#[trigger] table@[b]).0 == x {
                            row_items((time, delta), table@, x)
                        } else {
                            Seq::empty()
                        },
                        t,
                    ),
            decreases m - a,
        {
            let target = table[a].0;
            assert(fits(table@[a as int].0, old(target_pushed)@, old(output_pushed)@.len()));
            proof {
                lemma_row_at(table@, a as int);
            }
            let elems = table[a].1.elements();
            let q = elems.len();
            let ghost tp_a = target_pushed@;
            let ghost op_a = output_pushed@;
            let mut e: usize = 0;
            while e < q
                invariant
                    q == elems@.len(),
                    0 <= e <= q,
                    0 <= a < m,
                    m == table@.len(),
                    target == table@[a as int].0,
                    elems@ == table@[a as int].1@,
                    fits(target, old(target_pushed)@, old(output_pushed)@.len()),
                    output_pushed@.len() == old(output_pushed)@.len(),
                    row_wf(output_pushed@),
                    target_pushed@.len() == old(target_pushed)@.len(),
                    forall|c: int| #![trigger target_pushed@[c]]
                        0 <= c < target_pushed@.len() ==> target_pushed@[c]@.len() == old(target_pushed)@[c]@.len(),
                    forall|c: int, p: int|
                        0 <= c < target_pushed@.len() && 0 <= p < target_pushed@[c]@.len() ==> (#[trigger] target_pushed@[c]@[p]).wf(),
                    forall|x: Target, t: T|
                        fits(x, old(target_pushed)@, old(output_pushed)@.len()) && x != target ==> #[trigger] pushed_bucket(
                            target_pushed@,
                            output_pushed@,
                            x,
                        ).count(t) == pushed_bucket(tp_a, op_a, x).count(t),
                    forall|t: T|
                        #[trigger] pushed_bucket(target_pushed@, output_pushed@, target).count(t) == count_after(
                            pushed_bucket(tp_a, op_a, target).count(t),
                            elems@.take(e as int).map_values(|s: U| (s.spec_results_in(time), delta)),
                            t,
                        ),
                decreases q - e,
            {
                let moved = elems[e].results_in(&time);
                let ghost tp_e = target_pushed@;
                let ghost op_e = output_pushed@;
                match target {
                    Target::ScopeInput(c, p) => {
                        target_pushed[c][p].update(moved, delta);
                        proof {
                            assert forall|c2: int| #![trigger target_pushed@[c2]]
                                0 <= c2 < target_pushed@.len() implies target_pushed@[c2]@.len() == old(target_pushed)@[c2]@.len() by {
                                if c2 != c {
                                    assert(target_pushed@[c2] == tp_e[c2]);
                                }
                            }
                            assert forall|c2: int, p2: int|
                                0 <= c2 < target_pushed@.len() && 0 <= p2 < target_pushed@[c2]@.len() implies (#[trigger] target_pushed@[c2]@[p2]).wf() by {
                                if c2 != c || p2 != p {
                                    assert(target_pushed@[c2]@[p2] == tp_e[c2]@[p2]);
                                }
                            }
                            assert forall|x: Target, t: T|
                                fits(x, old(target_pushed)@, old(output_pushed)@.len()) && x != target implies #[trigger] pushed_bucket(
                                    target_pushed@,
                                    output_pushed@,
                                    x,
                                ).count(t) == pushed_bucket(tp_a, op_a, x).count(t) by {
                                assert(pushed_bucket(target_pushed@, output_pushed@, x) == pushed_bucket(tp_e, op_e, x)) by {
                                    if let Target::ScopeInput(c2, p2) = x {
                                        if c2 != c {
                                            assert(target_pushed@[c2 as int] == tp_e[c2 as int]);
                                        }
                                    }
                                }
                            }
                        }
                    },
                    Target::GraphOutput(o) => {
                        output_pushed[o].update(moved, delta);
                        proof {
                            assert forall|p2: int| 0 <= p2 < output_pushed@.len() implies (#[trigger] output_pushed@[p2]).wf() by {
                                if p2 != o {
                                    assert(output_pushed@[p2] == op_e[p2]);
                                }
                            }
                            assert forall|x: Target, t: T|
                                fits(x, old(target_pushed)@, old(output_pushed)@.len()) && x != target implies #[trigger] pushed_bucket(
                                    target_pushed@,
                                    output_pushed@,
                                    x,
                                ).count(t) == pushed_bucket(tp_a, op_a, x).count(t) by {
                                assert(pushed_bucket(target_pushed@, output_pushed@, x) == pushed_bucket(tp_e, op_e, x));
                            }
                        }
                    },
                }
                proof {
                    let f = |s: U| (s.spec_results_in(time), delta);
                    let before_items = elems@.take(e as int).map_values(f);
                    let after_items = elems@.take(e + 1).map_values(f);
                    assert(after_items.drop_last() =~= before_items);
                    assert(after_items.last() == (moved, delta));
                    assert forall|t: T| #[trigger] pushed_bucket(target_pushed@, output_pushed@, target).count(t) == count_after(
                        pushed_bucket(tp_a, op_a, target).count(t),
                        after_items,
                        t,
                    ) by {
                        assert(pushed_bucket(tp_e, op_e, target).count(t) == count_after(
                            pushed_bucket(tp_a, op_a, target).count(t),
                            before_items,
                            t,
                        ));
                    }
                }
                e = e + 1;
            }
            proof {
                assert(elems@.take(q as int) =~= elems@);
                let items = elems@.map_values(|s: U| (s.spec_results_in(time), delta));
                assert(items =~= row_items((time, delta), table@, target));
                assert forall|x: Target, t: T|
                    fits(x, old(target_pushed)@, old(output_pushed)@.len()) implies #[trigger] pushed_bucket(
                        target_pushed@,
                        output_pushed@,
                        x,
                    ).count(t) == count_after(
                        pushed_bucket(tp_k, op_k, x).count(t),
                        if exists|b: int| 0 <= b < a + 1 && (#[trigger] table@[b]).0 == x {
                            row_items((time, delta), table@, x)
                        } else {
                            Seq::empty()
                        },
                        t,
                    ) by {
                    if x == target {
                        assert(table@[a as int].0 == x);
                        assert(!(exists|b: int| 0 <= b < a && (#[trigger] table@[b]).0 == x));
                        assert(pushed_bucket(tp_a, op_a, x).count(t) == pushed_bucket(tp_k, op_k, x).count(t));
                    } else {
                        if exists|b: int| 0 <= b < a + 1 && (#[trigger] table@[b]).0 == x {
                            let b = choose|b: int| 0 <= b < a + 1 && (#[trigger] table@[b]).0 == x;
                            assert(b != a);
                        }
                    }
                }
            }
            a = a + 1;
        }
        proof {
            assert forall|x: Target, t: T|
                fits(x, old(target_pushed)@, old(output_pushed)@.len()) implies #[trigger] pushed_bucket(
                    target_pushed@,
                    output_pushed@,
                    x,
                ).count(t) == count_after(
                    pushed_bucket(old(target_pushed)@, old(output_pushed)@, x).count(t),
                    pushed_items(entries@.take(k + 1), table@, x),
                    t,
                ) by {
                let prefix = entries@.take(k as int);
                let next = entries@.take(k + 1);
                assert(next.drop_last() =~= prefix);
                assert(next.last() == (time, delta));
                let here = if exists|b: int| 0 <= b < m && (#[trigger] table@[b]).0 == x {
                    row_items((time, delta), table@, x)
                } else {
                    Seq::empty()
                };
                if !(exists|b: int| 0 <= b < m && (#[trigger] table@[b]).0 == x) {
                    assert(row_items((time, delta), table@, x) =~= Seq::<(T, i64)>::empty());
                }
                assert(pushed_items(next, table@, x) == pushed_items(prefix, table@, x) + here);
                lemma_count_after_concat(
                    pushed_bucket(old(target_pushed)@, old(output_pushed)@, x).count(t),
                    pushed_items(prefix, table@, x),
                    here,
                    t,
                );
            }
        }
        k = k + 1;
    }
    proof {
        assert(entries@.take(n as int) =~= entries@);
    }
}

/// Whether `a` and `b` agree on everything but the counters.
pub open spec fn same_but_pointstamps<TO, SO, TI, SI>(a: Subgraph<TO, SO, TI, SI>, b: Subgraph<TO, SO, TI, SI>) -> bool {
    &&& a.name == b.name
    &&& a.index == b.index
    &&& a.default_time == b.default_time
    &&& a.default_summary == b.default_summary
    &&& a.inputs == b.inputs
    &&& a.outputs == b.outputs
    &&& a.sealed == b.sealed
    &&& a.scopes == b.scopes
    &&& a.scope_edges == b.scope_edges
    &&& a.input_edges == b.input_edges
    &&& a.external_summaries == b.external_summaries
    &&& a.source_summaries == b.source_summaries
    &&& a.target_summaries == b.target_summaries
    &&& a.input_summaries == b.input_summaries
    &&& a.external_capability == b.external_capability
    &&& a.subscope_state == b.subscope_state
}

impl<TO: Timestamp, SO: PathSummary<TO>, TI: Timestamp, SI: PathSummary<TI>> Subgraph<TO, SO, TI, SI> {
    pub proof fn lemma_fits(&self, t: Target)
        requires
            self.wf(),
            self.is_sealed(),
            self.valid_target(t),
        ensures
            fits(t, self.pointstamps.target_pushed@, self.pointstamps.output_pushed@.len()),
    {
        if let Target::ScopeInput(c, p) = t {
            assert(self.child_inputs()[c as int] == self.scopes@[c as int].inputs);
            assert(self.pointstamps.target_pushed@[c as int]@.len() == self.child_inputs()[c as int]);
        }
    }

    pub proof fn lemma_holds(&self, s: Source)
        requires
            self.wf(),
            self.is_sealed(),
            self.valid_source(s),
        ensures
            self.pointstamps.holds(Location::SourceLoc(s)),
            self.pointstamps.bucket(Location::SourceLoc(s)).wf(),
    {
        if let Source::ScopeOutput(c, o) = s {
            assert(self.child_outputs()[c as int] == self.scopes@[c as int].outputs);
            assert(self.pointstamps.source_counts@[c as int]@.len() == self.child_outputs()[c as int]);
        }
    }

    pub proof fn lemma_holds_target(&self, c: usize, p: usize)
        requires
            self.wf(),
            self.is_sealed(),
            c < self.scopes@.len(),
            p < self.scopes@[c as int].inputs,
        ensures
            self.pointstamps.holds(Location::TargetLoc(Target::ScopeInput(c, p))),
            self.pointstamps.bucket(Location::TargetLoc(Target::ScopeInput(c, p))).wf(),
            self.pointstamps.target_pushed@[c as int]@.len() == self.scopes@[c as int].inputs,
            self.pointstamps.target_pushed@[c as int]@[p as int].wf(),
    {
        assert(self.child_inputs()[c as int] == self.scopes@[c as int].inputs);
        assert(self.pointstamps.target_counts@[c as int]@.len() == self.child_inputs()[c as int]);
        assert(self.pointstamps.target_pushed@[c as int]@.len() == self.child_inputs()[c as int]);
    }

    /// The bucket that collects propagated changes for target `x`.
    pub open spec fn pushed_at(&self, x: Target) -> CountMap<Product<TO, TI>> {
        pushed_bucket(self.pointstamps.target_pushed@, self.pointstamps.output_pushed@, x)
    }

    /// Whether target `x` has a bucket of propagated changes.
    pub open spec fn fits_here(&self, x: Target) -> bool {
        fits(x, self.pointstamps.target_pushed@, self.pointstamps.output_pushed@.len())
    }

    /// The changes at `x` made by the pending changes at the first `n` inputs of child `c`.
    pub open spec fn target_items(&self, c: int, n: int, x: Target) -> Seq<(Product<TO, TI>, i64)>
        decreases n,
    {
        if n <= 0 {
            Seq::empty()
        } else {
            self.target_items(c, n - 1, x) + pushed_items(
                self.pointstamps.target_counts@[c]@[n - 1]@,
                self.target_summaries@[c]@[n - 1]@,
                x,
            )
        }
    }

    /// The changes at `x` made by the pending changes at the first `n` outputs of child `c`.
    pub open spec fn source_items(&self, c: int, n: int, x: Target) -> Seq<(Product<TO, TI>, i64)>
        decreases n,
    {
        if n <= 0 {
            Seq::empty()
        } else {
            self.source_items(c, n - 1, x) + pushed_items(
                self.pointstamps.source_counts@[c]@[n - 1]@,
                self.source_summaries@[c]@[n - 1]@,
                x,
            )
        }
    }

    /// The changes at `x` made by the pending changes at the inputs and then the outputs
    /// of each of the first `n` children.
    pub open spec fn child_items(&self, n: int, x: Target) -> Seq<(Product<TO, TI>, i64)>
        decreases n,
    {
        if n <= 0 {
            Seq::empty()
        } else {
            self.child_items(n - 1, x) + self.target_items(n - 1, self.scopes@[n - 1].inputs as int, x)
                + self.source_items(n - 1, self.scopes@[n - 1].outputs as int, x)
        }
    }

    /// The changes at `x` made by the pending changes at the first `n` inputs of the scope.
    pub open spec fn input_items(&self, n: int, x: Target) -> Seq<(Product<TO, TI>, i64)>
        decreases n,
    {
        if n <= 0 {
            Seq::empty()
        } else {
            self.input_items(n - 1, x) + pushed_items(
                self.pointstamps.input_counts@[n - 1]@,
                self.input_summaries@[n - 1]@,
                x,
            )
        }
    }

    /// The changes at `x` made by all pending changes, children first, in order.
    pub open spec fn pending_items(&self, x: Target) -> Seq<(Product<TO, TI>, i64)> {
        self.child_items(self.scopes@.len() as int, x) + self.input_items(self.inputs as int, x)
    }

    /// Moves every pending change to the targets it reaches: a change `(t, delta)` at a
    /// location adds `delta` at `s.results_in(t)` for each target and each summary `s` in
    /// the location's row. The pending buckets are left empty.
    pub fn push_pointstamps_to_targets(&mut self)
        requires
            old(self).wf(),
            old(self).is_sealed(),
        ensures
            final(self).wf(),
            final(self).is_sealed(),
            same_but_pointstamps(*old(self), *final(self)),
            final(self).pointstamps.counts_empty(),
            forall|x: Target, t: Product<TO, TI>|
                old(self).fits_here(x) ==> #[trigger] final(self).pushed_at(x).count(t) == count_after(
                    old(self).pushed_at(x).count(t),
                    old(self).pending_items(x),
                    t,
                ),
            old(self).pointstamps.counts_empty() ==> final(self).pointstamps.target_pushed
                == old(self).pointstamps.target_pushed && final(self).pointstamps.output_pushed
                == old(self).pointstamps.output_pushed,
    {
        let ns = self.scopes.len();
        let mut c: usize = 0;
        while c < ns
            invariant
                ns == self.scopes@.len(),
                0 <= c <= ns,
                self.wf(),
                self.is_sealed(),
                same_but_pointstamps(*old(self), *self),
                forall|d: int, q: int|
                    0 <= d < c && 0 <= q < self.pointstamps.target_counts@[d]@.len() ==> (#[trigger] self.pointstamps.target_counts@[d]@[q])@.len() == 0,
                forall|d: int, q: int|
                    0 <= d < c && 0 <= q < self.pointstamps.source_counts@[d]@.len() ==> (#[trigger] self.pointstamps.source_counts@[d]@[q])@.len() == 0,
                forall|d: int| #![trigger self.pointstamps.target_counts@[d]]
                    c <= d < ns ==> self.pointstamps.target_counts@[d] == old(self).pointstamps.target_counts@[d],
                forall|d: int| #![trigger self.pointstamps.source_counts@[d]]
                    c <= d < ns ==> self.pointstamps.source_counts@[d] == old(self).pointstamps.source_counts@[d],
                self.pointstamps.input_counts == old(self).pointstamps.input_counts,
                forall|x: Target| #[trigger] self.fits_here(x) == old(self).fits_here(x),
                forall|x: Target, t: Product<TO, TI>|
                    old(self).fits_here(x) ==> #[trigger] self.pushed_at(x).count(t) == count_after(
                        old(self).pushed_at(x).count(t),
                        old(self).child_items(c as int, x),
                        t,
                    ),
                old(self).pointstamps.counts_empty() ==> self.pointstamps == old(self).pointstamps,
            decreases ns - c,
        {
            let nin = self.scopes[c].inputs;
            let mut p: usize = 0;
            while p < nin
                invariant
                    ns == self.scopes@.len(),
                    0 <= c < ns,
                    nin == self.scopes@[c as int].inputs,
                    0 <= p <= nin,
                    self.wf(),
                    self.is_sealed(),
                    same_but_pointstamps(*old(self), *self),
                    forall|d: int, q: int|
                        0 <= d < c && 0 <= q < self.pointstamps.target_counts@[d]@.len() ==> (#[trigger] self.pointstamps.target_counts@[d]@[q])@.len() == 0,
                    forall|d: int, q: int|
                        0 <= d < c && 0 <= q < self.pointstamps.source_counts@[d]@.len() ==> (#[trigger] self.pointstamps.source_counts@[d]@[q])@.len() == 0,
                    forall|q: int| 0 <= q < p ==> (#[trigger] self.pointstamps.target_counts@[c as int]@[q])@.len() == 0,
                    forall|q: int| #![trigger self.pointstamps.target_counts@[c as int]@[q]]
                        p <= q < nin ==> self.pointstamps.target_counts@[c as int]@[q] == old(self).pointstamps.target_counts@[c as int]@[q],
                    forall|d: int| #![trigger self.pointstamps.target_counts@[d]]
                        c < d < ns ==> self.pointstamps.target_counts@[d] == old(self).pointstamps.target_counts@[d],
                    forall|d: int| #![trigger self.pointstamps.source_counts@[d]]
                        c <= d < ns ==> self.pointstamps.source_counts@[d] == old(self).pointstamps.source_counts@[d],
                    self.pointstamps.input_counts == old(self).pointstamps.input_counts,
                    forall|x: Target| #[trigger] self.fits_here(x) == old(self).fits_here(x),
                    forall|x: Target, t: Product<TO, TI>|
                        old(self).fits_here(x) ==> #[trigger] self.pushed_at(x).count(t) == count_after(
                            old(self).pushed_at(x).count(t),
                            old(self).child_items(c as int, x) + old(self).target_items(c as int, p as int, x),
                            t,
                        ),
                    old(self).pointstamps.counts_empty() ==> self.pointstamps == old(self).pointstamps,
                decreases nin - p,
            {
                proof {
                    self.lemma_holds_target(c, p);
                }
                let ghost before = *self;
                if !self.pointstamps.target_counts[c][p].is_empty() {
                    let mut bucket: CountMap<Product<TO, TI>> = CountMap::new();
                    std::mem::swap(&mut bucket, &mut self.pointstamps.target_counts[c][p]);
                    proof {
                        assert forall|a: int| 0 <= a < self.target_summaries@[c as int]@[p as int]@.len() implies fits(
                            (#[trigger] self.target_summaries@[c as int]@[p as int]@[a]).0,
                            self.pointstamps.target_pushed@,
                            self.pointstamps.output_pushed@.len(),
                        ) by {
                            assert(self.table_valid(self.target_summaries@[c as int]@[p as int]@));
                            before.lemma_fits(self.target_summaries@[c as int]@[p as int]@[a].0);
                        }
                        assert(self.table_valid(self.target_summaries@[c as int]@[p as int]@));
                    }
                    propagate_into(
                        &mut self.pointstamps.target_pushed,
                        &mut self.pointstamps.output_pushed,
                        bucket.elements(),
                        &self.target_summaries[c][p],
                    );
                    proof {
                        assert(bucket@ == old(self).pointstamps.target_counts@[c as int]@[p as int]@);
                        assert forall|x: Target| #[trigger] self.fits_here(x) == before.fits_here(x) by {
                            if let Target::ScopeInput(c2, p2) = x {
                                if (c2 as int) < self.pointstamps.target_pushed@.len() {
                                    assert(self.pointstamps.target_pushed@[c2 as int]@.len() == before.pointstamps.target_pushed@[c2 as int]@.len());
                                }
                            }
                        }
                        assert forall|x: Target, t: Product<TO, TI>| old(self).fits_here(x) implies #[trigger] self.pushed_at(x).count(t) == count_after(
                            before.pushed_at(x).count(t),
                            pushed_items(old(self).pointstamps.target_counts@[c as int]@[p as int]@, old(self).target_summaries@[c as int]@[p as int]@, x),
                            t,
                        ) by {
                            assert(before.fits_here(x));
                        }
                        assert(grid_wf(self.pointstamps.target_pushed@, self.child_inputs()));
                        assert forall|d: int| 0 <= d < self.pointstamps.target_counts@.len() implies (#[trigger] self.pointstamps.target_counts@[d])@.len()
                            == self.child_inputs()[d] by {
                            if d != c {
                                assert(self.pointstamps.target_counts@[d] == before.pointstamps.target_counts@[d]);
                            }
                        }
                        assert forall|d: int, q: int|
                            0 <= d < self.pointstamps.target_counts@.len() && 0 <= q < self.pointstamps.target_counts@[d]@.len() implies (
                            #[trigger] self.pointstamps.target_counts@[d]@[q]).wf() by {
                            if d != c || q != p {
                                assert(self.pointstamps.target_counts@[d]@[q] == before.pointstamps.target_counts@[d]@[q]);
                            }
                        }
                        assert forall|d: int, q: int|
                            0 <= d < c && 0 <= q < self.pointstamps.target_counts@[d]@.len() implies (#[trigger] self.pointstamps.target_counts@[d]@[q])@.len() == 0 by {
                            assert(self.pointstamps.target_counts@[d] == before.pointstamps.target_counts@[d]);
                        }
                        assert forall|q: int| 0 <= q < p + 1 implies (#[trigger] self.pointstamps.target_counts@[c as int]@[q])@.len() == 0 by {
                            if q != p {
                                assert(self.pointstamps.target_counts@[c as int]@[q] == before.pointstamps.target_counts@[c as int]@[q]);
                            }
                        }
                        assert forall|q: int| #![trigger self.pointstamps.target_counts@[c as int]@[q]]
                            p + 1 <= q < nin implies self.pointstamps.target_counts@[c as int]@[q] == old(self).pointstamps.target_counts@[c as int]@[q] by {
                            assert(self.pointstamps.target_counts@[c as int]@[q] == before.pointstamps.target_counts@[c as int]@[q]);
                        }
                        assert forall|d: int| #![trigger self.pointstamps.target_counts@[d]]
                            c < d < ns implies self.pointstamps.target_counts@[d] == old(self).pointstamps.target_counts@[d] by {
                            assert(self.pointstamps.target_counts@[d] == before.pointstamps.target_counts@[d]);
                        }
                        if old(self).pointstamps.counts_empty() {
                            assert(before.pointstamps.target_counts@[c as int]@[p as int]@.len() == 0);
                        }
                    }
                }
                proof {
                    let here = pushed_items(
                        old(self).pointstamps.target_counts@[c as int]@[p as int]@,
                        old(self).target_summaries@[c as int]@[p as int]@,
                        Target::GraphOutput(0),
                    );
                    assert forall|x: Target, t: Product<TO, TI>|
                        old(self).fits_here(x) implies #[trigger] self.pushed_at(x).count(t) == count_after(
                            old(self).pushed_at(x).count(t),
                            old(self).child_items(c as int, x) + old(self).target_items(c as int, p + 1, x),
                            t,
                        ) by {
                        let item = pushed_items(
                            old(self).pointstamps.target_counts@[c as int]@[p as int]@,
                            old(self).target_summaries@[c as int]@[p as int]@,
                            x,
                        );
                        assert(old(self).target_items(c as int, p + 1, x) == old(self).target_items(c as int, p as int, x) + item);
                        assert(old(self).child_items(c as int, x) + old(self).target_items(c as int, p + 1, x)
                            =~= (old(self).child_items(c as int, x) + old(self).target_items(c as int, p as int, x)) + item);
                        lemma_count_after_concat(
                            old(self).pushed_at(x).count(t),
                            old(self).child_items(c as int, x) + old(self).target_items(c as int, p as int, x),
                            item,
                            t,
                        );
                        if before.pointstamps.target_counts@[c as int]@[p as int]@.len() == 0 {
                            assert(item =~= Seq::<(Product<TO, TI>, i64)>::empty());
                            assert(self.pushed_at(x) == before.pushed_at(x));
                        }
                    }
                }
                p = p + 1;
            }
            let nout = self.scopes[c].outputs;
            let mut o: usize = 0;
            while o < nout
                invariant
                    ns == self.scopes@.len(),
                    0 <= c < ns,
                    nin == self.scopes@[c as int].inputs,
                    nout == self.scopes@[c as int].outputs,
                    0 <= o <= nout,
                    self.wf(),
                    self.is_sealed(),
                    same_but_pointstamps(*old(self), *self),
                    forall|d: int, q: int|
                        0 <= d <= c && 0 <= q < self.pointstamps.target_counts@[d]@.len() ==> (#[trigger] self.pointstamps.target_counts@[d]@[q])@.len() == 0,
                    forall|d: int, q: int|
                        0 <= d < c && 0 <= q < self.pointstamps.source_counts@[d]@.len() ==> (#[trigger] self.pointstamps.source_counts@[d]@[q])@.len() == 0,
                    forall|q: int| 0 <= q < o ==> (#[trigger] self.pointstamps.source_counts@[c as int]@[q])@.len() == 0,
                    forall|q: int| #![trigger self.pointstamps.source_counts@[c as int]@[q]]
                        o <= q < nout ==> self.pointstamps.source_counts@[c as int]@[q] == old(self).pointstamps.source_counts@[c as int]@[q],
                    forall|d: int| #![trigger self.pointstamps.target_counts@[d]]
                        c < d < ns ==> self.pointstamps.target_counts@[d] == old(self).pointstamps.target_counts@[d],
                    forall|d: int| #![trigger self.pointstamps.source_counts@[d]]
                        c < d < ns ==> self.pointstamps.source_counts@[d] == old(self).pointstamps.source_counts@[d],
                    self.pointstamps.input_counts == old(self).pointstamps.input_counts,
                    forall|x: Target| #[trigger] self.fits_here(x) == old(self).fits_here(x),
                    forall|x: Target, t: Product<TO, TI>|
                        old(self).fits_here(x) ==> #[trigger] self.pushed_at(x).count(t) == count_after(
                            old(self).pushed_at(x).count(t),
                            old(self).child_items(c as int, x) + old(self).target_items(c as int, nin as int, x)
                                + old(self).source_items(c as int, o as int, x),
                            t,
                        ),
                    old(self).pointstamps.counts_empty() ==> self.pointstamps == old(self).pointstamps,
                decreases nout - o,
            {
                proof {
                    self.lemma_holds(Source::ScopeOutput(c, o));
                }
                let ghost before = *self;
                if !self.pointstamps.source_counts[c][o].is_empty() {
                    let mut bucket: CountMap<Product<TO, TI>> = CountMap::new();
                    std::mem::swap(&mut bucket, &mut self.pointstamps.source_counts[c][o]);
                    proof {
                        assert forall|a: int| 0 <= a < self.source_summaries@[c as int]@[o as int]@.len() implies fits(
                            (#[trigger] self.source_summaries@[c as int]@[o as int]@[a]).0,
                            self.pointstamps.target_pushed@,
                            self.pointstamps.output_pushed@.len(),
                        ) by {
                            assert(self.table_valid(self.source_summaries@[c as int]@[o as int]@));
                            before.lemma_fits(self.source_summaries@[c as int]@[o as int]@[a].0);
                        }
                        assert(self.table_valid(self.source_summaries@[c as int]@[o as int]@));
                    }
                    propagate_into(
                        &mut self.pointstamps.target_pushed,
                        &mut self.pointstamps.output_pushed,
                        bucket.elements(),
                        &self.source_summaries[c][o],
                    );
                    proof {
                        assert(bucket@ == old(self).pointstamps.source_counts@[c as int]@[o as int]@);
                        assert forall|x: Target| #[trigger] self.fits_here(x) == before.fits_here(x) by {
                            if let Target::ScopeInput(c2, p2) = x {
                                if (c2 as int) < self.pointstamps.target_pushed@.len() {
                                    assert(self.pointstamps.target_pushed@[c2 as int]@.len() == before.pointstamps.target_pushed@[c2 as int]@.len());
                                }
                            }
                        }
                        assert forall|x: Target, t: Product<TO, TI>| old(self).fits_here(x) implies #[trigger] self.pushed_at(x).count(t) == count_after(
                            before.pushed_at(x).count(t),
                            pushed_items(old(self).pointstamps.source_counts@[c as int]@[o as int]@, old(self).source_summaries@[c as int]@[o as int]@, x),
                            t,
                        ) by {
                            assert(before.fits_here(x));
                        }
                        assert(grid_wf(self.pointstamps.target_pushed@, self.child_inputs()));
                        assert forall|d: int| 0 <= d < self.pointstamps.source_counts@.len() implies (#[trigger] self.pointstamps.source_counts@[d])@.len()
                            == self.child_outputs()[d] by {
                            if d != c {
                                assert(self.pointstamps.source_counts@[d] == before.pointstamps.source_counts@[d]);
                            }
                        }
                        assert forall|d: int, q: int|
                            0 <= d < self.pointstamps.source_counts@.len() && 0 <= q < self.pointstamps.source_counts@[d]@.len() implies (
                            #[trigger] self.pointstamps.source_counts@[d]@[q]).wf() by {
                            if d != c || q != o {
                                assert(self.pointstamps.source_counts@[d]@[q] == before.pointstamps.source_counts@[d]@[q]);
                            }
                        }
                        assert forall|d: int, q: int|
                            0 <= d < c && 0 <= q < self.pointstamps.source_counts@[d]@.len() implies (#[trigger] self.pointstamps.source_counts@[d]@[q])@.len() == 0 by {
                            assert(self.pointstamps.source_counts@[d] == before.pointstamps.source_counts@[d]);
                        }
                        assert forall|q: int| 0 <= q < o + 1 implies (#[trigger] self.pointstamps.source_counts@[c as int]@[q])@.len() == 0 by {
                            if q != o {
                                assert(self.pointstamps.source_counts@[c as int]@[q] == before.pointstamps.source_counts@[c as int]@[q]);
                            }
                        }
                        assert forall|q: int| #![trigger self.pointstamps.source_counts@[c as int]@[q]]
                            o + 1 <= q < nout implies self.pointstamps.source_counts@[c as int]@[q] == old(self).pointstamps.source_counts@[c as int]@[q] by {
                            assert(self.pointstamps.source_counts@[c as int]@[q] == before.pointstamps.source_counts@[c as int]@[q]);
                        }
                        assert forall|d: int| #![trigger self.pointstamps.source_counts@[d]]
                            c < d < ns implies self.pointstamps.source_counts@[d] == old(self).pointstamps.source_counts@[d] by {
                            assert(self.pointstamps.source_counts@[d] == before.pointstamps.source_counts@[d]);
                        }
                        if old(self).pointstamps.counts_empty() {
                            assert(before.pointstamps.source_counts@[c as int]@[o as int]@.len() == 0);
                        }
                    }
                }
                proof {
                    assert forall|x: Target, t: Product<TO, TI>|
                        old(self).fits_here(x) implies #[trigger] self.pushed_at(x).count(t) == count_after(
                            old(self).pushed_at(x).count(t),
                            old(self).child_items(c as int, x) + old(self).target_items(c as int, nin as int, x)
                                + old(self).source_items(c as int, o + 1, x),
                            t,
                        ) by {
                        let item = pushed_items(
                            old(self).pointstamps.source_counts@[c as int]@[o as int]@,
                            old(self).source_summaries@[c as int]@[o as int]@,
                            x,
                        );
                        let prefix = old(self).child_items(c as int, x) + old(self).target_items(c as int, nin as int, x)
                            + old(self).source_items(c as int, o as int, x);
                        assert(old(self).source_items(c as int, o + 1, x) == old(self).source_items(c as int, o as int, x) + item);
                        assert(old(self).child_items(c as int, x) + old(self).target_items(c as int, nin as int, x)
                            + old(self).source_items(c as int, o + 1, x) =~= prefix + item);
                        lemma_count_after_concat(old(self).pushed_at(x).count(t), prefix, item, t);
                        if before.pointstamps.source_counts@[c as int]@[o as int]@.len() == 0 {
                            assert(item =~= Seq::<(Product<TO, TI>, i64)>::empty());
                            assert(self.pushed_at(x) == before.pushed_at(x));
                        }
                    }
                }
                o = o + 1;
            }
            proof {
                assert forall|x: Target, t: Product<TO, TI>|
                    old(self).fits_here(x) implies #[trigger] self.pushed_at(x).count(t) == count_after(
                        old(self).pushed_at(x).count(t),
                        old(self).child_items(c + 1, x),
                        t,
                    ) by {
                    assert(old(self).child_items(c + 1, x) == old(self).child_items(c as int, x) + old(self).target_items(c as int, nin as int, x)
                        + old(self).source_items(c as int, nout as int, x));
                }
            }
            c = c + 1;
        }
        let ni = self.inputs;
        let mut i: usize = 0;
        while i < ni
            invariant
                ni == self.inputs,
                0 <= i <= ni,
                ns == self.scopes@.len(),
                self.wf(),
                self.is_sealed(),
                same_but_pointstamps(*old(self), *self),
                forall|d: int, q: int|
                    0 <= d < ns && 0 <= q < self.pointstamps.target_counts@[d]@.len() ==> (#[trigger] self.pointstamps.target_counts@[d]@[q])@.len() == 0,
                forall|d: int, q: int|
                    0 <= d < ns && 0 <= q < self.pointstamps.source_counts@[d]@.len() ==> (#[trigger] self.pointstamps.source_counts@[d]@[q])@.len() == 0,
                forall|q: int| 0 <= q < i ==> (#[trigger] self.pointstamps.input_counts@[q])@.len() == 0,
                forall|q: int| #![trigger self.pointstamps.input_counts@[q]]
                    i <= q < ni ==> self.pointstamps.input_counts@[q] == old(self).pointstamps.input_counts@[q],
                forall|x: Target| #[trigger] self.fits_here(x) == old(self).fits_here(x),
                forall|x: Target, t: Product<TO, TI>|
                    old(self).fits_here(x) ==> #[trigger] self.pushed_at(x).count(t) == count_after(
                        old(self).pushed_at(x).count(t),
                        old(self).child_items(ns as int, x) + old(self).input_items(i as int, x),
                        t,
                    ),
                old(self).pointstamps.counts_empty() ==> self.pointstamps == old(self).pointstamps,
            decreases ni - i,
        {
            proof {
                self.lemma_holds(Source::GraphInput(i));
            }
            let ghost before = *self;
            if !self.pointstamps.input_counts[i].is_empty() {
                let mut bucket: CountMap<Product<TO, TI>> = CountMap::new();
                std::mem::swap(&mut bucket, &mut self.pointstamps.input_counts[i]);
                proof {
                    assert forall|a: int| 0 <= a < self.input_summaries@[i as int]@.len() implies fits(
                        (#[trigger] self.input_summaries@[i as int]@[a]).0,
                        self.pointstamps.target_pushed@,
                        self.pointstamps.output_pushed@.len(),
                    ) by {
                        assert(self.table_valid(self.input_summaries@[i as int]@));
                        before.lemma_fits(self.input_summaries@[i as int]@[a].0);
                    }
                    assert(self.table_valid(self.input_summaries@[i as int]@));
                }
                propagate_into(
                    &mut self.pointstamps.target_pushed,
                    &mut self.pointstamps.output_pushed,
                    bucket.elements(),
                    &self.input_summaries[i],
                );
                proof {
                    assert(bucket@ == old(self).pointstamps.input_counts@[i as int]@);
                    assert forall|x: Target| #[trigger] self.fits_here(x) == before.fits_here(x) by {
                        if let Target::ScopeInput(c2, p2) = x {
                            if (c2 as int) < self.pointstamps.target_pushed@.len() {
                                assert(self.pointstamps.target_pushed@[c2 as int]@.len() == before.pointstamps.target_pushed@[c2 as int]@.len());
                            }
                        }
                    }
                    assert forall|x: Target, t: Product<TO, TI>| old(self).fits_here(x) implies #[trigger] self.pushed_at(x).count(t) == count_after(
                        before.pushed_at(x).count(t),
                        pushed_items(old(self).pointstamps.input_counts@[i as int]@, old(self).input_summaries@[i as int]@, x),
                        t,
                    ) by {
                        assert(before.fits_here(x));
                    }
                    assert(grid_wf(self.pointstamps.target_pushed@, self.child_inputs()));
                    assert forall|q: int| 0 <= q < self.pointstamps.input_counts@.len() implies (
                        #[trigger] self.pointstamps.input_counts@[q]).wf() by {
                        if q != i {
                            assert(self.pointstamps.input_counts@[q] == before.pointstamps.input_counts@[q]);
                        }
                    }
                    assert forall|q: int| 0 <= q < i + 1 implies (#[trigger] self.pointstamps.input_counts@[q])@.len() == 0 by {
                        if q != i {
                            assert(self.pointstamps.input_counts@[q] == before.pointstamps.input_counts@[q]);
                        }
                    }
                    assert forall|q: int| #![trigger self.pointstamps.input_counts@[q]]
                        i + 1 <= q < ni implies self.pointstamps.input_counts@[q] == old(self).pointstamps.input_counts@[q] by {
                        assert(self.pointstamps.input_counts@[q] == before.pointstamps.input_counts@[q]);
                    }
                    if old(self).pointstamps.counts_empty() {
                        assert(before.pointstamps.input_counts@[i as int]@.len() == 0);
                    }
                }
            }
            proof {
                assert forall|x: Target, t: Product<TO, TI>|
                    old(self).fits_here(x) implies #[trigger] self.pushed_at(x).count(t) == count_after(
                        old(self).pushed_at(x).count(t),
                        old(self).child_items(ns as int, x) + old(self).input_items(i + 1, x),
                        t,
                    ) by {
                    let item = pushed_items(
                        old(self).pointstamps.input_counts@[i as int]@,
                        old(self).input_summaries@[i as int]@,
                        x,
                    );
                    let prefix = old(self).child_items(ns as int, x) + old(self).input_items(i as int, x);
                    assert(old(self).input_items(i + 1, x) == old(self).input_items(i as int, x) + item);
                    assert(old(self).child_items(ns as int, x) + old(self).input_items(i + 1, x) =~= prefix + item);
                    lemma_count_after_concat(old(self).pushed_at(x).count(t), prefix, item, t);
                    if before.pointstamps.input_counts@[i as int]@.len() == 0 {
                        assert(item =~= Seq::<(Product<TO, TI>, i64)>::empty());
                        assert(self.pushed_at(x) == before.pushed_at(x));
                    }
                }
            }
            i = i + 1;
        }
    }

    /// Fixes the topology: installs each child's summaries and initial capabilities and
    /// allocates the tables and counters for the declared children and ports.
    fn seal(&mut self, summaries: Vec<Vec<Vec<Antichain<Summary<SO, SI>>>>>, capabilities: &Vec<Vec<Vec<(Product<TO, TI>, i64)>>>)
        requires
            old(self).wf(),
            !old(self).is_sealed(),
            summaries@.len() == old(self).scopes@.len(),
            forall|c: int| 0 <= c < summaries@.len() ==> matrix_wf(
                (#[trigger] summaries@[c])@,
                old(self).scopes@[c].inputs as nat,
                old(self).scopes@[c].outputs as nat,
            ),
            capabilities@.len() == old(self).scopes@.len(),
            forall|c: int| 0 <= c < capabilities@.len() ==> (#[trigger] capabilities@[c])@.len() == old(self).scopes@[c].outputs,
        ensures
            final(self).wf(),
            final(self).is_sealed(),
            final(self).quiescent(),
            final(self).scopes == old(self).scopes,
            final(self).inputs == old(self).inputs,
            final(self).outputs == old(self).outputs,
            final(self).scope_edges == old(self).scope_edges,
            final(self).input_edges == old(self).input_edges,
            forall|c: int| 0 <= c < summaries@.len() ==> (#[trigger] final(self).subscope_state@[c]).summary == summaries@[c],
            forall|c: int, p: int, t: Product<TO, TI>|
                0 <= c < summaries@.len() && 0 <= p < old(self).scopes@[c].inputs ==> #[trigger] final(self).subscope_state@[c].guarantees@[p].count(t) == 0
                    && final(self).subscope_state@[c].outstanding_messages@[p].count(t) == 0,
            forall|o: int, t: TO| 0 <= o < old(self).outputs ==> #[trigger] final(self).external_capability@[o].count(t) == 0
                && !final(self).external_capability@[o].in_frontier(t),
            forall|o: int, i: int|
                0 <= o < old(self).outputs && 0 <= i < old(self).inputs ==> (#[trigger] final(self).external_summaries@[o]@[i])@.len() == 0,
            forall|c: int, o: int, t: Product<TO, TI>|
                0 <= c < capabilities@.len() && 0 <= o < capabilities@[c]@.len() ==> #[trigger] final(self).subscope_state@[c].capabilities@[o].count(t)
                    == count_after(0, capabilities@[c]@[o]@, t),
    {
        let mut summaries = summaries;
        let ns = self.scopes.len();
        let mut states: Vec<SubscopeState<Product<TO, TI>, Summary<SO, SI>>> = Vec::new();
        let mut source_summaries: Vec<Vec<Vec<(Target, Antichain<Summary<SO, SI>>)>>> = Vec::new();
        let mut target_summaries: Vec<Vec<Vec<(Target, Antichain<Summary<SO, SI>>)>>> = Vec::new();
        let mut source_counts: Vec<Vec<CountMap<Product<TO, TI>>>> = Vec::new();
        let mut target_counts: Vec<Vec<CountMap<Product<TO, TI>>>> = Vec::new();
        let mut target_pushed: Vec<Vec<CountMap<Product<TO, TI>>>> = Vec::new();
        let ghost given_summaries = summaries@;
        let mut c: usize = 0;
        while c < ns
            invariant
                ns == self.scopes@.len(),
                self == old(self),
                0 <= c <= ns,
                summaries@.len() == ns,
                capabilities@.len() == ns,
                forall|d: int| c <= d < ns ==> #[trigger] summaries@[d] == given_summaries[d],
                forall|d: int| 0 <= d < ns ==> matrix_wf(
                    (#[trigger] given_summaries[d])@,
                    self.scopes@[d].inputs as nat,
                    self.scopes@[d].outputs as nat,
                ),
                forall|d: int| 0 <= d < capabilities@.len() ==> (#[trigger] capabilities@[d])@.len() == self.scopes@[d].outputs,
                states@.len() == c,
                forall|d: int| 0 <= d < c ==> (#[trigger] states@[d]).shaped(
                    self.scopes@[d].inputs as nat,
                    self.scopes@[d].outputs as nat,
                ),
                forall|d: int| 0 <= d < c ==> (#[trigger] states@[d]).summary == given_summaries[d],
                forall|d: int, p: int, t: Product<TO, TI>|
                    0 <= d < c && 0 <= p < self.scopes@[d].inputs ==> #[trigger] states@[d].guarantees@[p].count(t) == 0
                        && states@[d].outstanding_messages@[p].count(t) == 0,
                forall|d: int, o: int, t: Product<TO, TI>|
                    0 <= d < c && 0 <= o < capabilities@[d]@.len() ==> #[trigger] states@[d].capabilities@[o].count(t)
                        == count_after(0, capabilities@[d]@[o]@, t),
                source_summaries@.len() == c,
                forall|d: int| 0 <= d < c ==> (#[trigger] source_summaries@[d])@.len() == self.scopes@[d].outputs,
                forall|d: int, o: int| 0 <= d < c && 0 <= o < source_summaries@[d]@.len() ==> (#[trigger] source_summaries@[d]@[o])@.len() == 0,
                target_summaries@.len() == c,
                forall|d: int| 0 <= d < c ==> (#[trigger] target_summaries@[d])@.len() == self.scopes@[d].inputs,
                forall|d: int, o: int| 0 <= d < c && 0 <= o < target_summaries@[d]@.len() ==> (#[trigger] target_summaries@[d]@[o])@.len() == 0,
                grid_wf(source_counts@, self.child_outputs().take(c as int)),
                grid_empty(source_counts@),
                grid_wf(target_counts@, self.child_inputs().take(c as int)),
                grid_empty(target_counts@),
                grid_wf(target_pushed@, self.child_inputs().take(c as int)),
                grid_empty(target_pushed@),
            decreases ns - c,
        {
            let inputs = self.scopes[c].inputs;
            let outputs = self.scopes[c].outputs;
            let mut summary: Vec<Vec<Antichain<Summary<SO, SI>>>> = Vec::new();
            std::mem::swap(&mut summary, &mut summaries[c]);
            let mut state = SubscopeState::new(inputs, outputs, summary);
            let ghost fresh = state;
            let mut o: usize = 0;
            while o < outputs
                invariant
                    0 <= o <= outputs,
                    0 <= c < ns,
                    capabilities@.len() == ns,
                    capabilities@[c as int]@.len() == outputs,
                    state.summary == given_summaries[c as int],
                    state.guarantees == fresh.guarantees,
                    state.outstanding_messages == fresh.outstanding_messages,
                    state.guarantees@.len() == inputs,
                    state.capabilities@.len() == outputs,
                    state.outstanding_messages@.len() == inputs,
                    crate::subgraph::frontiers_wf(state.guarantees@),
                    crate::subgraph::frontiers_wf(state.capabilities@),
                    crate::subgraph::frontiers_wf(state.outstanding_messages@),
                    forall|q: int, t: Product<TO, TI>|
                        0 <= q < o ==> #[trigger] state.capabilities@[q].count(t) == count_after(0, capabilities@[c as int]@[q]@, t),
                    forall|q: int, t: Product<TO, TI>| o <= q < outputs ==> #[trigger] state.capabilities@[q].count(t) == 0,
                decreases outputs - o,
            {
                let ghost before = state.capabilities@;
                state.capabilities[o].update_iter_and(&capabilities[c][o]);
                proof {
                    assert forall|q: int| 0 <= q < state.capabilities@.len() implies (#[trigger] state.capabilities@[q]).wf() by {
                        if q != o {
                            assert(state.capabilities@[q] == before[q]);
                        }
                    }
                    assert forall|q: int, t: Product<TO, TI>|
                        0 <= q < o + 1 implies #[trigger] state.capabilities@[q].count(t) == count_after(0, capabilities@[c as int]@[q]@, t) by {
                        if q != o {
                            assert(state.capabilities@[q] == before[q]);
                        }
                    }
                    assert forall|q: int, t: Product<TO, TI>|
                        o + 1 <= q < outputs implies #[trigger] state.capabilities@[q].count(t) == 0 by {
                        assert(state.capabilities@[q] == before[q]);
                    }
                }
                o = o + 1;
            }
            let ghost states_before = states@;
            states.push(state);
            proof {
                assert forall|d: int, p: int, t: Product<TO, TI>|
                    0 <= d < c + 1 && 0 <= p < self.scopes@[d].inputs implies #[trigger] states@[d].guarantees@[p].count(t) == 0
                        && states@[d].outstanding_messages@[p].count(t) == 0 by {
                    if d < c {
                        assert(states@[d] == states_before[d]);
                    }
                }
            }
            source_summaries.push(empty_tables(outputs));
            target_summaries.push(empty_tables(inputs));
            let ghost sc = source_counts@;
            let ghost tc = target_counts@;
            let ghost tp = target_pushed@;
            source_counts.push(empty_row(outputs));
            target_counts.push(empty_row(inputs));
            target_pushed.push(empty_row(inputs));
            proof {
                let co = self.child_outputs().take(c + 1);
                let ci = self.child_inputs().take(c + 1);
                assert(co[c as int] == outputs);
                assert(ci[c as int] == inputs);
                assert forall|d: int| 0 <= d < c + 1 implies (#[trigger] source_counts@[d])@.len() == co[d] by {
                    if d < c {
                        assert(source_counts@[d] == sc[d]);
                        assert(co[d] == self.child_outputs().take(c as int)[d]);
                    }
                }
                assert forall|d: int| 0 <= d < c + 1 implies (#[trigger] target_counts@[d])@.len() == ci[d] by {
                    if d < c {
                        assert(target_counts@[d] == tc[d]);
                        assert(ci[d] == self.child_inputs().take(c as int)[d]);
                    }
                }
                assert forall|d: int| 0 <= d < c + 1 implies (#[trigger] target_pushed@[d])@.len() == ci[d] by {
                    if d < c {
                        assert(target_pushed@[d] == tp[d]);
                        assert(ci[d] == self.child_inputs().take(c as int)[d]);
                    }
                }
                assert forall|d: int, q: int| 0 <= d < c + 1 && 0 <= q < source_counts@[d]@.len() implies (#[trigger] source_counts@[d]@[q]).wf()
                    && source_counts@[d]@[q]@.len() == 0 by {
                    if d < c {
                        assert(source_counts@[d] == sc[d]);
                    }
                }
                assert forall|d: int, q: int| 0 <= d < c + 1 && 0 <= q < target_counts@[d]@.len() implies (#[trigger] target_counts@[d]@[q]).wf()
                    && target_counts@[d]@[q]@.len() == 0 by {
                    if d < c {
                        assert(target_counts@[d] == tc[d]);
                    }
                }
                assert forall|d: int, q: int| 0 <= d < c + 1 && 0 <= q < target_pushed@[d]@.len() implies (#[trigger] target_pushed@[d]@[q]).wf()
                    && target_pushed@[d]@[q]@.len() == 0 by {
                    if d < c {
                        assert(target_pushed@[d] == tp[d]);
                    }
                }
            }
            c = c + 1;
        }
        proof {
            assert(self.child_outputs().take(ns as int) =~= self.child_outputs());
            assert(self.child_inputs().take(ns as int) =~= self.child_inputs());
        }
        let inputs = self.inputs;
        let outputs = self.outputs;
        self.subscope_state = states;
        self.source_summaries = source_summaries;
        self.target_summaries = target_summaries;
        self.input_summaries = empty_tables(inputs);
        self.external_summaries = empty_matrix(outputs, inputs);
        self.external_capability = empty_frontiers(outputs);
        self.pointstamps = PointstampCounter {
            source_counts,
            target_counts,
            input_counts: empty_row(inputs),
            target_pushed,
            output_pushed: empty_row(outputs),
        };
        self.sealed = true;
        proof {
            assert forall|o: int, t: TO| 0 <= o < old(self).outputs implies #[trigger] self.external_capability@[o].count(t) == 0
                && !self.external_capability@[o].in_frontier(t) by {}
            assert forall|o: int, i: int|
                0 <= o < old(self).outputs && 0 <= i < old(self).inputs implies (#[trigger] self.external_summaries@[o]@[i])@.len() == 0 by {}
        }
    }

    /// Whether `reach[i][o]` is the antichain of the outer parts of the summaries from input
    /// `i` to output `o`: each outer part lies at or above one of its elements, and each of
    /// its elements is an outer part.
    pub open spec fn outer_reach_of(&self, reach: Seq<Vec<Antichain<SO>>>) -> bool {
        &&& forall|i: int, a: int, e: int, o: usize|
            0 <= i < self.inputs && 0 <= a < self.input_summaries@[i]@.len() && 0 <= e
                < self.input_summaries@[i]@[a].1@.len() && self.input_summaries@[i]@[a].0 == Target::GraphOutput(o)
                ==> #[trigger] dominated(reach[i]@[o as int]@, outer_part(self.input_summaries@[i]@[a].1@[e]))
        &&& forall|i: int, o: int, k: int|
            0 <= i < self.inputs && 0 <= o < self.outputs && 0 <= k < reach[i]@[o]@.len() ==> self.is_outer_part(
                i,
                o,
                #[trigger] reach[i]@[o]@[k],
            )
    }

    /// Whether `x` is the outer part of a summary from input `i` to output `o`.
    pub open spec fn is_outer_part(&self, i: int, o: int, x: SO) -> bool {
        exists|a: int, e: int|
            0 <= a < self.input_summaries@[i]@.len() && 0 <= e < self.input_summaries@[i]@[a].1@.len()
                && self.input_summaries@[i]@[a].0 == Target::GraphOutput(o as usize) && x == outer_part(
                #[trigger] self.input_summaries@[i]@[a].1@[e],
            )
    }

    /// For each input and output of this scope, the antichain of the outer parts of the
    /// summaries of the paths between them.
    fn outer_reach(&self) -> (r: Vec<Vec<Antichain<SO>>>)
        requires
            self.wf(),
            self.is_sealed(),
        ensures
            matrix_wf(r@, self.inputs as nat, self.outputs as nat),
            self.outer_reach_of(r@),
    {
        let inputs = self.inputs;
        let outputs = self.outputs;
        let mut reach: Vec<Vec<Antichain<SO>>> = empty_matrix(inputs, outputs);
        let mut i: usize = 0;
        while i < inputs
            invariant
                inputs == self.inputs,
                outputs == self.outputs,
                0 <= i <= inputs,
                matrix_wf(reach@, inputs as nat, outputs as nat),
                self.wf(),
                self.is_sealed(),
                forall|i2: int, a2: int, e2: int, o2: usize|
                    0 <= i2 < i && 0 <= a2 < self.input_summaries@[i2]@.len() && 0 <= e2
                        < self.input_summaries@[i2]@[a2].1@.len() && self.input_summaries@[i2]@[a2].0 == Target::GraphOutput(o2)
                        ==> #[trigger] dominated(reach@[i2]@[o2 as int]@, outer_part(self.input_summaries@[i2]@[a2].1@[e2])),
                forall|i2: int, o2: int, k: int|
                    0 <= i2 < inputs && 0 <= o2 < outputs && 0 <= k < reach@[i2]@[o2]@.len() ==> self.is_outer_part(i2, o2, #[trigger] reach@[i2]@[o2]@[k]),
            decreases inputs - i,
        {
            assert(self.table_valid(self.input_summaries@[i as int]@));
            let m = self.input_summaries[i].len();
            let mut a: usize = 0;
            while a < m
                invariant
                    inputs == self.inputs,
                    outputs == self.outputs,
                    0 <= i < inputs,
                    m == self.input_summaries@[i as int]@.len(),
                    0 <= a <= m,
                    matrix_wf(reach@, inputs as nat, outputs as nat),
                    self.wf(),
                    self.is_sealed(),
                    self.table_valid(self.input_summaries@[i as int]@),
                    forall|i2: int, a2: int, e2: int, o2: usize|
                        (0 <= i2 < i || (i2 == i && 0 <= a2 < a)) && 0 <= a2 < self.input_summaries@[i2]@.len() && 0 <= e2
                            < self.input_summaries@[i2]@[a2].1@.len() && self.input_summaries@[i2]@[a2].0 == Target::GraphOutput(o2)
                            ==> #[trigger] dominated(reach@[i2]@[o2 as int]@, outer_part(self.input_summaries@[i2]@[a2].1@[e2])),
                    forall|i2: int, o2: int, k: int|
                        0 <= i2 < inputs && 0 <= o2 < outputs && 0 <= k < reach@[i2]@[o2]@.len() ==> self.is_outer_part(i2, o2, #[trigger] reach@[i2]@[o2]@[k]),
                decreases m - a,
            {
                let target = self.input_summaries[i][a].0;
                assert(self.valid_target(self.input_summaries@[i as int]@[a as int].0));
                if let Target::GraphOutput(out) = target {
                    let q = self.input_summaries[i][a].1.elements().len();
                    let mut e: usize = 0;
                    while e < q
                        invariant
                            inputs == self.inputs,
                            outputs == self.outputs,
                            0 <= i < inputs,
                            m == self.input_summaries@[i as int]@.len(),
                            0 <= a < m,
                            (out as int) < outputs,
                            self.input_summaries@[i as int]@[a as int].0 == Target::GraphOutput(out),
                            q == self.input_summaries@[i as int]@[a as int].1@.len(),
                            0 <= e <= q,
                            matrix_wf(reach@, inputs as nat, outputs as nat),
                            self.wf(),
                            self.is_sealed(),
                            forall|i2: int, a2: int, e2: int, o2: usize|
                                (0 <= i2 < i || (i2 == i && 0 <= a2 < a) || (i2 == i && a2 == a && 0 <= e2 < e)) && 0 <= a2
                                    < self.input_summaries@[i2]@.len() && 0 <= e2 < self.input_summaries@[i2]@[a2].1@.len()
                                    && self.input_summaries@[i2]@[a2].0 == Target::GraphOutput(o2) ==> #[trigger] dominated(
                                    reach@[i2]@[o2 as int]@,
                                    outer_part(self.input_summaries@[i2]@[a2].1@[e2]),
                                ),
                            forall|i2: int, o2: int, k: int|
                                0 <= i2 < inputs && 0 <= o2 < outputs && 0 <= k < reach@[i2]@[o2]@.len() ==> self.is_outer_part(i2, o2, #[trigger] reach@[i2]@[o2]@[k]),
                        decreases q - e,
                    {
                        let u = self.input_summaries[i][a].1.elements()[e];
                        let outer = match u {
                            Summary::Local(_) => SO::identity(),
                            Summary::Outer(y, _) => y,
                        };
                        assert(outer == outer_part(u));
                        let ghost before = reach@;
                        assert(reach@[i as int]@[out as int].wf());
                        let inserted = reach[i][out].insert(outer);
                        proof {
                            assert forall|r2: int| 0 <= r2 < inputs implies (#[trigger] reach@[r2])@.len() == outputs && crate::subgraph::antichains_wf(reach@[r2]@) by {
                                if r2 != i {
                                    assert(reach@[r2] == before[r2]);
                                } else {
                                    assert forall|k2: int| 0 <= k2 < reach@[r2]@.len() implies (#[trigger] reach@[r2]@[k2]).wf() by {
                                        if k2 != out {
                                            assert(reach@[r2]@[k2] == before[r2]@[k2]);
                                        }
                                    }
                                }
                            }
                            let cell_before = before[i as int]@[out as int]@;
                            let cell_after = reach@[i as int]@[out as int]@;
                            assert forall|i2: int, a2: int, e2: int, o2: usize|
                                (0 <= i2 < i || (i2 == i && 0 <= a2 < a) || (i2 == i && a2 == a && 0 <= e2 < e + 1)) && 0 <= a2
                                    < self.input_summaries@[i2]@.len() && 0 <= e2 < self.input_summaries@[i2]@[a2].1@.len()
                                    && self.input_summaries@[i2]@[a2].0 == Target::GraphOutput(o2) implies #[trigger] dominated(
                                    reach@[i2]@[o2 as int]@,
                                    outer_part(self.input_summaries@[i2]@[a2].1@[e2]),
                                ) by {
                                let x = outer_part(self.input_summaries@[i2]@[a2].1@[e2]);
                                if i2 == i && a2 == a && e2 == e {
                                    assert(o2 == out);
                                    lemma_insert_dominates(cell_before, cell_after, outer, inserted);
                                } else if i2 == i && o2 == out {
                                    assert(dominated(before[i2]@[o2 as int]@, x));
                                    lemma_insert_keeps_dominated(cell_before, cell_after, outer, inserted, x);
                                } else if i2 != i {
                                    assert(reach@[i2] == before[i2]);
                                    assert(dominated(before[i2]@[o2 as int]@, x));
                                } else {
                                    assert(reach@[i2]@[o2 as int] == before[i2]@[o2 as int]);
                                    assert(dominated(before[i2]@[o2 as int]@, x));
                                }
                            }
                            assert forall|i2: int, o2: int, k: int|
                                0 <= i2 < inputs && 0 <= o2 < outputs && 0 <= k < reach@[i2]@[o2]@.len() implies self.is_outer_part(i2, o2, #[trigger] reach@[i2]@[o2]@[k]) by {
                                if i2 == i && o2 == out {
                                    let y = reach@[i2]@[o2]@[k];
                                    assert(cell_after.contains(y));
                                    if y == outer {
                                        assert(self.input_summaries@[i as int]@[a as int].1@[e as int] == u);
                                        assert(self.is_outer_part(i2, o2, y));
                                    } else {
                                        assert(cell_before.contains(y));
                                        let k0 = choose|k0: int| 0 <= k0 < cell_before.len() && cell_before[k0] == y;
                                        assert(before[i2]@[o2]@[k0] == y);
                                    }
                                } else if i2 != i {
                                    assert(reach@[i2] == before[i2]);
                                    assert(before[i2]@[o2]@[k] == reach@[i2]@[o2]@[k]);
                                } else {
                                    assert(reach@[i2]@[o2] == before[i2]@[o2]);
                                    assert(before[i2]@[o2]@[k] == reach@[i2]@[o2]@[k]);
                                }
                            }
                        }
                        e = e + 1;
                    }
                }
                a = a + 1;
            }
            i = i + 1;
        }
        reach
    }

    /// The changes at `x` made by the capabilities at the first `n` outputs of child `c`.
    pub open spec fn cap_source_items(&self, c: int, n: int, x: Target) -> Seq<(Product<TO, TI>, i64)>
        decreases n,
    {
        if n <= 0 {
            Seq::empty()
        } else {
            self.cap_source_items(c, n - 1, x) + pushed_items(self.capability_list(c, n - 1), self.source_summaries@[c]@[n - 1]@, x)
        }
    }

    /// The changes at `x` made by the capabilities of the first `n` children, each counted
    /// once at its output and carried along the rows of the tables.
    pub open spec fn capability_items(&self, n: int, x: Target) -> Seq<(Product<TO, TI>, i64)>
        decreases n,
    {
        if n <= 0 {
            Seq::empty()
        } else {
            self.capability_items(n - 1, x) + self.cap_source_items(n - 1, self.scopes@[n - 1].outputs as int, x)
        }
    }

    /// The capabilities of output `o` of child `c`, each with a count of one.
    pub open spec fn capability_list(&self, c: int, o: int) -> Seq<(Product<TO, TI>, i64)> {
        self.subscope_state@[c].capabilities@[o].frontier_seq().map_values(|t: Product<TO, TI>| (t, 1i64))
    }

    /// Records each capability that the children hold as a pending change of `+1` at the
    /// child's output.
    fn inject_capabilities(&mut self)
        requires
            old(self).wf(),
            old(self).is_sealed(),
            old(self).pointstamps.counts_empty(),
        ensures
            final(self).wf(),
            final(self).is_sealed(),
            same_but_pointstamps(*old(self), *final(self)),
            final(self).pointstamps.target_pushed == old(self).pointstamps.target_pushed,
            final(self).pointstamps.output_pushed == old(self).pointstamps.output_pushed,
            final(self).pointstamps.target_counts == old(self).pointstamps.target_counts,
            final(self).pointstamps.input_counts == old(self).pointstamps.input_counts,
            forall|c: usize, o: usize|
                c < old(self).scopes@.len() && o < old(self).scopes@[c as int].outputs ==> (#[trigger] final(self).pointstamps.source_counts@[c as int]@[o as int])@
                    == old(self).capability_list(c as int, o as int),
    {
        let ns = self.scopes.len();
        let mut c: usize = 0;
        while c < ns
            invariant
                ns == self.scopes@.len(),
                0 <= c <= ns,
                self.wf(),
                self.is_sealed(),
                same_but_pointstamps(*old(self), *self),
                self.pointstamps.target_pushed == old(self).pointstamps.target_pushed,
                self.pointstamps.output_pushed == old(self).pointstamps.output_pushed,
                self.pointstamps.target_counts == old(self).pointstamps.target_counts,
                self.pointstamps.input_counts == old(self).pointstamps.input_counts,
                forall|d: usize, q: usize|
                    d < ns && q < self.scopes@[d as int].outputs ==> (#[trigger] self.pointstamps.source_counts@[d as int]@[q as int])@
                        == if d < c { old(self).capability_list(d as int, q as int) } else { Seq::empty() },
            decreases ns - c,
        {
            let nout = self.scopes[c].outputs;
            let mut o: usize = 0;
            while o < nout
                invariant
                    ns == self.scopes@.len(),
                    0 <= c < ns,
                    nout == self.scopes@[c as int].outputs,
                    0 <= o <= nout,
                    self.wf(),
                    self.is_sealed(),
                    same_but_pointstamps(*old(self), *self),
                    self.pointstamps.target_pushed == old(self).pointstamps.target_pushed,
                    self.pointstamps.output_pushed == old(self).pointstamps.output_pushed,
                    self.pointstamps.target_counts == old(self).pointstamps.target_counts,
                    self.pointstamps.input_counts == old(self).pointstamps.input_counts,
                    forall|d: usize, q: usize|
                        d < ns && q < self.scopes@[d as int].outputs ==> (#[trigger] self.pointstamps.source_counts@[d as int]@[q as int])@
                            == if d < c || (d == c && q < o) { old(self).capability_list(d as int, q as int) } else { Seq::empty() },
                decreases nout - o,
            {
                assert(self.subscope_state@[c as int].shaped(self.scopes@[c as int].inputs as nat, nout as nat));
                assert(self.subscope_state@[c as int].capabilities@[o as int].wf());
                proof {
                    self.subscope_state@[c as int].capabilities@[o as int].lemma_frontier_seq();
                }
                let m = self.subscope_state[c].capabilities[o].elements().len();
                let ghost list = old(self).capability_list(c as int, o as int);
                let ghost fr = self.subscope_state@[c as int].capabilities@[o as int].frontier_seq();
                let mut k: usize = 0;
                while k < m
                    invariant
                        ns == self.scopes@.len(),
                        0 <= c < ns,
                        nout == self.scopes@[c as int].outputs,
                        0 <= o < nout,
                        0 <= k <= m,
                        m == fr.len(),
                        fr == self.subscope_state@[c as int].capabilities@[o as int].frontier_seq(),
                        fr.no_duplicates(),
                        list == fr.map_values(|t: Product<TO, TI>| (t, 1i64)),
                        self.wf(),
                        self.is_sealed(),
                        same_but_pointstamps(*old(self), *self),
                        self.pointstamps.target_pushed == old(self).pointstamps.target_pushed,
                        self.pointstamps.output_pushed == old(self).pointstamps.output_pushed,
                        self.pointstamps.target_counts == old(self).pointstamps.target_counts,
                        self.pointstamps.input_counts == old(self).pointstamps.input_counts,
                        forall|d: usize, q: usize|
                            d < ns && q < self.scopes@[d as int].outputs && (d != c || q != o) ==> (#[trigger] self.pointstamps.source_counts@[d as int]@[q as int])@
                                == if d < c || (d == c && q < o) { old(self).capability_list(d as int, q as int) } else { Seq::empty() },
                        self.pointstamps.source_counts@[c as int]@[o as int]@ == list.take(k as int),
                    decreases m - k,
                {
                    assert(self.subscope_state@[c as int].shaped(self.scopes@[c as int].inputs as nat, nout as nat));
                    assert(self.subscope_state@[c as int].capabilities@[o as int].wf());
                    let t = self.subscope_state[c].capabilities[o].elements()[k];
                    proof {
                        self.lemma_holds(Source::ScopeOutput(c, o));
                        let b = self.pointstamps.source_counts@[c as int]@[o as int]@;
                        assert forall|i: int| 0 <= i < b.len() implies (#[trigger] b[i]).0 != t by {
                            assert(b[i] == list[i]);
                            assert(fr[i] != fr[k as int]);
                        }
                    }
                    let ghost before = *self;
                    self.pointstamps.update(Location::SourceLoc(Source::ScopeOutput(c, o)), t, 1);
                    proof {
                        assert(list.take(k + 1) =~= list.take(k as int).push((t, 1i64)));
                        assert forall|d: usize, q: usize|
                            d < ns && q < self.scopes@[d as int].outputs && (d != c || q != o) implies (#[trigger] self.pointstamps.source_counts@[d as int]@[q as int])@
                                == if d < c || (d == c && q < o) { old(self).capability_list(d as int, q as int) } else { Seq::empty() } by {
                            let l = Location::SourceLoc(Source::ScopeOutput(d, q));
                            before.lemma_holds(Source::ScopeOutput(d, q));
                            assert(self.pointstamps.bucket(l) == before.pointstamps.bucket(l));
                        }
                    }
                    k = k + 1;
                }
                proof {
                    assert(list.take(m as int) =~= list);
                }
                o = o + 1;
            }
            c = c + 1;
        }
    }

    /// Seals the topology and returns, per input and output of this scope, the outer
    /// summaries of the paths between them inside the scope, and per output the initial
    /// capabilities of the children as seen from outside (their outer coordinates).
    #[verifier::rlimit(100)]
    pub fn get_internal_summary(
        &mut self,
        summaries: Vec<Vec<Vec<Antichain<Summary<SO, SI>>>>>,
        capabilities: &Vec<Vec<Vec<(Product<TO, TI>, i64)>>>,
    ) -> (r: (Vec<Vec<Antichain<SO>>>, Vec<Vec<(TO, i64)>>))
        requires
            old(self).wf(),
            !old(self).is_sealed(),
            summaries@.len() == old(self).scopes@.len(),
            forall|c: int| 0 <= c < summaries@.len() ==> matrix_wf(
                (#[trigger] summaries@[c])@,
                old(self).scopes@[c].inputs as nat,
                old(self).scopes@[c].outputs as nat,
            ),
            capabilities@.len() == old(self).scopes@.len(),
            forall|c: int| 0 <= c < capabilities@.len() ==> (#[trigger] capabilities@[c])@.len() == old(self).scopes@[c].outputs,
        ensures
            final(self).wf(),
            final(self).is_sealed(),
            final(self).quiescent(),
            final(self).children() == old(self).children(),
            final(self).num_inputs() == old(self).num_inputs(),
            final(self).num_outputs() == old(self).num_outputs(),
            forall|c: int| 0 <= c < summaries@.len() ==> (#[trigger] final(self).subscope_state@[c]).summary == summaries@[c],
            forall|c: int, o: int, t: Product<TO, TI>|
                0 <= c < capabilities@.len() && 0 <= o < capabilities@[c]@.len() ==> #[trigger] final(self).subscope_state@[c].capabilities@[o].count(t)
                    == count_after(0, capabilities@[c]@[o]@, t),
            matrix_wf(r.0@, old(self).num_inputs(), old(self).num_outputs()),
            final(self).outer_reach_of(r.0@),
            forall|c: int, p: int, t: Product<TO, TI>|
                0 <= c < summaries@.len() && 0 <= p < old(self).scopes@[c].inputs ==> #[trigger] final(self).subscope_state@[c].guarantees@[p].count(t) == 0
                    && final(self).subscope_state@[c].outstanding_messages@[p].count(t) == 0,
            forall|o: int, t: TO| 0 <= o < old(self).outputs ==> #[trigger] final(self).external_capability@[o].count(t) == 0
                && !final(self).external_capability@[o].in_frontier(t),
            forall|o: int, i: int|
                0 <= o < old(self).outputs && 0 <= i < old(self).inputs ==> (#[trigger] final(self).external_summaries@[o]@[i])@.len() == 0,
            r.1@.len() == old(self).num_outputs(),
            forall|o: usize|
                o < old(self).outputs ==> exists|b: Seq<(Product<TO, TI>, i64)>|
                    coalesced(b) && (#[trigger] r.1@[o as int])@ == outer_counts(b) && forall|t: Product<TO, TI>|
                        #[trigger] count_in(b, t) == count_after(
                            0,
                            final(self).capability_items(final(self).scopes@.len() as int, Target::GraphOutput(o)),
                            t,
                        ),
            final(self).seeded_tables(),
            final(self).rows_sound(),
            forall|c: usize, p: usize|
                c < final(self).scopes@.len() && p < final(self).scopes@[c as int].inputs && final(self).scopes@[c as int].notify
                    ==> #[trigger] final(self).child_row_exact(c, p),
            forall|c: usize, p: usize|
                c < final(self).scopes@.len() && p < final(self).scopes@[c as int].inputs && !final(self).scopes@[c as int].notify
                    ==> (#[trigger] final(self).target_summaries@[c as int]@[p as int])@.len() == 0,
            final(self).tables_complete ==> final(self).tables_closed(),
    {
        self.seal(summaries, capabilities);
        let ghost sealed_state = *self;
        let ns = self.scopes.len();
        self.inject_capabilities();
        let complete = self.set_summaries(SATURATION_ROUNDS);
        let ghost injected = *self;
        self.push_pointstamps_to_targets();
        let outputs = self.outputs;
        let mut work: Vec<Vec<(TO, i64)>> = Vec::new();
        let mut o: usize = 0;
        while o < outputs
            invariant
                outputs == self.outputs,
                0 <= o <= outputs,
                work@.len() == o,
                self.wf(),
                self.is_sealed(),
                forall|q: int| 0 <= q < o ==> (#[trigger] work@[q])@ == outer_counts(self.pointstamps.output_pushed@[q]@),
            decreases outputs - o,
        {
            assert(self.pointstamps.output_pushed@[o as int].wf());
            let list = outer_of(self.pointstamps.output_pushed[o].elements());
            let ghost before = work@;
            work.push(list);
            proof {
                assert forall|q: int| 0 <= q < o + 1 implies (#[trigger] work@[q])@ == outer_counts(self.pointstamps.output_pushed@[q]@) by {
                    if q < o {
                        assert(work@[q] == before[q]);
                    }
                }
            }
            o = o + 1;
        }
        let ghost pushed = *self;
        let reach = self.outer_reach();
        self.pointstamps.clear_pushed();
        self.tables_complete = complete;
        proof {
            assert(grid_wf(self.pointstamps.target_pushed@, self.child_inputs()));
            crate::reachability::lemma_tables_carry(injected, *self);
            assert(injected.scopes == self.scopes);
            assert(injected.target_summaries == self.target_summaries);
            assert forall|c: usize, p: usize|
                c < self.scopes@.len() && p < self.scopes@[c as int].inputs && self.scopes@[c as int].notify
                    implies #[trigger] self.child_row_exact(c, p) by {
                assert(injected.child_row_exact(c, p));
            }
            assert forall|c: usize, p: usize|
                c < self.scopes@.len() && p < self.scopes@[c as int].inputs && !self.scopes@[c as int].notify
                    implies (#[trigger] self.target_summaries@[c as int]@[p as int])@.len() == 0 by {
                assert(injected.scopes@[c as int].notify ==> injected.child_row_exact(c, p));
            }
            assert forall|o2: usize| o2 < outputs implies exists|b: Seq<(Product<TO, TI>, i64)>|
                coalesced(b) && (#[trigger] work@[o2 as int])@ == outer_counts(b) && forall|t: Product<TO, TI>|
                    #[trigger] count_in(b, t) == count_after(
                        0,
                        self.capability_items(self.scopes@.len() as int, Target::GraphOutput(o2)),
                        t,
                    ) by {
                let x = Target::GraphOutput(o2);
                assert(injected.fits_here(x));
                assert(injected.pushed_at(x)@.len() == 0);
                assert(pushed.pointstamps.output_pushed@[o2 as int].wf());
                lemma_capability_report(injected, pushed, *self, o2);
                assert(coalesced(pushed.pointstamps.output_pushed@[o2 as int]@));
            }
            assert(sealed_state.subscope_state == self.subscope_state);
            assert(sealed_state.external_capability == self.external_capability);
            assert(sealed_state.external_summaries == self.external_summaries);
        }
        (reach, work)
    }

    /// The message counts that the first `n` inputs of this scope deliver to input `p` of
    /// child `c`: each input's batch once per edge from it to there.
    pub open spec fn from_inputs(&self, messages: Seq<Vec<(Product<TO, TI>, i64)>>, c: int, p: int, n: int) -> Seq<(Product<TO, TI>, i64)>
        decreases n,
    {
        if n <= 0 {
            Seq::empty()
        } else {
            self.from_inputs(messages, c, p, n - 1) + edge_copies(
                self.input_edges@[n - 1]@,
                c,
                p,
                messages[n - 1]@,
                self.input_edges@[n - 1]@.len() as int,
            )
        }
    }

    /// The message counts, by outer time, that the first `n` inputs of this scope pass
    /// straight to output `o` of this scope.
    pub open spec fn produced_from_inputs(&self, messages: Seq<Vec<(Product<TO, TI>, i64)>>, o: int, n: int) -> Seq<(TO, i64)>
        decreases n,
    {
        if n <= 0 {
            Seq::empty()
        } else {
            self.produced_from_inputs(messages, o, n - 1) + output_copies(
                self.input_edges@[n - 1]@,
                o,
                messages[n - 1]@,
                self.input_edges@[n - 1]@.len() as int,
            )
        }
    }

    /// The message counts, by outer time, that the first `n` outputs of child `d` pass to
    /// output `o` of this scope, from what `d` reported producing in `report`.
    pub open spec fn produced_from_outputs(&self, report: SubscopeBuffers<Product<TO, TI>>, d: int, o: int, n: int) -> Seq<(TO, i64)>
        decreases n,
    {
        if n <= 0 {
            Seq::empty()
        } else {
            self.produced_from_outputs(report, d, o, n - 1) + output_copies(
                self.scope_edges@[d]@[n - 1]@,
                o,
                report.produced@[n - 1]@,
                self.scope_edges@[d]@[n - 1]@.len() as int,
            )
        }
    }

    /// The message counts, by outer time, that the reports of the first `n` children pass to
    /// output `o` of this scope.
    pub open spec fn produced_from_children(&self, buffers: Seq<SubscopeBuffers<Product<TO, TI>>>, o: int, n: int) -> Seq<(TO, i64)>
        decreases n,
    {
        if n <= 0 {
            Seq::empty()
        } else {
            self.produced_from_children(buffers, o, n - 1) + self.produced_from_outputs(
                buffers[n - 1],
                n - 1,
                o,
                self.scopes@[n - 1].outputs as int,
            )
        }
    }

    /// The message counts that the first `n` outputs of child `d` deliver to input `p` of
    /// child `c`, from what `d` reported producing in `report`.
    pub open spec fn from_outputs(&self, report: SubscopeBuffers<Product<TO, TI>>, d: int, c: int, p: int, n: int) -> Seq<(Product<TO, TI>, i64)>
        decreases n,
    {
        if n <= 0 {
            Seq::empty()
        } else {
            self.from_outputs(report, d, c, p, n - 1) + edge_copies(
                self.scope_edges@[d]@[n - 1]@,
                c,
                p,
                report.produced@[n - 1]@,
                self.scope_edges@[d]@[n - 1]@.len() as int,
            )
        }
    }

    /// The changes to the messages in flight to input `p` of child `c` that child `d`'s
    /// `report` makes: what it produced there, then, if `d` is `c`, what it consumed there,
    /// negated.
    pub open spec fn child_effect(&self, report: SubscopeBuffers<Product<TO, TI>>, d: int, c: int, p: int) -> Seq<(Product<TO, TI>, i64)> {
        self.from_outputs(report, d, c, p, self.scopes@[d].outputs as int) + if d == c {
            negated_seq(report.consumed@[p]@)
        } else {
            Seq::empty()
        }
    }

    /// The changes that the reports of the first `n` children make to the messages in
    /// flight to input `p` of child `c`.
    pub open spec fn from_children(&self, buffers: Seq<SubscopeBuffers<Product<TO, TI>>>, c: int, p: int, n: int) -> Seq<(Product<TO, TI>, i64)>
        decreases n,
    {
        if n <= 0 {
            Seq::empty()
        } else {
            self.from_children(buffers, c, p, n - 1) + self.child_effect(buffers[n - 1], n - 1, c, p)
        }
    }

    /// Whether `buffers` holds, for each child in order, buffers of the child's arity.
    pub open spec fn buffers_fit(&self, buffers: Seq<SubscopeBuffers<Product<TO, TI>>>) -> bool {
        &&& buffers.len() == self.scopes@.len()
        &&& forall|c: int| 0 <= c < buffers.len() ==> (#[trigger] buffers[c]).shaped(
            self.scopes@[c].inputs as nat,
            self.scopes@[c].outputs as nat,
        )
    }

    /// Records each `(t, delta)` of `changes` as a pending change at `location`.
    fn record(&mut self, location: Location, changes: &Vec<(Product<TO, TI>, i64)>)
        requires
            old(self).wf(),
            old(self).is_sealed(),
            old(self).pointstamps.holds(location),
            old(self).pointstamps.bucket(location).wf(),
        ensures
            final(self).wf(),
            final(self).is_sealed(),
            same_but_pointstamps(*old(self), *final(self)),
            final(self).pointstamps.target_pushed == old(self).pointstamps.target_pushed,
            final(self).pointstamps.output_pushed == old(self).pointstamps.output_pushed,
    {
        let n = changes.len();
        let mut k: usize = 0;
        while k < n
            invariant
                n == changes@.len(),
                0 <= k <= n,
                self.wf(),
                self.is_sealed(),
                self.pointstamps.holds(location),
                self.pointstamps.bucket(location).wf(),
                same_but_pointstamps(*old(self), *self),
                self.pointstamps.target_pushed == old(self).pointstamps.target_pushed,
                self.pointstamps.output_pushed == old(self).pointstamps.output_pushed,
            decreases n - k,
        {
            let (time, delta) = changes[k];
            self.pointstamps.update(location, time, delta);
            k = k + 1;
        }
    }

    /// Folds the changes propagated to each input of each child that asks to be notified
    /// into the frontier promised there, and adds the frontier's changes to the child's
    /// `guarantee_changes`.
    fn deliver_guarantees(&mut self, buffers: &mut Vec<SubscopeBuffers<Product<TO, TI>>>)
        requires
            old(self).wf(),
            old(self).is_sealed(),
            old(self).buffers_fit(old(buffers)@),
        ensures
            final(self).wf(),
            final(self).is_sealed(),
            final(self).buffers_fit(final(buffers)@),
            final(self).pointstamps == old(self).pointstamps,
            same_structure(*old(self), *final(self)),
            final(self).scopes == old(self).scopes,
            final(self).inputs == old(self).inputs,
            final(self).outputs == old(self).outputs,
            final(self).scope_edges == old(self).scope_edges,
            final(self).input_edges == old(self).input_edges,
            final(self).external_capability == old(self).external_capability,
            final(self).external_summaries == old(self).external_summaries,
            forall|c: int| #![trigger final(self).subscope_state@[c]]
                0 <= c < old(self).scopes@.len() ==> final(self).subscope_state@[c].capabilities
                    == old(self).subscope_state@[c].capabilities
                    && final(self).subscope_state@[c].outstanding_messages
                    == old(self).subscope_state@[c].outstanding_messages
                    && final(self).subscope_state@[c].summary == old(self).subscope_state@[c].summary,
            forall|c: int| #![trigger final(buffers)@[c]]
                0 <= c < old(self).scopes@.len() && !old(self).scopes@[c].notify ==> final(buffers)@[c]
                    == old(buffers)@[c],
            forall|c: int| #![trigger final(buffers)@[c]]
                0 <= c < old(self).scopes@.len() ==> final(buffers)@[c].progress == old(buffers)@[c].progress
                    && final(buffers)@[c].consumed == old(buffers)@[c].consumed
                    && final(buffers)@[c].produced == old(buffers)@[c].produced,
            forall|c: int, p: int, t: Product<TO, TI>|
                0 <= c < old(self).scopes@.len() && 0 <= p < old(self).scopes@[c].inputs
                    && old(self).scopes@[c].notify ==> #[trigger] final(buffers)@[c].guarantee_changes@[p].count(t)
                    == crate::count_map::clamped(
                    old(buffers)@[c].guarantee_changes@[p].count(t) + frontier_delta(
                        old(self).subscope_state@[c].guarantees@[p],
                        final(self).subscope_state@[c].guarantees@[p],
                        t,
                    ),
                ),
            forall|c: int, p: int, t: Product<TO, TI>|
                0 <= c < old(self).scopes@.len() && 0 <= p < old(self).scopes@[c].inputs
                    && old(self).scopes@[c].notify ==> #[trigger] final(self).subscope_state@[c].guarantees@[p].count(t)
                    == count_after(
                    old(self).subscope_state@[c].guarantees@[p].count(t),
                    old(self).pointstamps.target_pushed@[c]@[p]@,
                    t,
                ),
            forall|c: int| #![trigger final(self).subscope_state@[c]]
                0 <= c < old(self).scopes@.len() && !old(self).scopes@[c].notify ==> final(self).subscope_state@[c]
                    == old(self).subscope_state@[c],
            old(self).pointstamps.pushed_empty() ==> *final(buffers) == *old(buffers)
                && final(self).subscope_state == old(self).subscope_state,
    {
        let ns = self.scopes.len();
        let mut c: usize = 0;
        while c < ns
            invariant
                ns == self.scopes@.len(),
                0 <= c <= ns,
                self.wf(),
                self.is_sealed(),
                self.buffers_fit(buffers@),
                self.pointstamps == old(self).pointstamps,
                same_structure(*old(self), *self),
                self.scopes == old(self).scopes,
                self.inputs == old(self).inputs,
                self.outputs == old(self).outputs,
                self.scope_edges == old(self).scope_edges,
                self.input_edges == old(self).input_edges,
                self.external_capability == old(self).external_capability,
                self.source_summaries == old(self).source_summaries,
                self.target_summaries == old(self).target_summaries,
                self.input_summaries == old(self).input_summaries,
                self.external_summaries == old(self).external_summaries,
                self.subscope_state@.len() == old(self).subscope_state@.len(),
                buffers@.len() == old(buffers)@.len(),
                forall|d: int| #![trigger self.subscope_state@[d]]
                    c <= d < ns ==> self.subscope_state@[d] == old(self).subscope_state@[d],
                forall|d: int| #![trigger buffers@[d]] c <= d < ns ==> buffers@[d] == old(buffers)@[d],
                forall|d: int| #![trigger self.subscope_state@[d]]
                    0 <= d < ns ==> self.subscope_state@[d].capabilities == old(self).subscope_state@[d].capabilities
                        && self.subscope_state@[d].outstanding_messages == old(self).subscope_state@[d].outstanding_messages
                        && self.subscope_state@[d].summary == old(self).subscope_state@[d].summary,
                forall|d: int| #![trigger buffers@[d]]
                    0 <= d < ns && !self.scopes@[d].notify ==> buffers@[d] == old(buffers)@[d],
                forall|d: int| #![trigger self.subscope_state@[d]]
                    0 <= d < ns && !self.scopes@[d].notify ==> self.subscope_state@[d] == old(self).subscope_state@[d],
                forall|d: int| #![trigger buffers@[d]]
                    0 <= d < ns ==> buffers@[d].progress == old(buffers)@[d].progress
                        && buffers@[d].consumed == old(buffers)@[d].consumed
                        && buffers@[d].produced == old(buffers)@[d].produced,
                forall|d: int, p: int, t: Product<TO, TI>|
                    0 <= d < c && 0 <= p < self.scopes@[d].inputs && self.scopes@[d].notify
                        ==> #[trigger] buffers@[d].guarantee_changes@[p].count(t) == crate::count_map::clamped(
                        old(buffers)@[d].guarantee_changes@[p].count(t) + frontier_delta(
                            old(self).subscope_state@[d].guarantees@[p],
                            self.subscope_state@[d].guarantees@[p],
                            t,
                        ),
                    ),
                forall|d: int, p: int, t: Product<TO, TI>|
                    0 <= d < c && 0 <= p < self.scopes@[d].inputs && self.scopes@[d].notify
                        ==> #[trigger] self.subscope_state@[d].guarantees@[p].count(t) == count_after(
                        old(self).subscope_state@[d].guarantees@[p].count(t),
                        old(self).pointstamps.target_pushed@[d]@[p]@,
                        t,
                    ),
                old(self).pointstamps.pushed_empty() ==> *buffers == *old(buffers)
                    && self.subscope_state == old(self).subscope_state,
            decreases ns - c,
        {
            if self.scopes[c].notify {
                let nin = self.scopes[c].inputs;
                let mut p: usize = 0;
                while p < nin
                    invariant
                        ns == self.scopes@.len(),
                        0 <= c < ns,
                        self.scopes@[c as int].notify,
                        nin == self.scopes@[c as int].inputs,
                        0 <= p <= nin,
                        self.wf(),
                        self.is_sealed(),
                        self.buffers_fit(buffers@),
                        self.pointstamps == old(self).pointstamps,
                        same_structure(*old(self), *self),
                        self.scopes == old(self).scopes,
                        self.inputs == old(self).inputs,
                        self.outputs == old(self).outputs,
                        self.scope_edges == old(self).scope_edges,
                        self.input_edges == old(self).input_edges,
                        self.external_capability == old(self).external_capability,
                        self.source_summaries == old(self).source_summaries,
                        self.target_summaries == old(self).target_summaries,
                        self.input_summaries == old(self).input_summaries,
                        self.external_summaries == old(self).external_summaries,
                        self.subscope_state@.len() == old(self).subscope_state@.len(),
                        buffers@.len() == old(buffers)@.len(),
                        forall|d: int| #![trigger self.subscope_state@[d]]
                            c < d < ns ==> self.subscope_state@[d] == old(self).subscope_state@[d],
                        forall|d: int| #![trigger buffers@[d]] c < d < ns ==> buffers@[d] == old(buffers)@[d],
                        forall|d: int| #![trigger self.subscope_state@[d]]
                            0 <= d < ns ==> self.subscope_state@[d].capabilities == old(self).subscope_state@[d].capabilities
                                && self.subscope_state@[d].outstanding_messages == old(self).subscope_state@[d].outstanding_messages
                                && self.subscope_state@[d].summary == old(self).subscope_state@[d].summary,
                        forall|d: int| #![trigger buffers@[d]]
                            0 <= d < ns && !self.scopes@[d].notify ==> buffers@[d] == old(buffers)@[d],
                        forall|d: int| #![trigger self.subscope_state@[d]]
                            0 <= d < ns && !self.scopes@[d].notify ==> self.subscope_state@[d] == old(self).subscope_state@[d],
                        forall|d: int| #![trigger buffers@[d]]
                            0 <= d < ns ==> buffers@[d].progress == old(buffers)@[d].progress
                                && buffers@[d].consumed == old(buffers)@[d].consumed
                                && buffers@[d].produced == old(buffers)@[d].produced,
                        forall|d: int, q: int, t: Product<TO, TI>|
                            0 <= d < c && 0 <= q < self.scopes@[d].inputs && self.scopes@[d].notify
                                ==> #[trigger] buffers@[d].guarantee_changes@[q].count(t) == crate::count_map::clamped(
                                old(buffers)@[d].guarantee_changes@[q].count(t) + frontier_delta(
                                    old(self).subscope_state@[d].guarantees@[q],
                                    self.subscope_state@[d].guarantees@[q],
                                    t,
                                ),
                            ),
                        forall|d: int, q: int, t: Product<TO, TI>|
                            0 <= d < c && 0 <= q < self.scopes@[d].inputs && self.scopes@[d].notify
                                ==> #[trigger] self.subscope_state@[d].guarantees@[q].count(t) == count_after(
                                old(self).subscope_state@[d].guarantees@[q].count(t),
                                old(self).pointstamps.target_pushed@[d]@[q]@,
                                t,
                            ),
                        forall|q: int, t: Product<TO, TI>|
                            0 <= q < p ==> #[trigger] buffers@[c as int].guarantee_changes@[q].count(t) == crate::count_map::clamped(
                                old(buffers)@[c as int].guarantee_changes@[q].count(t) + frontier_delta(
                                    old(self).subscope_state@[c as int].guarantees@[q],
                                    self.subscope_state@[c as int].guarantees@[q],
                                    t,
                                ),
                            ),
                        forall|q: int, t: Product<TO, TI>|
                            0 <= q < p ==> #[trigger] self.subscope_state@[c as int].guarantees@[q].count(t) == count_after(
                                old(self).subscope_state@[c as int].guarantees@[q].count(t),
                                old(self).pointstamps.target_pushed@[c as int]@[q]@,
                                t,
                            ),
                        forall|q: int| #![trigger self.subscope_state@[c as int].guarantees@[q]]
                            p <= q < nin ==> self.subscope_state@[c as int].guarantees@[q] == old(self).subscope_state@[c as int].guarantees@[q],
                        forall|q: int| #![trigger buffers@[c as int].guarantee_changes@[q]]
                            p <= q < nin ==> buffers@[c as int].guarantee_changes@[q] == old(buffers)@[c as int].guarantee_changes@[q],
                        old(self).pointstamps.pushed_empty() ==> *buffers == *old(buffers)
                            && self.subscope_state == old(self).subscope_state,
                    decreases nin - p,
                {
                    proof {
                        self.lemma_holds_target(c, p);
                        assert(self.subscope_state@[c as int].shaped(nin as nat, self.scopes@[c as int].outputs as nat));
                        assert(buffers@[c as int].shaped(nin as nat, self.scopes@[c as int].outputs as nat));
                        assert(self.subscope_state@[c as int].guarantees@[p as int].wf());
                        assert(buffers@[c as int].guarantee_changes@[p as int].wf());
                    }
                    let ghost before_state = self.subscope_state@;
                    let ghost before_buffers = buffers@;
                    if self.pointstamps.target_pushed[c][p].is_empty() {
                        proof {
                            let g = self.subscope_state@[c as int].guarantees@[p as int];
                            assert forall|t: Product<TO, TI>| #[trigger] g.count(t) == count_after(g.count(t), self.pointstamps.target_pushed@[c as int]@[p as int]@, t) by {}
                            assert forall|t: Product<TO, TI>| #[trigger] buffers@[c as int].guarantee_changes@[p as int].count(t) == crate::count_map::clamped(
                                buffers@[c as int].guarantee_changes@[p as int].count(t) + frontier_delta(g, g, t)) by {
                                crate::count_map::lemma_count_at_range(buffers@[c as int].guarantee_changes@[p as int], t);
                            }
                        }
                    } else {
                        self.subscope_state[c].guarantees[p].update_into_cm(
                            &self.pointstamps.target_pushed[c][p],
                            &mut buffers[c].guarantee_changes[p],
                        );
                    }
                    proof {
                        assert(self.subscope_state@[c as int].shaped(nin as nat, self.scopes@[c as int].outputs as nat)) by {
                            assert forall|k: int| 0 <= k < nin implies (#[trigger] self.subscope_state@[c as int].guarantees@[k]).wf() by {
                                if k != p {
                                    assert(self.subscope_state@[c as int].guarantees@[k] == before_state[c as int].guarantees@[k]);
                                }
                            }
                        }
                        assert(buffers@[c as int].shaped(nin as nat, self.scopes@[c as int].outputs as nat)) by {
                            assert forall|k: int| 0 <= k < nin implies (#[trigger] buffers@[c as int].guarantee_changes@[k]).wf() by {
                                if k != p {
                                    assert(buffers@[c as int].guarantee_changes@[k] == before_buffers[c as int].guarantee_changes@[k]);
                                }
                            }
                        }
                        assert forall|d: int| 0 <= d < ns implies (#[trigger] self.subscope_state@[d]).shaped(
                            self.scopes@[d].inputs as nat,
                            self.scopes@[d].outputs as nat,
                        ) by {
                            if d != c {
                                assert(self.subscope_state@[d] == before_state[d]);
                            }
                        }
                        assert forall|d: int| 0 <= d < ns implies (#[trigger] buffers@[d]).shaped(
                            self.scopes@[d].inputs as nat,
                            self.scopes@[d].outputs as nat,
                        ) by {
                            if d != c {
                                assert(buffers@[d] == before_buffers[d]);
                            }
                        }
                        assert forall|q: int, t: Product<TO, TI>|
                            0 <= q < p + 1 implies #[trigger] buffers@[c as int].guarantee_changes@[q].count(t) == crate::count_map::clamped(
                                old(buffers)@[c as int].guarantee_changes@[q].count(t) + frontier_delta(
                                    old(self).subscope_state@[c as int].guarantees@[q],
                                    self.subscope_state@[c as int].guarantees@[q],
                                    t,
                                ),
                            ) by {
                            if q != p {
                                assert(buffers@[c as int].guarantee_changes@[q] == before_buffers[c as int].guarantee_changes@[q]);
                                assert(self.subscope_state@[c as int].guarantees@[q] == before_state[c as int].guarantees@[q]);
                            }
                        }
                        assert forall|q: int, t: Product<TO, TI>|
                            0 <= q < p + 1 implies #[trigger] self.subscope_state@[c as int].guarantees@[q].count(t) == count_after(
                                old(self).subscope_state@[c as int].guarantees@[q].count(t),
                                old(self).pointstamps.target_pushed@[c as int]@[q]@,
                                t,
                            ) by {
                            if q != p {
                                assert(self.subscope_state@[c as int].guarantees@[q] == before_state[c as int].guarantees@[q]);
                            }
                        }
                        if old(self).pointstamps.pushed_empty() {
                            assert(self.pointstamps.target_pushed@[c as int]@[p as int]@.len() == 0);
                        }
                    }
                    p = p + 1;
                }
            }
            c = c + 1;
        }
    }

    /// Records each `(t, delta)` of `frontier[i]` as a pending change at input `i`, at
    /// time `(t, 0)`.
    fn inject_inputs(&mut self, frontier: &Vec<Vec<(TO, i64)>>)
        requires
            old(self).wf(),
            old(self).is_sealed(),
            frontier@.len() == old(self).inputs,
        ensures
            final(self).wf(),
            final(self).is_sealed(),
            same_but_pointstamps(*old(self), *final(self)),
            final(self).pointstamps.target_pushed == old(self).pointstamps.target_pushed,
            final(self).pointstamps.output_pushed == old(self).pointstamps.output_pushed,
    {
        let ni = self.inputs;
        let mut i: usize = 0;
        while i < ni
            invariant
                ni == self.inputs,
                frontier@.len() == ni,
                0 <= i <= ni,
                self.wf(),
                self.is_sealed(),
                same_but_pointstamps(*old(self), *self),
                self.pointstamps.target_pushed == old(self).pointstamps.target_pushed,
                self.pointstamps.output_pushed == old(self).pointstamps.output_pushed,
            decreases ni - i,
        {
            let m = frontier[i].len();
            let mut k: usize = 0;
            while k < m
                invariant
                    ni == self.inputs,
                    frontier@.len() == ni,
                    0 <= i < ni,
                    m == frontier@[i as int]@.len(),
                    0 <= k <= m,
                    self.wf(),
                    self.is_sealed(),
                    same_but_pointstamps(*old(self), *self),
                    self.pointstamps.target_pushed == old(self).pointstamps.target_pushed,
                    self.pointstamps.output_pushed == old(self).pointstamps.output_pushed,
                decreases m - k,
            {
                let (time, delta) = frontier[i][k];
                proof {
                    self.lemma_holds(Source::GraphInput(i));
                }
                self.pointstamps.update(
                    Location::SourceLoc(Source::GraphInput(i)),
                    Product { outer: time, inner: TI::zero() },
                    delta,
                );
                k = k + 1;
            }
            i = i + 1;
        }
    }

    /// The summaries, per output and input of child `c`, of the paths inside this scope
    /// that lead from the child's outputs back to its own inputs.
    fn summaries_for_child(&self, c: usize) -> (r: Vec<Vec<Antichain<Summary<SO, SI>>>>)
        requires
            self.wf(),
            self.is_sealed(),
            c < self.scopes@.len(),
        ensures
            matrix_wf(r@, self.scopes@[c as int].outputs as nat, self.scopes@[c as int].inputs as nat),
            forall|o: int, p: int|
                0 <= o < self.scopes@[c as int].outputs && 0 <= p < self.scopes@[c as int].inputs ==> (#[trigger] r@[o]@[p])@
                    == self.loop_summaries(c as int, o, p),
    {
        let nout = self.scopes[c].outputs;
        let nin = self.scopes[c].inputs;
        let mut result: Vec<Vec<Antichain<Summary<SO, SI>>>> = empty_matrix(nout, nin);
        let mut o: usize = 0;
        while o < nout
            invariant
                c < self.scopes@.len(),
                nout == self.scopes@[c as int].outputs,
                nin == self.scopes@[c as int].inputs,
                0 <= o <= nout,
                self.wf(),
                self.is_sealed(),
                matrix_wf(result@, nout as nat, nin as nat),
                forall|o2: int, p: int| 0 <= o2 < o && 0 <= p < nin ==> (#[trigger] result@[o2]@[p])@ == self.loop_summaries(c as int, o2, p),
                forall|o2: int, p: int| o <= o2 < nout && 0 <= p < nin ==> (#[trigger] result@[o2]@[p])@.len() == 0,
            decreases nout - o,
        {
            assert(self.table_valid(self.source_summaries@[c as int]@[o as int]@));
            let m = self.source_summaries[c][o].len();
            let ghost row = self.source_summaries@[c as int]@[o as int]@;
            let mut a: usize = 0;
            while a < m
                invariant
                    c < self.scopes@.len(),
                    nout == self.scopes@[c as int].outputs,
                    nin == self.scopes@[c as int].inputs,
                    0 <= o < nout,
                    m == row.len(),
                    row == self.source_summaries@[c as int]@[o as int]@,
                    0 <= a <= m,
                    self.wf(),
                    self.is_sealed(),
                    self.table_valid(row),
                    matrix_wf(result@, nout as nat, nin as nat),
                    forall|o2: int, p: int| 0 <= o2 < o && 0 <= p < nin ==> (#[trigger] result@[o2]@[p])@ == self.loop_summaries(c as int, o2, p),
                    forall|o2: int, p: int| o < o2 < nout && 0 <= p < nin ==> (#[trigger] result@[o2]@[p])@.len() == 0,
                    forall|p: int|
                        0 <= p < nin ==> (#[trigger] result@[o as int]@[p])@ == if exists|b: int|
                            0 <= b < a && (#[trigger] row[b]).0 == Target::ScopeInput(c, p as usize) {
                            row_of(row, Target::ScopeInput(c, p as usize))
                        } else {
                            Seq::empty()
                        },
                decreases m - a,
            {
                let target = self.source_summaries[c][o][a].0;
                assert(self.valid_target(row[a as int].0));
                let ghost before = result@;
                proof {
                    lemma_row_at(row, a as int);
                }
                if let Target::ScopeInput(g, p) = target {
                    if g == c {
                        let copy = self.source_summaries[c][o][a].1.copied();
                        result[o][p] = copy;
                        proof {
                            assert forall|r2: int| 0 <= r2 < nout implies (#[trigger] result@[r2])@.len() == nin && crate::subgraph::antichains_wf(result@[r2]@) by {
                                if r2 != o {
                                    assert(result@[r2] == before[r2]);
                                } else {
                                    assert forall|k2: int| 0 <= k2 < result@[r2]@.len() implies (#[trigger] result@[r2]@[k2]).wf() by {
                                        if k2 != p {
                                            assert(result@[r2]@[k2] == before[r2]@[k2]);
                                        }
                                    }
                                }
                            }
                            assert forall|o2: int, p2: int| 0 <= o2 < o && 0 <= p2 < nin implies (#[trigger] result@[o2]@[p2])@ == self.loop_summaries(c as int, o2, p2) by {
                                assert(result@[o2] == before[o2]);
                            }
                            assert forall|o2: int, p2: int| o < o2 < nout && 0 <= p2 < nin implies (#[trigger] result@[o2]@[p2])@.len() == 0 by {
                                assert(result@[o2] == before[o2]);
                            }
                        }
                    }
                }
                proof {
                    assert forall|p2: int|
                        0 <= p2 < nin implies (#[trigger] result@[o as int]@[p2])@ == if exists|b: int|
                            0 <= b < a + 1 && (#[trigger] row[b]).0 == Target::ScopeInput(c, p2 as usize) {
                            row_of(row, Target::ScopeInput(c, p2 as usize))
                        } else {
                            Seq::empty()
                        } by {
                        let t2 = Target::ScopeInput(c, p2 as usize);
                        if row[a as int].0 == t2 {
                            assert(!(exists|b: int| 0 <= b < a && (#[trigger] row[b]).0 == t2));
                        } else {
                            if exists|b: int| 0 <= b < a + 1 && (#[trigger] row[b]).0 == t2 {
                                let b = choose|b: int| 0 <= b < a + 1 && (#[trigger] row[b]).0 == t2;
                                assert(b != a);
                            }
                            assert(result@[o as int]@[p2] == before[o as int]@[p2]);
                        }
                    }
                }
                a = a + 1;
            }
            proof {
                assert forall|o2: int, p: int| 0 <= o2 < o + 1 && 0 <= p < nin implies (#[trigger] result@[o2]@[p])@ == self.loop_summaries(c as int, o2, p) by {
                    if o2 == o {
                        let t2 = Target::ScopeInput(c, p as usize);
                        if has_row(row, t2) {
                            let b = choose|b: int| 0 <= b < row.len() && (#[trigger] row[b]).0 == t2;
                        }
                    }
                }
            }
            o = o + 1;
        }
        result
    }

    /// The summaries of the paths inside this scope from output `o` of child `c` back to its
    /// input `p`: the antichain of the row for that input, or none.
    pub open spec fn loop_summaries(&self, c: int, o: int, p: int) -> Seq<Summary<SO, SI>> {
        let row = self.source_summaries@[c]@[o]@;
        if has_row(row, Target::ScopeInput(c as usize, p as usize)) {
            row_of(row, Target::ScopeInput(c as usize, p as usize))
        } else {
            Seq::empty()
        }
    }

    /// Takes the enclosing scope's summaries from our outputs back to our inputs and the
    /// initial frontier at our inputs; recomputes reachability, and returns for each child
    /// the summaries from its outputs back to its inputs, with the frontier changes for its
    /// inputs added to its `guarantee_changes`.
    pub fn set_external_summary(
        &mut self,
        summaries: Vec<Vec<Antichain<SO>>>,
        frontier: &Vec<Vec<(TO, i64)>>,
        buffers: &mut Vec<SubscopeBuffers<Product<TO, TI>>>,
    ) -> (r: Vec<Vec<Vec<Antichain<Summary<SO, SI>>>>>)
        requires
            old(self).wf(),
            old(self).is_sealed(),
            old(self).quiescent(),
            matrix_wf(summaries@, old(self).outputs as nat, old(self).inputs as nat),
            frontier@.len() == old(self).inputs,
            old(self).buffers_fit(old(buffers)@),
        ensures
            final(self).wf(),
            final(self).is_sealed(),
            final(self).quiescent(),
            final(self).children() == old(self).children(),
            final(self).num_inputs() == old(self).num_inputs(),
            final(self).num_outputs() == old(self).num_outputs(),
            final(self).external_summaries == summaries,
            final(self).buffers_fit(final(buffers)@),
            forall|c: int| #![trigger final(buffers)@[c]]
                0 <= c < old(self).scopes@.len() && !old(self).scopes@[c].notify ==> final(buffers)@[c] == old(buffers)@[c],
            r@.len() == old(self).scopes@.len(),
            forall|c: int| 0 <= c < r@.len() ==> matrix_wf(
                (#[trigger] r@[c])@,
                old(self).scopes@[c].outputs as nat,
                old(self).scopes@[c].inputs as nat,
            ),
            forall|c: int, o: int, p: int|
                0 <= c < r@.len() && 0 <= o < old(self).scopes@[c].outputs && 0 <= p < old(self).scopes@[c].inputs
                    ==> (#[trigger] r@[c]@[o]@[p])@ == final(self).loop_summaries(c, o, p),
            final(self).seeded_tables(),
            final(self).rows_sound(),
            forall|c: usize, p: usize|
                c < final(self).scopes@.len() && p < final(self).scopes@[c as int].inputs && final(self).scopes@[c as int].notify
                    ==> #[trigger] final(self).child_row_exact(c, p),
            forall|c: usize, p: usize|
                c < final(self).scopes@.len() && p < final(self).scopes@[c as int].inputs && !final(self).scopes@[c as int].notify
                    ==> (#[trigger] final(self).target_summaries@[c as int]@[p as int])@.len() == 0,
            final(self).tables_complete ==> final(self).tables_closed(),
            forall|c: int| #![trigger final(self).subscope_state@[c]]
                0 <= c < old(self).scopes@.len() && !old(self).scopes@[c].notify ==> final(self).subscope_state@[c]
                    == old(self).subscope_state@[c],
            forall|c: usize, p: usize, t: Product<TO, TI>|
                c < old(self).scopes@.len() && p < old(self).scopes@[c as int].inputs
                    && old(self).scopes@[c as int].notify ==> #[trigger] final(self).subscope_state@[c as int].guarantees@[p as int].count(t)
                    == crate::count_map::clamped(
                    old(self).subscope_state@[c as int].guarantees@[p as int].count(t) + count_after(
                        0,
                        final(self).capability_items(final(self).scopes@.len() as int, Target::ScopeInput(c, p))
                            + final(self).external_items(frontier@, final(self).inputs as int, Target::ScopeInput(c, p)),
                        t,
                    ),
                ),
            forall|c: usize, p: usize, t: Product<TO, TI>|
                c < old(self).scopes@.len() && p < old(self).scopes@[c as int].inputs
                    && old(self).scopes@[c as int].notify ==> #[trigger] final(buffers)@[c as int].guarantee_changes@[p as int].count(t)
                    == crate::count_map::clamped(
                    old(buffers)@[c as int].guarantee_changes@[p as int].count(t) + frontier_delta(
                        old(self).subscope_state@[c as int].guarantees@[p as int],
                        final(self).subscope_state@[c as int].guarantees@[p as int],
                        t,
                    ),
                ),
    {
        let ghost given = summaries;
        self.external_summaries = summaries;
        let complete = self.set_summaries(SATURATION_ROUNDS);
        let ghost tabled = *self;
        self.inject_capabilities();
        let ghost injected = *self;
        self.push_pointstamps_to_targets();
        let ghost capped = *self;
        self.propagate_inputs(frontier);
        let ghost propagated = *self;
        self.deliver_guarantees(buffers);
        let ghost delivered = *self;
        let ns = self.scopes.len();
        let mut result: Vec<Vec<Vec<Antichain<Summary<SO, SI>>>>> = Vec::new();
        let mut c: usize = 0;
        while c < ns
            invariant
                ns == self.scopes@.len(),
                0 <= c <= ns,
                self.wf(),
                self.is_sealed(),
                self.scopes == old(self).scopes,
                self.external_summaries == given,
                result@.len() == c,
                forall|d: int| 0 <= d < c ==> matrix_wf(
                    (#[trigger] result@[d])@,
                    self.scopes@[d].outputs as nat,
                    self.scopes@[d].inputs as nat,
                ),
                forall|d: int, o: int, p: int|
                    0 <= d < c && 0 <= o < self.scopes@[d].outputs && 0 <= p < self.scopes@[d].inputs
                        ==> (#[trigger] result@[d]@[o]@[p])@ == self.loop_summaries(d, o, p),
            decreases ns - c,
        {
            let m = self.summaries_for_child(c);
            let ghost before = result@;
            result.push(m);
            proof {
                assert forall|d: int, o: int, p: int|
                    0 <= d < c + 1 && 0 <= o < self.scopes@[d].outputs && 0 <= p < self.scopes@[d].inputs
                        implies (#[trigger] result@[d]@[o]@[p])@ == self.loop_summaries(d, o, p) by {
                    if d < c {
                        assert(result@[d] == before[d]);
                    }
                }
            }
            c = c + 1;
        }
        self.pointstamps.clear_pushed();
        self.tables_complete = complete;
        proof {
            assert(grid_wf(self.pointstamps.target_pushed@, self.child_inputs()));
            crate::reachability::lemma_tables_carry(tabled, *self);
            assert(tabled.scopes == self.scopes);
            assert(tabled.target_summaries == self.target_summaries);
            assert forall|c: usize, p: usize|
                c < self.scopes@.len() && p < self.scopes@[c as int].inputs && self.scopes@[c as int].notify
                    implies #[trigger] self.child_row_exact(c, p) by {
                assert(tabled.child_row_exact(c, p));
            }
            assert forall|c: usize, p: usize|
                c < self.scopes@.len() && p < self.scopes@[c as int].inputs && !self.scopes@[c as int].notify
                    implies (#[trigger] self.target_summaries@[c as int]@[p as int])@.len() == 0 by {
                assert(tabled.target_summaries@[c as int]@[p as int]@.len() == 0);
            }
            assert forall|c: usize, p: usize, t: Product<TO, TI>|
                c < old(self).scopes@.len() && p < old(self).scopes@[c as int].inputs
                    && old(self).scopes@[c as int].notify implies #[trigger] self.subscope_state@[c as int].guarantees@[p as int].count(t)
                    == crate::count_map::clamped(
                    old(self).subscope_state@[c as int].guarantees@[p as int].count(t) + count_after(
                        0,
                        self.capability_items(self.scopes@.len() as int, Target::ScopeInput(c, p))
                            + self.external_items(frontier@, self.inputs as int, Target::ScopeInput(c, p)),
                        t,
                    ),
                ) by {
                let x = Target::ScopeInput(c, p);
                injected.lemma_holds_target(c, p);
                assert(injected.fits_here(x));
                assert(injected.pushed_at(x)@.len() == 0);
                crate::count_map::lemma_count_absent(injected.pushed_at(x)@, t);
                lemma_pending_capabilities(injected, x);
                lemma_capability_items_same(injected, *self, self.scopes@.len() as int, x);
                lemma_external_items_same(capped, *self, frontier@, self.inputs as int, x);
                let cap = self.capability_items(self.scopes@.len() as int, x);
                let ext = self.external_items(frontier@, self.inputs as int, x);
                assert(capped.pushed_at(x).count(t) == count_after(0, cap, t));
                assert(capped.fits_here(x));
                assert(propagated.pushed_at(x).count(t) == count_after(capped.pushed_at(x).count(t), ext, t));
                lemma_count_after_concat(0, cap, ext, t);
                let bucket = propagated.pushed_at(x);
                propagated.lemma_holds_target(c, p);
                let g = old(self).subscope_state@[c as int].guarantees@[p as int];
                assert(propagated.subscope_state@[c as int].guarantees@[p as int] == g);
                assert(old(self).subscope_state@[c as int].shaped(old(self).scopes@[c as int].inputs as nat, old(self).scopes@[c as int].outputs as nat));
                g.lemma_count_range(t);
                crate::count_map::lemma_count_after_coalesced(g.count(t), bucket@, t);
                assert(delivered.subscope_state@[c as int].guarantees@[p as int].count(t) == count_after(g.count(t), bucket@, t));
                if !(exists|k: int| 0 <= k < bucket@.len() && (#[trigger] bucket@[k]).0 == t) {
                    crate::count_map::lemma_count_absent(bucket@, t);
                }
            }
        }
        result
    }

    /// The changes at `x` made by the changes `frontier[i]` at the first `n` inputs, each at
    /// time `(t, 0)`, in order.
    pub open spec fn external_items(&self, frontier: Seq<Vec<(TO, i64)>>, n: int, x: Target) -> Seq<(Product<TO, TI>, i64)>
        decreases n,
    {
        if n <= 0 {
            Seq::empty()
        } else {
            self.external_items(frontier, n - 1, x) + pushed_items(
                lifted::<TO, TI>(frontier[n - 1]@),
                self.input_summaries@[n - 1]@,
                x,
            )
        }
    }

    /// Propagates each change `(t, delta)` of `frontier[i]` at time `(t, 0)` from input `i`
    /// straight to the targets of its row.
    fn propagate_inputs(&mut self, frontier: &Vec<Vec<(TO, i64)>>)
        requires
            old(self).wf(),
            old(self).is_sealed(),
            frontier@.len() == old(self).inputs,
        ensures
            final(self).wf(),
            final(self).is_sealed(),
            same_but_pointstamps(*old(self), *final(self)),
            final(self).pointstamps.source_counts == old(self).pointstamps.source_counts,
            final(self).pointstamps.target_counts == old(self).pointstamps.target_counts,
            final(self).pointstamps.input_counts == old(self).pointstamps.input_counts,
            forall|x: Target| #[trigger] final(self).fits_here(x) == old(self).fits_here(x),
            forall|x: Target, t: Product<TO, TI>|
                old(self).fits_here(x) ==> #[trigger] final(self).pushed_at(x).count(t) == count_after(
                    old(self).pushed_at(x).count(t),
                    old(self).external_items(frontier@, old(self).inputs as int, x),
                    t,
                ),
    {
        let ni = self.inputs;
        let mut i: usize = 0;
        while i < ni
            invariant
                ni == self.inputs,
                0 <= i <= ni,
                frontier@.len() == ni,
                self.wf(),
                self.is_sealed(),
                same_but_pointstamps(*old(self), *self),
                self.pointstamps.source_counts == old(self).pointstamps.source_counts,
                self.pointstamps.target_counts == old(self).pointstamps.target_counts,
                self.pointstamps.input_counts == old(self).pointstamps.input_counts,
                forall|x: Target| #[trigger] self.fits_here(x) == old(self).fits_here(x),
                forall|x: Target, t: Product<TO, TI>|
                    old(self).fits_here(x) ==> #[trigger] self.pushed_at(x).count(t) == count_after(
                        old(self).pushed_at(x).count(t),
                        old(self).external_items(frontier@, i as int, x),
                        t,
                    ),
            decreases ni - i,
        {
            let batch = lift_times::<TO, TI>(&frontier[i]);
            let ghost before = *self;
            proof {
                assert forall|a: int| 0 <= a < self.input_summaries@[i as int]@.len() implies fits(
                    (#[trigger] self.input_summaries@[i as int]@[a]).0,
                    self.pointstamps.target_pushed@,
                    self.pointstamps.output_pushed@.len(),
                ) by {
                    assert(self.table_valid(self.input_summaries@[i as int]@));
                    self.lemma_fits(self.input_summaries@[i as int]@[a].0);
                }
                assert(self.table_valid(self.input_summaries@[i as int]@));
            }
            propagate_into(
                &mut self.pointstamps.target_pushed,
                &mut self.pointstamps.output_pushed,
                &batch,
                &self.input_summaries[i],
            );
            proof {
                assert(grid_wf(self.pointstamps.target_pushed@, self.child_inputs()));
                assert forall|x: Target| #[trigger] self.fits_here(x) == before.fits_here(x) by {
                    if let Target::ScopeInput(c2, p2) = x {
                        if (c2 as int) < self.pointstamps.target_pushed@.len() {
                            assert(self.pointstamps.target_pushed@[c2 as int]@.len() == before.pointstamps.target_pushed@[c2 as int]@.len());
                        }
                    }
                }
                assert forall|x: Target, t: Product<TO, TI>|
                    old(self).fits_here(x) implies #[trigger] self.pushed_at(x).count(t) == count_after(
                        old(self).pushed_at(x).count(t),
                        old(self).external_items(frontier@, i + 1, x),
                        t,
                    ) by {
                    assert(before.fits_here(x));
                    assert(fits(x, before.pointstamps.target_pushed@, before.pointstamps.output_pushed@.len()));
                    let item = pushed_items(lifted::<TO, TI>(frontier@[i as int]@), old(self).input_summaries@[i as int]@, x);
                    assert(batch@ == lifted::<TO, TI>(frontier@[i as int]@));
                    assert(self.input_summaries@[i as int]@ == old(self).input_summaries@[i as int]@);
                    assert(self.pushed_at(x).count(t) == count_after(before.pushed_at(x).count(t), item, t));
                    assert(before.pushed_at(x).count(t) == count_after(
                        old(self).pushed_at(x).count(t), old(self).external_items(frontier@, i as int, x), t));
                    assert(old(self).external_items(frontier@, i + 1, x) == old(self).external_items(frontier@, i as int, x) + item);
                    lemma_count_after_concat(old(self).pushed_at(x).count(t), old(self).external_items(frontier@, i as int, x), item, t);
                }
            }
            i = i + 1;
        }
    }

    /// Takes changes to the frontier at our inputs, and adds to each child that asks to be
    /// notified the resulting changes of the frontiers promised at its inputs: each change
    /// `(t, delta)` at input `i` counts `delta` at `s.results_in((t, 0))` at every input that
    /// the row of `i` reaches with summary `s`.
    pub fn push_external_progress(
        &mut self,
        frontier_progress: &Vec<Vec<(TO, i64)>>,
        buffers: &mut Vec<SubscopeBuffers<Product<TO, TI>>>,
    )
        requires
            old(self).wf(),
            old(self).is_sealed(),
            old(self).quiescent(),
            frontier_progress@.len() == old(self).inputs,
            old(self).buffers_fit(old(buffers)@),
        ensures
            final(self).wf(),
            final(self).is_sealed(),
            final(self).quiescent(),
            same_structure(*old(self), *final(self)),
            final(self).children() == old(self).children(),
            final(self).num_inputs() == old(self).num_inputs(),
            final(self).num_outputs() == old(self).num_outputs(),
            final(self).buffers_fit(final(buffers)@),
            final(self).external_capability == old(self).external_capability,
            forall|c: int| #![trigger final(buffers)@[c]]
                0 <= c < old(self).scopes@.len() && !old(self).scopes@[c].notify ==> final(buffers)@[c] == old(buffers)@[c],
            forall|c: int| #![trigger final(self).subscope_state@[c]]
                0 <= c < old(self).scopes@.len() && !old(self).scopes@[c].notify ==> final(self).subscope_state@[c]
                    == old(self).subscope_state@[c],
            forall|c: usize, p: usize, t: Product<TO, TI>|
                c < old(self).scopes@.len() && p < old(self).scopes@[c as int].inputs
                    && old(self).scopes@[c as int].notify ==> #[trigger] final(self).subscope_state@[c as int].guarantees@[p as int].count(t)
                    == crate::count_map::clamped(
                    old(self).subscope_state@[c as int].guarantees@[p as int].count(t) + count_after(
                        0,
                        old(self).external_items(frontier_progress@, old(self).inputs as int, Target::ScopeInput(c, p)),
                        t,
                    ),
                ),
            forall|c: int, p: int, t: Product<TO, TI>|
                0 <= c < old(self).scopes@.len() && 0 <= p < old(self).scopes@[c].inputs
                    && old(self).scopes@[c].notify ==> #[trigger] final(buffers)@[c].guarantee_changes@[p].count(t)
                    == crate::count_map::clamped(
                    old(buffers)@[c].guarantee_changes@[p].count(t) + frontier_delta(
                        old(self).subscope_state@[c].guarantees@[p],
                        final(self).subscope_state@[c].guarantees@[p],
                        t,
                    ),
                ),
            forall|c: int| #![trigger final(self).subscope_state@[c]]
                0 <= c < old(self).scopes@.len() ==> final(self).subscope_state@[c].capabilities
                    == old(self).subscope_state@[c].capabilities
                    && final(self).subscope_state@[c].outstanding_messages
                    == old(self).subscope_state@[c].outstanding_messages,
    {
        self.propagate_inputs(frontier_progress);
        let ghost propagated = *self;
        self.deliver_guarantees(buffers);
        proof {
            assert forall|c: usize, p: usize, t: Product<TO, TI>|
                c < old(self).scopes@.len() && p < old(self).scopes@[c as int].inputs
                    && old(self).scopes@[c as int].notify implies #[trigger] self.subscope_state@[c as int].guarantees@[p as int].count(t)
                    == crate::count_map::clamped(
                    old(self).subscope_state@[c as int].guarantees@[p as int].count(t) + count_after(
                        0,
                        old(self).external_items(frontier_progress@, old(self).inputs as int, Target::ScopeInput(c, p)),
                        t,
                    ),
                ) by {
                let x = Target::ScopeInput(c, p);
                old(self).lemma_holds_target(c, p);
                assert(old(self).fits_here(x));
                let bucket = propagated.pushed_at(x);
                propagated.lemma_holds_target(c, p);
                assert(old(self).pushed_at(x)@.len() == 0);
                crate::count_map::lemma_count_absent(old(self).pushed_at(x)@, t);
                let g = old(self).subscope_state@[c as int].guarantees@[p as int];
                assert(old(self).subscope_state@[c as int].shaped(old(self).scopes@[c as int].inputs as nat, old(self).scopes@[c as int].outputs as nat));
                g.lemma_count_range(t);
                crate::count_map::lemma_count_after_coalesced(g.count(t), bucket@, t);
                assert(propagated.subscope_state@[c as int].guarantees@[p as int] == g);
                assert(self.subscope_state@[c as int].guarantees@[p as int].count(t) == count_after(g.count(t), bucket@, t));
                assert(bucket.count(t) == count_after(0, old(self).external_items(frontier_progress@, old(self).inputs as int, x), t));
                if !(exists|k: int| 0 <= k < bucket@.len() && (#[trigger] bucket@[k]).0 == t) {
                    crate::count_map::lemma_count_absent(bucket@, t);
                }
            }
        }
        self.pointstamps.clear_pushed();
        proof {
            assert(grid_wf(self.pointstamps.target_pushed@, self.child_inputs()));
        }
    }

    /// Hands a batch of message counts to `target`: for a child's input, the batch is
    /// applied to the messages in flight there and each change of their frontier becomes a
    /// pending change at the input; for an output of this scope, the batch is reported as
    /// produced there, by outer time.
    fn deliver_messages(
        &mut self,
        target: Target,
        batch: &Vec<(Product<TO, TI>, i64)>,
        produced: &mut Vec<Vec<(TO, i64)>>,
    )
        requires
            old(self).wf(),
            old(self).is_sealed(),
            old(self).valid_target(target),
            old(produced)@.len() == old(self).outputs,
        ensures
            final(self).wf(),
            final(self).is_sealed(),
            same_structure(*old(self), *final(self)),
            final(self).external_capability == old(self).external_capability,
            final(self).pointstamps.target_pushed == old(self).pointstamps.target_pushed,
            final(self).pointstamps.output_pushed == old(self).pointstamps.output_pushed,
            final(produced)@.len() == old(produced)@.len(),
            forall|o: int| 0 <= o < old(produced)@.len() ==> (#[trigger] final(produced)@[o])@ == old(produced)@[o]@ + if target
                == Target::GraphOutput(o as usize) {
                outer_counts(batch@)
            } else {
                Seq::empty()
            },
            forall|c: int| #![trigger final(self).subscope_state@[c]]
                0 <= c < old(self).scopes@.len() ==> final(self).subscope_state@[c].capabilities
                    == old(self).subscope_state@[c].capabilities
                    && final(self).subscope_state@[c].guarantees == old(self).subscope_state@[c].guarantees
                    && final(self).subscope_state@[c].summary == old(self).subscope_state@[c].summary,
            forall|c: int, p: int, t: Product<TO, TI>|
                0 <= c < old(self).scopes@.len() && 0 <= p < old(self).scopes@[c].inputs ==> #[trigger] final(self).subscope_state@[c].outstanding_messages@[p].count(t) == if names_input(target, c, p) {
                    count_after(old(self).subscope_state@[c].outstanding_messages@[p].count(t), batch@, t)
                } else {
                    old(self).subscope_state@[c].outstanding_messages@[p].count(t)
                },
    {
        match target {
            Target::ScopeInput(g, p) => {
                let ghost before = *self;
                proof {
                    assert(self.subscope_state@[g as int].shaped(self.scopes@[g as int].inputs as nat, self.scopes@[g as int].outputs as nat));
                    assert(self.subscope_state@[g as int].outstanding_messages@[p as int].wf());
                }
                let changes = self.subscope_state[g].outstanding_messages[p].update_iter_and(batch);
                proof {
                    assert forall|d: int| 0 <= d < self.scopes@.len() implies (#[trigger] self.subscope_state@[d]).shaped(
                        self.scopes@[d].inputs as nat,
                        self.scopes@[d].outputs as nat,
                    ) by {
                        if d != g {
                            assert(self.subscope_state@[d] == before.subscope_state@[d]);
                        } else {
                            assert forall|k: int| 0 <= k < self.subscope_state@[d].outstanding_messages@.len() implies (#[trigger] self.subscope_state@[d].outstanding_messages@[k]).wf() by {
                                if k != p {
                                    assert(self.subscope_state@[d].outstanding_messages@[k] == before.subscope_state@[d].outstanding_messages@[k]);
                                }
                            }
                        }
                    }
                    assert forall|c: int, q: int, t: Product<TO, TI>|
                        0 <= c < self.scopes@.len() && 0 <= q < self.scopes@[c].inputs && (c != g || q != p) implies #[trigger] self.subscope_state@[c].outstanding_messages@[q].count(t)
                            == before.subscope_state@[c].outstanding_messages@[q].count(t) by {
                        if c != g {
                            assert(self.subscope_state@[c] == before.subscope_state@[c]);
                        } else {
                            assert(self.subscope_state@[c].outstanding_messages@[q] == before.subscope_state@[c].outstanding_messages@[q]);
                        }
                    }
                    self.lemma_holds_target(g, p);
                }
                self.record(Location::TargetLoc(target), &changes);
                proof {
                    assert forall|q: int| 0 <= q < old(produced)@.len() implies (#[trigger] produced@[q])@ == old(produced)@[q]@ + if target
                        == Target::GraphOutput(q as usize) {
                        outer_counts(batch@)
                    } else {
                        Seq::empty()
                    } by {
                        assert(old(produced)@[q]@ + Seq::<(TO, i64)>::empty() =~= old(produced)@[q]@);
                    }
                }
            },
            Target::GraphOutput(o) => {
                let n = batch.len();
                let mut k: usize = 0;
                while k < n
                    invariant
                        n == batch@.len(),
                        0 <= k <= n,
                        (o as int) < produced@.len(),
                        produced@.len() == old(produced)@.len(),
                        produced@[o as int]@ == old(produced)@[o as int]@ + outer_counts(batch@.take(k as int)),
                        forall|q: int| 0 <= q < produced@.len() && q != o ==> #[trigger] produced@[q] == old(produced)@[q],
                    decreases n - k,
                {
                    let (time, delta) = batch[k];
                    produced[o].push((time.outer, delta));
                    proof {
                        assert(outer_counts(batch@.take(k + 1)) =~= outer_counts(batch@.take(k as int)).push((time.outer, delta)));
                    }
                    k = k + 1;
                }
                proof {
                    assert(batch@.take(n as int) =~= batch@);
                    assert forall|q: int| 0 <= q < old(produced)@.len() implies (#[trigger] produced@[q])@ == old(produced)@[q]@ + if target
                        == Target::GraphOutput(q as usize) {
                        outer_counts(batch@)
                    } else {
                        Seq::empty()
                    } by {
                        if q != o {
                            assert(old(produced)@[q]@ + Seq::<(TO, i64)>::empty() =~= old(produced)@[q]@);
                        }
                    }
                }
            },
        }
    }

    /// Takes in what child `c` reported: messages it produced go to the targets of its
    /// outputs, changes of its capabilities to its state, and messages it consumed leave
    /// the messages in flight to its inputs. The child's reports are emptied.
    fn absorb_child(
        &mut self,
        c: usize,
        buffers: &mut Vec<SubscopeBuffers<Product<TO, TI>>>,
        produced: &mut Vec<Vec<(TO, i64)>>,
    )
        requires
            old(self).wf(),
            old(self).is_sealed(),
            c < old(self).scopes@.len(),
            old(self).buffers_fit(old(buffers)@),
            old(produced)@.len() == old(self).outputs,
        ensures
            final(self).wf(),
            final(self).is_sealed(),
            same_structure(*old(self), *final(self)),
            final(self).external_capability == old(self).external_capability,
            final(self).pointstamps.target_pushed == old(self).pointstamps.target_pushed,
            final(self).pointstamps.output_pushed == old(self).pointstamps.output_pushed,
            final(self).buffers_fit(final(buffers)@),
            final(produced)@.len() == old(produced)@.len(),
            final(buffers)@[c as int].reports_empty(),
            final(buffers)@[c as int].guarantee_changes == old(buffers)@[c as int].guarantee_changes,
            forall|d: int| #![trigger final(buffers)@[d]] 0 <= d < final(buffers)@.len() && d != c ==> final(buffers)@[d] == old(buffers)@[d],
            forall|d: int| #![trigger final(self).subscope_state@[d]]
                0 <= d < old(self).scopes@.len() ==> final(self).subscope_state@[d].guarantees == old(self).subscope_state@[d].guarantees,
            old(buffers)@[c as int].reports_empty() ==> *final(self) == *old(self) && *final(buffers) == *old(buffers)
                && *final(produced) == *old(produced),
            forall|g: int, q: int, t: Product<TO, TI>|
                0 <= g < old(self).scopes@.len() && 0 <= q < old(self).scopes@[g].inputs ==> #[trigger] final(self).subscope_state@[g].outstanding_messages@[q].count(t)
                    == count_after(
                    old(self).subscope_state@[g].outstanding_messages@[q].count(t),
                    old(self).child_effect(old(buffers)@[c as int], c as int, g, q),
                    t,
                ),
            forall|o2: int| 0 <= o2 < old(produced)@.len() ==> (#[trigger] final(produced)@[o2])@ == old(produced)@[o2]@
                + old(self).produced_from_outputs(old(buffers)@[c as int], c as int, o2, old(self).scopes@[c as int].outputs as int),
            forall|q: int, t: Product<TO, TI>|
                0 <= q < old(self).scopes@[c as int].outputs ==> #[trigger] final(self).subscope_state@[c as int].capabilities@[q].count(t)
                    == count_after(
                    old(self).subscope_state@[c as int].capabilities@[q].count(t),
                    old(buffers)@[c as int].progress@[q]@,
                    t,
                ),
            forall|d: int| #![trigger final(self).subscope_state@[d]]
                0 <= d < old(self).scopes@.len() && d != c ==> final(self).subscope_state@[d].capabilities
                    == old(self).subscope_state@[d].capabilities,
    {
        let nout = self.scopes[c].outputs;
        let nin = self.scopes[c].inputs;
        let ghost start_buffers = buffers@;
        let mut o: usize = 0;
        while o < nout
            invariant
                c < self.scopes@.len(),
                nout == self.scopes@[c as int].outputs,
                nin == self.scopes@[c as int].inputs,
                0 <= o <= nout,
                self.wf(),
                self.is_sealed(),
                same_structure(*old(self), *self),
                self.external_capability == old(self).external_capability,
                self.pointstamps.target_pushed == old(self).pointstamps.target_pushed,
                self.pointstamps.output_pushed == old(self).pointstamps.output_pushed,
                self.buffers_fit(buffers@),
                buffers@.len() == old(buffers)@.len(),
                produced@.len() == old(produced)@.len(),
                produced@.len() == self.outputs,
                buffers@[c as int].guarantee_changes == old(buffers)@[c as int].guarantee_changes,
                buffers@[c as int].consumed == old(buffers)@[c as int].consumed,
                forall|q: int| 0 <= q < o ==> (#[trigger] buffers@[c as int].produced@[q])@.len() == 0,
                forall|q: int| 0 <= q < o ==> (#[trigger] buffers@[c as int].progress@[q])@.len() == 0,
                forall|q: int| #![trigger buffers@[c as int].produced@[q]] o <= q < nout ==> buffers@[c as int].produced@[q] == old(buffers)@[c as int].produced@[q],
                forall|q: int| #![trigger buffers@[c as int].progress@[q]] o <= q < nout ==> buffers@[c as int].progress@[q] == old(buffers)@[c as int].progress@[q],
                forall|d: int| #![trigger buffers@[d]] 0 <= d < buffers@.len() && d != c ==> buffers@[d] == old(buffers)@[d],
                forall|d: int| #![trigger self.subscope_state@[d]]
                    0 <= d < self.scopes@.len() ==> self.subscope_state@[d].guarantees == old(self).subscope_state@[d].guarantees,
                old(buffers)@[c as int].reports_empty() ==> *self == *old(self) && *buffers == *old(buffers)
                    && *produced == *old(produced),
                forall|g: int, q: int, t: Product<TO, TI>|
                    0 <= g < self.scopes@.len() && 0 <= q < self.scopes@[g].inputs ==> #[trigger] self.subscope_state@[g].outstanding_messages@[q].count(t)
                        == count_after(
                        old(self).subscope_state@[g].outstanding_messages@[q].count(t),
                        old(self).from_outputs(old(buffers)@[c as int], c as int, g, q, o as int),
                        t,
                    ),
                forall|q: int, t: Product<TO, TI>|
                    0 <= q < o ==> #[trigger] self.subscope_state@[c as int].capabilities@[q].count(t) == count_after(
                        old(self).subscope_state@[c as int].capabilities@[q].count(t),
                        old(buffers)@[c as int].progress@[q]@,
                        t,
                    ),
                forall|q: int| #![trigger self.subscope_state@[c as int].capabilities@[q]]
                    o <= q < nout ==> self.subscope_state@[c as int].capabilities@[q] == old(self).subscope_state@[c as int].capabilities@[q],
                forall|d: int| #![trigger self.subscope_state@[d]]
                    0 <= d < self.scopes@.len() && d != c ==> self.subscope_state@[d].capabilities == old(self).subscope_state@[d].capabilities,
                self.subscope_state@[c as int].capabilities@.len() == nout,
                forall|o2: int| 0 <= o2 < produced@.len() ==> (#[trigger] produced@[o2])@ == old(produced)@[o2]@
                    + old(self).produced_from_outputs(old(buffers)@[c as int], c as int, o2, o as int),
            decreases nout - o,
        {
            assert(buffers@[c as int].shaped(nin as nat, nout as nat));
            let ghost so = *self;
            let ghost po = *produced;
            if !buffers[c].produced[o].is_empty() {
                let m = self.scope_edges[c][o].len();
                let ghost bsnap = *buffers;
                let mut k: usize = 0;
                while k < m
                    invariant
                        *buffers == bsnap,
                        self.buffers_fit(buffers@),
                        c < buffers@.len(),
                        o < buffers@[c as int].produced@.len(),
                        c < self.scopes@.len(),
                        nout == self.scopes@[c as int].outputs,
                        0 <= o < nout,
                        m == self.scope_edges@[c as int]@[o as int]@.len(),
                        0 <= k <= m,
                        self.wf(),
                        self.is_sealed(),
                        same_structure(*old(self), *self),
                        self.external_capability == old(self).external_capability,
                        self.pointstamps.target_pushed == old(self).pointstamps.target_pushed,
                        self.pointstamps.output_pushed == old(self).pointstamps.output_pushed,
                        produced@.len() == self.outputs,
                        produced@.len() == old(produced)@.len(),
                        forall|d: int| #![trigger self.subscope_state@[d]]
                            0 <= d < self.scopes@.len() ==> self.subscope_state@[d].guarantees == old(self).subscope_state@[d].guarantees,
                        forall|d: int| #![trigger self.subscope_state@[d]]
                            0 <= d < self.scopes@.len() ==> self.subscope_state@[d].capabilities == so.subscope_state@[d].capabilities,
                        forall|g: int, q: int, t: Product<TO, TI>|
                            0 <= g < self.scopes@.len() && 0 <= q < self.scopes@[g].inputs ==> #[trigger] self.subscope_state@[g].outstanding_messages@[q].count(t)
                                == count_after(
                                so.subscope_state@[g].outstanding_messages@[q].count(t),
                                edge_copies(self.scope_edges@[c as int]@[o as int]@, g, q, bsnap@[c as int].produced@[o as int]@, k as int),
                                t,
                            ),
                        forall|o2: int| 0 <= o2 < produced@.len() ==> (#[trigger] produced@[o2])@ == po@[o2]@
                            + output_copies(self.scope_edges@[c as int]@[o as int]@, o2, bsnap@[c as int].produced@[o as int]@, k as int),
                    decreases m - k,
                {
                    let target = self.scope_edges[c][o][k];
                    assert(self.targets_valid(self.scope_edges@[c as int]@[o as int]@));
                    assert(self.valid_target(self.scope_edges@[c as int]@[o as int]@[k as int]));
                    let ghost sk = *self;
                    let ghost pk = *produced;
                    self.deliver_messages(target, &buffers[c].produced[o], produced);
                    proof {
                        assert forall|o2: int| 0 <= o2 < produced@.len() implies (#[trigger] produced@[o2])@ == po@[o2]@
                            + output_copies(self.scope_edges@[c as int]@[o as int]@, o2, bsnap@[c as int].produced@[o as int]@, k + 1) by {
                            let targets = self.scope_edges@[c as int]@[o as int]@;
                            let batch = bsnap@[c as int].produced@[o as int]@;
                            let here = if targets[k as int] == Target::GraphOutput(o2 as usize) { outer_counts(batch) } else { Seq::empty() };
                            assert(output_copies(targets, o2, batch, k + 1) == output_copies(targets, o2, batch, k as int) + here);
                            assert(pk@[o2]@ == po@[o2]@ + output_copies(targets, o2, batch, k as int));
                            assert(produced@[o2]@ =~= po@[o2]@ + (output_copies(targets, o2, batch, k as int) + here));
                        }
                        let targets = self.scope_edges@[c as int]@[o as int]@;
                        let batch = bsnap@[c as int].produced@[o as int]@;
                        assert forall|g: int, q: int, t: Product<TO, TI>|
                            0 <= g < self.scopes@.len() && 0 <= q < self.scopes@[g].inputs implies #[trigger] self.subscope_state@[g].outstanding_messages@[q].count(t)
                                == count_after(so.subscope_state@[g].outstanding_messages@[q].count(t), edge_copies(targets, g, q, batch, k + 1), t) by {
                            let here = if names_input(targets[k as int], g, q) { batch } else { Seq::empty() };
                            assert(edge_copies(targets, g, q, batch, k + 1) == edge_copies(targets, g, q, batch, k as int) + here);
                            lemma_count_after_concat(so.subscope_state@[g].outstanding_messages@[q].count(t), edge_copies(targets, g, q, batch, k as int), here, t);
                            assert(sk.subscope_state@[g].outstanding_messages@[q].count(t) == count_after(
                                so.subscope_state@[g].outstanding_messages@[q].count(t), edge_copies(targets, g, q, batch, k as int), t));
                        }
                    }
                    k = k + 1;
                }
                buffers[c].produced[o] = Vec::new();
                proof {
                    assert forall|o2: int| 0 <= o2 < produced@.len() implies (#[trigger] produced@[o2])@ == old(produced)@[o2]@
                        + old(self).produced_from_outputs(old(buffers)@[c as int], c as int, o2, o + 1) by {
                        let e = output_copies(self.scope_edges@[c as int]@[o as int]@, o2, bsnap@[c as int].produced@[o as int]@, m as int);
                        assert(old(self).produced_from_outputs(old(buffers)@[c as int], c as int, o2, o + 1)
                            == old(self).produced_from_outputs(old(buffers)@[c as int], c as int, o2, o as int) + e);
                        assert(produced@[o2]@ =~= old(produced)@[o2]@ + (old(self).produced_from_outputs(old(buffers)@[c as int], c as int, o2, o as int) + e));
                    }
                    assert forall|g: int, q: int, t: Product<TO, TI>|
                        0 <= g < self.scopes@.len() && 0 <= q < self.scopes@[g].inputs implies #[trigger] self.subscope_state@[g].outstanding_messages@[q].count(t)
                            == count_after(
                            old(self).subscope_state@[g].outstanding_messages@[q].count(t),
                            old(self).from_outputs(old(buffers)@[c as int], c as int, g, q, o + 1),
                            t,
                        ) by {
                        let e = edge_copies(self.scope_edges@[c as int]@[o as int]@, g, q, bsnap@[c as int].produced@[o as int]@, m as int);
                        assert(old(self).from_outputs(old(buffers)@[c as int], c as int, g, q, o + 1) == old(self).from_outputs(old(buffers)@[c as int], c as int, g, q, o as int) + e);
                        lemma_count_after_concat(old(self).subscope_state@[g].outstanding_messages@[q].count(t), old(self).from_outputs(old(buffers)@[c as int], c as int, g, q, o as int), e, t);
                        assert(so.subscope_state@[g].outstanding_messages@[q].count(t) == count_after(
                            old(self).subscope_state@[g].outstanding_messages@[q].count(t), old(self).from_outputs(old(buffers)@[c as int], c as int, g, q, o as int), t));
                    }
                }
            } else {
                proof {
                    assert forall|o2: int| 0 <= o2 < produced@.len() implies (#[trigger] produced@[o2])@ == old(produced)@[o2]@
                        + old(self).produced_from_outputs(old(buffers)@[c as int], c as int, o2, o + 1) by {
                        let targets = self.scope_edges@[c as int]@[o as int]@;
                        lemma_output_copies_empty::<TO, TI>(targets, o2, old(buffers)@[c as int].produced@[o as int]@, targets.len() as int);
                        assert(old(self).produced_from_outputs(old(buffers)@[c as int], c as int, o2, o + 1)
                            =~= old(self).produced_from_outputs(old(buffers)@[c as int], c as int, o2, o as int));
                    }
                    assert forall|g: int, q: int, t: Product<TO, TI>|
                        0 <= g < self.scopes@.len() && 0 <= q < self.scopes@[g].inputs implies #[trigger] self.subscope_state@[g].outstanding_messages@[q].count(t)
                            == count_after(
                            old(self).subscope_state@[g].outstanding_messages@[q].count(t),
                            old(self).from_outputs(old(buffers)@[c as int], c as int, g, q, o + 1),
                            t,
                        ) by {
                        let targets = self.scope_edges@[c as int]@[o as int]@;
                        let batch = old(buffers)@[c as int].produced@[o as int]@;
                        lemma_edge_copies_empty(targets, g, q, batch, targets.len() as int);
                        assert(old(self).from_outputs(old(buffers)@[c as int], c as int, g, q, o + 1) =~= old(self).from_outputs(old(buffers)@[c as int], c as int, g, q, o as int));
                    }
                }
            }
            let ghost sp = *self;
            if !buffers[c].progress[o].is_empty() {
                let ghost before = *self;
                proof {
                    assert(self.subscope_state@[c as int].shaped(nin as nat, nout as nat));
                    assert(self.subscope_state@[c as int].capabilities@[o as int].wf());
                }
                let changes = self.subscope_state[c].capabilities[o].update_iter_and(&buffers[c].progress[o]);
                proof {
                    assert forall|d: int| 0 <= d < self.scopes@.len() implies (#[trigger] self.subscope_state@[d]).shaped(
                        self.scopes@[d].inputs as nat,
                        self.scopes@[d].outputs as nat,
                    ) by {
                        if d != c {
                            assert(self.subscope_state@[d] == before.subscope_state@[d]);
                        } else {
                            assert forall|k: int| 0 <= k < self.subscope_state@[d].capabilities@.len() implies (#[trigger] self.subscope_state@[d].capabilities@[k]).wf() by {
                                if k != o {
                                    assert(self.subscope_state@[d].capabilities@[k] == before.subscope_state@[d].capabilities@[k]);
                                }
                            }
                        }
                    }
                    assert forall|d: int| #![trigger self.subscope_state@[d]]
                        0 <= d < self.scopes@.len() implies self.subscope_state@[d].guarantees == old(self).subscope_state@[d].guarantees by {
                        if d != c {
                            assert(self.subscope_state@[d] == before.subscope_state@[d]);
                        }
                    }
                    self.lemma_holds(Source::ScopeOutput(c, o));
                }
                self.record(Location::SourceLoc(Source::ScopeOutput(c, o)), &changes);
                buffers[c].progress[o] = Vec::new();
                proof {
                    assert forall|g: int| 0 <= g < self.scopes@.len() implies #[trigger] self.subscope_state@[g].outstanding_messages
                        == sp.subscope_state@[g].outstanding_messages by {
                        if g != c {
                            assert(self.subscope_state@[g] == sp.subscope_state@[g]);
                        }
                    }
                    assert forall|d: int| #![trigger self.subscope_state@[d]]
                        0 <= d < self.scopes@.len() && d != c implies self.subscope_state@[d].capabilities == old(self).subscope_state@[d].capabilities by {
                        assert(self.subscope_state@[d] == sp.subscope_state@[d]);
                    }
                }
            }
            proof {
                assert forall|q: int, t: Product<TO, TI>|
                    0 <= q < o + 1 implies #[trigger] self.subscope_state@[c as int].capabilities@[q].count(t) == count_after(
                        old(self).subscope_state@[c as int].capabilities@[q].count(t),
                        old(buffers)@[c as int].progress@[q]@,
                        t,
                    ) by {
                    if q == o && old(buffers)@[c as int].progress@[q]@.len() == 0 {
                        assert(self.subscope_state@[c as int].capabilities@[q] == old(self).subscope_state@[c as int].capabilities@[q]);
                    } else if q < o {
                        assert(self.subscope_state@[c as int].capabilities@[q] == sp.subscope_state@[c as int].capabilities@[q]);
                    }
                }
            }
            proof {
                assert forall|g: int, q: int, t: Product<TO, TI>|
                    0 <= g < self.scopes@.len() && 0 <= q < self.scopes@[g].inputs implies #[trigger] self.subscope_state@[g].outstanding_messages@[q].count(t)
                        == sp.subscope_state@[g].outstanding_messages@[q].count(t) by {
                    assert(self.subscope_state@[g].outstanding_messages == sp.subscope_state@[g].outstanding_messages);
                }
            }
            o = o + 1;
        }
        let ghost after_outputs = *self;
        let mut p: usize = 0;
        while p < nin
            invariant
                c < self.scopes@.len(),
                nout == self.scopes@[c as int].outputs,
                nin == self.scopes@[c as int].inputs,
                0 <= p <= nin,
                self.wf(),
                self.is_sealed(),
                same_structure(*old(self), *self),
                self.external_capability == old(self).external_capability,
                self.pointstamps.target_pushed == old(self).pointstamps.target_pushed,
                self.pointstamps.output_pushed == old(self).pointstamps.output_pushed,
                self.buffers_fit(buffers@),
                buffers@.len() == old(buffers)@.len(),
                produced@.len() == old(produced)@.len(),
                buffers@[c as int].guarantee_changes == old(buffers)@[c as int].guarantee_changes,
                forall|q: int| 0 <= q < nout ==> (#[trigger] buffers@[c as int].produced@[q])@.len() == 0,
                forall|q: int| 0 <= q < nout ==> (#[trigger] buffers@[c as int].progress@[q])@.len() == 0,
                forall|q: int| 0 <= q < p ==> (#[trigger] buffers@[c as int].consumed@[q])@.len() == 0,
                forall|q: int| #![trigger buffers@[c as int].consumed@[q]] p <= q < nin ==> buffers@[c as int].consumed@[q] == old(buffers)@[c as int].consumed@[q],
                forall|d: int| #![trigger buffers@[d]] 0 <= d < buffers@.len() && d != c ==> buffers@[d] == old(buffers)@[d],
                forall|d: int| #![trigger self.subscope_state@[d]]
                    0 <= d < self.scopes@.len() ==> self.subscope_state@[d].guarantees == old(self).subscope_state@[d].guarantees,
                old(buffers)@[c as int].reports_empty() ==> *self == *old(self) && *buffers == *old(buffers)
                    && *produced == *old(produced),
                forall|g: int, q: int, t: Product<TO, TI>|
                    0 <= g < self.scopes@.len() && 0 <= q < self.scopes@[g].inputs ==> #[trigger] self.subscope_state@[g].outstanding_messages@[q].count(t)
                        == count_after(
                        old(self).subscope_state@[g].outstanding_messages@[q].count(t),
                        old(self).from_outputs(old(buffers)@[c as int], c as int, g, q, nout as int) + if g == c && q < p {
                            negated_seq(old(buffers)@[c as int].consumed@[q]@)
                        } else {
                            Seq::empty()
                        },
                        t,
                    ),
                self.subscope_state@.len() == after_outputs.subscope_state@.len(),
                forall|d: int| #![trigger self.subscope_state@[d]]
                    0 <= d < self.subscope_state@.len() ==> self.subscope_state@[d].capabilities == after_outputs.subscope_state@[d].capabilities,
                forall|o2: int| 0 <= o2 < produced@.len() ==> (#[trigger] produced@[o2])@ == old(produced)@[o2]@
                    + old(self).produced_from_outputs(old(buffers)@[c as int], c as int, o2, nout as int),
            decreases nin - p,
        {
            assert(buffers@[c as int].shaped(nin as nat, nout as nat));
            let ghost sq = *self;
            proof {
                assert forall|g: int, q: int, t: Product<TO, TI>|
                    0 <= g < self.scopes@.len() && 0 <= q < self.scopes@[g].inputs && !(g == c && q == p) implies #[trigger] self.subscope_state@[g].outstanding_messages@[q].count(t)
                        == count_after(
                        old(self).subscope_state@[g].outstanding_messages@[q].count(t),
                        old(self).from_outputs(old(buffers)@[c as int], c as int, g, q, nout as int) + if g == c && q < p + 1 {
                            negated_seq(old(buffers)@[c as int].consumed@[q]@)
                        } else {
                            Seq::empty()
                        },
                        t,
                    ) by {
                }
            }
            if !buffers[c].consumed[p].is_empty() {
                let negated = negate_counts(&buffers[c].consumed[p]);
                let ghost before = *self;
                proof {
                    assert(self.subscope_state@[c as int].shaped(nin as nat, nout as nat));
                    assert(self.subscope_state@[c as int].outstanding_messages@[p as int].wf());
                }
                let changes = self.subscope_state[c].outstanding_messages[p].update_iter_and(&negated);
                proof {
                    assert forall|d: int| 0 <= d < self.scopes@.len() implies (#[trigger] self.subscope_state@[d]).shaped(
                        self.scopes@[d].inputs as nat,
                        self.scopes@[d].outputs as nat,
                    ) by {
                        if d != c {
                            assert(self.subscope_state@[d] == before.subscope_state@[d]);
                        } else {
                            assert forall|k: int| 0 <= k < self.subscope_state@[d].outstanding_messages@.len() implies (#[trigger] self.subscope_state@[d].outstanding_messages@[k]).wf() by {
                                if k != p {
                                    assert(self.subscope_state@[d].outstanding_messages@[k] == before.subscope_state@[d].outstanding_messages@[k]);
                                }
                            }
                        }
                    }
                    assert forall|d: int| #![trigger self.subscope_state@[d]]
                        0 <= d < self.scopes@.len() implies self.subscope_state@[d].guarantees == old(self).subscope_state@[d].guarantees by {
                        if d != c {
                            assert(self.subscope_state@[d] == before.subscope_state@[d]);
                        }
                    }
                    self.lemma_holds_target(c, p);
                    assert forall|d: int| #![trigger self.subscope_state@[d]]
                        0 <= d < self.subscope_state@.len() implies self.subscope_state@[d].capabilities == after_outputs.subscope_state@[d].capabilities by {
                        if d != c {
                            assert(self.subscope_state@[d] == before.subscope_state@[d]);
                        }
                    }
                }
                self.record(Location::TargetLoc(Target::ScopeInput(c, p)), &changes);
                buffers[c].consumed[p] = Vec::new();
                proof {
                    assert forall|g: int, q: int, t: Product<TO, TI>|
                        0 <= g < self.scopes@.len() && 0 <= q < self.scopes@[g].inputs implies #[trigger] self.subscope_state@[g].outstanding_messages@[q].count(t)
                            == count_after(
                            old(self).subscope_state@[g].outstanding_messages@[q].count(t),
                            old(self).from_outputs(old(buffers)@[c as int], c as int, g, q, nout as int) + if g == c && q < p + 1 {
                                negated_seq(old(buffers)@[c as int].consumed@[q]@)
                            } else {
                                Seq::empty()
                            },
                            t,
                        ) by {
                        if g == c && q == p {
                            let base = old(self).subscope_state@[g].outstanding_messages@[q].count(t);
                            let prefix = old(self).from_outputs(old(buffers)@[c as int], c as int, g, q, nout as int);
                            assert(prefix + Seq::<(Product<TO, TI>, i64)>::empty() =~= prefix);
                            lemma_count_after_concat(base, prefix, negated@, t);
                            assert(before.subscope_state@[g].outstanding_messages@[q].count(t) == count_after(
                                base, prefix + Seq::<(Product<TO, TI>, i64)>::empty(), t));
                            assert(negated@ == negated_seq(old(buffers)@[c as int].consumed@[q]@));
                        } else if g != c {
                            assert(self.subscope_state@[g] == before.subscope_state@[g]);
                        } else {
                            assert(self.subscope_state@[g].outstanding_messages@[q] == before.subscope_state@[g].outstanding_messages@[q]);
                        }
                    }
                }
            } else {
                proof {
                    assert forall|g: int, q: int, t: Product<TO, TI>|
                        0 <= g < self.scopes@.len() && 0 <= q < self.scopes@[g].inputs implies #[trigger] self.subscope_state@[g].outstanding_messages@[q].count(t)
                            == count_after(
                            old(self).subscope_state@[g].outstanding_messages@[q].count(t),
                            old(self).from_outputs(old(buffers)@[c as int], c as int, g, q, nout as int) + if g == c && q < p + 1 {
                                negated_seq(old(buffers)@[c as int].consumed@[q]@)
                            } else {
                                Seq::empty()
                            },
                            t,
                        ) by {
                        if g == c && q == p {
                            let prefix = old(self).from_outputs(old(buffers)@[c as int], c as int, g, q, nout as int);
                            assert(negated_seq(old(buffers)@[c as int].consumed@[q]@) =~= Seq::<(Product<TO, TI>, i64)>::empty());
                            assert(prefix + Seq::<(Product<TO, TI>, i64)>::empty() =~= prefix);
                        }
                    }
                }
            }
            p = p + 1;
        }
        proof {
            assert forall|g: int, q: int, t: Product<TO, TI>|
                0 <= g < self.scopes@.len() && 0 <= q < self.scopes@[g].inputs implies #[trigger] self.subscope_state@[g].outstanding_messages@[q].count(t)
                    == count_after(
                    old(self).subscope_state@[g].outstanding_messages@[q].count(t),
                    old(self).child_effect(old(buffers)@[c as int], c as int, g, q),
                    t,
                ) by {
                if g != c {
                    assert(old(self).from_outputs(old(buffers)@[c as int], c as int, g, q, nout as int) + Seq::<(Product<TO, TI>, i64)>::empty()
                        =~= old(self).from_outputs(old(buffers)@[c as int], c as int, g, q, nout as int));
                }
            }
        }
    }

    /// Folds the changes that reached each output of this scope, by outer time, into the
    /// capability reported outward, and adds that frontier's changes to `frontier_progress`.
    fn report_outputs(&mut self, frontier_progress: &mut Vec<CountMap<TO>>)
        requires
            old(self).wf(),
            old(self).is_sealed(),
            old(frontier_progress)@.len() == old(self).outputs,
            row_wf(old(frontier_progress)@),
        ensures
            final(self).wf(),
            final(self).is_sealed(),
            same_structure(*old(self), *final(self)),
            final(self).subscope_state == old(self).subscope_state,
            final(self).pointstamps == old(self).pointstamps,
            final(frontier_progress)@.len() == old(frontier_progress)@.len(),
            row_wf(final(frontier_progress)@),
            forall|o: int, t: TO|
                0 <= o < old(self).outputs ==> #[trigger] final(self).external_capability@[o].count(t) == count_after(
                    old(self).external_capability@[o].count(t),
                    outer_counts(old(self).pointstamps.output_pushed@[o]@),
                    t,
                ),
            forall|o: int, t: TO|
                0 <= o < old(self).outputs ==> #[trigger] final(frontier_progress)@[o].count(t) == crate::count_map::clamped(
                    old(frontier_progress)@[o].count(t) + frontier_delta(
                        old(self).external_capability@[o],
                        final(self).external_capability@[o],
                        t,
                    ),
                ),
            row_empty(old(self).pointstamps.output_pushed@) ==> *final(self) == *old(self) && *final(frontier_progress)
                == *old(frontier_progress),
    {
        let nout = self.outputs;
        let mut o: usize = 0;
        while o < nout
            invariant
                nout == self.outputs,
                0 <= o <= nout,
                self.wf(),
                self.is_sealed(),
                same_structure(*old(self), *self),
                self.subscope_state == old(self).subscope_state,
                self.pointstamps == old(self).pointstamps,
                self.external_capability@.len() == old(self).external_capability@.len(),
                frontier_progress@.len() == nout,
                row_wf(frontier_progress@),
                forall|q: int, t: TO|
                    0 <= q < o ==> #[trigger] self.external_capability@[q].count(t) == count_after(
                        old(self).external_capability@[q].count(t),
                        outer_counts(old(self).pointstamps.output_pushed@[q]@),
                        t,
                    ),
                forall|q: int, t: TO|
                    0 <= q < o ==> #[trigger] frontier_progress@[q].count(t) == crate::count_map::clamped(
                        old(frontier_progress)@[q].count(t) + frontier_delta(
                            old(self).external_capability@[q],
                            self.external_capability@[q],
                            t,
                        ),
                    ),
                forall|q: int| #![trigger self.external_capability@[q]]
                    o <= q < nout ==> self.external_capability@[q] == old(self).external_capability@[q],
                forall|q: int| #![trigger frontier_progress@[q]]
                    o <= q < nout ==> frontier_progress@[q] == old(frontier_progress)@[q],
                row_empty(old(self).pointstamps.output_pushed@) ==> *self == *old(self) && *frontier_progress
                    == *old(frontier_progress),
            decreases nout - o,
        {
            let ghost ec = self.external_capability@;
            let ghost fp = frontier_progress@;
            if self.pointstamps.output_pushed[o].is_empty() {
                proof {
                    let e = self.external_capability@[o as int];
                    assert forall|t: TO| #[trigger] frontier_progress@[o as int].count(t) == crate::count_map::clamped(
                        old(frontier_progress)@[o as int].count(t) + frontier_delta(e, e, t)) by {
                        crate::count_map::lemma_count_at_range(frontier_progress@[o as int], t);
                    }
                    assert(outer_counts(old(self).pointstamps.output_pushed@[o as int]@) =~= Seq::<(TO, i64)>::empty());
                }
            } else {
                let updates = outer_of(self.pointstamps.output_pushed[o].elements());
                assert(self.external_capability@[o as int].wf());
                self.external_capability[o].update_iter_into(&updates, &mut frontier_progress[o]);
                proof {
                    assert forall|q: int| 0 <= q < self.external_capability@.len() implies (#[trigger] self.external_capability@[q]).wf() by {
                        if q != o {
                            assert(self.external_capability@[q] == ec[q]);
                        }
                    }
                    assert forall|q: int| 0 <= q < frontier_progress@.len() implies (#[trigger] frontier_progress@[q]).wf() by {
                        if q != o {
                            assert(frontier_progress@[q] == fp[q]);
                        }
                    }
                    assert forall|q: int, t: TO|
                        0 <= q < o + 1 implies #[trigger] self.external_capability@[q].count(t) == count_after(
                            old(self).external_capability@[q].count(t),
                            outer_counts(old(self).pointstamps.output_pushed@[q]@),
                            t,
                        ) by {
                        if q != o {
                            assert(self.external_capability@[q] == ec[q]);
                        }
                    }
                    assert forall|q: int, t: TO|
                        0 <= q < o + 1 implies #[trigger] frontier_progress@[q].count(t) == crate::count_map::clamped(
                            old(frontier_progress)@[q].count(t) + frontier_delta(
                                old(self).external_capability@[q],
                                self.external_capability@[q],
                                t,
                            ),
                        ) by {
                        if q != o {
                            assert(self.external_capability@[q] == ec[q]);
                            assert(frontier_progress@[q] == fp[q]);
                        }
                    }
                }
            }
            o = o + 1;
        }
    }

    /// One step of the scope: takes the messages that arrived at its inputs and what each
    /// child reported, propagates the resulting changes, adds the guarantee changes for each
    /// child that asks to be notified to its buffers, and reports outward, per input the
    /// messages consumed, per output the messages produced and the changes of the frontier
    /// of what may still come out, all by outer time.
    pub fn pull_internal_progress(
        &mut self,
        frontier_progress: &mut Vec<CountMap<TO>>,
        messages_consumed: &mut Vec<Vec<(TO, i64)>>,
        messages_produced: &mut Vec<Vec<(TO, i64)>>,
        input_messages: &mut Vec<Vec<(Product<TO, TI>, i64)>>,
        buffers: &mut Vec<SubscopeBuffers<Product<TO, TI>>>,
    )
        requires
            old(self).wf(),
            old(self).is_sealed(),
            old(self).quiescent(),
            old(frontier_progress)@.len() == old(self).outputs,
            row_wf(old(frontier_progress)@),
            old(messages_consumed)@.len() == old(self).inputs,
            old(messages_produced)@.len() == old(self).outputs,
            old(input_messages)@.len() == old(self).inputs,
            old(self).buffers_fit(old(buffers)@),
        ensures
            final(self).wf(),
            final(self).is_sealed(),
            final(self).quiescent(),
            final(self).children() == old(self).children(),
            final(self).num_inputs() == old(self).num_inputs(),
            final(self).num_outputs() == old(self).num_outputs(),
            final(frontier_progress)@.len() == old(frontier_progress)@.len(),
            row_wf(final(frontier_progress)@),
            final(messages_consumed)@.len() == old(messages_consumed)@.len(),
            final(messages_produced)@.len() == old(messages_produced)@.len(),
            final(input_messages)@.len() == old(input_messages)@.len(),
            forall|i: int| 0 <= i < final(input_messages)@.len() ==> (#[trigger] final(input_messages)@[i])@.len() == 0,
            final(self).buffers_fit(final(buffers)@),
            forall|c: int| 0 <= c < final(buffers)@.len() ==> (#[trigger] final(buffers)@[c]).reports_empty(),
            forall|c: int| #![trigger final(buffers)@[c]]
                0 <= c < old(self).scopes@.len() && !old(self).scopes@[c].notify ==> final(buffers)@[c].guarantee_changes
                    == old(buffers)@[c].guarantee_changes,
            forall|c: int, p: int, t: Product<TO, TI>|
                0 <= c < old(self).scopes@.len() && 0 <= p < old(self).scopes@[c].inputs
                    && old(self).scopes@[c].notify ==> #[trigger] final(buffers)@[c].guarantee_changes@[p].count(t)
                    == crate::count_map::clamped(
                    old(buffers)@[c].guarantee_changes@[p].count(t) + frontier_delta(
                        old(self).subscope_state@[c].guarantees@[p],
                        final(self).subscope_state@[c].guarantees@[p],
                        t,
                    ),
                ),
            forall|o: int, t: TO|
                0 <= o < old(self).outputs ==> #[trigger] final(frontier_progress)@[o].count(t) == crate::count_map::clamped(
                    old(frontier_progress)@[o].count(t) + frontier_delta(
                        old(self).external_capability@[o],
                        final(self).external_capability@[o],
                        t,
                    ),
                ),
            forall|c: int, q: int, t: Product<TO, TI>|
                0 <= c < old(self).scopes@.len() && 0 <= q < old(self).scopes@[c].outputs ==> #[trigger] final(self).subscope_state@[c].capabilities@[q].count(t)
                    == count_after(old(self).subscope_state@[c].capabilities@[q].count(t), old(buffers)@[c].progress@[q]@, t),
            forall|o: int| 0 <= o < old(self).outputs ==> (#[trigger] final(messages_produced)@[o])@ == old(messages_produced)@[o]@
                + old(self).produced_from_inputs(old(input_messages)@, o, old(self).inputs as int) + old(self).produced_from_children(
                old(buffers)@,
                o,
                old(self).scopes@.len() as int,
            ),
            forall|i: int| 0 <= i < old(self).inputs ==> (#[trigger] final(messages_consumed)@[i])@ == old(messages_consumed)@[i]@ + outer_counts(old(input_messages)@[i]@),
            forall|g: int, q: int, t: Product<TO, TI>|
                0 <= g < old(self).scopes@.len() && 0 <= q < old(self).scopes@[g].inputs ==> #[trigger] final(self).subscope_state@[g].outstanding_messages@[q].count(t)
                    == count_after(
                    old(self).subscope_state@[g].outstanding_messages@[q].count(t),
                    old(self).from_inputs(old(input_messages)@, g, q, old(self).inputs as int) + old(self).from_children(
                        old(buffers)@,
                        g,
                        q,
                        old(self).scopes@.len() as int,
                    ),
                    t,
                ),
            (forall|i: int| 0 <= i < old(input_messages)@.len() ==> (#[trigger] old(input_messages)@[i])@.len() == 0)
                && (forall|c: int| 0 <= c < old(buffers)@.len() ==> (#[trigger] old(buffers)@[c]).reports_empty())
                ==> *final(frontier_progress) == *old(frontier_progress) && *final(messages_consumed)
                == *old(messages_consumed) && *final(messages_produced) == *old(messages_produced)
                && *final(buffers) == *old(buffers),
    {
        let ni = self.inputs;
        let ghost all_quiet = (forall|i: int| 0 <= i < old(input_messages)@.len() ==> (#[trigger] old(input_messages)@[i])@.len() == 0)
            && (forall|c: int| 0 <= c < old(buffers)@.len() ==> (#[trigger] old(buffers)@[c]).reports_empty());
        let mut i: usize = 0;
        while i < ni
            invariant
                ni == self.inputs,
                0 <= i <= ni,
                self.wf(),
                self.is_sealed(),
                same_structure(*old(self), *self),
                self.external_capability == old(self).external_capability,
                self.pointstamps.target_pushed == old(self).pointstamps.target_pushed,
                self.pointstamps.output_pushed == old(self).pointstamps.output_pushed,
                *frontier_progress == *old(frontier_progress),
                forall|d: int| #![trigger self.subscope_state@[d]]
                    0 <= d < self.scopes@.len() ==> self.subscope_state@[d].guarantees == old(self).subscope_state@[d].guarantees,
                messages_consumed@.len() == ni,
                messages_produced@.len() == self.outputs,
                input_messages@.len() == ni,
                forall|q: int| 0 <= q < i ==> (#[trigger] input_messages@[q])@.len() == 0,
                forall|q: int| #![trigger input_messages@[q]] i <= q < ni ==> input_messages@[q] == old(input_messages)@[q],
                *buffers == *old(buffers),
                all_quiet == ((forall|q: int| 0 <= q < old(input_messages)@.len() ==> (#[trigger] old(input_messages)@[q])@.len() == 0)
                    && (forall|c: int| 0 <= c < old(buffers)@.len() ==> (#[trigger] old(buffers)@[c]).reports_empty())),
                all_quiet ==> *self == *old(self) && *messages_consumed == *old(messages_consumed)
                    && *messages_produced == *old(messages_produced) && *input_messages == *old(input_messages),
                forall|g: int, q: int, t: Product<TO, TI>|
                    0 <= g < self.scopes@.len() && 0 <= q < self.scopes@[g].inputs ==> #[trigger] self.subscope_state@[g].outstanding_messages@[q].count(t)
                        == count_after(
                        old(self).subscope_state@[g].outstanding_messages@[q].count(t),
                        old(self).from_inputs(old(input_messages)@, g, q, i as int),
                        t,
                    ),
                forall|q: int| 0 <= q < i ==> (#[trigger] messages_consumed@[q])@ == old(messages_consumed)@[q]@ + outer_counts(old(input_messages)@[q]@),
                forall|q: int| i <= q < ni ==> #[trigger] messages_consumed@[q] == old(messages_consumed)@[q],
                forall|d: int| #![trigger self.subscope_state@[d]]
                    0 <= d < self.scopes@.len() ==> self.subscope_state@[d].capabilities == old(self).subscope_state@[d].capabilities,
                forall|o: int| 0 <= o < messages_produced@.len() ==> (#[trigger] messages_produced@[o])@ == old(messages_produced)@[o]@
                    + old(self).produced_from_inputs(old(input_messages)@, o, i as int),
            decreases ni - i,
        {
            let ghost si = *self;
            let ghost pi = *messages_produced;
            let ghost consumed_before = messages_consumed@;
            if !input_messages[i].is_empty() {
                let m = input_messages[i].len();
                let mut k: usize = 0;
                while k < m
                    invariant
                        m == input_messages@[i as int]@.len(),
                        0 <= i < ni,
                        0 <= k <= m,
                        messages_consumed@.len() == ni,
                        input_messages@.len() == ni,
                        messages_consumed@[i as int]@ == consumed_before[i as int]@ + outer_counts(input_messages@[i as int]@.take(k as int)),
                        forall|q: int| 0 <= q < ni && q != i ==> #[trigger] messages_consumed@[q] == consumed_before[q],
                    decreases m - k,
                {
                    let (time, delta) = input_messages[i][k];
                    messages_consumed[i].push((time.outer, delta));
                    proof {
                        assert(outer_counts(input_messages@[i as int]@.take(k + 1)) =~= outer_counts(input_messages@[i as int]@.take(k as int)).push((time.outer, delta)));
                    }
                    k = k + 1;
                }
                proof {
                    assert(input_messages@[i as int]@.take(m as int) =~= input_messages@[i as int]@);
                }
                let n = self.input_edges[i].len();
                let ghost snap = *input_messages;
                let mut e: usize = 0;
                while e < n
                    invariant
                        ni == self.inputs,
                        0 <= i < ni,
                        n == self.input_edges@[i as int]@.len(),
                        0 <= e <= n,
                        self.wf(),
                        self.is_sealed(),
                        same_structure(*old(self), *self),
                        self.external_capability == old(self).external_capability,
                        self.pointstamps.target_pushed == old(self).pointstamps.target_pushed,
                        self.pointstamps.output_pushed == old(self).pointstamps.output_pushed,
                        *frontier_progress == *old(frontier_progress),
                        forall|d: int| #![trigger self.subscope_state@[d]]
                            0 <= d < self.scopes@.len() ==> self.subscope_state@[d].guarantees == old(self).subscope_state@[d].guarantees,
                *frontier_progress == *old(frontier_progress),
                forall|d: int| #![trigger self.subscope_state@[d]]
                    0 <= d < self.scopes@.len() ==> self.subscope_state@[d].guarantees == old(self).subscope_state@[d].guarantees,
                        messages_produced@.len() == self.outputs,
                        *input_messages == snap,
                        input_messages@.len() == ni,
                        snap@[i as int] == old(input_messages)@[i as int],
                        forall|g: int, q: int, t: Product<TO, TI>|
                            0 <= g < self.scopes@.len() && 0 <= q < self.scopes@[g].inputs ==> #[trigger] self.subscope_state@[g].outstanding_messages@[q].count(t)
                                == count_after(
                                si.subscope_state@[g].outstanding_messages@[q].count(t),
                                edge_copies(self.input_edges@[i as int]@, g, q, snap@[i as int]@, e as int),
                                t,
                            ),
                        forall|d: int| #![trigger self.subscope_state@[d]]
                            0 <= d < self.scopes@.len() ==> self.subscope_state@[d].capabilities == old(self).subscope_state@[d].capabilities,
                        forall|o: int| 0 <= o < messages_produced@.len() ==> (#[trigger] messages_produced@[o])@ == pi@[o]@
                            + output_copies(self.input_edges@[i as int]@, o, snap@[i as int]@, e as int),
                    decreases n - e,
                {
                    let target = self.input_edges[i][e];
                    assert(self.targets_valid(self.input_edges@[i as int]@));
                    assert(self.valid_target(self.input_edges@[i as int]@[e as int]));
                    let ghost se = *self;
                    let ghost pe = *messages_produced;
                    self.deliver_messages(target, &input_messages[i], messages_produced);
                    proof {
                        assert forall|o: int| 0 <= o < messages_produced@.len() implies (#[trigger] messages_produced@[o])@ == pi@[o]@
                            + output_copies(self.input_edges@[i as int]@, o, snap@[i as int]@, e + 1) by {
                            let targets = self.input_edges@[i as int]@;
                            let batch = snap@[i as int]@;
                            let here = if targets[e as int] == Target::GraphOutput(o as usize) { outer_counts(batch) } else { Seq::empty() };
                            assert(output_copies(targets, o, batch, e + 1) == output_copies(targets, o, batch, e as int) + here);
                            assert(pe@[o]@ == pi@[o]@ + output_copies(targets, o, batch, e as int));
                            assert(messages_produced@[o]@ =~= pi@[o]@ + (output_copies(targets, o, batch, e as int) + here));
                        }
                        let targets = self.input_edges@[i as int]@;
                        let batch = snap@[i as int]@;
                        assert forall|g: int, q: int, t: Product<TO, TI>|
                            0 <= g < self.scopes@.len() && 0 <= q < self.scopes@[g].inputs implies #[trigger] self.subscope_state@[g].outstanding_messages@[q].count(t)
                                == count_after(si.subscope_state@[g].outstanding_messages@[q].count(t), edge_copies(targets, g, q, batch, e + 1), t) by {
                            let here = if names_input(targets[e as int], g, q) { batch } else { Seq::empty() };
                            assert(edge_copies(targets, g, q, batch, e + 1) == edge_copies(targets, g, q, batch, e as int) + here);
                            lemma_count_after_concat(si.subscope_state@[g].outstanding_messages@[q].count(t), edge_copies(targets, g, q, batch, e as int), here, t);
                            assert(se.subscope_state@[g].outstanding_messages@[q].count(t) == count_after(
                                si.subscope_state@[g].outstanding_messages@[q].count(t), edge_copies(targets, g, q, batch, e as int), t));
                        }
                    }
                    e = e + 1;
                }
                input_messages[i] = Vec::new();
                proof {
                    assert forall|o: int| 0 <= o < messages_produced@.len() implies (#[trigger] messages_produced@[o])@ == old(messages_produced)@[o]@
                        + old(self).produced_from_inputs(old(input_messages)@, o, i + 1) by {
                        let ed = output_copies(self.input_edges@[i as int]@, o, snap@[i as int]@, n as int);
                        assert(old(self).produced_from_inputs(old(input_messages)@, o, i + 1) == old(self).produced_from_inputs(old(input_messages)@, o, i as int) + ed);
                        assert(messages_produced@[o]@ =~= old(messages_produced)@[o]@ + (old(self).produced_from_inputs(old(input_messages)@, o, i as int) + ed));
                    }
                    assert forall|g: int, q: int, t: Product<TO, TI>|
                        0 <= g < self.scopes@.len() && 0 <= q < self.scopes@[g].inputs implies #[trigger] self.subscope_state@[g].outstanding_messages@[q].count(t)
                            == count_after(
                            old(self).subscope_state@[g].outstanding_messages@[q].count(t),
                            old(self).from_inputs(old(input_messages)@, g, q, i + 1),
                            t,
                        ) by {
                        let ed = edge_copies(self.input_edges@[i as int]@, g, q, snap@[i as int]@, n as int);
                        assert(old(self).from_inputs(old(input_messages)@, g, q, i + 1) == old(self).from_inputs(old(input_messages)@, g, q, i as int) + ed);
                        lemma_count_after_concat(old(self).subscope_state@[g].outstanding_messages@[q].count(t), old(self).from_inputs(old(input_messages)@, g, q, i as int), ed, t);
                        assert(si.subscope_state@[g].outstanding_messages@[q].count(t) == count_after(
                            old(self).subscope_state@[g].outstanding_messages@[q].count(t), old(self).from_inputs(old(input_messages)@, g, q, i as int), t));
                    }
                }
            } else {
                proof {
                    assert forall|o: int| 0 <= o < messages_produced@.len() implies (#[trigger] messages_produced@[o])@ == old(messages_produced)@[o]@
                        + old(self).produced_from_inputs(old(input_messages)@, o, i + 1) by {
                        let targets = self.input_edges@[i as int]@;
                        lemma_output_copies_empty::<TO, TI>(targets, o, old(input_messages)@[i as int]@, targets.len() as int);
                        assert(old(self).produced_from_inputs(old(input_messages)@, o, i + 1) =~= old(self).produced_from_inputs(old(input_messages)@, o, i as int));
                    }
                    assert forall|g: int, q: int, t: Product<TO, TI>|
                        0 <= g < self.scopes@.len() && 0 <= q < self.scopes@[g].inputs implies #[trigger] self.subscope_state@[g].outstanding_messages@[q].count(t)
                            == count_after(
                            old(self).subscope_state@[g].outstanding_messages@[q].count(t),
                            old(self).from_inputs(old(input_messages)@, g, q, i + 1),
                            t,
                        ) by {
                        let targets = self.input_edges@[i as int]@;
                        lemma_edge_copies_empty(targets, g, q, old(input_messages)@[i as int]@, targets.len() as int);
                        assert(old(self).from_inputs(old(input_messages)@, g, q, i + 1) =~= old(self).from_inputs(old(input_messages)@, g, q, i as int));
                    }
                }
            }
            i = i + 1;
        }
        let ns = self.scopes.len();
        let mut c: usize = 0;
        while c < ns
            invariant
                ns == self.scopes@.len(),
                0 <= c <= ns,
                self.wf(),
                self.is_sealed(),
                same_structure(*old(self), *self),
                self.external_capability == old(self).external_capability,
                self.pointstamps.target_pushed == old(self).pointstamps.target_pushed,
                self.pointstamps.output_pushed == old(self).pointstamps.output_pushed,
                *frontier_progress == *old(frontier_progress),
                forall|d: int| #![trigger self.subscope_state@[d]]
                    0 <= d < self.scopes@.len() ==> self.subscope_state@[d].guarantees == old(self).subscope_state@[d].guarantees,
                messages_produced@.len() == self.outputs,
                self.buffers_fit(buffers@),
                forall|d: int| 0 <= d < c ==> (#[trigger] buffers@[d]).reports_empty(),
                forall|d: int| #![trigger buffers@[d]] c <= d < ns ==> buffers@[d] == old(buffers)@[d],
                forall|d: int| #![trigger buffers@[d]] 0 <= d < ns ==> buffers@[d].guarantee_changes == old(buffers)@[d].guarantee_changes,
                old(buffers)@.len() == ns,
                all_quiet == ((forall|q: int| 0 <= q < old(input_messages)@.len() ==> (#[trigger] old(input_messages)@[q])@.len() == 0)
                    && (forall|d: int| 0 <= d < old(buffers)@.len() ==> (#[trigger] old(buffers)@[d]).reports_empty())),
                all_quiet ==> *self == *old(self) && *messages_produced == *old(messages_produced) && *buffers == *old(buffers),
                forall|g: int, q: int, t: Product<TO, TI>|
                    0 <= g < self.scopes@.len() && 0 <= q < self.scopes@[g].inputs ==> #[trigger] self.subscope_state@[g].outstanding_messages@[q].count(t)
                        == count_after(
                        old(self).subscope_state@[g].outstanding_messages@[q].count(t),
                        old(self).from_inputs(old(input_messages)@, g, q, ni as int) + old(self).from_children(old(buffers)@, g, q, c as int),
                        t,
                    ),
                forall|d: int, q: int, t: Product<TO, TI>|
                    0 <= d < c && 0 <= q < self.scopes@[d].outputs ==> #[trigger] self.subscope_state@[d].capabilities@[q].count(t)
                        == count_after(old(self).subscope_state@[d].capabilities@[q].count(t), old(buffers)@[d].progress@[q]@, t),
                forall|d: int| #![trigger self.subscope_state@[d]]
                    c <= d < ns ==> self.subscope_state@[d].capabilities == old(self).subscope_state@[d].capabilities,
                forall|o: int| 0 <= o < messages_produced@.len() ==> (#[trigger] messages_produced@[o])@ == old(messages_produced)@[o]@
                    + old(self).produced_from_inputs(old(input_messages)@, o, ni as int) + old(self).produced_from_children(old(buffers)@, o, c as int),
            decreases ns - c,
        {
            let ghost before = *buffers;
            let ghost sc = *self;
            let ghost pc = *messages_produced;
            self.absorb_child(c, buffers, messages_produced);
            proof {
                assert forall|o: int| 0 <= o < messages_produced@.len() implies (#[trigger] messages_produced@[o])@ == old(messages_produced)@[o]@
                    + old(self).produced_from_inputs(old(input_messages)@, o, ni as int) + old(self).produced_from_children(old(buffers)@, o, c + 1) by {
                    let eff = old(self).produced_from_outputs(old(buffers)@[c as int], c as int, o, old(self).scopes@[c as int].outputs as int);
                    assert(before@[c as int] == old(buffers)@[c as int]);
                    lemma_produced_from_outputs_same(sc, *old(self), old(buffers)@[c as int], c as int, o, sc.scopes@[c as int].outputs as int);
                    assert(old(self).produced_from_children(old(buffers)@, o, c + 1) == old(self).produced_from_children(old(buffers)@, o, c as int) + eff);
                    assert(messages_produced@[o]@ =~= old(messages_produced)@[o]@ + old(self).produced_from_inputs(old(input_messages)@, o, ni as int)
                        + old(self).produced_from_children(old(buffers)@, o, c + 1));
                }
                assert forall|d: int, q: int, t: Product<TO, TI>|
                    0 <= d < c + 1 && 0 <= q < self.scopes@[d].outputs implies #[trigger] self.subscope_state@[d].capabilities@[q].count(t)
                        == count_after(old(self).subscope_state@[d].capabilities@[q].count(t), old(buffers)@[d].progress@[q]@, t) by {
                    if d < c {
                        assert(self.subscope_state@[d].capabilities == sc.subscope_state@[d].capabilities);
                        assert(sc.subscope_state@[d].capabilities@[q].count(t) == count_after(old(self).subscope_state@[d].capabilities@[q].count(t), old(buffers)@[d].progress@[q]@, t));
                    } else {
                        assert(sc.subscope_state@[d].capabilities == old(self).subscope_state@[d].capabilities);
                        assert(before@[d] == old(buffers)@[d]);
                    }
                }
                assert forall|d: int| #![trigger self.subscope_state@[d]]
                    c + 1 <= d < ns implies self.subscope_state@[d].capabilities == old(self).subscope_state@[d].capabilities by {
                    assert(sc.subscope_state@[d].capabilities == old(self).subscope_state@[d].capabilities);
                }
                assert forall|g: int, q: int, t: Product<TO, TI>|
                    0 <= g < self.scopes@.len() && 0 <= q < self.scopes@[g].inputs implies #[trigger] self.subscope_state@[g].outstanding_messages@[q].count(t)
                        == count_after(
                        old(self).subscope_state@[g].outstanding_messages@[q].count(t),
                        old(self).from_inputs(old(input_messages)@, g, q, ni as int) + old(self).from_children(old(buffers)@, g, q, c + 1),
                        t,
                    ) by {
                    let prefix = old(self).from_inputs(old(input_messages)@, g, q, ni as int) + old(self).from_children(old(buffers)@, g, q, c as int);
                    let eff = old(self).child_effect(old(buffers)@[c as int], c as int, g, q);
                    assert(before@[c as int] == old(buffers)@[c as int]);
                    assert(sc.child_effect(before@[c as int], c as int, g, q) == eff) by {
                        lemma_from_outputs_same(sc, *old(self), old(buffers)@[c as int], c as int, g, q, sc.scopes@[c as int].outputs as int);
                    }
                    assert(old(self).from_children(old(buffers)@, g, q, c + 1) == old(self).from_children(old(buffers)@, g, q, c as int) + eff);
                    assert(old(self).from_inputs(old(input_messages)@, g, q, ni as int) + old(self).from_children(old(buffers)@, g, q, c + 1) =~= prefix + eff);
                    lemma_count_after_concat(old(self).subscope_state@[g].outstanding_messages@[q].count(t), prefix, eff, t);
                    assert(sc.subscope_state@[g].outstanding_messages@[q].count(t) == count_after(
                        old(self).subscope_state@[g].outstanding_messages@[q].count(t), prefix, t));
                }
                assert forall|d: int| 0 <= d < c + 1 implies (#[trigger] buffers@[d]).reports_empty() by {
                    if d != c {
                        assert(buffers@[d] == before[d]);
                    }
                }
                assert forall|d: int| #![trigger buffers@[d]] 0 <= d < ns implies buffers@[d].guarantee_changes == old(buffers)@[d].guarantee_changes by {
                    if d != c {
                        assert(buffers@[d] == before[d]);
                    }
                }
                if all_quiet {
                    assert(old(buffers)@[c as int].reports_empty());
                }
            }
            c = c + 1;
        }
        self.push_pointstamps_to_targets();
        let ghost before = *buffers;
        self.deliver_guarantees(buffers);
        proof {
            assert forall|d: int| 0 <= d < buffers@.len() implies (#[trigger] buffers@[d]).reports_empty() by {
                assert(before[d].reports_empty());
            }
        }
        self.report_outputs(frontier_progress);
        self.pointstamps.clear_pushed();
        proof {
            assert(grid_wf(self.pointstamps.target_pushed@, self.child_inputs()));
        }
    }
}

/// The changes of `s` at the times `(t, 0)` of this scope.
pub open spec fn lifted<TO, TI: Timestamp>(s: Seq<(TO, i64)>) -> Seq<(Product<TO, TI>, i64)> {
    s.map_values(|e: (TO, i64)| (Product { outer: e.0, inner: TI::spec_zero() }, e.1))
}

/// The changes of `v` at the times `(t, 0)` of this scope.
pub fn lift_times<TO: Copy, TI: Timestamp>(v: &Vec<(TO, i64)>) -> (r: Vec<(Product<TO, TI>, i64)>)
    ensures
        r@ == lifted::<TO, TI>(v@),
{
    let mut r: Vec<(Product<TO, TI>, i64)> = Vec::new();
    let n = v.len();
    let mut k: usize = 0;
    while k < n
        invariant
            n == v@.len(),
            0 <= k <= n,
            r@ == lifted::<TO, TI>(v@.take(k as int)),
        decreases n - k,
    {
        let (t, d) = v[k];
        r.push((Product { outer: t, inner: TI::zero() }, d));
        proof {
            assert(lifted::<TO, TI>(v@.take(k + 1)) =~= lifted::<TO, TI>(v@.take(k as int)).push(
                (Product { outer: t, inner: TI::spec_zero() }, d),
            ));
        }
        k = k + 1;
    }
    proof {
        assert(v@.take(n as int) =~= v@);
    }
    r
}

/// The counts of `s`, keyed by the outer coordinate of their times.
pub open spec fn outer_counts<TO, TI>(s: Seq<(Product<TO, TI>, i64)>) -> Seq<(TO, i64)> {
    s.map_values(|e: (Product<TO, TI>, i64)| (e.0.outer, e.1))
}

/// The counts of `v`, keyed by the outer coordinate of their times.
pub fn outer_of<TO: Copy, TI: Copy>(v: &Vec<(Product<TO, TI>, i64)>) -> (r: Vec<(TO, i64)>)
    ensures
        r@ == outer_counts(v@),
{
    let mut r: Vec<(TO, i64)> = Vec::new();
    let n = v.len();
    let mut k: usize = 0;
    while k < n
        invariant
            n == v@.len(),
            0 <= k <= n,
            r@ == outer_counts(v@.take(k as int)),
        decreases n - k,
    {
        let (t, d) = v[k];
        r.push((t.outer, d));
        proof {
            assert(outer_counts(v@.take(k + 1)) =~= outer_counts(v@.take(k as int)).push((t.outer, d)));
        }
        k = k + 1;
    }
    proof {
        assert(v@.take(n as int) =~= v@);
    }
    r
}

/// `-v`, or `i64::MAX` for `i64::MIN`.
pub open spec fn negated_count(v: i64) -> i64 {
    if v == i64::MIN {
        i64::MAX
    } else {
        (-v) as i64
    }
}

/// The same changes with their counts negated.
pub fn negate_counts<T: Copy>(batch: &Vec<(T, i64)>) -> (r: Vec<(T, i64)>)
    ensures
        r@.len() == batch@.len(),
        forall|k: int| 0 <= k < r@.len() ==> #[trigger] r@[k] == (batch@[k].0, negated_count(batch@[k].1)),
        r@ == negated_seq(batch@),
{
    let mut r: Vec<(T, i64)> = Vec::new();
    let n = batch.len();
    let mut k: usize = 0;
    while k < n
        invariant
            n == batch@.len(),
            0 <= k <= n,
            r@.len() == k,
            forall|x: int| 0 <= x < k ==> #[trigger] r@[x] == (batch@[x].0, negated_count(batch@[x].1)),
        decreases n - k,
    {
        let (t, v) = batch[k];
        let w: i64 = if v == i64::MIN {
            i64::MAX
        } else {
            -v
        };
        r.push((t, w));
        k = k + 1;
    }
    proof {
        assert(r@ =~= negated_seq(batch@));
    }
    r
}

/// The same changes with their counts negated.
pub open spec fn negated_seq<T>(s: Seq<(T, i64)>) -> Seq<(T, i64)> {
    s.map_values(|e: (T, i64)| (e.0, negated_count(e.1)))
}

/// Negating every count negates the sums and keeps the magnitude, when no count is
/// `i64::MIN`.
pub proof fn lemma_negated_sums<T>(batch: Seq<(T, i64)>, t: T)
    requires
        forall|k: int| 0 <= k < batch.len() ==> (#[trigger] batch[k]).1 != i64::MIN,
    ensures
        sum_for(negated_seq(batch), t) == -sum_for(batch, t),
        magnitude(negated_seq(batch)) == magnitude(batch),
    decreases batch.len(),
{
    if batch.len() > 0 {
        let rest = batch.drop_last();
        assert(negated_seq(batch).drop_last() =~= negated_seq(rest));
        assert forall|k: int| 0 <= k < rest.len() implies (#[trigger] rest[k]).1 != i64::MIN by {
            assert(rest[k] == batch[k]);
        }
        lemma_negated_sums(rest, t);
        assert(batch.last() == batch[batch.len() - 1]);
    }
}

/// Applying a batch and then the same batch negated gives back the count it started from,
/// as long as no count saturates and no delta is `i64::MIN`.
pub proof fn lemma_negated_round_trip<T>(base: int, batch: Seq<(T, i64)>, t: T)
    requires
        (if base >= 0 { base } else { -base }) + 2 * magnitude(batch) <= i64::MAX,
        forall|k: int| 0 <= k < batch.len() ==> (#[trigger] batch[k]).1 != i64::MIN,
    ensures
        count_after(count_after(base, batch, t), negated_seq(batch), t) == base,
{
    lemma_magnitude_nonnegative(batch);
    lemma_count_after_sum(base, batch, t);
    lemma_negated_sums(batch, t);
    let mid = base + sum_for(batch, t);
    lemma_count_after_sum(mid, negated_seq(batch), t);
}

/// One copy of `batch` for each of the first `n` of `targets` that is input `p` of child `c`.
pub open spec fn edge_copies<T>(targets: Seq<Target>, c: int, p: int, batch: Seq<(T, i64)>, n: int) -> Seq<(T, i64)>
    decreases n,
{
    if n <= 0 {
        Seq::empty()
    } else {
        edge_copies(targets, c, p, batch, n - 1) + if names_input(targets[n - 1], c, p) {
            batch
        } else {
            Seq::empty()
        }
    }
}

/// One copy of `batch`, by outer time, for each of the first `n` of `targets` that is
/// output `o` of this scope.
pub open spec fn output_copies<TO, TI>(targets: Seq<Target>, o: int, batch: Seq<(Product<TO, TI>, i64)>, n: int) -> Seq<(TO, i64)>
    decreases n,
{
    if n <= 0 {
        Seq::empty()
    } else {
        output_copies(targets, o, batch, n - 1) + if targets[n - 1] == Target::GraphOutput(o as usize) {
            outer_counts(batch)
        } else {
            Seq::empty()
        }
    }
}

/// Copies of an empty batch, by outer time, are empty.
pub proof fn lemma_output_copies_empty<TO, TI>(targets: Seq<Target>, o: int, batch: Seq<(Product<TO, TI>, i64)>, n: int)
    requires
        batch.len() == 0,
    ensures
        output_copies(targets, o, batch, n) == Seq::<(TO, i64)>::empty(),
    decreases n,
{
    if n > 0 {
        lemma_output_copies_empty(targets, o, batch, n - 1);
        assert(outer_counts(batch) =~= Seq::<(TO, i64)>::empty());
        assert(output_copies(targets, o, batch, n) =~= Seq::<(TO, i64)>::empty());
    }
}

/// Copies of an empty batch are empty.
pub proof fn lemma_edge_copies_empty<T>(targets: Seq<Target>, c: int, p: int, batch: Seq<(T, i64)>, n: int)
    requires
        batch.len() == 0,
    ensures
        edge_copies(targets, c, p, batch, n) == Seq::<(T, i64)>::empty(),
    decreases n,
{
    if n > 0 {
        lemma_edge_copies_empty(targets, c, p, batch, n - 1);
        assert(edge_copies(targets, c, p, batch, n) =~= Seq::<(T, i64)>::empty());
    }
}

/// What a child's outputs pass out of the scope depends on the edges alone.
pub proof fn lemma_produced_from_outputs_same<TO: Timestamp, SO: PathSummary<TO>, TI: Timestamp, SI: PathSummary<TI>>(
    a: Subgraph<TO, SO, TI, SI>,
    b: Subgraph<TO, SO, TI, SI>,
    report: SubscopeBuffers<Product<TO, TI>>,
    d: int,
    o: int,
    n: int,
)
    requires
        a.scope_edges == b.scope_edges,
    ensures
        a.produced_from_outputs(report, d, o, n) == b.produced_from_outputs(report, d, o, n),
    decreases n,
{
    if n > 0 {
        lemma_produced_from_outputs_same(a, b, report, d, o, n - 1);
    }
}

/// Deliveries along the outputs of a child depend on the edges alone.
pub proof fn lemma_from_outputs_same<TO: Timestamp, SO: PathSummary<TO>, TI: Timestamp, SI: PathSummary<TI>>(
    a: Subgraph<TO, SO, TI, SI>,
    b: Subgraph<TO, SO, TI, SI>,
    report: SubscopeBuffers<Product<TO, TI>>,
    d: int,
    c: int,
    p: int,
    n: int,
)
    requires
        a.scope_edges == b.scope_edges,
    ensures
        a.from_outputs(report, d, c, p, n) == b.from_outputs(report, d, c, p, n),
    decreases n,
{
    if n > 0 {
        lemma_from_outputs_same(a, b, report, d, c, p, n - 1);
    }
}

/// The part of a summary that the enclosing scope sees: nothing for a path that stays
/// inside, the outer summary for one that leaves.
pub open spec fn outer_part<SO: PathSummary<TO>, SI, TO: Timestamp>(u: Summary<SO, SI>) -> SO {
    match u {
        Summary::Local(_) => SO::spec_identity(),
        Summary::Outer(y, _) => y,
    }
}

/// What reaches an output when only the capabilities are pending.
proof fn lemma_capability_report<TO: Timestamp, SO: PathSummary<TO>, TI: Timestamp, SI: PathSummary<TI>>(
    injected: Subgraph<TO, SO, TI, SI>,
    pushed: Subgraph<TO, SO, TI, SI>,
    fin: Subgraph<TO, SO, TI, SI>,
    o: usize,
)
    requires
        injected.wf(),
        injected.is_sealed(),
        injected.scopes@.len() <= usize::MAX,
        grid_empty(injected.pointstamps.target_counts@),
        row_empty(injected.pointstamps.input_counts@),
        forall|c: usize, q: usize|
            c < injected.scopes@.len() && q < injected.scopes@[c as int].outputs ==> (#[trigger] injected.pointstamps.source_counts@[c as int]@[q as int])@
                == injected.capability_list(c as int, q as int),
        injected.fits_here(Target::GraphOutput(o)),
        injected.pushed_at(Target::GraphOutput(o))@.len() == 0,
        forall|x: Target, t: Product<TO, TI>|
            injected.fits_here(x) ==> #[trigger] pushed.pushed_at(x).count(t) == count_after(
                injected.pushed_at(x).count(t),
                injected.pending_items(x),
                t,
            ),
        fin.scopes == injected.scopes,
        fin.source_summaries == injected.source_summaries,
        fin.subscope_state == injected.subscope_state,
    ensures
        forall|t: Product<TO, TI>| #[trigger] count_in(pushed.pointstamps.output_pushed@[o as int]@, t) == count_after(
            0,
            fin.capability_items(fin.scopes@.len() as int, Target::GraphOutput(o)),
            t,
        ),
{
    let x = Target::GraphOutput(o);
    lemma_pending_capabilities(injected, x);
    lemma_capability_items_same(injected, fin, injected.scopes@.len() as int, x);
    assert forall|t: Product<TO, TI>| #[trigger] count_in(pushed.pointstamps.output_pushed@[o as int]@, t) == count_after(
        0,
        fin.capability_items(fin.scopes@.len() as int, x),
        t,
    ) by {
        crate::count_map::lemma_count_absent(injected.pushed_at(x)@, t);
        assert(pushed.pushed_at(x).count(t) == count_after(injected.pushed_at(x).count(t), injected.pending_items(x), t));
    }
}

/// With only capabilities pending, the pending changes are the capabilities' changes.
pub proof fn lemma_pending_capabilities<TO: Timestamp, SO: PathSummary<TO>, TI: Timestamp, SI: PathSummary<TI>>(
    a: Subgraph<TO, SO, TI, SI>,
    x: Target,
)
    requires
        a.scopes@.len() <= usize::MAX,
        a.wf(),
        a.is_sealed(),
        grid_empty(a.pointstamps.target_counts@),
        row_empty(a.pointstamps.input_counts@),
        forall|c: usize, o: usize|
            c < a.scopes@.len() && o < a.scopes@[c as int].outputs ==> (#[trigger] a.pointstamps.source_counts@[c as int]@[o as int])@
                == a.capability_list(c as int, o as int),
    ensures
        a.pending_items(x) == a.capability_items(a.scopes@.len() as int, x),
{
    lemma_input_items_empty(a, a.inputs as int, x);
    lemma_child_items_capabilities(a, a.scopes@.len() as int, x);
    assert(a.pending_items(x) =~= a.capability_items(a.scopes@.len() as int, x));
}

proof fn lemma_input_items_empty<TO: Timestamp, SO: PathSummary<TO>, TI: Timestamp, SI: PathSummary<TI>>(
    a: Subgraph<TO, SO, TI, SI>,
    n: int,
    x: Target,
)
    requires
        a.wf(),
        a.is_sealed(),
        row_empty(a.pointstamps.input_counts@),
        n <= a.inputs,
    ensures
        a.input_items(n, x) == Seq::<(Product<TO, TI>, i64)>::empty(),
    decreases n,
{
    if n > 0 {
        lemma_input_items_empty(a, n - 1, x);
        assert(a.pointstamps.input_counts@[n - 1]@.len() == 0);
        assert(pushed_items(a.pointstamps.input_counts@[n - 1]@, a.input_summaries@[n - 1]@, x) =~= Seq::<(Product<TO, TI>, i64)>::empty());
        assert(a.input_items(n, x) =~= Seq::<(Product<TO, TI>, i64)>::empty());
    }
}

proof fn lemma_child_items_capabilities<TO: Timestamp, SO: PathSummary<TO>, TI: Timestamp, SI: PathSummary<TI>>(
    a: Subgraph<TO, SO, TI, SI>,
    n: int,
    x: Target,
)
    requires
        a.scopes@.len() <= usize::MAX,
        a.wf(),
        a.is_sealed(),
        grid_empty(a.pointstamps.target_counts@),
        forall|c: usize, o: usize|
            c < a.scopes@.len() && o < a.scopes@[c as int].outputs ==> (#[trigger] a.pointstamps.source_counts@[c as int]@[o as int])@
                == a.capability_list(c as int, o as int),
        n <= a.scopes@.len(),
    ensures
        a.child_items(n, x) == a.capability_items(n, x),
    decreases n,
{
    if n > 0 {
        lemma_child_items_capabilities(a, n - 1, x);
        lemma_target_items_empty(a, n - 1, a.scopes@[n - 1].inputs as int, x);
        lemma_source_items_capabilities(a, n - 1, a.scopes@[n - 1].outputs as int, x);
        assert(a.child_items(n, x) =~= a.capability_items(n, x));
    }
}

proof fn lemma_target_items_empty<TO: Timestamp, SO: PathSummary<TO>, TI: Timestamp, SI: PathSummary<TI>>(
    a: Subgraph<TO, SO, TI, SI>,
    c: int,
    n: int,
    x: Target,
)
    requires
        a.scopes@.len() <= usize::MAX,
        a.wf(),
        a.is_sealed(),
        grid_empty(a.pointstamps.target_counts@),
        0 <= c < a.scopes@.len(),
        n <= a.scopes@[c].inputs,
    ensures
        a.target_items(c, n, x) == Seq::<(Product<TO, TI>, i64)>::empty(),
    decreases n,
{
    if n > 0 {
        lemma_target_items_empty(a, c, n - 1, x);
        a.lemma_holds_target(c as usize, (n - 1) as usize);
        assert(a.pointstamps.target_counts@[c]@[n - 1]@.len() == 0);
        assert(pushed_items(a.pointstamps.target_counts@[c]@[n - 1]@, a.target_summaries@[c]@[n - 1]@, x) =~= Seq::<(Product<TO, TI>, i64)>::empty());
        assert(a.target_items(c, n, x) =~= Seq::<(Product<TO, TI>, i64)>::empty());
    }
}

proof fn lemma_source_items_capabilities<TO: Timestamp, SO: PathSummary<TO>, TI: Timestamp, SI: PathSummary<TI>>(
    a: Subgraph<TO, SO, TI, SI>,
    c: int,
    n: int,
    x: Target,
)
    requires
        a.scopes@.len() <= usize::MAX,
        a.wf(),
        a.is_sealed(),
        forall|d: usize, o: usize|
            d < a.scopes@.len() && o < a.scopes@[d as int].outputs ==> (#[trigger] a.pointstamps.source_counts@[d as int]@[o as int])@
                == a.capability_list(d as int, o as int),
        0 <= c < a.scopes@.len(),
        n <= a.scopes@[c].outputs,
    ensures
        a.source_items(c, n, x) == a.cap_source_items(c, n, x),
    decreases n,
{
    if n > 0 {
        lemma_source_items_capabilities(a, c, n - 1, x);
        assert(a.pointstamps.source_counts@[(c as usize) as int]@[((n - 1) as usize) as int]@ == a.capability_list(
            (c as usize) as int,
            ((n - 1) as usize) as int,
        ));
    }
}

/// The capabilities' changes depend on the tables and the children's state alone.
pub proof fn lemma_capability_items_same<TO: Timestamp, SO: PathSummary<TO>, TI: Timestamp, SI: PathSummary<TI>>(
    a: Subgraph<TO, SO, TI, SI>,
    b: Subgraph<TO, SO, TI, SI>,
    n: int,
    x: Target,
)
    requires
        a.scopes == b.scopes,
        a.source_summaries == b.source_summaries,
        a.subscope_state@.len() == b.subscope_state@.len(),
        forall|d: int| 0 <= d < a.subscope_state@.len() ==> #[trigger] a.subscope_state@[d].capabilities == b.subscope_state@[d].capabilities,
        n <= a.subscope_state@.len(),
    ensures
        a.capability_items(n, x) == b.capability_items(n, x),
    decreases n,
{
    if n > 0 {
        lemma_capability_items_same(a, b, n - 1, x);
        lemma_cap_source_items_same(a, b, n - 1, a.scopes@[n - 1].outputs as int, x);
    }
}

proof fn lemma_cap_source_items_same<TO: Timestamp, SO: PathSummary<TO>, TI: Timestamp, SI: PathSummary<TI>>(
    a: Subgraph<TO, SO, TI, SI>,
    b: Subgraph<TO, SO, TI, SI>,
    c: int,
    n: int,
    x: Target,
)
    requires
        a.source_summaries == b.source_summaries,
        a.subscope_state@.len() == b.subscope_state@.len(),
        forall|d: int| 0 <= d < a.subscope_state@.len() ==> #[trigger] a.subscope_state@[d].capabilities == b.subscope_state@[d].capabilities,
        0 <= c < a.subscope_state@.len(),
    ensures
        a.cap_source_items(c, n, x) == b.cap_source_items(c, n, x),
    decreases n,
{
    if n > 0 {
        lemma_cap_source_items_same(a, b, c, n - 1, x);
        assert(a.subscope_state@[c].capabilities == b.subscope_state@[c].capabilities);
        assert(a.capability_list(c, n - 1) == b.capability_list(c, n - 1));
    }
}

/// The changes from the inputs depend on the rows of the inputs alone.
pub proof fn lemma_external_items_same<TO: Timestamp, SO: PathSummary<TO>, TI: Timestamp, SI: PathSummary<TI>>(
    a: Subgraph<TO, SO, TI, SI>,
    b: Subgraph<TO, SO, TI, SI>,
    frontier: Seq<Vec<(TO, i64)>>,
    n: int,
    x: Target,
)
    requires
        a.input_summaries == b.input_summaries,
    ensures
        a.external_items(frontier, n, x) == b.external_items(frontier, n, x),
    decreases n,
{
    if n > 0 {
        lemma_external_items_same(a, b, frontier, n - 1, x);
    }
}

/// Negating the changes before pushing them through a row negates what arrives.
pub proof fn lemma_pushed_items_negated<T: Timestamp, U: PathSummary<T>>(
    entries: Seq<(T, i64)>,
    table: Seq<(Target, Antichain<U>)>,
    x: Target,
)
    ensures
        pushed_items(negated_seq(entries), table, x) == negated_seq(pushed_items(entries, table, x)),
    decreases entries.len(),
{
    if entries.len() > 0 {
        lemma_pushed_items_negated(entries.drop_last(), table, x);
        assert(negated_seq(entries).drop_last() =~= negated_seq(entries.drop_last()));
        let e = entries.last();
        assert(negated_seq(entries).last() == (e.0, negated_count(e.1)));
        assert(row_items((e.0, negated_count(e.1)), table, x) =~= negated_seq(row_items(e, table, x)));
        assert(negated_seq(pushed_items(entries.drop_last(), table, x) + row_items(e, table, x)) =~= negated_seq(
            pushed_items(entries.drop_last(), table, x),
        ) + negated_seq(row_items(e, table, x)));
    }
}

/// Negating the changes at the inputs negates what arrives at each target.
pub proof fn lemma_external_items_negated<TO: Timestamp, SO: PathSummary<TO>, TI: Timestamp, SI: PathSummary<TI>>(
    a: Subgraph<TO, SO, TI, SI>,
    frontier: Seq<Vec<(TO, i64)>>,
    negated: Seq<Vec<(TO, i64)>>,
    n: int,
    x: Target,
)
    requires
        negated.len() == frontier.len(),
        n <= frontier.len(),
        forall|i: int| 0 <= i < frontier.len() ==> (#[trigger] negated[i])@ == negated_seq(frontier[i]@),
    ensures
        a.external_items(negated, n, x) == negated_seq(a.external_items(frontier, n, x)),
    decreases n,
{
    if n > 0 {
        lemma_external_items_negated(a, frontier, negated, n - 1, x);
        let f = frontier[n - 1]@;
        assert(lifted::<TO, TI>(negated[n - 1]@) =~= negated_seq(lifted::<TO, TI>(f)));
        lemma_pushed_items_negated(lifted::<TO, TI>(f), a.input_summaries@[n - 1]@, x);
        assert(negated_seq(a.external_items(frontier, n - 1, x) + pushed_items(lifted::<TO, TI>(f), a.input_summaries@[n - 1]@, x))
            =~= negated_seq(a.external_items(frontier, n - 1, x)) + negated_seq(
            pushed_items(lifted::<TO, TI>(f), a.input_summaries@[n - 1]@, x),
        ));
    }
}

/// Pushing changes to the input frontiers and then the same changes negated leaves the
/// guarantee count of a notified child's input where it was: starting from count `g`, the
/// count that `push_external_progress` promises after the first call, and from there after
/// the second, is `g` again. Both calls use the same rows, which `push_external_progress`
/// leaves unchanged. Left out: counts that would saturate at the bounds of `i64`, and
/// changes of `i64::MIN`, whose negation does not fit.
pub proof fn lemma_push_round_trip<TO: Timestamp, SO: PathSummary<TO>, TI: Timestamp, SI: PathSummary<TI>>(
    a: Subgraph<TO, SO, TI, SI>,
    frontier: Seq<Vec<(TO, i64)>>,
    negated: Seq<Vec<(TO, i64)>>,
    g: int,
    c: usize,
    p: usize,
    t: Product<TO, TI>,
)
    requires
        frontier.len() == a.inputs,
        negated.len() == a.inputs,
        forall|i: int| 0 <= i < frontier.len() ==> (#[trigger] negated[i])@ == negated_seq(frontier[i]@),
        forall|k: int|
            0 <= k < a.external_items(frontier, a.inputs as int, Target::ScopeInput(c, p)).len() ==> (#[trigger] a.external_items(
                frontier,
                a.inputs as int,
                Target::ScopeInput(c, p),
            )[k]).1 != i64::MIN,
        (if g >= 0 { g } else { -g }) + 2 * magnitude(a.external_items(frontier, a.inputs as int, Target::ScopeInput(c, p)))
            <= i64::MAX,
    ensures
        crate::count_map::clamped(
            crate::count_map::clamped(
                g + count_after(0, a.external_items(frontier, a.inputs as int, Target::ScopeInput(c, p)), t),
            ) + count_after(0, a.external_items(negated, a.inputs as int, Target::ScopeInput(c, p)), t),
        ) == g,
{
    let x = Target::ScopeInput(c, p);
    let items = a.external_items(frontier, a.inputs as int, x);
    lemma_external_items_negated(a, frontier, negated, a.inputs as int, x);
    lemma_magnitude_nonnegative(items);
    lemma_count_after_sum(0, items, t);
    lemma_negated_sums(items, t);
    lemma_count_after_sum(0, negated_seq(items), t);
}

/// Whether `t` is input `p` of child `c`.
pub open spec fn names_input(t: Target, c: int, p: int) -> bool {
    match t {
        Target::ScopeInput(g, q) => g == c && q == p,
        Target::GraphOutput(_) => false,
    }
}

/// Whether `a` and `b` agree on the topology and the reachability tables.
pub open spec fn same_structure<TO, SO, TI, SI>(a: Subgraph<TO, SO, TI, SI>, b: Subgraph<TO, SO, TI, SI>) -> bool {
    &&& a.name == b.name
    &&& a.index == b.index
    &&& a.default_time == b.default_time
    &&& a.default_summary == b.default_summary
    &&& a.inputs == b.inputs
    &&& a.outputs == b.outputs
    &&& a.sealed == b.sealed
    &&& a.scopes == b.scopes
    &&& a.scope_edges == b.scope_edges
    &&& a.input_edges == b.input_edges
    &&& a.external_summaries == b.external_summaries
    &&& a.source_summaries == b.source_summaries
    &&& a.target_summaries == b.target_summaries
    &&& a.input_summaries == b.input_summaries
    &&& a.subscope_state@.len() == b.subscope_state@.len()
}

/// How many passes over all rows the reachability computation makes at most.
pub const SATURATION_ROUNDS: usize = 1000000;

} // verus!
