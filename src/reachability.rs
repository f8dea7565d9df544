//! Static reachability: the least summaries from each location to each target.
use vstd::prelude::*;

use crate::antichain::{dominated, Antichain};
use crate::order::{PartialOrder, PathSummary, Product, Timestamp};
use crate::pointstamps::{Source, Target};
use crate::subgraph::{table_wf, Subgraph};
use crate::summary::Summary;

verus! {

/// Whether table `v` has a row for `t`.
pub open spec fn has_row<U>(v: Seq<(Target, Antichain<U>)>, t: Target) -> bool {
    exists|a: int| 0 <= a < v.len() && (#[trigger] v[a]).0 == t
}

/// The antichain of the row of `v` for `t`.
pub open spec fn row_of<U: PartialOrder>(v: Seq<(Target, Antichain<U>)>, t: Target) -> Seq<U> {
    v[choose|a: int| 0 <= a < v.len() && (#[trigger] v[a]).0 == t].1@
}

pub proof fn lemma_row_at<U: PartialOrder>(v: Seq<(Target, Antichain<U>)>, a: int)
    requires
        table_wf(v),
        0 <= a < v.len(),
    ensures
        has_row(v, v[a].0),
        row_of(v, v[a].0) == v[a].1@,
{
    let t = v[a].0;
    assert(v[a].0 == t);
    let b = choose|b: int| 0 <= b < v.len() && (#[trigger] v[b]).0 == t;
    assert(b == a);
}

/// Whether `row` has a row for `t` whose antichain holds some summary at or below `v`.
pub open spec fn covers<U: PartialOrder>(row: Seq<(Target, Antichain<U>)>, t: Target, v: U) -> bool {
    has_row(row, t) && dominated(row_of(row, t), v)
}

/// After `try_to_add_summary(before, target, summary)` returned `r` and left `after`, the row
/// for `target` covers `summary`, and everything `before` covered is still covered.
pub proof fn lemma_try_add_covers<U: PartialOrder>(
    before: Seq<(Target, Antichain<U>)>,
    after: Seq<(Target, Antichain<U>)>,
    target: Target,
    summary: U,
    r: bool,
)
    requires
        has_row(after, target),
        forall|t: Target| #[trigger] has_row(after, t) <==> (t == target || has_row(before, t)),
        forall|t: Target| t != target && has_row(before, t) ==> #[trigger] row_of(after, t) == row_of(before, t),
        !has_row(before, target) ==> r && row_of(after, target) == seq![summary],
        has_row(before, target) ==> r == !dominated(row_of(before, target), summary),
        !r ==> after == before,
        has_row(before, target) && r ==> row_of(after, target).contains(summary) && forall|y: U|
            #[trigger] row_of(after, target).contains(y) <==> (y == summary || (row_of(before, target).contains(y)
                && !summary.le(y))),
    ensures
        covers(after, target, summary),
        forall|t: Target, v: U| #[trigger] covers(before, t, v) ==> covers(after, t, v),
{
    U::le_reflexive(summary);
    if !has_row(before, target) {
        assert(row_of(after, target)[0] == summary);
    } else if r {
        let k = choose|k: int| 0 <= k < row_of(after, target).len() && row_of(after, target)[k] == summary;
        assert(row_of(after, target)[k].le(summary));
    }
    assert forall|t: Target, v: U| #[trigger] covers(before, t, v) implies covers(after, t, v) by {
        if t == target && r {
            crate::antichain::lemma_insert_keeps_dominated(row_of(before, t), row_of(after, t), summary, true, v);
        }
    }
}

/// Whether `a` and `b` agree on what the reachability tables are computed from.
pub open spec fn same_shape<TO, SO, TI, SI>(a: Subgraph<TO, SO, TI, SI>, b: Subgraph<TO, SO, TI, SI>) -> bool {
    &&& a.default_summary == b.default_summary
    &&& a.inputs == b.inputs
    &&& a.outputs == b.outputs
    &&& a.sealed == b.sealed
    &&& a.scopes == b.scopes
    &&& a.scope_edges == b.scope_edges
    &&& a.input_edges == b.input_edges
    &&& a.external_summaries == b.external_summaries
    &&& a.subscope_state@.len() == b.subscope_state@.len()
    &&& forall|c: int| 0 <= c < a.subscope_state@.len() ==> #[trigger] a.subscope_state@[c].summary == b.subscope_state@[c].summary
}

/// Whether `a` and `b` have the same rows for the sources and inputs of `a`.
pub open spec fn same_tables<TO: Timestamp, SO: PathSummary<TO>, TI: Timestamp, SI: PathSummary<TI>>(
    a: Subgraph<TO, SO, TI, SI>,
    b: Subgraph<TO, SO, TI, SI>,
) -> bool {
    forall|s: Source| a.valid_source(s) ==> #[trigger] a.table_row(s) == b.table_row(s)
}

/// Two scopes with the same rows and otherwise the same state extend paths alike.
pub proof fn lemma_same_tables_extends<TO: Timestamp, SO: PathSummary<TO>, TI: Timestamp, SI: PathSummary<TI>>(
    a: Subgraph<TO, SO, TI, SI>,
    b: Subgraph<TO, SO, TI, SI>,
    target: Target,
    next: Target,
    v: Summary<SO, SI>,
)
    requires
        a.wf(),
        a.is_sealed(),
        same_shape(a, b),
        same_tables(a, b),
        a.valid_target(target),
    ensures
        a.extends(target, next, v) == b.extends(target, next, v),
{
    if b.extends(target, next, v) {
        let (s, first, x, e) = choose|s: Source, first: Summary<SO, SI>, x: int, e: int|
            #![trigger b.leads_to(target, s, first), b.table_row(s)[x].1@[e]]
            b.leads_to(target, s, first) && 0 <= x < b.table_row(s).len() && 0 <= e < b.table_row(s)[x].1@.len()
                && next == b.table_row(s)[x].0 && v == first.spec_followed_by(b.table_row(s)[x].1@[e]);
        assert(a.leads_to(target, s, first));
        assert(a.valid_source(s));
        assert(a.table_row(s) == b.table_row(s));
        assert(a.table_row(s)[x].1@[e] == b.table_row(s)[x].1@[e]);
    }
    if a.extends(target, next, v) {
        let (s, first, x, e) = choose|s: Source, first: Summary<SO, SI>, x: int, e: int|
            #![trigger a.leads_to(target, s, first), a.table_row(s)[x].1@[e]]
            a.leads_to(target, s, first) && 0 <= x < a.table_row(s).len() && 0 <= e < a.table_row(s)[x].1@.len()
                && next == a.table_row(s)[x].0 && v == first.spec_followed_by(a.table_row(s)[x].1@[e]);
        assert(b.leads_to(target, s, first));
        assert(a.valid_source(s));
        assert(a.table_row(s) == b.table_row(s));
        assert(b.table_row(s)[x].1@[e] == a.table_row(s)[x].1@[e]);
    }
}

/// The seeding of `source` carries over to a scope with the same row and edges.
pub proof fn lemma_seeded_same<TO: Timestamp, SO: PathSummary<TO>, TI: Timestamp, SI: PathSummary<TI>>(
    a: Subgraph<TO, SO, TI, SI>,
    b: Subgraph<TO, SO, TI, SI>,
    source: Source,
)
    requires
        same_shape(a, b),
        a.table_row(source) == b.table_row(source),
        a.seeded_at(source),
    ensures
        b.seeded_at(source),
{
    assert(a.edge_targets(source) == b.edge_targets(source));
    assert forall|k: int|
        0 <= k < b.edge_targets(source).len() && b.reported_target(#[trigger] b.edge_targets(source)[k]) implies covers(
        b.table_row(source),
        b.edge_targets(source)[k],
        b.default_summary,
    ) by {
        assert(a.reported_target(a.edge_targets(source)[k]));
    }
}

/// The targets of the edges from a valid source are valid.
pub proof fn lemma_edge_targets_valid<TO: Timestamp, SO: PathSummary<TO>, TI: Timestamp, SI: PathSummary<TI>>(
    a: Subgraph<TO, SO, TI, SI>,
    source: Source,
)
    requires
        a.wf(),
        a.valid_source(source),
    ensures
        a.targets_valid(a.edge_targets(source)),
{
    match source {
        Source::GraphInput(i) => {
            assert(a.targets_valid(a.input_edges@[i as int]@));
        },
        Source::ScopeOutput(c, o) => {
            assert(a.targets_valid(a.scope_edges@[c as int]@[o as int]@));
        },
    }
}

/// The row of a valid source is a valid table.
pub proof fn lemma_row_valid<TO: Timestamp, SO: PathSummary<TO>, TI: Timestamp, SI: PathSummary<TI>>(
    a: Subgraph<TO, SO, TI, SI>,
    source: Source,
)
    requires
        a.wf(),
        a.is_sealed(),
        a.valid_source(source),
    ensures
        a.table_valid(a.table_row(source)),
{
    match source {
        Source::GraphInput(i) => {
            assert(a.table_valid(a.input_summaries@[i as int]@));
        },
        Source::ScopeOutput(c, o) => {
            assert(a.table_valid(a.source_summaries@[c as int]@[o as int]@));
        },
    }
}

/// Paths depend on the edges, the children and the external summaries alone.
pub proof fn lemma_path_within_same<TO: Timestamp, SO: PathSummary<TO>, TI: Timestamp, SI: PathSummary<TI>>(
    a: Subgraph<TO, SO, TI, SI>,
    b: Subgraph<TO, SO, TI, SI>,
    source: Source,
    x: Target,
    v: Summary<SO, SI>,
    n: nat,
)
    requires
        same_shape(a, b),
        a.wf(),
        a.is_sealed(),
        a.valid_source(source),
    ensures
        a.path_within(source, x, v, n) == b.path_within(source, x, v, n),
    decreases n,
{
    assert(a.edge_targets(source) == b.edge_targets(source));
    assert(a.inputs == b.inputs && a.scopes == b.scopes);
    if n > 0 {
        if a.path_within(source, x, v, n) && !(exists|k: int|
            0 <= k < a.edge_targets(source).len() && #[trigger] a.edge_targets(source)[k] == x
                && a.reported_target(x) && v == a.default_summary) {
            assert(exists|k: int, s2: Source, first: Summary<SO, SI>, u: Summary<SO, SI>|
                #![trigger a.leads_to(a.edge_targets(source)[k], s2, first), <Summary<SO, SI> as PathSummary<Product<TO, TI>>>::spec_followed_by(first, u)]
                0 <= k < a.edge_targets(source).len() && a.reported_target(a.edge_targets(source)[k])
                    && a.leads_to(a.edge_targets(source)[k], s2, first) && a.valid_source(s2) && v
                    == <Summary<SO, SI> as PathSummary<Product<TO, TI>>>::spec_followed_by(first, u) && a.path_within(s2, x, u, (n - 1) as nat));
            let (k, s2, first, u) = choose|k: int, s2: Source, first: Summary<SO, SI>, u: Summary<SO, SI>|
                #![trigger a.leads_to(a.edge_targets(source)[k], s2, first), <Summary<SO, SI> as PathSummary<Product<TO, TI>>>::spec_followed_by(first, u)]
                0 <= k < a.edge_targets(source).len() && a.reported_target(a.edge_targets(source)[k])
                    && a.leads_to(a.edge_targets(source)[k], s2, first) && a.valid_source(s2) && v
                    == <Summary<SO, SI> as PathSummary<Product<TO, TI>>>::spec_followed_by(first, u) && a.path_within(s2, x, u, (n - 1) as nat);
            lemma_path_within_same(a, b, s2, x, u, (n - 1) as nat);
            lemma_edge_targets_valid(a, source);
            assert(a.valid_target(a.edge_targets(source)[k]));
            if let Target::ScopeInput(g, _) = a.edge_targets(source)[k] {
                assert(a.subscope_state@[g as int].summary == b.subscope_state@[g as int].summary);
            }
            assert(b.leads_to(b.edge_targets(source)[k], s2, first));
        }
        if b.path_within(source, x, v, n) && !(exists|k: int|
            0 <= k < b.edge_targets(source).len() && #[trigger] b.edge_targets(source)[k] == x
                && b.reported_target(x) && v == b.default_summary) {
            assert(exists|k: int, s2: Source, first: Summary<SO, SI>, u: Summary<SO, SI>|
                #![trigger b.leads_to(b.edge_targets(source)[k], s2, first), <Summary<SO, SI> as PathSummary<Product<TO, TI>>>::spec_followed_by(first, u)]
                0 <= k < b.edge_targets(source).len() && b.reported_target(b.edge_targets(source)[k])
                    && b.leads_to(b.edge_targets(source)[k], s2, first) && b.valid_source(s2) && v
                    == <Summary<SO, SI> as PathSummary<Product<TO, TI>>>::spec_followed_by(first, u) && b.path_within(s2, x, u, (n - 1) as nat));
            let (k, s2, first, u) = choose|k: int, s2: Source, first: Summary<SO, SI>, u: Summary<SO, SI>|
                #![trigger b.leads_to(b.edge_targets(source)[k], s2, first), <Summary<SO, SI> as PathSummary<Product<TO, TI>>>::spec_followed_by(first, u)]
                0 <= k < b.edge_targets(source).len() && b.reported_target(b.edge_targets(source)[k])
                    && b.leads_to(b.edge_targets(source)[k], s2, first) && b.valid_source(s2) && v
                    == <Summary<SO, SI> as PathSummary<Product<TO, TI>>>::spec_followed_by(first, u) && b.path_within(s2, x, u, (n - 1) as nat);
            lemma_path_within_same(a, b, s2, x, u, (n - 1) as nat);
            lemma_edge_targets_valid(a, source);
            assert(a.valid_target(a.edge_targets(source)[k]));
            if let Target::ScopeInput(g, _) = a.edge_targets(source)[k] {
                assert(a.subscope_state@[g as int].summary == b.subscope_state@[g as int].summary);
            }
            assert(a.leads_to(a.edge_targets(source)[k], s2, first));
        }
    }
}

/// Path summaries depend on the edges, the children and the external summaries alone.
pub proof fn lemma_path_summary_same<TO: Timestamp, SO: PathSummary<TO>, TI: Timestamp, SI: PathSummary<TI>>(
    a: Subgraph<TO, SO, TI, SI>,
    b: Subgraph<TO, SO, TI, SI>,
    source: Source,
    x: Target,
    v: Summary<SO, SI>,
)
    requires
        same_shape(a, b),
        a.wf(),
        a.is_sealed(),
        a.valid_source(source),
    ensures
        a.is_path_summary(source, x, v) == b.is_path_summary(source, x, v),
{
    if a.is_path_summary(source, x, v) {
        let n = choose|n: nat| #[trigger] a.path_within(source, x, v, n);
        lemma_path_within_same(a, b, source, x, v, n);
    }
    if b.is_path_summary(source, x, v) {
        let n = choose|n: nat| #[trigger] b.path_within(source, x, v, n);
        lemma_path_within_same(a, b, source, x, v, n);
    }
}

/// Closure of the first `n` edges of `source` carries over to a scope with the same rows.
pub proof fn lemma_same_tables_closed<TO: Timestamp, SO: PathSummary<TO>, TI: Timestamp, SI: PathSummary<TI>>(
    a: Subgraph<TO, SO, TI, SI>,
    b: Subgraph<TO, SO, TI, SI>,
    source: Source,
    n: int,
)
    requires
        a.wf(),
        a.is_sealed(),
        same_shape(a, b),
        same_tables(a, b),
        a.valid_source(source),
        n <= a.edge_targets(source).len(),
        a.closed_upto(source, n),
    ensures
        b.closed_upto(source, n),
{
    assert(a.table_row(source) == b.table_row(source));
    assert(a.edge_targets(source) == b.edge_targets(source));
    assert(a.targets_valid(a.edge_targets(source)));
    assert forall|k: int, next: Target, v: Summary<SO, SI>|
        0 <= k < n && b.reported_target(b.edge_targets(source)[k]) && #[trigger] b.extends(b.edge_targets(source)[k], next, v) implies covers(
        b.table_row(source),
        next,
        v,
    ) by {
        assert(a.valid_target(a.edge_targets(source)[k]));
        lemma_same_tables_extends(a, b, a.edge_targets(source)[k], next, v);
    }
}

/// What the tables promise carries over to a scope with the same tables and the same
/// inputs to them.
pub proof fn lemma_tables_carry<TO: Timestamp, SO: PathSummary<TO>, TI: Timestamp, SI: PathSummary<TI>>(
    a: Subgraph<TO, SO, TI, SI>,
    b: Subgraph<TO, SO, TI, SI>,
)
    requires
        a.wf(),
        a.is_sealed(),
        same_shape(a, b),
        a.source_summaries == b.source_summaries,
        a.input_summaries == b.input_summaries,
        a.target_summaries == b.target_summaries,
    ensures
        a.rows_sound() ==> b.rows_sound(),
        a.seeded_tables() ==> b.seeded_tables(),
        a.tables_closed() ==> b.tables_closed(),
        forall|c: usize, p: usize|
            c < a.scopes@.len() && p < a.scopes@[c as int].inputs && #[trigger] a.child_row_exact(c, p) ==> b.child_row_exact(c, p),
{
    assert(same_tables(a, b));
    if a.rows_sound() {
        assert forall|s: Source| b.valid_source(s) implies #[trigger] b.row_sound(b, s) by {
            assert(a.row_sound(a, s));
            assert(a.table_row(s) == b.table_row(s));
            assert forall|x: Target, v: Summary<SO, SI>|
                has_row(b.table_row(s), x) && #[trigger] row_of(b.table_row(s), x).contains(v) implies b.is_path_summary(s, x, v) by {
                lemma_path_summary_same(a, b, s, x, v);
            }
        }
    }
    assert forall|s: Source| a.valid_source(s) && a.seeded_at(s) implies #[trigger] b.seeded_at(s) by {
        lemma_seeded_same(a, b, s);
    }
    assert forall|s: Source| a.valid_source(s) && a.closed_at(s) implies #[trigger] b.closed_at(s) by {
        lemma_same_tables_closed(a, b, s, a.edge_targets(s).len() as int);
    }
    assert forall|c: usize, p: usize|
        c < a.scopes@.len() && p < a.scopes@[c as int].inputs && #[trigger] a.child_row_exact(c, p) implies b.child_row_exact(c, p) by {
        let t = Target::ScopeInput(c, p);
        let row = a.target_summaries@[c as int]@[p as int]@;
        assert(a.valid_target(t));
        assert forall|next: Target, v: Summary<SO, SI>| #[trigger] b.extends(t, next, v) implies covers(row, next, v) by {
            lemma_same_tables_extends(a, b, t, next, v);
        }
        assert forall|next: Target, v: Summary<SO, SI>|
            has_row(row, next) && #[trigger] row_of(row, next).contains(v) implies b.extends(t, next, v) by {
            lemma_same_tables_extends(a, b, t, next, v);
        }
    }
}

/// Adds `summary` to the antichain of the row for `target`, or adds a row holding it alone.
/// Returns whether the table changed.
pub fn try_to_add_summary<U: PartialOrder>(vector: &mut Vec<(Target, Antichain<U>)>, target: Target, summary: U) -> (r: bool)
    requires
        table_wf(old(vector)@),
    ensures
        table_wf(final(vector)@),
        has_row(final(vector)@, target),
        forall|t: Target| #[trigger] has_row(final(vector)@, t) <==> (t == target || has_row(old(vector)@, t)),
        forall|t: Target|
            t != target && has_row(old(vector)@, t) ==> #[trigger] row_of(final(vector)@, t) == row_of(old(vector)@, t),
        !has_row(old(vector)@, target) ==> r && row_of(final(vector)@, target) == seq![summary]
            && final(vector)@.len() == old(vector)@.len() + 1 && final(vector)@.drop_last() == old(vector)@
            && final(vector)@.last().0 == target,
        has_row(old(vector)@, target) ==> final(vector)@.len() == old(vector)@.len(),
        has_row(old(vector)@, target) ==> r == !dominated(row_of(old(vector)@, target), summary),
        !r ==> final(vector)@ == old(vector)@,
        has_row(old(vector)@, target) && r ==> row_of(final(vector)@, target).contains(summary)
            && forall|y: U|
            #[trigger] row_of(final(vector)@, target).contains(y) <==> (y == summary || (row_of(
                old(vector)@,
                target,
            ).contains(y) && !summary.le(y))),
{
    let n = vector.len();
    let mut i: usize = 0;
    while i < n
        invariant
            n == vector.len(),
            vector@ == old(vector)@,
            table_wf(vector@),
            0 <= i <= n,
            forall|k: int| 0 <= k < i ==> (#[trigger] vector@[k]).0 != target,
        decreases n - i,
    {
        if vector[i].0 == target {
            proof {
                lemma_row_at(vector@, i as int);
            }
            let r = vector[i].1.insert(summary);
            proof {
                let v = vector@;
                let w = old(vector)@;
                if !r {
                    assert(v =~= w);
                }
                assert forall|a: int, b: int|
                    0 <= a < v.len() && 0 <= b < v.len() && a != b implies (#[trigger] v[a]).0 != (#[trigger] v[b]).0 by {
                    assert(w[a].0 == v[a].0 && w[b].0 == v[b].0);
                }
                assert forall|a: int| 0 <= a < v.len() implies (#[trigger] v[a]).1.wf() by {
                    if a != i {
                        assert(v[a] == w[a]);
                    }
                }
                lemma_row_at(v, i as int);
                assert forall|t: Target| #[trigger] has_row(v, t) <==> (t == target || has_row(w, t)) by {
                    if has_row(w, t) {
                        let a = choose|a: int| 0 <= a < w.len() && (#[trigger] w[a]).0 == t;
                        assert(v[a].0 == t);
                    }
                    if has_row(v, t) {
                        let a = choose|a: int| 0 <= a < v.len() && (#[trigger] v[a]).0 == t;
                        assert(w[a].0 == t);
                    }
                }
                assert forall|t: Target| t != target && has_row(w, t) implies #[trigger] row_of(v, t) == row_of(w, t) by {
                    let a = choose|a: int| 0 <= a < w.len() && (#[trigger] w[a]).0 == t;
                    lemma_row_at(w, a);
                    assert(v[a] == w[a]);
                    lemma_row_at(v, a);
                }
            }
            return r;
        }
        i = i + 1;
    }
    let ghost w = vector@;
    vector.push((target, Antichain::from_elem(summary)));
    proof {
        let v = vector@;
        assert forall|a: int, b: int|
            0 <= a < v.len() && 0 <= b < v.len() && a != b implies (#[trigger] v[a]).0 != (#[trigger] v[b]).0 by {
            if a < n && b < n {
                assert(w[a] == v[a] && w[b] == v[b]);
            } else if a < n {
                assert(w[a] == v[a]);
            } else {
                assert(w[b] == v[b]);
            }
        }
        assert forall|a: int| 0 <= a < v.len() implies (#[trigger] v[a]).1.wf() by {
            if a < n {
                assert(v[a] == w[a]);
            }
        }
        lemma_row_at(v, n as int);
        assert(v.drop_last() =~= w);
        assert(!has_row(w, target));
        assert forall|t: Target| #[trigger] has_row(v, t) <==> (t == target || has_row(w, t)) by {
            if has_row(w, t) {
                let a = choose|a: int| 0 <= a < w.len() && (#[trigger] w[a]).0 == t;
                assert(v[a].0 == t);
            }
            if has_row(v, t) {
                let a = choose|a: int| 0 <= a < v.len() && (#[trigger] v[a]).0 == t;
                if a < n {
                    assert(w[a].0 == t);
                }
            }
        }
        assert forall|t: Target| t != target && has_row(w, t) implies #[trigger] row_of(v, t) == row_of(w, t) by {
            let a = choose|a: int| 0 <= a < w.len() && (#[trigger] w[a]).0 == t;
            lemma_row_at(w, a);
            assert(v[a] == w[a]);
            lemma_row_at(v, a);
        }
    }
    true
}

} // verus!

verus! {

/// Whether `a` and `b` agree on everything but the reachability tables.
pub open spec fn same_but_tables<TO, SO, TI, SI>(a: Subgraph<TO, SO, TI, SI>, b: Subgraph<TO, SO, TI, SI>) -> bool {
    &&& a.name == b.name
    &&& a.index == b.index
    &&& a.default_time == b.default_time
    &&& a.default_summary == b.default_summary
    &&& a.inputs == b.inputs
    &&& a.outputs == b.outputs
    &&& a.sealed == b.sealed
    &&& a.scopes == b.scopes
    &&& a.scope_edges == b.scope_edges
    &&& a.input_edges == b.input_edges
    &&& a.external_summaries == b.external_summaries
    &&& a.external_capability == b.external_capability
    &&& a.subscope_state == b.subscope_state
    &&& a.pointstamps == b.pointstamps
}

impl<TO: Timestamp, SO: PathSummary<TO>, TI: Timestamp, SI: PathSummary<TI>> Subgraph<TO, SO, TI, SI> {
    /// Whether a path can leave location `source` with summary `u` right after arriving at
    /// `target`: through a child, from input `p` to one of its outputs, or out of this
    /// scope and back in through one of its inputs.
    pub open spec fn leads_to(&self, target: Target, source: Source, u: Summary<SO, SI>) -> bool {
        match (target, source) {
            (Target::GraphOutput(port), Source::GraphInput(i)) => i < self.inputs && match u {
                Summary::Outer(s, j) => j == SI::spec_identity()
                    && self.external_summaries@[port as int]@[i as int]@.contains(s),
                Summary::Local(_) => false,
            },
            (Target::ScopeInput(g, p), Source::ScopeOutput(h, o)) => h == g && o
                < self.scopes@[g as int].outputs
                && self.subscope_state@[g as int].summary@[p as int]@[o as int]@.contains(u),
            _ => false,
        }
    }

    /// The locations, with summaries, at which a path continues after reaching `target`,
    /// through the first `n` inputs of this scope (for an output of it) or the first `n`
    /// outputs of the child (for an input of a child), in that order.
    pub open spec fn sources_list(&self, target: Target, n: int) -> Seq<(Source, Summary<SO, SI>)>
        decreases n,
    {
        if n <= 0 {
            Seq::empty()
        } else {
            self.sources_list(target, n - 1) + match target {
                Target::GraphOutput(port) => self.external_summaries@[port as int]@[n - 1]@.map_values(
                    |s: SO| (Source::GraphInput((n - 1) as usize), Summary::<SO, SI>::Outer(s, SI::spec_identity())),
                ),
                Target::ScopeInput(g, p) => self.subscope_state@[g as int].summary@[p as int]@[n - 1]@.map_values(
                    |u: Summary<SO, SI>| (Source::ScopeOutput(g, (n - 1) as usize), u),
                ),
            }
        }
    }

    /// How many inputs (for an output of this scope) or child outputs (for a child's input)
    /// `target_to_sources` walks.
    pub open spec fn sources_span(&self, target: Target) -> int {
        match target {
            Target::GraphOutput(_) => self.inputs as int,
            Target::ScopeInput(g, _) => self.scopes@[g as int].outputs as int,
        }
    }

    /// The locations, with summaries, at which a path continues after reaching `target`.
    pub fn target_to_sources(&self, target: Target) -> (r: Vec<(Source, Summary<SO, SI>)>)
        requires
            self.wf(),
            self.is_sealed(),
            self.valid_target(target),
        ensures
            forall|k: int| 0 <= k < r@.len() ==> self.valid_source((#[trigger] r@[k]).0),
            forall|k: int| 0 <= k < r@.len() ==> self.leads_to(target, (#[trigger] r@[k]).0, r@[k].1),
            forall|s: Source, u: Summary<SO, SI>| #[trigger] self.leads_to(target, s, u) ==> r@.contains((s, u)),
            r@ == self.sources_list(target, self.sources_span(target)),
    {
        let mut result: Vec<(Source, Summary<SO, SI>)> = Vec::new();
        match target {
            Target::GraphOutput(port) => {
                let n = self.inputs;
                let mut i: usize = 0;
                while i < n
                    invariant
                        n == self.inputs,
                        0 <= i <= n,
                        (port as int) < self.outputs,
                        target == Target::GraphOutput(port),
                        result@ == self.sources_list(target, i as int),
                        self.wf(),
                        self.is_sealed(),
                        forall|k: int| 0 <= k < result@.len() ==> self.valid_source((#[trigger] result@[k]).0),
                        forall|k: int| 0 <= k < result@.len() ==> self.leads_to(target, (#[trigger] result@[k]).0, result@[k].1),
                        forall|j: int, s: SO|
                            0 <= j < i && #[trigger] self.external_summaries@[port as int]@[j]@.contains(s)
                                ==> result@.contains((Source::GraphInput(j as usize), Summary::<SO, SI>::Outer(s, SI::spec_identity()))),
                    decreases n - i,
                {
                    let elems = self.external_summaries[port][i].elements();
                    let m = elems.len();
                    let mut e: usize = 0;
                    while e < m
                        invariant
                            n == self.inputs,
                            0 <= i < n,
                            0 <= e <= m,
                            m == elems@.len(),
                            elems@ == self.external_summaries@[port as int]@[i as int]@,
                            (port as int) < self.outputs,
                            target == Target::GraphOutput(port),
                            result@ == self.sources_list(target, i as int) + elems@.take(e as int).map_values(
                                |s: SO| (Source::GraphInput(i), Summary::<SO, SI>::Outer(s, SI::spec_identity())),
                            ),
                            self.wf(),
                            self.is_sealed(),
                            forall|k: int| 0 <= k < result@.len() ==> self.valid_source((#[trigger] result@[k]).0),
                            forall|k: int| 0 <= k < result@.len() ==> self.leads_to(target, (#[trigger] result@[k]).0, result@[k].1),
                            forall|j: int, s: SO|
                                0 <= j < i && #[trigger] self.external_summaries@[port as int]@[j]@.contains(s)
                                    ==> result@.contains((Source::GraphInput(j as usize), Summary::<SO, SI>::Outer(s, SI::spec_identity()))),
                            forall|x: int| #![trigger elems@[x]]
                                0 <= x < e ==> result@.contains((Source::GraphInput(i), Summary::<SO, SI>::Outer(elems@[x], SI::spec_identity()))),
                        decreases m - e,
                    {
                        let s = elems[e];
                        let ghost before = result@;
                        result.push((Source::GraphInput(i), Summary::Outer(s, SI::identity())));
                        proof {
                            assert(elems@.take(e + 1).map_values(|s: SO| (Source::GraphInput(i), Summary::<SO, SI>::Outer(s, SI::spec_identity())))
                                =~= elems@.take(e as int).map_values(|s: SO| (Source::GraphInput(i), Summary::<SO, SI>::Outer(s, SI::spec_identity()))).push(
                                (Source::GraphInput(i), Summary::<SO, SI>::Outer(s, SI::spec_identity()))));
                            assert(self.external_summaries@[port as int]@[i as int]@.contains(s)) by {
                                assert(elems@[e as int] == s);
                            }
                            assert forall|k: int| 0 <= k < result@.len() implies self.leads_to(target, (#[trigger] result@[k]).0, result@[k].1) by {
                                if k < before.len() {
                                    assert(result@[k] == before[k]);
                                } else {
                                    assert(result@[k] == (Source::GraphInput(i), Summary::<SO, SI>::Outer(s, SI::spec_identity())));
                                }
                            }
                            assert forall|j: int, s2: SO|
                                0 <= j < i && #[trigger] self.external_summaries@[port as int]@[j]@.contains(s2)
                                    implies result@.contains((Source::GraphInput(j as usize), Summary::<SO, SI>::Outer(s2, SI::spec_identity()))) by {
                                let w = choose|w: int| 0 <= w < before.len() && before[w] == (Source::GraphInput(j as usize), Summary::<SO, SI>::Outer(s2, SI::spec_identity()));
                                assert(result@[w] == before[w]);
                            }
                            assert forall|x: int| #![trigger elems@[x]]
                                0 <= x < e + 1 implies result@.contains((Source::GraphInput(i), Summary::<SO, SI>::Outer(elems@[x], SI::spec_identity()))) by {
                                if x < e {
                                    let w = choose|w: int| 0 <= w < before.len() && before[w] == (Source::GraphInput(i), Summary::<SO, SI>::Outer(elems@[x], SI::spec_identity()));
                                    assert(result@[w] == before[w]);
                                } else {
                                    assert(result@[before.len() as int] == (Source::GraphInput(i), Summary::<SO, SI>::Outer(elems@[x], SI::spec_identity())));
                                }
                            }
                        }
                        e = e + 1;
                    }
                    proof {
                        assert(elems@.take(elems@.len() as int) =~= elems@);
                        assert(self.sources_list(target, i + 1) == self.sources_list(target, i as int) + elems@.map_values(
                            |s: SO| (Source::GraphInput(i), Summary::<SO, SI>::Outer(s, SI::spec_identity())),
                        ));
                        assert forall|j: int, s: SO|
                            0 <= j < i + 1 && #[trigger] self.external_summaries@[port as int]@[j]@.contains(s)
                                implies result@.contains((Source::GraphInput(j as usize), Summary::<SO, SI>::Outer(s, SI::spec_identity()))) by {
                            if j == i {
                                let x = choose|x: int| 0 <= x < elems@.len() && elems@[x] == s;
                                assert(result@.contains((Source::GraphInput(i), Summary::<SO, SI>::Outer(elems@[x], SI::spec_identity()))));
                            }
                        }
                    }
                    i = i + 1;
                }
                proof {
                    assert forall|s: Source, u: Summary<SO, SI>| #[trigger] self.leads_to(target, s, u) implies result@.contains((s, u)) by {
                        match s {
                            Source::GraphInput(j) => {
                                if let Summary::Outer(s2, _) = u {
                                    assert(self.external_summaries@[port as int]@[j as int]@.contains(s2));
                                }
                            },
                            _ => {},
                        }
                    }
                }
            },
            Target::ScopeInput(g, p) => {
                assert(g < self.scopes@.len() && p < self.scopes@[g as int].inputs);
                let n = self.scopes[g].outputs;
                let mut o: usize = 0;
                while o < n
                    invariant
                        n == self.scopes@[g as int].outputs,
                        g < self.scopes@.len() && p < self.scopes@[g as int].inputs,
                        target == Target::ScopeInput(g, p),
                        result@ == self.sources_list(target, o as int),
                        0 <= o <= n,
                        self.valid_target(target),
                        self.wf(),
                        self.is_sealed(),
                        forall|k: int| 0 <= k < result@.len() ==> self.valid_source((#[trigger] result@[k]).0),
                        forall|k: int| 0 <= k < result@.len() ==> self.leads_to(target, (#[trigger] result@[k]).0, result@[k].1),
                        forall|j: int, u: Summary<SO, SI>|
                            0 <= j < o && #[trigger] self.subscope_state@[g as int].summary@[p as int]@[j]@.contains(u)
                                ==> result@.contains((Source::ScopeOutput(g, j as usize), u)),
                    decreases n - o,
                {
                    proof {
                        assert(self.subscope_state@[g as int].shaped(self.scopes@[g as int].inputs as nat, self.scopes@[g as int].outputs as nat));
                    }
                    let elems = self.subscope_state[g].summary[p][o].elements();
                    let m = elems.len();
                    let mut e: usize = 0;
                    while e < m
                        invariant
                            n == self.scopes@[g as int].outputs,
                            g < self.scopes@.len() && p < self.scopes@[g as int].inputs,
                        target == Target::ScopeInput(g, p),
                            result@ == self.sources_list(target, o as int) + elems@.take(e as int).map_values(
                                |u: Summary<SO, SI>| (Source::ScopeOutput(g, o), u),
                            ),
                            0 <= o < n,
                            0 <= e <= m,
                            m == elems@.len(),
                            elems@ == self.subscope_state@[g as int].summary@[p as int]@[o as int]@,
                            self.valid_target(target),
                            self.wf(),
                            self.is_sealed(),
                            forall|k: int| 0 <= k < result@.len() ==> self.valid_source((#[trigger] result@[k]).0),
                            forall|k: int| 0 <= k < result@.len() ==> self.leads_to(target, (#[trigger] result@[k]).0, result@[k].1),
                            forall|j: int, u: Summary<SO, SI>|
                                0 <= j < o && #[trigger] self.subscope_state@[g as int].summary@[p as int]@[j]@.contains(u)
                                    ==> result@.contains((Source::ScopeOutput(g, j as usize), u)),
                            forall|x: int| #![trigger elems@[x]]
                                0 <= x < e ==> result@.contains((Source::ScopeOutput(g, o), elems@[x])),
                        decreases m - e,
                    {
                        let u = elems[e];
                        let ghost before = result@;
                        result.push((Source::ScopeOutput(g, o), u));
                        proof {
                            assert(elems@.take(e + 1).map_values(|u: Summary<SO, SI>| (Source::ScopeOutput(g, o), u))
                                =~= elems@.take(e as int).map_values(|u: Summary<SO, SI>| (Source::ScopeOutput(g, o), u)).push(
                                (Source::ScopeOutput(g, o), u)));
                            assert(self.subscope_state@[g as int].summary@[p as int]@[o as int]@.contains(u)) by {
                                assert(elems@[e as int] == u);
                            }
                            assert forall|k: int| 0 <= k < result@.len() implies self.leads_to(target, (#[trigger] result@[k]).0, result@[k].1) by {
                                if k < before.len() {
                                    assert(result@[k] == before[k]);
                                } else {
                                    assert(result@[k] == (Source::ScopeOutput(g, o), u));
                                }
                            }
                            assert forall|j: int, u2: Summary<SO, SI>|
                                0 <= j < o && #[trigger] self.subscope_state@[g as int].summary@[p as int]@[j]@.contains(u2)
                                    implies result@.contains((Source::ScopeOutput(g, j as usize), u2)) by {
                                let w = choose|w: int| 0 <= w < before.len() && before[w] == (Source::ScopeOutput(g, j as usize), u2);
                                assert(result@[w] == before[w]);
                            }
                            assert forall|x: int| #![trigger elems@[x]]
                                0 <= x < e + 1 implies result@.contains((Source::ScopeOutput(g, o), elems@[x])) by {
                                if x < e {
                                    let w = choose|w: int| 0 <= w < before.len() && before[w] == (Source::ScopeOutput(g, o), elems@[x]);
                                    assert(result@[w] == before[w]);
                                } else {
                                    assert(result@[before.len() as int] == (Source::ScopeOutput(g, o), elems@[x]));
                                }
                            }
                        }
                        e = e + 1;
                    }
                    proof {
                        assert(elems@.take(elems@.len() as int) =~= elems@);
                        assert(self.sources_list(target, o + 1) == self.sources_list(target, o as int) + elems@.map_values(
                            |u: Summary<SO, SI>| (Source::ScopeOutput(g, o), u),
                        ));
                        assert forall|j: int, u: Summary<SO, SI>|
                            0 <= j < o + 1 && #[trigger] self.subscope_state@[g as int].summary@[p as int]@[j]@.contains(u)
                                implies result@.contains((Source::ScopeOutput(g, j as usize), u)) by {
                            if j == o {
                                let x = choose|x: int| 0 <= x < elems@.len() && elems@[x] == u;
                                assert(result@.contains((Source::ScopeOutput(g, o), elems@[x])));
                            }
                        }
                    }
                    o = o + 1;
                }
            },
        }
        result
    }

    /// The row of the reachability table for `source`.
    pub open spec fn table_row(&self, source: Source) -> Seq<(Target, Antichain<Summary<SO, SI>>)> {
        match source {
            Source::GraphInput(i) => self.input_summaries@[i as int]@,
            Source::ScopeOutput(c, o) => self.source_summaries@[c as int]@[o as int]@,
        }
    }

    /// Whether some path of at most `n + 1` hops leaves `source` and reaches `x` with summary
    /// `v`. A hop follows a declared edge to a target that wants to hear of progress; the
    /// last hop ends there with the default summary, and any other hop continues, through a
    /// child or out of the scope and back in, from a location that the target leads to.
    pub open spec fn path_within(&self, source: Source, x: Target, v: Summary<SO, SI>, n: nat) -> bool
        decreases n,
    {
        ||| (exists|k: int|
            0 <= k < self.edge_targets(source).len() && #[trigger] self.edge_targets(source)[k] == x
                && self.reported_target(x) && v == self.default_summary)
        ||| (n > 0 && exists|k: int, s2: Source, first: Summary<SO, SI>, u: Summary<SO, SI>|
            #![trigger self.leads_to(self.edge_targets(source)[k], s2, first), <Summary<SO, SI> as PathSummary<Product<TO, TI>>>::spec_followed_by(first, u)]
            0 <= k < self.edge_targets(source).len() && self.reported_target(self.edge_targets(source)[k])
                && self.leads_to(self.edge_targets(source)[k], s2, first) && self.valid_source(s2) && v
                == <Summary<SO, SI> as PathSummary<Product<TO, TI>>>::spec_followed_by(first, u) && self.path_within(s2, x, u, (n - 1) as nat))
    }

    /// Whether `v` is the summary of a path from `source` to `x`.
    pub open spec fn is_path_summary(&self, source: Source, x: Target, v: Summary<SO, SI>) -> bool {
        exists|n: nat| #[trigger] self.path_within(source, x, v, n)
    }

    /// Whether every summary in the row of `source` is the summary of a path, as `shape`
    /// defines paths.
    pub open spec fn row_sound(&self, shape: Subgraph<TO, SO, TI, SI>, source: Source) -> bool {
        forall|x: Target, v: Summary<SO, SI>|
            has_row(self.table_row(source), x) && #[trigger] row_of(self.table_row(source), x).contains(v)
                ==> shape.is_path_summary(source, x, v)
    }

    /// Whether every summary in every row is the summary of a path, as `shape` defines paths.
    pub open spec fn sound_wrt(&self, shape: Subgraph<TO, SO, TI, SI>) -> bool {
        forall|s: Source| self.valid_source(s) ==> #[trigger] self.row_sound(shape, s)
    }

    /// Whether every summary in the rows of the sources and inputs is the summary of a path.
    pub open spec fn rows_sound(&self) -> bool {
        forall|s: Source| self.valid_source(s) ==> #[trigger] self.row_sound(*self, s)
    }

    /// Whether a path that arrives at `target` can continue to `next` with summary `v`:
    /// through a location that `target` leads to, and then along a row already in the tables.
    pub open spec fn extends(&self, target: Target, next: Target, v: Summary<SO, SI>) -> bool {
        exists|s: Source, first: Summary<SO, SI>, a: int, e: int|
            #![trigger self.leads_to(target, s, first), self.table_row(s)[a].1@[e]]
            self.leads_to(target, s, first) && 0 <= a < self.table_row(s).len() && 0 <= e
                < self.table_row(s)[a].1@.len() && next == self.table_row(s)[a].0 && v
                == first.spec_followed_by(self.table_row(s)[a].1@[e])
    }

    /// Whether each path that leaves `source` along one of its edges to a target that wants
    /// to hear of progress, and then continues along a row of the tables, is already covered
    /// by the row of `source`. Children that do not ask to be notified are not passed through.
    pub open spec fn closed_at(&self, source: Source) -> bool {
        self.closed_upto(source, self.edge_targets(source).len() as int)
    }

    /// Whether the first `n` edges of `source` are closed in the sense of `closed_at`.
    pub open spec fn closed_upto(&self, source: Source, n: int) -> bool {
        forall|k: int, next: Target, v: Summary<SO, SI>|
            0 <= k < n && self.reported_target(self.edge_targets(source)[k]) && #[trigger] self.extends(
                self.edge_targets(source)[k],
                next,
                v,
            ) ==> covers(self.table_row(source), next, v)
    }

    /// Whether every row covers its edges with the default summary.
    pub open spec fn seeded_tables(&self) -> bool {
        forall|s: Source| self.valid_source(s) ==> #[trigger] self.seeded_at(s)
    }

    /// Whether the row for input `p` of child `c` holds exactly the extensions of paths
    /// that arrive there: it covers each of them, and each of its summaries is one.
    pub open spec fn child_row_exact(&self, c: usize, p: usize) -> bool {
        self.row_exact(self.target_summaries@[c as int]@[p as int]@, c, p)
    }

    /// Whether `row` covers each extension of a path arriving at input `p` of child `c`, and
    /// each of its summaries is one.
    pub open spec fn row_exact(&self, row: Seq<(Target, Antichain<Summary<SO, SI>>)>, c: usize, p: usize) -> bool {
        &&& forall|next: Target, v: Summary<SO, SI>|
            #[trigger] self.extends(Target::ScopeInput(c, p), next, v) ==> covers(row, next, v)
        &&& forall|next: Target, v: Summary<SO, SI>|
            has_row(row, next) && #[trigger] row_of(row, next).contains(v) ==> self.extends(
                Target::ScopeInput(c, p),
                next,
                v,
            )
    }

    /// Whether the row of `source` covers each edge from it to a target that wants to hear
    /// of progress, with the default summary.
    pub open spec fn seeded_at(&self, source: Source) -> bool {
        forall|k: int|
            0 <= k < self.edge_targets(source).len() && self.reported_target(#[trigger] self.edge_targets(source)[k])
                ==> covers(self.table_row(source), self.edge_targets(source)[k], self.default_summary)
    }

    /// Whether the tables are a fixed point of the step that extends them: extending any
    /// row along any edge adds nothing.
    pub open spec fn tables_closed(&self) -> bool {
        forall|s: Source| self.valid_source(s) ==> #[trigger] self.closed_at(s)
    }

    /// The targets, with summaries, reachable by first arriving at `target` and then
    /// continuing along the rows already in the tables.
    pub fn candidates(&self, target: Target) -> (r: Vec<(Target, Summary<SO, SI>)>)
        requires
            self.wf(),
            self.is_sealed(),
            self.valid_target(target),
        ensures
            forall|k: int| 0 <= k < r@.len() ==> self.reported_target((#[trigger] r@[k]).0),
            forall|next: Target, v: Summary<SO, SI>| #[trigger] self.extends(target, next, v) ==> r@.contains((next, v)),
            forall|k: int| 0 <= k < r@.len() ==> #[trigger] self.extends(target, r@[k].0, r@[k].1),
    {
        let sources = self.target_to_sources(target);
        let mut out: Vec<(Target, Summary<SO, SI>)> = Vec::new();
        let n = sources.len();
        let mut k: usize = 0;
        while k < n
            invariant
                n == sources@.len(),
                0 <= k <= n,
                self.wf(),
                self.is_sealed(),
                forall|x: int| 0 <= x < n ==> self.valid_source((#[trigger] sources@[x]).0),
                forall|x: int| 0 <= x < out@.len() ==> self.reported_target((#[trigger] out@[x]).0),
                forall|x: int| 0 <= x < out@.len() ==> #[trigger] self.extends(target, out@[x].0, out@[x].1),
                forall|x: int| 0 <= x < n ==> #[trigger] self.leads_to(target, sources@[x].0, sources@[x].1),
                forall|x: int, a: int, e: int|
                    0 <= x < k && 0 <= a < self.table_row(sources@[x].0).len() && 0 <= e
                        < self.table_row(sources@[x].0)[a].1@.len() ==> out@.contains(
                        (
                            self.table_row(sources@[x].0)[a].0,
                            sources@[x].1.spec_followed_by(#[trigger] self.table_row(sources@[x].0)[a].1@[e]),
                        ),
                    ),
            decreases n - k,
        {
            let (source, first) = sources[k];
            assert(self.leads_to(target, sources@[k as int].0, sources@[k as int].1));
            let ghost out_before_row = out@;
            let row = match source {
                Source::GraphInput(i) => &self.input_summaries[i],
                Source::ScopeOutput(c, o) => &self.source_summaries[c][o],
            };
            assert(row@ == self.table_row(source));
            assert(self.table_valid(row@));
            let m = row.len();
            let mut a: usize = 0;
            while a < m
                invariant
                    m == row@.len(),
                    0 <= a <= m,
                    self.wf(),
                    self.is_sealed(),
                    self.table_valid(row@),
                    forall|x: int| 0 <= x < out@.len() ==> self.reported_target((#[trigger] out@[x]).0),
                    forall|x: int| 0 <= x < out@.len() ==> #[trigger] self.extends(target, out@[x].0, out@[x].1),
                    forall|x: int| 0 <= x < n ==> #[trigger] self.leads_to(target, sources@[x].0, sources@[x].1),
                    0 <= k < n,
                    sources@[k as int] == (source, first),
                    row@ == self.table_row(source),
                    forall|y: int| 0 <= y < out_before_row.len() ==> out@[y] == #[trigger] out_before_row[y],
                    out_before_row.len() <= out@.len(),
                    forall|b: int, e: int|
                        0 <= b < a && 0 <= e < row@[b].1@.len() ==> out@.contains(
                            (row@[b].0, first.spec_followed_by(#[trigger] row@[b].1@[e])),
                        ),
                decreases m - a,
            {
                let next = row[a].0;
                let ghost out_before = out@;
                assert(self.leads_to(target, sources@[k as int].0, sources@[k as int].1));
                assert(self.reported_target(row@[a as int].0));
                let elems = row[a].1.elements();
                let q = elems.len();
                let mut e: usize = 0;
                while e < q
                    invariant
                        q == elems@.len(),
                        0 <= e <= q,
                        0 <= a < m,
                        m == row@.len(),
                        elems@ == row@[a as int].1@,
                        next == row@[a as int].0,
                        self.reported_target(next),
                        forall|x: int| 0 <= x < out@.len() ==> self.reported_target((#[trigger] out@[x]).0),
                        forall|x: int| 0 <= x < out@.len() ==> #[trigger] self.extends(target, out@[x].0, out@[x].1),
                        self.leads_to(target, source, first),
                        self.table_row(source) == row@,
                        forall|y: int| 0 <= y < out_before.len() ==> out@[y] == #[trigger] out_before[y],
                        out_before.len() <= out@.len(),
                        forall|f: int| 0 <= f < e ==> out@.contains((next, first.spec_followed_by(#[trigger] elems@[f]))),
                    decreases q - e,
                {
                    let ghost before = out@;
                    out.push((next, first.followed_by(&elems[e])));
                    proof {
                        assert forall|x: int| 0 <= x < out@.len() implies self.reported_target((#[trigger] out@[x]).0) by {
                            if x < before.len() {
                                assert(out@[x] == before[x]);
                            }
                        }
                        assert forall|x: int| 0 <= x < out@.len() implies #[trigger] self.extends(target, out@[x].0, out@[x].1) by {
                            if x < before.len() {
                                assert(out@[x] == before[x]);
                            } else {
                                assert(self.table_row(source)[a as int].1@[e as int] == elems@[e as int]);
                                assert(self.leads_to(target, source, first));
                            }
                        }
                        assert forall|f: int| 0 <= f < e + 1 implies out@.contains((next, first.spec_followed_by(#[trigger] elems@[f]))) by {
                            if f < e {
                                let w = choose|w: int| 0 <= w < before.len() && before[w] == (next, first.spec_followed_by(elems@[f]));
                                assert(out@[w] == before[w]);
                            } else {
                                assert(out@[before.len() as int] == (next, first.spec_followed_by(elems@[f])));
                            }
                        }
                    }
                    e = e + 1;
                }
                proof {
                    assert forall|b: int, f: int|
                        0 <= b < a + 1 && 0 <= f < row@[b].1@.len() implies out@.contains(
                            (row@[b].0, first.spec_followed_by(#[trigger] row@[b].1@[f])),
                        ) by {
                        if b < a {
                            let w = choose|w: int| 0 <= w < out_before.len() && out_before[w] == (row@[b].0, first.spec_followed_by(row@[b].1@[f]));
                            assert(out@[w] == out_before[w]);
                        } else {
                            assert(elems@[f] == row@[b].1@[f]);
                        }
                    }
                }
                a = a + 1;
            }
            proof {
                assert forall|x: int, b: int, f: int|
                    0 <= x < k + 1 && 0 <= b < self.table_row(sources@[x].0).len() && 0 <= f
                        < self.table_row(sources@[x].0)[b].1@.len() implies out@.contains(
                        (
                            self.table_row(sources@[x].0)[b].0,
                            sources@[x].1.spec_followed_by(#[trigger] self.table_row(sources@[x].0)[b].1@[f]),
                        ),
                    ) by {
                    if x < k {
                        let w = choose|w: int| 0 <= w < out_before_row.len() && out_before_row[w] == (
                            self.table_row(sources@[x].0)[b].0,
                            sources@[x].1.spec_followed_by(self.table_row(sources@[x].0)[b].1@[f]),
                        );
                        assert(out@[w] == out_before_row[w]);
                    } else {
                        assert(row@[b].1@[f] == self.table_row(sources@[x].0)[b].1@[f]);
                    }
                }
            }
            k = k + 1;
        }
        proof {
            assert forall|next: Target, v: Summary<SO, SI>| #[trigger] self.extends(target, next, v) implies out@.contains((next, v)) by {
                let (s, first, a, e) = choose|s: Source, first: Summary<SO, SI>, a: int, e: int|
                    #![trigger self.leads_to(target, s, first), self.table_row(s)[a].1@[e]]
                    self.leads_to(target, s, first) && 0 <= a < self.table_row(s).len() && 0 <= e
                        < self.table_row(s)[a].1@.len() && next == self.table_row(s)[a].0 && v
                        == first.spec_followed_by(self.table_row(s)[a].1@[e]);
                assert(sources@.contains((s, first)));
                let x = choose|x: int| 0 <= x < sources@.len() && sources@[x] == (s, first);
                assert(self.table_row(sources@[x].0)[a].1@[e] == self.table_row(s)[a].1@[e]);
            }
        }
        out
    }

    /// Adds `u` to the summaries from `source` to `target`; returns whether the table grew.
    fn add_to_table(&mut self, source: Source, target: Target, u: Summary<SO, SI>) -> (r: bool)
        requires
            old(self).wf(),
            old(self).is_sealed(),
            old(self).valid_source(source),
            old(self).reported_target(target),
        ensures
            final(self).wf(),
            same_but_tables(*old(self), *final(self)),
            final(self).target_summaries == old(self).target_summaries,
            covers(final(self).table_row(source), target, u),
            !r ==> same_tables(*old(self), *final(self)),
            forall|s2: Source| old(self).valid_source(s2) && s2 != source ==> #[trigger] final(self).table_row(s2)
                == old(self).table_row(s2),
            forall|t2: Target, v: Summary<SO, SI>|
                #[trigger] covers(old(self).table_row(source), t2, v) ==> covers(final(self).table_row(source), t2, v),
            forall|t2: Target, v: Summary<SO, SI>|
                has_row(final(self).table_row(source), t2) && #[trigger] row_of(final(self).table_row(source), t2).contains(v)
                    ==> (t2 == target && v == u) || (has_row(old(self).table_row(source), t2) && row_of(
                    old(self).table_row(source),
                    t2,
                ).contains(v)),
    {
        let ghost before = *self;
        let r = match source {
            Source::GraphInput(i) => try_to_add_summary(&mut self.input_summaries[i], target, u),
            Source::ScopeOutput(c, o) => try_to_add_summary(&mut self.source_summaries[c][o], target, u),
        };
        proof {
            assert(same_but_tables(before, *self));
            lemma_try_add_covers(before.table_row(source), self.table_row(source), target, u, r);
            assert forall|t2: Target, v: Summary<SO, SI>|
                has_row(self.table_row(source), t2) && #[trigger] row_of(self.table_row(source), t2).contains(v)
                    implies (t2 == target && v == u) || (has_row(before.table_row(source), t2) && row_of(
                    before.table_row(source),
                    t2,
                ).contains(v)) by {
                if t2 == target && !has_row(before.table_row(source), t2) {
                    assert(row_of(self.table_row(source), t2) == seq![u]);
                    assert(row_of(self.table_row(source), t2)[0] == u);
                } else if t2 != target {
                    assert(has_row(before.table_row(source), t2));
                }
            }
            assert forall|s2: Source| before.valid_source(s2) && s2 != source implies #[trigger] self.table_row(s2)
                == before.table_row(s2) by {
                match (s2, source) {
                    (Source::GraphInput(i2), Source::GraphInput(i)) => {
                        assert(self.input_summaries@[i2 as int] == before.input_summaries@[i2 as int]);
                    },
                    (Source::ScopeOutput(c2, o2), Source::ScopeOutput(c, o)) => {
                        if c2 != c {
                            assert(self.source_summaries@[c2 as int] == before.source_summaries@[c2 as int]);
                        } else {
                            assert(self.source_summaries@[c2 as int]@[o2 as int] == before.source_summaries@[c2 as int]@[o2 as int]);
                        }
                    },
                    _ => {},
                }
            }
            let v = self.table_row(source);
            assert forall|a: int| 0 <= a < v.len() implies self.reported_target((#[trigger] v[a]).0) by {
                assert(has_row(v, v[a].0));
                if v[a].0 != target {
                    let w = before.table_row(source);
                    let b = choose|b: int| 0 <= b < w.len() && (#[trigger] w[b]).0 == v[a].0;
                    assert(before.table_valid(w));
                    assert(before.reported_target(w[b].0));
                }
            }
            match source {
                Source::GraphInput(i) => {
                    assert forall|x: int| 0 <= x < self.inputs implies self.table_valid(
                        (#[trigger] self.input_summaries@[x])@,
                    ) by {
                        if x != i {
                            assert(self.input_summaries@[x] == before.input_summaries@[x]);
                        }
                    }
                    if !r {
                        assert forall|s2: Source| before.valid_source(s2) implies #[trigger] before.table_row(s2) == self.table_row(s2) by {
                            if let Source::GraphInput(i2) = s2 {
                                if i2 != i {
                                    assert(self.input_summaries@[i2 as int] == before.input_summaries@[i2 as int]);
                                }
                            }
                        }
                    }
                },
                Source::ScopeOutput(c, o) => {
                    assert forall|d: int| #![trigger self.source_summaries@[d]]
                        0 <= d < self.scopes@.len() implies self.source_summaries@[d]@.len() == self.scopes@[d].outputs by {
                        if d != c {
                            assert(self.source_summaries@[d] == before.source_summaries@[d]);
                        }
                    }
                    assert forall|d: int, p: int|
                        0 <= d < self.scopes@.len() && 0 <= p < self.scopes@[d].outputs implies self.table_valid(
                        (#[trigger] self.source_summaries@[d]@[p])@,
                    ) by {
                        if d != c || p != o {
                            assert(self.source_summaries@[d]@[p] == before.source_summaries@[d]@[p]);
                        }
                    }
                    if !r {
                        assert forall|s2: Source| before.valid_source(s2) implies #[trigger] before.table_row(s2) == self.table_row(s2) by {
                            if let Source::ScopeOutput(c2, o2) = s2 {
                                if c2 != c {
                                    assert(self.source_summaries@[c2 as int] == before.source_summaries@[c2 as int]);
                                } else if o2 != o {
                                    assert(self.source_summaries@[c2 as int]@[o2 as int] == before.source_summaries@[c2 as int]@[o2 as int]);
                                }
                            }
                        }
                    }
                },
            }
        }
        r
    }

    /// The rows reached by single edges to `targets`, each with the default summary; inputs
    /// of children that do not ask to be notified are left out.
    fn seed_row(&self, targets: &Vec<Target>) -> (r: Vec<(Target, Antichain<Summary<SO, SI>>)>)
        requires
            self.targets_valid(targets@),
        ensures
            self.table_valid(r@),
            forall|k: int|
                0 <= k < targets@.len() && self.reported_target(#[trigger] targets@[k]) ==> covers(
                    r@,
                    targets@[k],
                    self.default_summary,
                ),
            forall|x: Target, v: Summary<SO, SI>|
                has_row(r@, x) && #[trigger] row_of(r@, x).contains(v) ==> v == self.default_summary
                    && self.reported_target(x) && exists|k: int| 0 <= k < targets@.len() && #[trigger] targets@[k] == x,
    {
        let mut row: Vec<(Target, Antichain<Summary<SO, SI>>)> = Vec::new();
        let n = targets.len();
        let mut k: usize = 0;
        while k < n
            invariant
                n == targets@.len(),
                0 <= k <= n,
                self.targets_valid(targets@),
                self.table_valid(row@),
                forall|j: int|
                    0 <= j < k && self.reported_target(#[trigger] targets@[j]) ==> covers(
                        row@,
                        targets@[j],
                        self.default_summary,
                    ),
                forall|x: Target, v: Summary<SO, SI>|
                    has_row(row@, x) && #[trigger] row_of(row@, x).contains(v) ==> v == self.default_summary
                        && self.reported_target(x) && exists|j: int| 0 <= j < targets@.len() && #[trigger] targets@[j] == x,
            decreases n - k,
        {
            let target = targets[k];
            assert(self.valid_target(targets@[k as int]));
            let wanted = match target {
                Target::ScopeInput(c, _) => self.scopes[c].notify,
                Target::GraphOutput(_) => true,
            };
            if wanted {
                let ghost before = row@;
                let added = try_to_add_summary(&mut row, target, self.default_summary);
                proof {
                    lemma_try_add_covers(before, row@, target, self.default_summary, added);
                    assert(self.reported_target(targets@[k as int]));
                    assert forall|x: Target, v: Summary<SO, SI>|
                        has_row(row@, x) && #[trigger] row_of(row@, x).contains(v) implies v == self.default_summary
                            && self.reported_target(x) && exists|j: int| 0 <= j < targets@.len() && #[trigger] targets@[j] == x by {
                        if x == target {
                            assert(targets@[k as int] == x);
                            if !has_row(before, x) {
                                assert(row_of(row@, x)[0] == self.default_summary);
                            } else if !added {
                                assert(row_of(before, x).contains(v));
                            } else if v != self.default_summary {
                                assert(row_of(before, x).contains(v));
                            }
                        } else {
                            assert(has_row(before, x));
                            assert(row_of(before, x).contains(v));
                        }
                    }
                    assert forall|a: int| 0 <= a < row@.len() implies self.reported_target((#[trigger] row@[a]).0) by {
                        assert(has_row(row@, row@[a].0));
                        if row@[a].0 != target {
                            let b = choose|b: int| 0 <= b < before.len() && (#[trigger] before[b]).0 == row@[a].0;
                            assert(self.reported_target(before[b].0));
                        }
                    }
                }
            }
            k = k + 1;
        }
        row
    }

    /// Extends the row of `source` with what its edges lead to; returns whether it grew.
    /// When it did not, the row already covered every extension along its edges.
    fn saturate_from(&mut self, source: Source, shape: Ghost<Subgraph<TO, SO, TI, SI>>) -> (changed: bool)
        requires
            old(self).wf(),
            old(self).is_sealed(),
            old(self).valid_source(source),
            same_shape(shape@, *old(self)),
            shape@.wf(),
            shape@.is_sealed(),
            old(self).sound_wrt(shape@),
        ensures
            final(self).sound_wrt(shape@),
            final(self).wf(),
            same_but_tables(*old(self), *final(self)),
            final(self).target_summaries == old(self).target_summaries,
            !changed ==> same_tables(*old(self), *final(self)),
            !changed ==> final(self).closed_at(source),
            forall|s2: Source| old(self).valid_source(s2) && old(self).seeded_at(s2) ==> #[trigger] final(self).seeded_at(s2),
    {
        let mut changed = false;
        let n = match source {
            Source::GraphInput(i) => self.input_edges[i].len(),
            Source::ScopeOutput(c, o) => self.scope_edges[c][o].len(),
        };
        assert(self.targets_valid(self.edge_targets(source)));
        let mut k: usize = 0;
        while k < n
            invariant
                n == self.edge_targets(source).len(),
                0 <= k <= n,
                self.wf(),
                self.is_sealed(),
                self.valid_source(source),
                self.targets_valid(self.edge_targets(source)),
                same_but_tables(*old(self), *self),
                self.target_summaries == old(self).target_summaries,
                !changed ==> same_tables(*old(self), *self),
                !changed ==> self.closed_upto(source, k as int),
                forall|s2: Source| old(self).valid_source(s2) && old(self).seeded_at(s2) ==> #[trigger] self.seeded_at(s2),
                same_shape(shape@, *self),
                self.sound_wrt(shape@),
            decreases n - k,
        {
            let target = match source {
                Source::GraphInput(i) => self.input_edges[i][k],
                Source::ScopeOutput(c, o) => self.scope_edges[c][o][k],
            };
            assert(self.valid_target(self.edge_targets(source)[k as int]));
            let wanted = match target {
                Target::ScopeInput(c, _) => self.scopes[c].notify,
                Target::GraphOutput(_) => true,
            };
            if !wanted {
                proof {
                    assert(!self.reported_target(target));
                }
                k = k + 1;
                continue;
            }
            let cands = self.candidates(target);
            let ghost at_start = *self;
            proof {
                assert forall|x: int| 0 <= x < cands@.len() implies shape@.is_path_summary(
                    source,
                    (#[trigger] cands@[x]).0,
                    cands@[x].1,
                ) by {
                    let nx = cands@[x].0;
                    let v = cands@[x].1;
                    assert(self.extends(target, nx, v));
                    let (s2, first, a2, e2) = choose|s2: Source, first: Summary<SO, SI>, a2: int, e2: int|
                        #![trigger self.leads_to(target, s2, first), self.table_row(s2)[a2].1@[e2]]
                        self.leads_to(target, s2, first) && 0 <= a2 < self.table_row(s2).len() && 0 <= e2
                            < self.table_row(s2)[a2].1@.len() && nx == self.table_row(s2)[a2].0 && v
                            == first.spec_followed_by(self.table_row(s2)[a2].1@[e2]);
                    assert(self.valid_target(target));
                    assert(self.valid_source(s2));
                    lemma_row_valid(*self, s2);
                    let row = self.table_row(s2);
                    lemma_row_at(row, a2);
                    let u = row[a2].1@[e2];
                    assert(row_of(row, nx).contains(u));
                    assert(self.row_sound(shape@, s2));
                    assert(shape@.is_path_summary(s2, nx, u));
                    let n0 = choose|n0: nat| #[trigger] shape@.path_within(s2, nx, u, n0);
                    assert(shape@.edge_targets(source) == self.edge_targets(source));
                    if let Target::ScopeInput(g, _) = target {
                        assert(shape@.subscope_state@[g as int].summary == self.subscope_state@[g as int].summary);
                    }
                    assert(shape@.leads_to(shape@.edge_targets(source)[k as int], s2, first));
                    assert(shape@.valid_source(s2));
                    assert(v == <Summary<SO, SI> as PathSummary<Product<TO, TI>>>::spec_followed_by(first, u));
                    assert(shape@.path_within(source, nx, v, n0 + 1));
                }
            }
            let m = cands.len();
            let mut a: usize = 0;
            while a < m
                invariant
                    m == cands@.len(),
                    0 <= a <= m,
                    n == self.edge_targets(source).len(),
                    0 <= k < n,
                    target == self.edge_targets(source)[k as int],
                    self.wf(),
                    self.is_sealed(),
                    self.valid_source(source),
                    self.targets_valid(self.edge_targets(source)),
                    same_but_tables(*old(self), *self),
                    same_but_tables(at_start, *self),
                    at_start.wf(),
                    at_start.is_sealed(),
                    self.target_summaries == old(self).target_summaries,
                    forall|x: int| 0 <= x < m ==> self.reported_target((#[trigger] cands@[x]).0),
                    forall|next: Target, v: Summary<SO, SI>| #[trigger] at_start.extends(target, next, v) ==> cands@.contains((next, v)),
                    !changed ==> same_tables(*old(self), *self),
                    !changed ==> same_tables(at_start, *self),
                    !changed ==> at_start.closed_upto(source, k as int),
                    same_shape(shape@, *self),
                    self.sound_wrt(shape@),
                    forall|x: int| 0 <= x < m ==> shape@.is_path_summary(source, (#[trigger] cands@[x]).0, cands@[x].1),
                    !changed ==> forall|x: int| 0 <= x < a ==> covers(self.table_row(source), (#[trigger] cands@[x]).0, cands@[x].1),
                    forall|s2: Source| old(self).valid_source(s2) && old(self).seeded_at(s2) ==> #[trigger] self.seeded_at(s2),
                decreases m - a,
            {
                let (next, u) = cands[a];
                assert(self.reported_target(cands@[a as int].0));
                let ghost before = *self;
                proof {
                    assert(shape@.is_path_summary(source, cands@[a as int].0, cands@[a as int].1));
                }
                if self.add_to_table(source, next, u) {
                    changed = true;
                } else {
                    proof {
                        assert(before.table_row(source) == self.table_row(source));
                    }
                }
                proof {
                    assert forall|s2: Source| self.valid_source(s2) implies #[trigger] self.row_sound(shape@, s2) by {
                        assert(before.row_sound(shape@, s2));
                        if s2 != source {
                            assert(self.table_row(s2) == before.table_row(s2));
                        } else {
                            assert forall|x: Target, v: Summary<SO, SI>|
                                has_row(self.table_row(s2), x) && #[trigger] row_of(self.table_row(s2), x).contains(v)
                                    implies shape@.is_path_summary(s2, x, v) by {
                                if !(x == next && v == u) {
                                    assert(row_of(before.table_row(s2), x).contains(v));
                                }
                            }
                        }
                    }
                    assert forall|s2: Source| old(self).valid_source(s2) && old(self).seeded_at(s2) implies #[trigger] self.seeded_at(s2) by {
                        assert(before.seeded_at(s2));
                        assert(self.edge_targets(s2) == before.edge_targets(s2));
                        if s2 != source {
                            assert(self.table_row(s2) == before.table_row(s2));
                        } else {
                            assert forall|k2: int|
                                0 <= k2 < self.edge_targets(s2).len() && self.reported_target(#[trigger] self.edge_targets(s2)[k2])
                                    implies covers(self.table_row(s2), self.edge_targets(s2)[k2], self.default_summary) by {
                                assert(covers(before.table_row(s2), before.edge_targets(s2)[k2], before.default_summary));
                            }
                        }
                    }
                }
                a = a + 1;
            }
            proof {
                if !changed {
                    lemma_same_tables_closed(at_start, *self, source, k as int);
                    assert forall|k2: int, next: Target, v: Summary<SO, SI>|
                        0 <= k2 < k + 1 && self.reported_target(self.edge_targets(source)[k2]) && #[trigger] self.extends(self.edge_targets(source)[k2], next, v) implies covers(
                        self.table_row(source),
                        next,
                        v,
                    ) by {
                        if k2 == k {
                            assert(self.valid_target(target));
                            assert forall|s2: Source| self.valid_source(s2) implies #[trigger] self.table_row(s2) == at_start.table_row(s2) by {
                                assert(at_start.table_row(s2) == self.table_row(s2));
                            }
                            lemma_same_tables_extends(*self, at_start, target, next, v);
                            assert(cands@.contains((next, v)));
                            let x = choose|x: int| 0 <= x < m && cands@[x] == (next, v);
                            assert(covers(self.table_row(source), cands@[x].0, cands@[x].1));
                        }
                    }
                }
            }
            k = k + 1;
        }
        changed
    }

    /// Recomputes the reachability tables from the edges, the children's summaries and the
    /// external summaries: seeds each row with its edges, extends the rows until no row
    /// grows in a full pass (or `rounds` passes were made), then derives the rows of the
    /// children's inputs. Returns whether the rows stopped growing; if they did, the rows
    /// are a fixed point: extending any of them along any edge adds nothing.
    pub fn set_summaries(&mut self, rounds: usize) -> (saturated: bool)
        requires
            old(self).wf(),
            old(self).is_sealed(),
        ensures
            final(self).wf(),
            final(self).is_sealed(),
            same_but_tables(*old(self), *final(self)),
            saturated ==> final(self).tables_closed(),
            final(self).seeded_tables(),
            final(self).rows_sound(),
            forall|c: usize, p: usize|
                c < final(self).scopes@.len() && p < final(self).scopes@[c as int].inputs && final(self).scopes@[c as int].notify
                    ==> #[trigger] final(self).child_row_exact(c, p),
            forall|c: usize, p: usize|
                c < final(self).scopes@.len() && p < final(self).scopes@[c as int].inputs && !final(self).scopes@[c as int].notify
                    ==> (#[trigger] final(self).target_summaries@[c as int]@[p as int])@.len() == 0,
    {
        let ghost shape = *self;
        let ns = self.scopes.len();
        let mut c: usize = 0;
        while c < ns
            invariant
                ns == self.scopes@.len(),
                0 <= c <= ns,
                self.wf(),
                self.is_sealed(),
                same_but_tables(*old(self), *self),
                forall|d: usize, q: usize|
                    d < c && q < self.scopes@[d as int].outputs ==> #[trigger] self.seeded_at(Source::ScopeOutput(d, q)),
                forall|d: usize, q: usize|
                    d < c && q < self.scopes@[d as int].outputs ==> #[trigger] self.row_sound(shape, Source::ScopeOutput(d, q)),
                same_shape(shape, *self),
                shape.wf(),
                shape.is_sealed(),
            decreases ns - c,
        {
            let no = self.scopes[c].outputs;
            let mut o: usize = 0;
            while o < no
                invariant
                    ns == self.scopes@.len(),
                    0 <= c < ns,
                    no == self.scopes@[c as int].outputs,
                    0 <= o <= no,
                    self.wf(),
                    self.is_sealed(),
                    same_but_tables(*old(self), *self),
                    forall|d: usize, q: usize|
                        (d < c && q < self.scopes@[d as int].outputs) || (d == c && q < o) ==> #[trigger] self.seeded_at(
                            Source::ScopeOutput(d, q),
                        ),
                    forall|d: usize, q: usize|
                        (d < c && q < self.scopes@[d as int].outputs) || (d == c && q < o) ==> #[trigger] self.row_sound(
                            shape,
                            Source::ScopeOutput(d, q),
                        ),
                    same_shape(shape, *self),
                    shape.wf(),
                    shape.is_sealed(),
                decreases no - o,
            {
                assert(self.targets_valid(self.scope_edges@[c as int]@[o as int]@));
                let row = self.seed_row(&self.scope_edges[c][o]);
                let ghost before = *self;
                self.source_summaries[c][o] = row;
                proof {
                    assert forall|d: int| #![trigger self.source_summaries@[d]]
                        0 <= d < self.scopes@.len() implies self.source_summaries@[d]@.len() == self.scopes@[d].outputs by {
                        if d != c {
                            assert(self.source_summaries@[d] == before.source_summaries@[d]);
                        }
                    }
                    assert forall|d: int, p: int|
                        0 <= d < self.scopes@.len() && 0 <= p < self.scopes@[d].outputs implies self.table_valid(
                        (#[trigger] self.source_summaries@[d]@[p])@,
                    ) by {
                        if d != c || p != o {
                            assert(self.source_summaries@[d]@[p] == before.source_summaries@[d]@[p]);
                        }
                    }
                    assert forall|d: usize, q: usize|
                        (d < c && q < self.scopes@[d as int].outputs) || (d == c && q < o + 1) implies #[trigger] self.row_sound(
                            shape,
                            Source::ScopeOutput(d, q),
                        ) by {
                        let s2 = Source::ScopeOutput(d, q);
                        if d == c && q == o {
                            assert forall|x: Target, v: Summary<SO, SI>|
                                has_row(self.table_row(s2), x) && #[trigger] row_of(self.table_row(s2), x).contains(v)
                                    implies shape.is_path_summary(s2, x, v) by {
                                let k = choose|k: int| 0 <= k < self.scope_edges@[c as int]@[o as int]@.len() && #[trigger] self.scope_edges@[c as int]@[o as int]@[k] == x;
                                assert(shape.edge_targets(s2)[k] == x);
                                assert(shape.path_within(s2, x, v, 0));
                            }
                        } else {
                            assert(before.row_sound(shape, s2));
                            if d != c {
                                assert(self.source_summaries@[d as int] == before.source_summaries@[d as int]);
                            }
                            assert(self.source_summaries@[d as int]@[q as int] == before.source_summaries@[d as int]@[q as int]);
                            assert(self.table_row(s2) == before.table_row(s2));
                        }
                    }
                    assert forall|d: usize, q: usize|
                        (d < c && q < self.scopes@[d as int].outputs) || (d == c && q < o + 1) implies #[trigger] self.seeded_at(
                            Source::ScopeOutput(d, q),
                        ) by {
                        if d == c && q == o {
                            assert(self.edge_targets(Source::ScopeOutput(d, q)) == self.scope_edges@[c as int]@[o as int]@);
                        } else {
                            if d != c {
                                assert(self.source_summaries@[d as int] == before.source_summaries@[d as int]);
                            }
                            assert(self.source_summaries@[d as int]@[q as int] == before.source_summaries@[d as int]@[q as int]);
                            lemma_seeded_same(before, *self, Source::ScopeOutput(d, q));
                        }
                    }
                }
                o = o + 1;
            }
            c = c + 1;
        }
        let ni = self.inputs;
        let mut i: usize = 0;
        while i < ni
            invariant
                ni == self.inputs,
                0 <= i <= ni,
                self.wf(),
                self.is_sealed(),
                same_but_tables(*old(self), *self),
                ns == self.scopes@.len(),
                forall|d: usize, q: usize|
                    d < ns && q < self.scopes@[d as int].outputs ==> #[trigger] self.seeded_at(Source::ScopeOutput(d, q)),
                forall|q: usize| q < i ==> #[trigger] self.seeded_at(Source::GraphInput(q)),
                forall|d: usize, q: usize|
                    d < ns && q < self.scopes@[d as int].outputs ==> #[trigger] self.row_sound(shape, Source::ScopeOutput(d, q)),
                forall|q: usize| q < i ==> #[trigger] self.row_sound(shape, Source::GraphInput(q)),
                same_shape(shape, *self),
                shape.wf(),
                shape.is_sealed(),
            decreases ni - i,
        {
            assert(self.targets_valid(self.input_edges@[i as int]@));
            let row = self.seed_row(&self.input_edges[i]);
            let ghost before = *self;
            self.input_summaries[i] = row;
            proof {
                assert forall|x: int| 0 <= x < self.inputs implies self.table_valid(
                    (#[trigger] self.input_summaries@[x])@,
                ) by {
                    if x != i {
                        assert(self.input_summaries@[x] == before.input_summaries@[x]);
                    }
                }
                assert forall|d: usize, q: usize|
                    d < ns && q < self.scopes@[d as int].outputs implies #[trigger] self.seeded_at(Source::ScopeOutput(d, q)) by {
                    lemma_seeded_same(before, *self, Source::ScopeOutput(d, q));
                }
                assert forall|d: usize, q: usize|
                    d < ns && q < self.scopes@[d as int].outputs implies #[trigger] self.row_sound(shape, Source::ScopeOutput(d, q)) by {
                    assert(before.row_sound(shape, Source::ScopeOutput(d, q)));
                    assert(self.table_row(Source::ScopeOutput(d, q)) == before.table_row(Source::ScopeOutput(d, q)));
                }
                assert forall|q: usize| q < i + 1 implies #[trigger] self.row_sound(shape, Source::GraphInput(q)) by {
                    let s2 = Source::GraphInput(q);
                    if q != i {
                        assert(before.row_sound(shape, s2));
                        assert(self.input_summaries@[q as int] == before.input_summaries@[q as int]);
                        assert(self.table_row(s2) == before.table_row(s2));
                    } else {
                        assert forall|x: Target, v: Summary<SO, SI>|
                            has_row(self.table_row(s2), x) && #[trigger] row_of(self.table_row(s2), x).contains(v)
                                implies shape.is_path_summary(s2, x, v) by {
                            let k = choose|k: int| 0 <= k < self.input_edges@[i as int]@.len() && #[trigger] self.input_edges@[i as int]@[k] == x;
                            assert(shape.edge_targets(s2)[k] == x);
                            assert(shape.path_within(s2, x, v, 0));
                        }
                    }
                }
                assert forall|q: usize| q < i + 1 implies #[trigger] self.seeded_at(Source::GraphInput(q)) by {
                    if q != i {
                        assert(self.input_summaries@[q as int] == before.input_summaries@[q as int]);
                        lemma_seeded_same(before, *self, Source::GraphInput(q));
                    } else {
                        assert(self.edge_targets(Source::GraphInput(q)) == self.input_edges@[i as int]@);
                    }
                }
            }
            i = i + 1;
        }
        proof {
            assert forall|s2: Source| self.valid_source(s2) implies #[trigger] self.seeded_at(s2) by {
                match s2 {
                    Source::GraphInput(q) => {},
                    Source::ScopeOutput(d, q) => {},
                }
            }
            assert forall|s2: Source| self.valid_source(s2) implies #[trigger] self.row_sound(shape, s2) by {
                match s2 {
                    Source::GraphInput(q) => {},
                    Source::ScopeOutput(d, q) => {},
                }
            }
        }
        let mut done = false;
        let mut round: usize = 0;
        while !done && round < rounds
            invariant
                0 <= round <= rounds,
                ns == self.scopes@.len(),
                ni == self.inputs,
                self.wf(),
                self.is_sealed(),
                same_but_tables(*old(self), *self),
                self.seeded_tables(),
                self.sound_wrt(shape),
                same_shape(shape, *self),
                shape.wf(),
                shape.is_sealed(),
                done ==> self.tables_closed(),
            decreases rounds - round,
        {
            done = true;
            round = round + 1;
            let mut c: usize = 0;
            while c < ns
                invariant
                    ns == self.scopes@.len(),
                    ni == self.inputs,
                    0 <= c <= ns,
                    self.wf(),
                    self.is_sealed(),
                    same_but_tables(*old(self), *self),
                self.seeded_tables(),
                self.sound_wrt(shape),
                same_shape(shape, *self),
                shape.wf(),
                shape.is_sealed(),
                    done ==> forall|d: int, o: int|
                        0 <= d < c && 0 <= o < self.scopes@[d].outputs ==> #[trigger] self.closed_at(
                            Source::ScopeOutput(d as usize, o as usize),
                        ),
                decreases ns - c,
            {
                let no = self.scopes[c].outputs;
                let mut o: usize = 0;
                while o < no
                    invariant
                        ns == self.scopes@.len(),
                        ni == self.inputs,
                        0 <= c < ns,
                        no == self.scopes@[c as int].outputs,
                        0 <= o <= no,
                        self.wf(),
                        self.is_sealed(),
                        same_but_tables(*old(self), *self),
                self.seeded_tables(),
                self.sound_wrt(shape),
                same_shape(shape, *self),
                shape.wf(),
                shape.is_sealed(),
                        done ==> forall|d: int, q: int|
                            0 <= d < c && 0 <= q < self.scopes@[d].outputs ==> #[trigger] self.closed_at(
                                Source::ScopeOutput(d as usize, q as usize),
                            ),
                        done ==> forall|q: int| 0 <= q < o ==> #[trigger] self.closed_at(Source::ScopeOutput(c, q as usize)),
                    decreases no - o,
                {
                    let ghost before = *self;
                    if self.saturate_from(Source::ScopeOutput(c, o), Ghost(shape)) {
                        done = false;
                    } else if done {
                        proof {
                            assert forall|d: int, q: int|
                                0 <= d < c && 0 <= q < self.scopes@[d].outputs implies #[trigger] self.closed_at(
                                    Source::ScopeOutput(d as usize, q as usize),
                                ) by {
                                let s2 = Source::ScopeOutput(d as usize, q as usize);
                                assert(before.closed_at(s2));
                                lemma_same_tables_closed(before, *self, s2, before.edge_targets(s2).len() as int);
                            }
                            assert forall|q: int| 0 <= q < o + 1 implies #[trigger] self.closed_at(Source::ScopeOutput(c, q as usize)) by {
                                if q < o {
                                    let s2 = Source::ScopeOutput(c, q as usize);
                                    assert(before.closed_at(s2));
                                    lemma_same_tables_closed(before, *self, s2, before.edge_targets(s2).len() as int);
                                }
                            }
                        }
                    }
                    o = o + 1;
                }
                c = c + 1;
            }
            let mut i: usize = 0;
            while i < ni
                invariant
                    ni == self.inputs,
                    ns == self.scopes@.len(),
                    0 <= i <= ni,
                    self.wf(),
                    self.is_sealed(),
                    same_but_tables(*old(self), *self),
                self.seeded_tables(),
                self.sound_wrt(shape),
                same_shape(shape, *self),
                shape.wf(),
                shape.is_sealed(),
                    done ==> forall|d: int, o: int|
                        0 <= d < ns && 0 <= o < self.scopes@[d].outputs ==> #[trigger] self.closed_at(
                            Source::ScopeOutput(d as usize, o as usize),
                        ),
                    done ==> forall|q: int| 0 <= q < i ==> #[trigger] self.closed_at(Source::GraphInput(q as usize)),
                decreases ni - i,
            {
                let ghost before = *self;
                if self.saturate_from(Source::GraphInput(i), Ghost(shape)) {
                    done = false;
                } else if done {
                    proof {
                        assert forall|d: int, q: int|
                            0 <= d < ns && 0 <= q < self.scopes@[d].outputs implies #[trigger] self.closed_at(
                                Source::ScopeOutput(d as usize, q as usize),
                            ) by {
                            let s2 = Source::ScopeOutput(d as usize, q as usize);
                            assert(before.closed_at(s2));
                            lemma_same_tables_closed(before, *self, s2, before.edge_targets(s2).len() as int);
                        }
                        assert forall|q: int| 0 <= q < i + 1 implies #[trigger] self.closed_at(Source::GraphInput(q as usize)) by {
                            if q < i {
                                let s2 = Source::GraphInput(q as usize);
                                assert(before.closed_at(s2));
                                lemma_same_tables_closed(before, *self, s2, before.edge_targets(s2).len() as int);
                            }
                        }
                    }
                }
                i = i + 1;
            }
            proof {
                if done {
                    assert forall|s2: Source| self.valid_source(s2) implies #[trigger] self.closed_at(s2) by {
                        match s2 {
                            Source::GraphInput(q) => {
                                assert(self.closed_at(Source::GraphInput(q as int as usize)));
                            },
                            Source::ScopeOutput(d, q) => {
                                assert(self.closed_at(Source::ScopeOutput(d as int as usize, q as int as usize)));
                            },
                        }
                    }
                }
            }
        }
        let ghost base = *self;
        let mut c: usize = 0;
        while c < ns
            invariant
                ns == self.scopes@.len(),
                0 <= c <= ns,
                self.wf(),
                self.is_sealed(),
                base.wf(),
                base.is_sealed(),
                same_but_tables(*old(self), *self),
                same_but_tables(base, *self),
                same_tables(base, *self),
                done ==> self.tables_closed(),
                self.seeded_tables(),
                self.sound_wrt(shape),
                same_shape(shape, *self),
                shape.wf(),
                shape.is_sealed(),
                forall|d: usize, q: usize|
                    d < c && q < self.scopes@[d as int].inputs ==> if self.scopes@[d as int].notify {
                        base.row_exact(#[trigger] self.target_summaries@[d as int]@[q as int]@, d, q)
                    } else {
                        self.target_summaries@[d as int]@[q as int]@.len() == 0
                    },
            decreases ns - c,
        {
            let nin = self.scopes[c].inputs;
            let notify = self.scopes[c].notify;
            let mut p: usize = 0;
            while p < nin
                invariant
                    ns == self.scopes@.len(),
                    0 <= c < ns,
                    nin == self.scopes@[c as int].inputs,
                    notify == self.scopes@[c as int].notify,
                    0 <= p <= nin,
                    self.wf(),
                    self.is_sealed(),
                    base.wf(),
                    base.is_sealed(),
                    same_but_tables(*old(self), *self),
                    same_but_tables(base, *self),
                    same_tables(base, *self),
                    done ==> self.tables_closed(),
                    self.seeded_tables(),
                    self.sound_wrt(shape),
                    same_shape(shape, *self),
                    shape.wf(),
                    shape.is_sealed(),
                self.sound_wrt(shape),
                same_shape(shape, *self),
                shape.wf(),
                shape.is_sealed(),
                    forall|d: usize, q: usize|
                        (d < c && q < self.scopes@[d as int].inputs) || (d == c && q < p) ==> if self.scopes@[d as int].notify {
                            base.row_exact(#[trigger] self.target_summaries@[d as int]@[q as int]@, d, q)
                        } else {
                            self.target_summaries@[d as int]@[q as int]@.len() == 0
                        },
                decreases nin - p,
            {
                let mut row: Vec<(Target, Antichain<Summary<SO, SI>>)> = Vec::new();
                if notify {
                    let cands = self.candidates(Target::ScopeInput(c, p));
                    let target = Target::ScopeInput(c, p);
                    proof {
                        assert(base.valid_target(target));
                        assert forall|next: Target, v: Summary<SO, SI>| #[trigger] base.extends(target, next, v) implies cands@.contains((next, v)) by {
                            lemma_same_tables_extends(base, *self, target, next, v);
                        }
                        assert forall|x: int| 0 <= x < cands@.len() implies #[trigger] base.extends(target, cands@[x].0, cands@[x].1) by {
                            assert(self.extends(target, cands@[x].0, cands@[x].1));
                            lemma_same_tables_extends(base, *self, target, cands@[x].0, cands@[x].1);
                        }
                    }
                    let m = cands.len();
                    let mut a: usize = 0;
                    while a < m
                        invariant
                            m == cands@.len(),
                            0 <= a <= m,
                            self.table_valid(row@),
                            forall|x: int| 0 <= x < m ==> self.reported_target((#[trigger] cands@[x]).0),
                            forall|x: int| 0 <= x < m ==> #[trigger] base.extends(target, cands@[x].0, cands@[x].1),
                            forall|x: int| 0 <= x < a ==> covers(row@, (#[trigger] cands@[x]).0, cands@[x].1),
                            forall|next: Target, v: Summary<SO, SI>|
                                has_row(row@, next) && #[trigger] row_of(row@, next).contains(v) ==> base.extends(target, next, v),
                        decreases m - a,
                    {
                        let (next, u) = cands[a];
                        let ghost before = row@;
                        let added = try_to_add_summary(&mut row, next, u);
                        proof {
                            assert(self.reported_target(cands@[a as int].0));
                            assert forall|b: int| 0 <= b < row@.len() implies self.reported_target((#[trigger] row@[b]).0) by {
                                assert(has_row(row@, row@[b].0));
                                if row@[b].0 != next {
                                    let w = choose|w: int| 0 <= w < before.len() && (#[trigger] before[w]).0 == row@[b].0;
                                    assert(self.reported_target(before[w].0));
                                }
                            }
                            lemma_try_add_covers(before, row@, next, u, added);
                            assert forall|x: int| 0 <= x < a + 1 implies covers(row@, (#[trigger] cands@[x]).0, cands@[x].1) by {
                                if x < a {
                                    assert(covers(before, cands@[x].0, cands@[x].1));
                                }
                            }
                            assert(base.extends(target, cands@[a as int].0, cands@[a as int].1));
                            assert forall|n2: Target, v: Summary<SO, SI>|
                                has_row(row@, n2) && #[trigger] row_of(row@, n2).contains(v) implies base.extends(target, n2, v) by {
                                if n2 == next {
                                    if has_row(before, next) {
                                        if added {
                                            if v != u {
                                                assert(row_of(before, n2).contains(v));
                                            }
                                        } else {
                                            assert(row_of(before, n2).contains(v));
                                        }
                                    } else {
                                        assert(row_of(row@, n2)[0] == u);
                                    }
                                } else {
                                    assert(has_row(before, n2));
                                    assert(row_of(before, n2).contains(v));
                                }
                            }
                        }
                        a = a + 1;
                    }
                    proof {
                        assert forall|next: Target, v: Summary<SO, SI>| #[trigger] base.extends(target, next, v) implies covers(row@, next, v) by {
                            let x = choose|x: int| 0 <= x < m && cands@[x] == (next, v);
                            assert(covers(row@, cands@[x].0, cands@[x].1));
                        }
                        assert(base.row_exact(row@, c, p));
                    }
                }
                let ghost before = *self;
                self.target_summaries[c][p] = row;
                proof {
                    if done {
                        assert forall|s2: Source| self.valid_source(s2) implies #[trigger] self.closed_at(s2) by {
                            assert(before.closed_at(s2));
                            assert forall|s3: Source| before.valid_source(s3) implies #[trigger] before.table_row(s3) == self.table_row(s3) by {}
                            lemma_same_tables_closed(before, *self, s2, before.edge_targets(s2).len() as int);
                        }
                    }
                    assert forall|s2: Source| self.valid_source(s2) implies #[trigger] self.seeded_at(s2) by {
                        lemma_seeded_same(before, *self, s2);
                    }
                    assert forall|s2: Source| self.valid_source(s2) implies #[trigger] self.row_sound(shape, s2) by {
                        assert(before.row_sound(shape, s2));
                        assert(self.table_row(s2) == before.table_row(s2));
                    }
                    assert forall|d: int| #![trigger self.target_summaries@[d]]
                        0 <= d < self.scopes@.len() implies self.target_summaries@[d]@.len() == self.scopes@[d].inputs by {
                        if d != c {
                            assert(self.target_summaries@[d] == before.target_summaries@[d]);
                        }
                    }
                    assert forall|d: int, q: int|
                        0 <= d < self.scopes@.len() && 0 <= q < self.scopes@[d].inputs implies self.table_valid(
                        (#[trigger] self.target_summaries@[d]@[q])@,
                    ) by {
                        if d != c || q != p {
                            assert(self.target_summaries@[d]@[q] == before.target_summaries@[d]@[q]);
                        }
                    }
                    assert forall|d: usize, q: usize|
                        (d < c && q < self.scopes@[d as int].inputs) || (d == c && q < p + 1) implies if self.scopes@[d as int].notify {
                            base.row_exact(#[trigger] self.target_summaries@[d as int]@[q as int]@, d, q)
                        } else {
                            self.target_summaries@[d as int]@[q as int]@.len() == 0
                        } by {
                        if d != c {
                            assert(self.target_summaries@[d as int] == before.target_summaries@[d as int]);
                        } else if q != p {
                            assert(self.target_summaries@[d as int]@[q as int] == before.target_summaries@[d as int]@[q as int]);
                        }
                    }
                }
                p = p + 1;
            }
            c = c + 1;
        }
        proof {
            assert forall|s2: Source| self.valid_source(s2) implies #[trigger] self.row_sound(*self, s2) by {
                assert(self.row_sound(shape, s2));
                assert forall|x: Target, v: Summary<SO, SI>|
                    has_row(self.table_row(s2), x) && #[trigger] row_of(self.table_row(s2), x).contains(v)
                        implies self.is_path_summary(s2, x, v) by {
                    lemma_path_summary_same(shape, *self, s2, x, v);
                }
            }
            assert forall|c2: usize, p2: usize|
                c2 < self.scopes@.len() && p2 < self.scopes@[c2 as int].inputs && !self.scopes@[c2 as int].notify
                    implies (#[trigger] self.target_summaries@[c2 as int]@[p2 as int])@.len() == 0 by {
            }
            assert forall|c2: usize, p2: usize|
                c2 < self.scopes@.len() && p2 < self.scopes@[c2 as int].inputs && self.scopes@[c2 as int].notify
                    implies #[trigger] self.child_row_exact(c2, p2) by {
                if self.scopes@[c2 as int].notify {
                    let row = self.target_summaries@[c2 as int]@[p2 as int]@;
                    assert(base.row_exact(row, c2, p2));
                    let t = Target::ScopeInput(c2, p2);
                    assert(base.valid_target(t));
                    assert forall|next: Target, v: Summary<SO, SI>| #[trigger] self.extends(t, next, v) implies covers(row, next, v) by {
                        lemma_same_tables_extends(base, *self, t, next, v);
                    }
                    assert forall|next: Target, v: Summary<SO, SI>|
                        has_row(row, next) && #[trigger] row_of(row, next).contains(v) implies self.extends(t, next, v) by {
                        lemma_same_tables_extends(base, *self, t, next, v);
                    }
                }
            }
        }
        done
    }
}

} // verus!

