//! A scope that owns child scopes and the edges between them, and tracks progress for them.
use vstd::prelude::*;

use crate::antichain::Antichain;
use crate::count_map::CountMap;
use crate::mutable_antichain::MutableAntichain;
use crate::order::{PartialOrder, PathSummary, Product, Timestamp};
use crate::pointstamps::{
    empty_row, grid_empty, grid_wf, row_empty, row_wf, Location, PointstampCounter, Source, Target,
};
use crate::summary::Summary;

verus! {

/// What a scope declares of a child when the child is added: its arity and whether it
/// wants to hear of changes to its input frontiers.
#[derive(Clone, Copy, Debug, PartialEq, Eq, Structural)]
pub struct ScopeInfo {
    pub inputs: usize,
    pub outputs: usize,
    pub notify: bool,
}

/// What a scope knows of one child once the topology is sealed.
#[derive(Debug)]
pub struct SubscopeState<T, S> {
    /// `summary[i][o]`: the child's summaries from input `i` to output `o`.
    pub summary: Vec<Vec<Antichain<S>>>,
    /// The frontier promised to the child at each input.
    pub guarantees: Vec<MutableAntichain<T>>,
    /// The timestamps the child may still produce at each output.
    pub capabilities: Vec<MutableAntichain<T>>,
    /// The timestamps of messages in flight to each input.
    pub outstanding_messages: Vec<MutableAntichain<T>>,
}

/// The changes a child reports in one step, and the guarantee changes handed back to it.
#[derive(Debug)]
pub struct SubscopeBuffers<T> {
    /// Changes to the child's capabilities, per output.
    pub progress: Vec<Vec<(T, i64)>>,
    /// Messages the child consumed, per input.
    pub consumed: Vec<Vec<(T, i64)>>,
    /// Messages the child produced, per output.
    pub produced: Vec<Vec<(T, i64)>>,
    /// Changes to the frontiers promised to the child, per input.
    pub guarantee_changes: Vec<CountMap<T>>,
}

/// Every antichain in `v` is well formed.
pub open spec fn antichains_wf<S: PartialOrder>(v: Seq<Antichain<S>>) -> bool {
    forall|k: int| 0 <= k < v.len() ==> (#[trigger] v[k]).wf()
}

/// `m` has `rows` rows of `cols` well-formed antichains each.
pub open spec fn matrix_wf<S: PartialOrder>(m: Seq<Vec<Antichain<S>>>, rows: nat, cols: nat) -> bool {
    &&& m.len() == rows
    &&& forall|r: int| 0 <= r < rows ==> (#[trigger] m[r])@.len() == cols && antichains_wf(m[r]@)
}

/// Every mutable antichain in `v` is well formed.
pub open spec fn frontiers_wf<T: PartialOrder>(v: Seq<MutableAntichain<T>>) -> bool {
    forall|k: int| 0 <= k < v.len() ==> (#[trigger] v[k]).wf()
}

/// A vector of `n` empty mutable antichains.
pub fn empty_frontiers<T: PartialOrder>(n: usize) -> (r: Vec<MutableAntichain<T>>)
    ensures
        r@.len() == n,
        frontiers_wf(r@),
        forall|k: int, t: T| 0 <= k < n ==> #[trigger] r@[k].count(t) == 0 && !r@[k].in_frontier(t),
{
    let mut r: Vec<MutableAntichain<T>> = Vec::new();
    let mut i: usize = 0;
    while i < n
        invariant
            0 <= i <= n,
            r@.len() == i,
            frontiers_wf(r@),
            forall|k: int, t: T| 0 <= k < i ==> #[trigger] r@[k].count(t) == 0 && !r@[k].in_frontier(t),
        decreases n - i,
    {
        r.push(MutableAntichain::new());
        i = i + 1;
    }
    r
}

/// A vector of `n` empty reachability rows.
pub fn empty_tables<U>(n: usize) -> (r: Vec<Vec<(Target, Antichain<U>)>>)
    ensures
        r@.len() == n,
        forall|k: int| 0 <= k < n ==> (#[trigger] r@[k])@.len() == 0,
{
    let mut r: Vec<Vec<(Target, Antichain<U>)>> = Vec::new();
    let mut i: usize = 0;
    while i < n
        invariant
            0 <= i <= n,
            r@.len() == i,
            forall|k: int| 0 <= k < i ==> (#[trigger] r@[k])@.len() == 0,
        decreases n - i,
    {
        r.push(Vec::new());
        i = i + 1;
    }
    r
}

/// A matrix of `rows` by `cols` empty antichains.
pub fn empty_matrix<S: PartialOrder>(rows: usize, cols: usize) -> (r: Vec<Vec<Antichain<S>>>)
    ensures
        matrix_wf(r@, rows as nat, cols as nat),
        forall|a: int, b: int| 0 <= a < rows && 0 <= b < cols ==> (#[trigger] r@[a]@[b])@.len() == 0,
{
    let mut r: Vec<Vec<Antichain<S>>> = Vec::new();
    let mut i: usize = 0;
    while i < rows
        invariant
            0 <= i <= rows,
            matrix_wf(r@, i as nat, cols as nat),
            forall|a: int, b: int| 0 <= a < i && 0 <= b < cols ==> (#[trigger] r@[a]@[b])@.len() == 0,
        decreases rows - i,
    {
        let mut row: Vec<Antichain<S>> = Vec::new();
        let mut j: usize = 0;
        while j < cols
            invariant
                0 <= j <= cols,
                row@.len() == j,
                antichains_wf(row@),
                forall|b: int| 0 <= b < j ==> (#[trigger] row@[b])@.len() == 0,
            decreases cols - j,
        {
            row.push(Antichain::new());
            j = j + 1;
        }
        let ghost before = r@;
        r.push(row);
        proof {
            assert forall|a: int| 0 <= a < i + 1 implies (#[trigger] r@[a])@.len() == cols && antichains_wf(r@[a]@) by {
                if a < i {
                    assert(r@[a] == before[a]);
                }
            }
            assert forall|a: int, b: int| 0 <= a < i + 1 && 0 <= b < cols implies (#[trigger] r@[a]@[b])@.len() == 0 by {
                if a < i {
                    assert(r@[a] == before[a]);
                }
            }
        }
        i = i + 1;
    }
    r
}

impl<T: PartialOrder, S: PartialOrder> SubscopeState<T, S> {
    /// The state of a child with the given arity and summaries: nothing promised, held or
    /// in flight.
    pub fn new(inputs: usize, outputs: usize, summary: Vec<Vec<Antichain<S>>>) -> (r: Self)
        ensures
            r.summary == summary,
            r.guarantees@.len() == inputs,
            r.capabilities@.len() == outputs,
            r.outstanding_messages@.len() == inputs,
            frontiers_wf(r.guarantees@),
            frontiers_wf(r.capabilities@),
            frontiers_wf(r.outstanding_messages@),
            forall|k: int, t: T| 0 <= k < inputs ==> #[trigger] r.guarantees@[k].count(t) == 0,
            forall|k: int, t: T| 0 <= k < outputs ==> #[trigger] r.capabilities@[k].count(t) == 0,
            forall|k: int, t: T| 0 <= k < inputs ==> #[trigger] r.outstanding_messages@[k].count(t) == 0,
    {
        SubscopeState {
            summary,
            guarantees: empty_frontiers(inputs),
            capabilities: empty_frontiers(outputs),
            outstanding_messages: empty_frontiers(inputs),
        }
    }

    pub open spec fn shaped(&self, inputs: nat, outputs: nat) -> bool {
        &&& matrix_wf(self.summary@, inputs, outputs)
        &&& self.guarantees@.len() == inputs
        &&& self.capabilities@.len() == outputs
        &&& self.outstanding_messages@.len() == inputs
        &&& frontiers_wf(self.guarantees@)
        &&& frontiers_wf(self.capabilities@)
        &&& frontiers_wf(self.outstanding_messages@)
    }
}

/// A vector of `n` empty lists of changes.
pub fn empty_lists<T>(n: usize) -> (r: Vec<Vec<(T, i64)>>)
    ensures
        r@.len() == n,
        forall|k: int| 0 <= k < n ==> (#[trigger] r@[k])@.len() == 0,
{
    let mut r: Vec<Vec<(T, i64)>> = Vec::new();
    let mut i: usize = 0;
    while i < n
        invariant
            0 <= i <= n,
            r@.len() == i,
            forall|k: int| 0 <= k < i ==> (#[trigger] r@[k])@.len() == 0,
        decreases n - i,
    {
        r.push(Vec::new());
        i = i + 1;
    }
    r
}

impl<T: PartialOrder> SubscopeBuffers<T> {
    /// Empty buffers for a child with the given arity.
    pub fn new(inputs: usize, outputs: usize) -> (r: Self)
        ensures
            r.shaped(inputs as nat, outputs as nat),
            r.is_empty(),
    {
        SubscopeBuffers {
            progress: empty_lists(outputs),
            consumed: empty_lists(inputs),
            produced: empty_lists(outputs),
            guarantee_changes: empty_row(inputs),
        }
    }

    pub open spec fn shaped(&self, inputs: nat, outputs: nat) -> bool {
        &&& self.progress@.len() == outputs
        &&& self.consumed@.len() == inputs
        &&& self.produced@.len() == outputs
        &&& self.guarantee_changes@.len() == inputs
        &&& row_wf(self.guarantee_changes@)
    }

    /// Whether the child reported nothing.
    pub open spec fn reports_empty(&self) -> bool {
        &&& forall|k: int| 0 <= k < self.progress@.len() ==> (#[trigger] self.progress@[k])@.len() == 0
        &&& forall|k: int| 0 <= k < self.consumed@.len() ==> (#[trigger] self.consumed@[k])@.len() == 0
        &&& forall|k: int| 0 <= k < self.produced@.len() ==> (#[trigger] self.produced@[k])@.len() == 0
    }

    /// Whether the buffers hold nothing, in either direction.
    pub open spec fn is_empty(&self) -> bool {
        &&& self.reports_empty()
        &&& row_empty(self.guarantee_changes@)
    }
}

/// A scope holding child scopes, with timestamps `Product<TO, TI>`: `TO` is the enclosing
/// scope's time and `TI` this scope's own coordinate.
#[derive(Debug)]
pub struct Subgraph<TO, SO, TI, SI> {
    pub name: String,
    pub index: usize,
    pub default_time: Product<TO, TI>,
    pub default_summary: Summary<SO, SI>,
    pub inputs: usize,
    pub outputs: usize,
    pub sealed: bool,
    pub scopes: Vec<ScopeInfo>,
    /// `scope_edges[c][o]`: the targets of output `o` of child `c`.
    pub scope_edges: Vec<Vec<Vec<Target>>>,
    /// `input_edges[i]`: the targets of input `i`.
    pub input_edges: Vec<Vec<Target>>,
    /// `external_summaries[o][i]`: the enclosing scope's summaries from our output `o` back
    /// to our input `i`.
    pub external_summaries: Vec<Vec<Antichain<SO>>>,
    pub source_summaries: Vec<Vec<Vec<(Target, Antichain<Summary<SO, SI>>)>>>,
    pub target_summaries: Vec<Vec<Vec<(Target, Antichain<Summary<SO, SI>>)>>>,
    pub input_summaries: Vec<Vec<(Target, Antichain<Summary<SO, SI>>)>>,
    pub external_capability: Vec<MutableAntichain<TO>>,
    pub subscope_state: Vec<SubscopeState<Product<TO, TI>, Summary<SO, SI>>>,
    pub pointstamps: PointstampCounter<Product<TO, TI>>,
    /// Whether the last computation of the reachability tables reached its fixed point.
    pub tables_complete: bool,
}

/// Whether the rows of a reachability table name distinct targets and hold well-formed,
/// non-empty antichains.
pub open spec fn table_wf<U: PartialOrder>(v: Seq<(Target, Antichain<U>)>) -> bool {
    &&& forall|a: int, b: int|
        0 <= a < v.len() && 0 <= b < v.len() && a != b ==> (#[trigger] v[a]).0 != (#[trigger] v[b]).0
    &&& forall|a: int| 0 <= a < v.len() ==> (#[trigger] v[a]).1.wf() && v[a].1@.len() > 0
}

impl<TO: Timestamp, SO: PathSummary<TO>, TI: Timestamp, SI: PathSummary<TI>> Subgraph<TO, SO, TI, SI> {
    pub open spec fn child_inputs(&self) -> Seq<usize> {
        self.scopes@.map_values(|s: ScopeInfo| s.inputs)
    }

    pub open spec fn child_outputs(&self) -> Seq<usize> {
        self.scopes@.map_values(|s: ScopeInfo| s.outputs)
    }

    /// Whether `t` names an output of this scope or an input of one of its children.
    pub open spec fn valid_target(&self, t: Target) -> bool {
        match t {
            Target::GraphOutput(o) => o < self.outputs,
            Target::ScopeInput(c, p) => c < self.scopes@.len() && p < self.scopes@[c as int].inputs,
        }
    }

    /// Whether `s` names an input of this scope or an output of one of its children.
    pub open spec fn valid_source(&self, s: Source) -> bool {
        match s {
            Source::GraphInput(i) => i < self.inputs,
            Source::ScopeOutput(c, p) => c < self.scopes@.len() && p < self.scopes@[c as int].outputs,
        }
    }

    /// Whether each target of `v` is valid.
    pub open spec fn targets_valid(&self, v: Seq<Target>) -> bool {
        forall|k: int| 0 <= k < v.len() ==> self.valid_target(#[trigger] v[k])
    }

    /// Whether `t` is a valid target that wants to hear of progress: an output of this
    /// scope, or an input of a child that asks to be notified.
    pub open spec fn reported_target(&self, t: Target) -> bool {
        &&& self.valid_target(t)
        &&& match t {
            Target::ScopeInput(c, _) => self.scopes@[c as int].notify,
            Target::GraphOutput(_) => true,
        }
    }

    /// Whether every row of `v` is a well-formed table over targets that want to hear of
    /// progress.
    pub open spec fn table_valid(&self, v: Seq<(Target, Antichain<Summary<SO, SI>>)>) -> bool {
        &&& table_wf(v)
        &&& forall|a: int| 0 <= a < v.len() ==> self.reported_target((#[trigger] v[a]).0)
    }

    /// The declared edges fit the declared children and ports.
    pub open spec fn edges_wf(&self) -> bool {
        &&& self.scope_edges@.len() == self.scopes@.len()
        &&& forall|c: int| #![trigger self.scope_edges@[c]]
            0 <= c < self.scopes@.len() ==> self.scope_edges@[c]@.len() == self.scopes@[c].outputs
        &&& forall|c: int, o: int|
            0 <= c < self.scopes@.len() && 0 <= o < self.scopes@[c].outputs ==> self.targets_valid(
                (#[trigger] self.scope_edges@[c]@[o])@,
            )
        &&& self.input_edges@.len() == self.inputs
        &&& forall|i: int| 0 <= i < self.inputs ==> self.targets_valid((#[trigger] self.input_edges@[i])@)
    }

    /// The reachability tables fit the declared children and ports.
    pub open spec fn tables_wf(&self) -> bool {
        &&& self.source_summaries@.len() == self.scopes@.len()
        &&& forall|c: int| #![trigger self.source_summaries@[c]]
            0 <= c < self.scopes@.len() ==> self.source_summaries@[c]@.len() == self.scopes@[c].outputs
        &&& forall|c: int, o: int|
            0 <= c < self.scopes@.len() && 0 <= o < self.scopes@[c].outputs ==> self.table_valid(
                (#[trigger] self.source_summaries@[c]@[o])@,
            )
        &&& self.target_summaries@.len() == self.scopes@.len()
        &&& forall|c: int| #![trigger self.target_summaries@[c]]
            0 <= c < self.scopes@.len() ==> self.target_summaries@[c]@.len() == self.scopes@[c].inputs
        &&& forall|c: int, i: int|
            0 <= c < self.scopes@.len() && 0 <= i < self.scopes@[c].inputs ==> self.table_valid(
                (#[trigger] self.target_summaries@[c]@[i])@,
            )
        &&& self.input_summaries@.len() == self.inputs
        &&& forall|i: int| 0 <= i < self.inputs ==> self.table_valid((#[trigger] self.input_summaries@[i])@)
    }

    /// The per-child state and the counters fit the declared children and ports.
    pub open spec fn state_wf(&self) -> bool {
        &&& self.subscope_state@.len() == self.scopes@.len()
        &&& forall|c: int| 0 <= c < self.scopes@.len() ==> (#[trigger] self.subscope_state@[c]).shaped(
            self.scopes@[c].inputs as nat,
            self.scopes@[c].outputs as nat,
        )
        &&& matrix_wf(self.external_summaries@, self.outputs as nat, self.inputs as nat)
        &&& self.external_capability@.len() == self.outputs
        &&& frontiers_wf(self.external_capability@)
        &&& self.pointstamps.shaped(
            self.child_inputs(),
            self.child_outputs(),
            self.inputs as nat,
            self.outputs as nat,
        )
    }

    /// The scope's invariant: edges always fit; once sealed, so do tables and state.
    pub open spec fn wf(&self) -> bool {
        &&& self.edges_wf()
        &&& self.sealed ==> self.tables_wf() && self.state_wf()
    }

    /// Between steps of a sealed scope, no change is pending or propagated.
    pub open spec fn quiescent(&self) -> bool {
        &&& self.pointstamps.counts_empty()
        &&& self.pointstamps.pushed_empty()
    }

    pub open spec fn is_sealed(&self) -> bool {
        self.sealed
    }

    pub open spec fn num_inputs(&self) -> nat {
        self.inputs as nat
    }

    pub open spec fn num_outputs(&self) -> nat {
        self.outputs as nat
    }

    pub open spec fn children(&self) -> Seq<ScopeInfo> {
        self.scopes@
    }

    /// A scope with no inputs, outputs or children, whose edges carry `default_summary`.
    pub fn new(name: String, index: usize, default_time: Product<TO, TI>, default_summary: Summary<SO, SI>) -> (r: Self)
        ensures
            r.wf(),
            !r.is_sealed(),
            r.num_inputs() == 0,
            r.num_outputs() == 0,
            r.children().len() == 0,
            r.index == index,
            r.name == name,
            r.default_time == default_time,
            r.default_summary == default_summary,
    {
        Subgraph {
            name,
            index,
            default_time,
            default_summary,
            inputs: 0,
            outputs: 0,
            sealed: false,
            scopes: Vec::new(),
            scope_edges: Vec::new(),
            input_edges: Vec::new(),
            external_summaries: Vec::new(),
            source_summaries: Vec::new(),
            target_summaries: Vec::new(),
            input_summaries: Vec::new(),
            external_capability: Vec::new(),
            subscope_state: Vec::new(),
            pointstamps: PointstampCounter {
                source_counts: Vec::new(),
                target_counts: Vec::new(),
                input_counts: Vec::new(),
                target_pushed: Vec::new(),
                output_pushed: Vec::new(),
            },
            tables_complete: false,
        }
    }

    pub fn name(&self) -> (r: String)
        ensures
            r@ == self.name@,
    {
        self.name.clone()
    }

    pub fn inputs(&self) -> (r: usize)
        ensures
            r == self.num_inputs(),
    {
        self.inputs
    }

    pub fn outputs(&self) -> (r: usize)
        ensures
            r == self.num_outputs(),
    {
        self.outputs
    }

    /// A new scope to be added as the next child of this one: its time extends ours with a
    /// coordinate starting at `default`, and its edges carry `Local(summary)`.
    pub fn new_subgraph<T: Timestamp, S: PathSummary<T>>(&self, default: T, summary: S) -> (r: Subgraph<
        Product<TO, TI>,
        Summary<SO, SI>,
        T,
        S,
    >)
        ensures
            r.wf(),
            !r.is_sealed(),
            r.index == self.children().len(),
            r.default_summary == Summary::<Summary<SO, SI>, S>::Local(summary),
            r.default_time == (Product { outer: Product::<TO, TI>::spec_zero(), inner: default }),
            r.num_inputs() == 0,
            r.num_outputs() == 0,
            r.children().len() == 0,
    {
        let outer = Product::<TO, TI>::zero();
        Subgraph::new(
            String::new(),
            self.scopes.len(),
            Product { outer, inner: default },
            Summary::Local(summary),
        )
    }

    /// Declares a new input of this scope and returns its index.
    pub fn new_input(&mut self) -> (r: usize)
        requires
            old(self).wf(),
            !old(self).is_sealed(),
            old(self).num_inputs() < usize::MAX,
        ensures
            final(self).wf(),
            !final(self).is_sealed(),
            r == old(self).num_inputs(),
            final(self).num_inputs() == old(self).num_inputs() + 1,
            final(self).num_outputs() == old(self).num_outputs(),
            final(self).children() == old(self).children(),
            final(self).scope_edges == old(self).scope_edges,
            final(self).name == old(self).name,
            final(self).index == old(self).index,
            final(self).default_time == old(self).default_time,
            final(self).default_summary == old(self).default_summary,
            final(self).input_edges@.len() == old(self).input_edges@.len() + 1,
            forall|i: int| 0 <= i < old(self).input_edges@.len() ==> #[trigger] final(self).input_edges@[i] == old(self).input_edges@[i],
            final(self).input_edges@[old(self).input_edges@.len() as int]@.len() == 0,
            forall|s: Source| old(self).valid_source(s) ==> #[trigger] final(self).edge_targets(s) == old(self).edge_targets(s),
            final(self).edge_targets(Source::GraphInput(r)).len() == 0,
    {
        self.inputs = self.inputs + 1;
        self.input_edges.push(Vec::new());
        proof {
            assert forall|i: int| 0 <= i < self.inputs implies self.targets_valid(
                (#[trigger] self.input_edges@[i])@,
            ) by {
                if i < self.inputs - 1 {
                    assert(old(self).targets_valid(old(self).input_edges@[i]@));
                }
            }
        }
        self.inputs - 1
    }

    /// Declares a new output of this scope and returns its index.
    pub fn new_output(&mut self) -> (r: usize)
        requires
            old(self).wf(),
            !old(self).is_sealed(),
            old(self).num_outputs() < usize::MAX,
        ensures
            final(self).wf(),
            !final(self).is_sealed(),
            r == old(self).num_outputs(),
            final(self).num_outputs() == old(self).num_outputs() + 1,
            final(self).num_inputs() == old(self).num_inputs(),
            final(self).children() == old(self).children(),
            final(self).scope_edges == old(self).scope_edges,
            final(self).name == old(self).name,
            final(self).index == old(self).index,
            final(self).default_time == old(self).default_time,
            final(self).default_summary == old(self).default_summary,
            final(self).input_edges == old(self).input_edges,
    {
        self.outputs = self.outputs + 1;
        proof {
            assert forall|c: int, o: int|
                0 <= c < self.scopes@.len() && 0 <= o < self.scopes@[c].outputs implies self.targets_valid(
                (#[trigger] self.scope_edges@[c]@[o])@,
            ) by {
                assert(old(self).targets_valid(old(self).scope_edges@[c]@[o]@));
            }
            assert forall|i: int| 0 <= i < self.inputs implies self.targets_valid(
                (#[trigger] self.input_edges@[i])@,
            ) by {
                assert(old(self).targets_valid(old(self).input_edges@[i]@));
            }
        }
        self.outputs - 1
    }

    /// Adds a child with the given arity and returns its index.
    pub fn add_scope(&mut self, inputs: usize, outputs: usize, notify: bool) -> (r: usize)
        requires
            old(self).wf(),
            !old(self).is_sealed(),
        ensures
            final(self).wf(),
            !final(self).is_sealed(),
            r == old(self).children().len(),
            final(self).children() == old(self).children().push(ScopeInfo { inputs, outputs, notify }),
            final(self).num_inputs() == old(self).num_inputs(),
            final(self).num_outputs() == old(self).num_outputs(),
            final(self).scope_edges@.len() == old(self).scope_edges@.len() + 1,
            forall|c: int| 0 <= c < old(self).scope_edges@.len() ==> #[trigger] final(self).scope_edges@[c] == old(self).scope_edges@[c],
            forall|o: int| 0 <= o < outputs ==> (#[trigger] final(self).scope_edges@[old(self).scope_edges@.len() as int]@[o])@.len() == 0,
            final(self).input_edges == old(self).input_edges,
            final(self).name == old(self).name,
            final(self).index == old(self).index,
            final(self).default_time == old(self).default_time,
            final(self).default_summary == old(self).default_summary,
    {
        let mut ports: Vec<Vec<Target>> = Vec::new();
        let mut k: usize = 0;
        while k < outputs
            invariant
                0 <= k <= outputs,
                ports@.len() == k,
                forall|j: int| 0 <= j < k ==> (#[trigger] ports@[j])@.len() == 0,
            decreases outputs - k,
        {
            ports.push(Vec::new());
            k = k + 1;
        }
        self.scopes.push(ScopeInfo { inputs, outputs, notify });
        self.scope_edges.push(ports);
        proof {
            let n = old(self).scopes@.len();
            assert forall|c: int| #![trigger self.scope_edges@[c]]
                0 <= c < self.scopes@.len() implies self.scope_edges@[c]@.len() == self.scopes@[c].outputs by {
                if c < n {
                    assert(self.scope_edges@[c] == old(self).scope_edges@[c]);
                }
            }
            assert forall|c: int, o: int|
                0 <= c < self.scopes@.len() && 0 <= o < self.scopes@[c].outputs implies self.targets_valid(
                (#[trigger] self.scope_edges@[c]@[o])@,
            ) by {
                if c < n {
                    assert(self.scope_edges@[c] == old(self).scope_edges@[c]);
                    assert(old(self).targets_valid(old(self).scope_edges@[c]@[o]@));
                    let v = self.scope_edges@[c]@[o]@;
                    assert forall|k: int| 0 <= k < v.len() implies self.valid_target(#[trigger] v[k]) by {
                        assert(old(self).valid_target(v[k]));
                        assert(self.scopes@[c] == old(self).scopes@[c]);
                    }
                } else {
                    assert(self.scope_edges@[c]@[o]@.len() == 0);
                }
            }
            assert forall|i: int| 0 <= i < self.inputs implies self.targets_valid(
                (#[trigger] self.input_edges@[i])@,
            ) by {
                let v = self.input_edges@[i]@;
                assert(old(self).targets_valid(v));
                assert forall|k: int| 0 <= k < v.len() implies self.valid_target(#[trigger] v[k]) by {
                    assert(old(self).valid_target(v[k]));
                    match v[k] {
                        Target::ScopeInput(c, p) => {
                            assert(self.scopes@[c as int] == old(self).scopes@[c as int]);
                        },
                        _ => {},
                    }
                }
            }
        }
        self.scopes.len() - 1
    }

    /// The targets of the edges declared from `source`.
    pub open spec fn edge_targets(&self, source: Source) -> Seq<Target> {
        match source {
            Source::GraphInput(i) => self.input_edges@[i as int]@,
            Source::ScopeOutput(c, o) => self.scope_edges@[c as int]@[o as int]@,
        }
    }

    /// Declares an edge from `source` to `target`.
    pub fn connect(&mut self, source: Source, target: Target)
        requires
            old(self).wf(),
            !old(self).is_sealed(),
            old(self).valid_source(source),
            old(self).valid_target(target),
        ensures
            final(self).wf(),
            !final(self).is_sealed(),
            final(self).edge_targets(source) == old(self).edge_targets(source).push(target),
            forall|s: Source|
                s != source && old(self).valid_source(s) ==> #[trigger] final(self).edge_targets(s)
                    == old(self).edge_targets(s),
            final(self).children() == old(self).children(),
            final(self).num_inputs() == old(self).num_inputs(),
            final(self).num_outputs() == old(self).num_outputs(),
            final(self).name == old(self).name,
            final(self).index == old(self).index,
            final(self).default_time == old(self).default_time,
            final(self).default_summary == old(self).default_summary,
    {
        match source {
            Source::ScopeOutput(scope, port) => {
                self.scope_edges[scope][port].push(target);
                proof {
                    assert forall|c: int| #![trigger self.scope_edges@[c]]
                        0 <= c < self.scopes@.len() implies self.scope_edges@[c]@.len() == self.scopes@[c].outputs by {
                        if c != scope {
                            assert(self.scope_edges@[c] == old(self).scope_edges@[c]);
                        }
                    }
                    assert forall|c: int, o: int|
                        0 <= c < self.scopes@.len() && 0 <= o < self.scopes@[c].outputs implies self.targets_valid(
                        (#[trigger] self.scope_edges@[c]@[o])@,
                    ) by {
                        assert(old(self).targets_valid(old(self).scope_edges@[c]@[o]@));
                        if c != scope || o != port {
                            assert(self.scope_edges@[c]@[o] == old(self).scope_edges@[c]@[o]);
                        } else {
                            let v = self.scope_edges@[c]@[o]@;
                            assert forall|k: int| 0 <= k < v.len() implies self.valid_target(#[trigger] v[k]) by {
                                if k < v.len() - 1 {
                                    assert(v[k] == old(self).scope_edges@[c]@[o]@[k]);
                                }
                            }
                        }
                    }
                    assert forall|i: int| 0 <= i < self.inputs implies self.targets_valid(
                        (#[trigger] self.input_edges@[i])@,
                    ) by {
                        assert(old(self).targets_valid(old(self).input_edges@[i]@));
                    }
                    assert forall|s: Source|
                        s != source && old(self).valid_source(s) implies #[trigger] self.edge_targets(s)
                            == old(self).edge_targets(s) by {
                        match s {
                            Source::ScopeOutput(c, o) => {
                                if c != scope {
                                    assert(self.scope_edges@[c as int] == old(self).scope_edges@[c as int]);
                                }
                            },
                            _ => {},
                        }
                    }
                }
            },
            Source::GraphInput(input) => {
                self.input_edges[input].push(target);
                proof {
                    assert forall|c: int, o: int|
                        0 <= c < self.scopes@.len() && 0 <= o < self.scopes@[c].outputs implies self.targets_valid(
                        (#[trigger] self.scope_edges@[c]@[o])@,
                    ) by {
                        assert(old(self).targets_valid(old(self).scope_edges@[c]@[o]@));
                    }
                    assert forall|i: int| 0 <= i < self.inputs implies self.targets_valid(
                        (#[trigger] self.input_edges@[i])@,
                    ) by {
                        assert(old(self).targets_valid(old(self).input_edges@[i]@));
                        if i == input {
                            let v = self.input_edges@[i]@;
                            assert forall|k: int| 0 <= k < v.len() implies self.valid_target(#[trigger] v[k]) by {
                                if k < v.len() - 1 {
                                    assert(v[k] == old(self).input_edges@[i]@[k]);
                                }
                            }
                        }
                    }
                }
            },
        }
    }
}

} // verus!
