use timely_progress::antichain::Antichain;
use timely_progress::count_map::CountMap;
use timely_progress::order::{PartialOrder, Product};
use timely_progress::pointstamps::{Location, PointstampCounter, Source, Target};
use timely_progress::subgraph::{SubscopeBuffers, SubscopeState, Subgraph};
use timely_progress::summary::Summary;

type Time = Product<u64, u64>;
type Graph = Subgraph<u64, u64, u64, u64>;

fn p(a: u64, b: u64) -> Time {
    Product::new(a, b)
}

fn root() -> Graph {
    Subgraph::new(String::from("root"), 0, p(0, 0), Summary::Local(0))
}

fn local_summary(inputs: usize, outputs: usize, iterations: u64) -> Vec<Vec<Antichain<Summary<u64, u64>>>> {
    let mut m = Vec::new();
    for _ in 0..inputs {
        let mut row = Vec::new();
        for _ in 0..outputs {
            row.push(Antichain::from_elem(Summary::Local(iterations)));
        }
        m.push(row);
    }
    m
}

fn empty_lists<T>(n: usize) -> Vec<Vec<(T, i64)>> {
    let mut v = Vec::new();
    for _ in 0..n {
        v.push(Vec::new());
    }
    v
}

fn empty_maps(n: usize) -> Vec<CountMap<u64>> {
    let mut v = Vec::new();
    for _ in 0..n {
        v.push(CountMap::new());
    }
    v
}

fn no_external(outputs: usize, inputs: usize) -> Vec<Vec<Antichain<u64>>> {
    let mut m = Vec::new();
    for _ in 0..outputs {
        let mut row = Vec::new();
        for _ in 0..inputs {
            row.push(Antichain::new());
        }
        m.push(row);
    }
    m
}

fn clear_guarantees(buffers: &mut Vec<SubscopeBuffers<Time>>) {
    for b in buffers.iter_mut() {
        for c in b.guarantee_changes.iter_mut() {
            c.clear();
        }
    }
}

struct Step {
    frontier: Vec<CountMap<u64>>,
    consumed: Vec<Vec<(u64, i64)>>,
    produced: Vec<Vec<(u64, i64)>>,
}

fn pull(g: &mut Graph, inputs: &mut Vec<Vec<(Time, i64)>>, buffers: &mut Vec<SubscopeBuffers<Time>>) -> Step {
    let mut frontier = empty_maps(g.outputs());
    let mut consumed = empty_lists(g.inputs());
    let mut produced = empty_lists(g.outputs());
    g.pull_internal_progress(&mut frontier, &mut consumed, &mut produced, inputs, buffers);
    Step { frontier, consumed, produced }
}

/// One input, one output, and one child between them.
fn straight_line() -> (Graph, Vec<SubscopeBuffers<Time>>) {
    let mut g = root();
    let i = g.new_input();
    let o = g.new_output();
    let c = g.add_scope(1, 1, true);
    g.connect(Source::GraphInput(i), Target::ScopeInput(c, 0));
    g.connect(Source::ScopeOutput(c, 0), Target::GraphOutput(o));
    let (reach, work) = g.get_internal_summary(vec![local_summary(1, 1, 0)], &vec![empty_lists(1)]);
    assert_eq!(reach.len(), 1);
    assert_eq!(reach[0][0].elements(), &vec![0u64]);
    assert_eq!(work, vec![Vec::<(u64, i64)>::new()]);
    let mut buffers = vec![SubscopeBuffers::new(1, 1)];
    let child_summaries = g.set_external_summary(no_external(1, 1), &empty_lists(1), &mut buffers);
    assert_eq!(child_summaries.len(), 1);
    assert!(child_summaries[0][0][0].elements().is_empty());
    (g, buffers)
}

#[test]
fn straight_line_guarantee_follows_input_frontier() {
    let (mut g, mut buffers) = straight_line();
    g.push_external_progress(&vec![vec![(5u64, 1i64)]], &mut buffers);
    assert_eq!(buffers[0].guarantee_changes[0].elements(), &vec![(p(5, 0), 1i64)]);
    assert_eq!(g.subscope_state[0].guarantees[0].elements(), &vec![p(5, 0)]);
    let mut inputs = empty_lists(1);
    clear_guarantees(&mut buffers);
    let step = pull(&mut g, &mut inputs, &mut buffers);
    assert!(step.frontier[0].is_empty());
    assert!(step.consumed[0].is_empty());
    assert!(step.produced[0].is_empty());
    g.push_external_progress(&vec![vec![(5u64, -1i64)]], &mut buffers);
    assert_eq!(buffers[0].guarantee_changes[0].elements(), &vec![(p(5, 0), -1i64)]);
    assert!(g.subscope_state[0].guarantees[0].elements().is_empty());
}

#[test]
fn push_then_retract_restores_guarantees() {
    let (mut g, mut buffers) = straight_line();
    g.push_external_progress(&vec![vec![(2u64, 1i64)]], &mut buffers);
    clear_guarantees(&mut buffers);
    let before = g.subscope_state[0].guarantees[0].elements().clone();
    g.push_external_progress(&vec![vec![(1u64, 1i64), (7u64, 2i64)]], &mut buffers);
    assert_eq!(g.subscope_state[0].guarantees[0].elements(), &vec![p(1, 0)]);
    g.push_external_progress(&vec![vec![(1u64, -1i64), (7u64, -2i64)]], &mut buffers);
    assert_eq!(g.subscope_state[0].guarantees[0].elements(), &before);
    assert!(buffers[0].guarantee_changes[0].is_empty());
    let mut inputs = empty_lists(1);
    let step = pull(&mut g, &mut inputs, &mut buffers);
    assert!(step.frontier[0].is_empty());
}

#[test]
fn quiet_pull_reports_nothing() {
    let (mut g, mut buffers) = straight_line();
    let mut inputs = empty_lists(1);
    let step = pull(&mut g, &mut inputs, &mut buffers);
    assert!(step.frontier[0].is_empty());
    assert!(step.consumed[0].is_empty());
    assert!(step.produced[0].is_empty());
    assert!(buffers[0].guarantee_changes[0].is_empty());
}

#[test]
fn input_messages_are_consumed_and_forwarded() {
    let (mut g, mut buffers) = straight_line();
    let mut inputs = vec![vec![(p(4, 0), 2i64)]];
    let step = pull(&mut g, &mut inputs, &mut buffers);
    assert!(inputs[0].is_empty());
    assert_eq!(step.consumed[0], vec![(4u64, 2i64)]);
    assert!(step.produced[0].is_empty());
    assert_eq!(g.subscope_state[0].outstanding_messages[0].elements(), &vec![p(4, 0)]);
    assert!(buffers[0].guarantee_changes[0].is_empty());
    assert_eq!(step.frontier[0].elements(), &vec![(4u64, 1i64)]);
}

#[test]
fn feedback_loop_keeps_outer_time() {
    let mut g = root();
    let _i = g.new_input();
    let o = g.new_output();
    let c = g.add_scope(1, 1, true);
    g.connect(Source::ScopeOutput(c, 0), Target::ScopeInput(c, 0));
    g.connect(Source::ScopeOutput(c, 0), Target::GraphOutput(o));
    let caps = vec![vec![vec![(p(0, 0), 1i64)]]];
    let (_reach, work) = g.get_internal_summary(vec![local_summary(1, 1, 0)], &caps);
    assert_eq!(work, vec![vec![(0u64, 1i64)]]);
    let mut buffers = vec![SubscopeBuffers::new(1, 1)];
    let child_summaries = g.set_external_summary(no_external(1, 1), &vec![vec![(0u64, 1i64)]], &mut buffers);
    assert_eq!(child_summaries[0][0][0].elements(), &vec![Summary::Local(0u64)]);
    assert_eq!(buffers[0].guarantee_changes[0].elements(), &vec![(p(0, 0), 1i64)]);
    assert_eq!(g.subscope_state[0].guarantees[0].elements(), &vec![p(0, 0)]);
    clear_guarantees(&mut buffers);
    buffers[0].progress[0] = vec![(p(0, 1), 1), (p(0, 0), -1)];
    let mut inputs = empty_lists(1);
    let step = pull(&mut g, &mut inputs, &mut buffers);
    assert!(step.frontier[0].is_empty());
    assert!(buffers[0].progress[0].is_empty());
    assert_eq!(g.subscope_state[0].guarantees[0].elements(), &vec![p(0, 1)]);
    let changes = buffers[0].guarantee_changes[0].elements();
    assert_eq!(changes.len(), 2);
    assert!(changes.contains(&(p(0, 0), -1)));
    assert!(changes.contains(&(p(0, 1), 1)));
}

#[test]
fn two_child_pipeline_counts_messages_in_flight() {
    let mut g = root();
    let i = g.new_input();
    let o = g.new_output();
    let a = g.add_scope(1, 1, true);
    let b = g.add_scope(1, 1, true);
    g.connect(Source::ScopeOutput(a, 0), Target::ScopeInput(b, 0));
    g.connect(Source::GraphInput(i), Target::ScopeInput(a, 0));
    g.connect(Source::ScopeOutput(b, 0), Target::GraphOutput(o));
    let (reach, _work) = g.get_internal_summary(
        vec![local_summary(1, 1, 0), local_summary(1, 1, 0)],
        &vec![empty_lists(1), empty_lists(1)],
    );
    assert_eq!(reach[0][0].elements(), &vec![0u64]);
    let mut buffers = vec![SubscopeBuffers::new(1, 1), SubscopeBuffers::new(1, 1)];
    g.set_external_summary(no_external(1, 1), &empty_lists(1), &mut buffers);
    buffers[a].produced[0] = vec![(p(3, 0), 1)];
    let mut inputs = empty_lists(1);
    let step = pull(&mut g, &mut inputs, &mut buffers);
    assert!(buffers[a].produced[0].is_empty());
    assert_eq!(g.subscope_state[b].outstanding_messages[0].elements(), &vec![p(3, 0)]);
    assert!(g.subscope_state[a].outstanding_messages[0].elements().is_empty());
    assert_eq!(step.frontier[0].elements(), &vec![(3u64, 1i64)]);
    assert!(step.produced[0].is_empty());
    buffers[b].consumed[0] = vec![(p(3, 0), 1)];
    let step = pull(&mut g, &mut inputs, &mut buffers);
    assert!(buffers[b].consumed[0].is_empty());
    assert!(g.subscope_state[b].outstanding_messages[0].elements().is_empty());
    assert_eq!(step.frontier[0].elements(), &vec![(3u64, -1i64)]);
}

#[test]
fn nested_scope_sees_extended_guarantee() {
    let mut outer = root();
    let oi = outer.new_input();
    let oo = outer.new_output();
    let mut inner = outer.new_subgraph(0u64, 0u64);
    let ii = inner.new_input();
    let io = inner.new_output();
    let leaf = inner.add_scope(1, 1, true);
    inner.connect(Source::GraphInput(ii), Target::ScopeInput(leaf, 0));
    inner.connect(Source::ScopeOutput(leaf, 0), Target::ScopeInput(leaf, 0));
    inner.connect(Source::ScopeOutput(leaf, 0), Target::GraphOutput(io));
    let leaf_summary: Vec<Vec<Antichain<Summary<Summary<u64, u64>, u64>>>> =
        vec![vec![Antichain::from_elem(Summary::Local(1u64))]];
    let leaf_caps: Vec<Vec<Vec<(Product<Time, u64>, i64)>>> = vec![vec![Vec::new()]];
    let (inner_reach, inner_work) = inner.get_internal_summary(vec![leaf_summary], &leaf_caps);
    assert_eq!(inner_reach[0][0].elements(), &vec![Summary::Local(0u64)]);

    let child = outer.add_scope(1, 1, true);
    assert_eq!(child, inner.index);
    outer.connect(Source::GraphInput(oi), Target::ScopeInput(child, 0));
    outer.connect(Source::ScopeOutput(child, 0), Target::GraphOutput(oo));
    outer.get_internal_summary(vec![inner_reach], &vec![inner_work]);
    let mut outer_buffers = vec![SubscopeBuffers::new(1, 1)];
    let to_inner = outer.set_external_summary(no_external(1, 1), &empty_lists(1), &mut outer_buffers);
    let mut inner_buffers = vec![SubscopeBuffers::new(1, 1)];
    let inner_frontier: Vec<Vec<(Time, i64)>> = vec![Vec::new()];
    inner.set_external_summary(to_inner[0].clone(), &inner_frontier, &mut inner_buffers);

    outer.push_external_progress(&vec![vec![(5u64, 1i64)]], &mut outer_buffers);
    assert_eq!(outer.subscope_state[child].guarantees[0].elements(), &vec![p(5, 0)]);
    let delivered: Vec<Vec<(Time, i64)>> = outer_buffers[0]
        .guarantee_changes
        .iter()
        .map(|m| m.elements().clone())
        .collect();
    assert_eq!(delivered, vec![vec![(p(5, 0), 1i64)]]);
    inner.push_external_progress(&delivered, &mut inner_buffers);
    assert_eq!(
        inner.subscope_state[leaf].guarantees[0].elements(),
        &vec![Product::new(p(5, 0), 0u64)]
    );
}

#[test]
fn child_without_notification_gets_no_guarantees() {
    let mut g = root();
    let i = g.new_input();
    let quiet = g.add_scope(1, 1, false);
    let loud = g.add_scope(1, 1, true);
    g.connect(Source::GraphInput(i), Target::ScopeInput(quiet, 0));
    g.connect(Source::GraphInput(i), Target::ScopeInput(loud, 0));
    g.get_internal_summary(
        vec![local_summary(1, 1, 0), local_summary(1, 1, 0)],
        &vec![empty_lists(1), empty_lists(1)],
    );
    let mut buffers = vec![SubscopeBuffers::new(1, 1), SubscopeBuffers::new(1, 1)];
    g.set_external_summary(no_external(0, 1), &empty_lists(1), &mut buffers);
    g.push_external_progress(&vec![vec![(2u64, 1i64)]], &mut buffers);
    assert!(buffers[quiet].guarantee_changes[0].is_empty());
    assert!(g.subscope_state[quiet].guarantees[0].elements().is_empty());
    assert_eq!(buffers[loud].guarantee_changes[0].elements(), &vec![(p(2, 0), 1i64)]);
    let row = &g.input_summaries[0];
    assert_eq!(row.len(), 1);
    assert_eq!(row[0].0, Target::ScopeInput(loud, 0));
}

#[test]
fn external_summary_adds_a_path_back_in() {
    let mut g = root();
    let i = g.new_input();
    let o = g.new_output();
    let c = g.add_scope(1, 1, true);
    g.connect(Source::GraphInput(i), Target::ScopeInput(c, 0));
    g.connect(Source::ScopeOutput(c, 0), Target::GraphOutput(o));
    g.get_internal_summary(vec![local_summary(1, 1, 0)], &vec![empty_lists(1)]);
    let mut buffers = vec![SubscopeBuffers::new(1, 1)];
    let mut external = no_external(1, 1);
    external[0][0].insert(1u64);
    let child_summaries = g.set_external_summary(external, &empty_lists(1), &mut buffers);
    assert_eq!(child_summaries[0][0][0].elements(), &vec![Summary::Outer(1u64, 0u64)]);
}

#[test]
fn target_to_sources_lists_child_outputs_and_inputs() {
    let (g, _buffers) = straight_line();
    let from_child = g.target_to_sources(Target::ScopeInput(0, 0));
    assert_eq!(from_child, vec![(Source::ScopeOutput(0, 0), Summary::Local(0u64))]);
    let from_output = g.target_to_sources(Target::GraphOutput(0));
    assert!(from_output.is_empty());
}

#[test]
fn set_summaries_twice_gives_the_same_tables() {
    let (mut g, _buffers) = straight_line();
    g.set_summaries(1000);
    let first = (
        format!("{:?}", g.source_summaries),
        format!("{:?}", g.target_summaries),
        format!("{:?}", g.input_summaries),
    );
    let saturated = g.set_summaries(1000);
    assert!(saturated);
    let second = (
        format!("{:?}", g.source_summaries),
        format!("{:?}", g.target_summaries),
        format!("{:?}", g.input_summaries),
    );
    assert_eq!(first, second);
}

#[test]
fn pointstamp_counter_buckets_by_location() {
    let mut c: PointstampCounter<u64> = PointstampCounter {
        source_counts: vec![vec![CountMap::new()]],
        target_counts: vec![vec![CountMap::new()]],
        input_counts: vec![CountMap::new()],
        target_pushed: vec![vec![CountMap::new()]],
        output_pushed: vec![CountMap::new()],
    };
    c.update(Location::SourceLoc(Source::ScopeOutput(0, 0)), 3, 1);
    c.update(Location::SourceLoc(Source::GraphInput(0)), 4, 2);
    c.update(Location::TargetLoc(Target::ScopeInput(0, 0)), 5, -1);
    assert_eq!(c.source_counts[0][0].elements(), &vec![(3u64, 1i64)]);
    assert_eq!(c.input_counts[0].elements(), &vec![(4u64, 2i64)]);
    assert_eq!(c.target_counts[0][0].elements(), &vec![(5u64, -1i64)]);
    c.target_pushed[0][0].update(1, 1);
    c.output_pushed[0].update(1, 1);
    c.clear_pushed();
    assert!(c.target_pushed[0][0].is_empty());
    assert!(c.output_pushed[0].is_empty());
    assert_eq!(c.source_counts[0][0].len(), 1);
}

#[test]
fn subscope_state_and_buffers_start_empty() {
    let s: SubscopeState<Time, Summary<u64, u64>> = SubscopeState::new(2, 3, local_summary(2, 3, 0));
    assert_eq!(s.guarantees.len(), 2);
    assert_eq!(s.capabilities.len(), 3);
    assert_eq!(s.outstanding_messages.len(), 2);
    let b: SubscopeBuffers<Time> = SubscopeBuffers::new(2, 3);
    assert_eq!(b.progress.len(), 3);
    assert_eq!(b.consumed.len(), 2);
    assert_eq!(b.produced.len(), 3);
    assert_eq!(b.guarantee_changes.len(), 2);
}

#[test]
fn builder_numbers_ports_and_children() {
    let mut g = root();
    assert_eq!(g.new_input(), 0);
    assert_eq!(g.new_input(), 1);
    assert_eq!(g.new_output(), 0);
    assert_eq!(g.add_scope(1, 2, true), 0);
    assert_eq!(g.add_scope(0, 0, false), 1);
    assert_eq!(g.inputs(), 2);
    assert_eq!(g.outputs(), 1);
    assert_eq!(g.name(), String::from("root"));
    let child = g.new_subgraph(0u64, 1u64);
    assert_eq!(child.index, 2);
    assert_eq!(child.default_summary, Summary::Local(1u64));
}

fn sealed_graph(extra_edge: bool) -> Graph {
    let mut g = root();
    let i = g.new_input();
    let o = g.new_output();
    let first = g.add_scope(1, 1, true);
    let second = g.add_scope(1, 1, true);
    g.connect(Source::GraphInput(i), Target::ScopeInput(first, 0));
    g.connect(Source::ScopeOutput(first, 0), Target::GraphOutput(o));
    g.connect(Source::ScopeOutput(second, 0), Target::GraphOutput(o));
    if extra_edge {
        g.connect(Source::ScopeOutput(first, 0), Target::ScopeInput(second, 0));
    }
    g.get_internal_summary(
        vec![local_summary(1, 1, 2), local_summary(1, 1, 0)],
        &vec![empty_lists(1), empty_lists(1)],
    );
    g
}

fn row_covered(small: &Vec<(Target, Antichain<Summary<u64, u64>>)>, large: &Vec<(Target, Antichain<Summary<u64, u64>>)>) -> bool {
    small.iter().all(|(t, a)| {
        large.iter().any(|(u, b)| {
            t == u && a.elements().iter().all(|x| b.elements().iter().any(|y| y.less_equal(x)))
        })
    })
}

#[test]
fn adding_an_edge_keeps_every_path() {
    let before = sealed_graph(false);
    let after = sealed_graph(true);
    assert!(row_covered(&before.input_summaries[0], &after.input_summaries[0]));
    for c in 0..2 {
        assert!(row_covered(&before.source_summaries[c][0], &after.source_summaries[c][0]));
        assert!(row_covered(&before.target_summaries[c][0], &after.target_summaries[c][0]));
    }
    assert!(after.input_summaries[0].iter().any(|(t, _)| *t == Target::ScopeInput(1, 0)));
    assert!(!before.input_summaries[0].iter().any(|(t, _)| *t == Target::ScopeInput(1, 0)));
}

#[test]
fn quiet_child_passes_no_reachability_on() {
    let mut g = root();
    let i = g.new_input();
    let o = g.new_output();
    let quiet = g.add_scope(1, 1, false);
    g.connect(Source::GraphInput(i), Target::ScopeInput(quiet, 0));
    g.connect(Source::ScopeOutput(quiet, 0), Target::GraphOutput(o));
    let (reach, _work) = g.get_internal_summary(vec![local_summary(1, 1, 0)], &vec![empty_lists(1)]);
    assert!(g.tables_complete);
    assert!(g.input_summaries[0].is_empty());
    assert!(reach[0][0].elements().is_empty());
    assert!(g.target_summaries[quiet][0].is_empty());
    assert_eq!(g.source_summaries[quiet][0].len(), 1);
    assert_eq!(g.source_summaries[quiet][0][0].0, Target::GraphOutput(o));
}

#[test]
fn capabilities_reach_the_outputs_once_sealed() {
    let mut g = root();
    let _i = g.new_input();
    let o = g.new_output();
    let c = g.add_scope(1, 1, true);
    g.connect(Source::ScopeOutput(c, 0), Target::GraphOutput(o));
    let caps = vec![vec![vec![(p(2, 3), 1i64), (p(4, 0), 1i64)]]];
    let (_reach, work) = g.get_internal_summary(vec![local_summary(1, 1, 0)], &caps);
    let mut outer: Vec<u64> = work[0].iter().map(|(t, d)| {
        assert_eq!(*d, 1);
        *t
    }).collect();
    outer.sort();
    assert_eq!(outer, vec![2u64, 4u64]);
}
