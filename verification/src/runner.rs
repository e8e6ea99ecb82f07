//! A run: polls that stage predictions, ask for those that are looked for, and
//! settle groups, until the hypothesis is decided.
//!
//! A run takes no action of its own. [`Runner::wake`] and [`Asking::answer`] say
//! what to do next, and are told what came of it.

use vstd::prelude::*;
use crate::captures::{
    captured, is_captured, lemma_values_are, regexps_captures, resolved, values_are, CaptureStore,
};
use crate::hypothesis::{preorder, Prediction, RunConfig};
use crate::loki::{LogEntry, LokiError};
use crate::observation::{
    entries, result_trail, Audit, Entry, FailureReport, Observation, ObservationKind, RunResult,
};
use crate::order::{
    in_order, law_answer_keeps_order, law_settling_keeps_order, law_staging_keeps_order,
    lemma_first_entry, lemma_same_order, names_differ, orderly,
};
use crate::polling::{
    answer_captures, answer_of, answer_trail, answered_state, asks_for, captures_drawn, deadline_of,
    law_query, law_window_and_deadline, notes, plan_query, plus_duration, take_answer, time_after,
    Answer, Note, Query,
};
use crate::progress::{
    advances, failed_unit, filled_groups, follows, law_answer_advances, law_answer_keeps,
    law_first_failed_unit, law_refuted_has_culprit, law_settling_advances, law_settling_keeps,
    law_staging_advances, law_staging_keeps, law_verdict, lemma_failed_unit, lemma_same_tree,
    ordered, ordered_node, recorded, recorded_node, refuted, same_tree, satisfied, sound,
    sound_node, tells_begin, windowed,
};
use crate::pattern::regexps_of;
use crate::settling::{
    first_observed, is_clock, law_latest, lemma_first_observed, lemma_settled_children,
    observed_times, propagation_pass, settle_trail, settled, settled_state, states_of,
};
use crate::staging::{
    can_stage, expect_node, expecting_entry, expecting_pass, has_reference_times, lemma_named,
    lemma_named_same, named, stage_trail, staged, staged_state,
};
use crate::tally::{
    law_answer_tally, law_settling_tally, law_staging_tally, lemma_no_steps, lemma_update_steps,
    steps,
};
use crate::text::part_of;
use crate::time::{
    is_instant, law_moving_on_is_later, lemma_moved_is_instant, moved, precedes, shifted, Timestamp,
};
use crate::tree::{
    filled_alls, flattened, law_flattened_is_a_tree, law_table_mirrors_hypothesis,
    lemma_made_up_names_differ, node_name, node_table, shaped, table, KindView, Node, NodeKind,
    NodeState, NodeView, StateView,
};
use crate::validate::{is_bound, law_accepted_hypotheses, validation_issues};

verus! {

broadcast use vstd::string::group_string_axioms;

/// The model of a run.
pub struct RunView {
    /// What is being verified.
    pub hypothesis: Prediction,
    /// The time from which the root is looked for.
    pub t0: (int, int),
    pub base_query: Seq<char>,
    pub poll_interval_ms: u64,
    pub slack_ms: u64,
    /// What has become of the predictions.
    pub table: Seq<NodeView>,
    /// What has been captured from log lines.
    pub captures: Seq<(Seq<char>, Seq<char>)>,
    /// What has happened.
    pub trail: Seq<Entry>,
}

/// A run as it starts: the root is looked for from `t0`.
pub open spec fn begun(config: RunConfig, t0: (int, int)) -> RunView {
    let t = flattened(config.hypothesis@);
    RunView {
        hypothesis: config.hypothesis@,
        t0,
        base_query: config.source.base_query@,
        poll_interval_ms: config.poll_interval_ms,
        slack_ms: config.ingestion_slack_ms,
        table: t.update(0, NodeView { state: StateView::Expecting { at: t0 }, ..t[0] }),
        captures: seq![],
        trail: seq![expecting_entry(t[0].name, t0)],
    }
}

/// A run after staging.
pub open spec fn staged_run(v: RunView) -> RunView {
    RunView {
        table: staged(v.table),
        trail: v.trail + stage_trail(v.table, v.table.len() as int),
        ..v
    }
}

/// A run after the answer, at the time `now`, to `query` for unit `i`.
pub open spec fn answered_run(
    v: RunView,
    i: int,
    query: Query,
    answer: Answer,
    now: (int, int),
) -> RunView {
    RunView {
        table: v.table.update(
            i,
            NodeView {
                state: answered_state(
                    v.table[i].state->Expecting_at,
                    answer,
                    now,
                    query.deadline@,
                ),
                ..v.table[i]
            },
        ),
        captures: answer_captures(v.captures, query.pattern@, answer),
        trail: v.trail + answer_trail(v.table[i].name, answer, now, query.deadline@),
        ..v
    }
}

/// A run after settling, where `clock` gives the time at which each node was
/// settled.
pub open spec fn settled_run(v: RunView, clock: Seq<(int, int)>) -> RunView {
    RunView { table: settled(v.table), trail: v.trail + settle_trail(v.table, clock, 0), ..v }
}

/// What holds of a run at every point: it is about the predictions of the
/// hypothesis, every decision rests on its children, every search began in
/// order, and the trail tells all that has happened, once and in order.
pub open spec fn consistent(v: RunView) -> bool {
    &&& filled_alls(flattened(v.hypothesis))
    &&& same_tree(flattened(v.hypothesis), v.table)
    &&& sound(v.table)
    &&& ordered(v.table, v.t0)
    &&& recorded(v.table, v.trail)
    &&& v.trail.len() == steps(v.table, v.table.len() as int)
    &&& names_differ(v.table) ==> orderly(v.table, v.trail, v.t0)
    &&& windowed(v.table)
    &&& timed(v.table)
    &&& values_are(v.captures, |value: Seq<char>| seen(v.table, value))
}

/// Whether a value is part of a line that a unit was observed with.
pub open spec fn seen(t: Seq<NodeView>, value: Seq<char>) -> bool {
    exists|i: int|
        0 <= i < t.len() && (#[trigger] t[i]).kind is Unit && (
        t[i].state matches StateView::Observed { line: Some(line), .. } && part_of(value, line))
}

/// Whether the times of a state are instants.
pub open spec fn timed_state(state: StateView) -> bool {
    match state {
        StateView::Pending => true,
        StateView::Expecting { at } => is_instant(at),
        StateView::Observed { at, .. } => is_instant(at),
        StateView::Failed { expected_at } => is_instant(expected_at),
    }
}

/// Whether all times in a table are instants.
pub open spec fn timed(t: Seq<NodeView>) -> bool {
    forall|k: int| 0 <= k < t.len() ==> timed_state((#[trigger] t[k]).state)
}

/// Whether every `All` group of a hypothesis has a child.
pub open spec fn no_empty_all(p: Prediction) -> bool {
    forall|k: int|
        0 <= k < preorder(p).len() && (#[trigger] preorder(p)[k]) is All ==> preorder(
            p,
        )[k].children().len() > 0
}

/// The first unit, from node `from` on, that is looked for.
pub open spec fn sought(t: Seq<NodeView>, from: int) -> Option<int>
    decreases t.len() - from,
{
    if from >= t.len() {
        None
    } else if t[from].kind is Unit && t[from].state is Expecting {
        Some(from)
    } else {
        sought(t, from + 1)
    }
}

proof fn lemma_sought(t: Seq<NodeView>, from: int)
    requires
        0 <= from,
    ensures
        sought(t, from) matches Some(i) ==> from <= i < t.len() && t[i].kind is Unit
            && t[i].state is Expecting,
    decreases t.len() - from,
{
    if from < t.len() {
        lemma_sought(t, from + 1);
    }
}

proof fn lemma_same_tree_through(t: Seq<NodeView>, u: Seq<NodeView>, w: Seq<NodeView>)
    requires
        same_tree(t, u),
        same_tree(u, w),
    ensures
        same_tree(t, w),
{
    assert forall|k: int| 0 <= k < t.len() implies t[k].name == #[trigger] w[k].name && t[k].kind
        == w[k].kind && t[k].parent == w[k].parent by {
        assert(t[k].name == u[k].name);
    }
}

/// Names differ in one table where they do in another with the same predictions.
proof fn lemma_names_differ(t: Seq<NodeView>, u: Seq<NodeView>)
    requires
        same_tree(t, u),
        names_differ(t),
    ensures
        names_differ(u),
{
    assert forall|i: int, j: int| 0 <= i < j < u.len() implies (#[trigger] u[i]).name != (
    #[trigger] u[j]).name by {
        assert(t[i].name != t[j].name);
    }
}

/// The table of a run has the shape of the hypothesis.
proof fn lemma_consistent_shape(v: RunView)
    requires
        consistent(v),
    ensures
        shaped(v.table),
        filled_alls(v.table),
{
    law_flattened_is_a_tree(v.hypothesis);
    lemma_same_tree(flattened(v.hypothesis), v.table);
}

/// What was seen stays seen.
proof fn lemma_seen_stays(
    t: Seq<NodeView>,
    u: Seq<NodeView>,
    captures: Seq<(Seq<char>, Seq<char>)>,
)
    requires
        advances(t, u),
        values_are(captures, |value: Seq<char>| seen(t, value)),
    ensures
        values_are(captures, |value: Seq<char>| seen(u, value)),
{
    let sort = |value: Seq<char>| seen(u, value);
    assert forall|k: int| 0 <= k < captures.len() implies sort((#[trigger] captures[k]).1) by {
        let value = captures[k].1;
        assert(seen(t, value));
        let i = choose|i: int|
            0 <= i < t.len() && (#[trigger] t[i]).kind is Unit && (
            t[i].state matches StateView::Observed { line: Some(line), .. } && part_of(value, line));
        assert(follows(t[i].state, u[i].state));
        assert(u[i].kind is Unit);
    }
}

/// A run that starts is consistent.
pub proof fn law_begun_is_consistent(config: RunConfig, t0: (int, int))
    requires
        no_empty_all(config.hypothesis@),
        is_instant(t0),
    ensures
        consistent(begun(config, t0)),
{
    let p = config.hypothesis@;
    let t = flattened(p);
    let v = begun(config, t0);
    law_flattened_is_a_tree(p);
    lemma_no_steps(t, t.len() as int);
    lemma_update_steps(t, 0, v.table[0], t.len() as int);
    lemma_same_tree(t, v.table);
    if names_differ(v.table) {
        lemma_first_entry(v.table, t0);
    }
    assert forall|i: int| 0 <= i < t.len() && (#[trigger] t[i]).kind is All implies t[i].kind.children().len()
        > 0 by {
        assert(preorder(p)[i] is All);
    }
    assert forall|i: int| 0 <= i < v.table.len() implies #[trigger] sound_node(v.table, i) by {}
    assert forall|k: int| 0 <= k < v.table.len() implies #[trigger] ordered_node(v.table, t0, k) by {}
    assert forall|k: int| 0 <= k < v.table.len() implies #[trigger] recorded_node(
        v.table,
        v.trail,
        k,
    ) by {
        if k == 0 {
            assert(tells_begin(v.trail[0], v.table[0]));
        }
    }
}

/// The time from which a staged node is looked for is an instant.
proof fn lemma_staged_timed(t: Seq<NodeView>, k: int)
    requires
        shaped(t),
        timed(t),
        0 <= k < t.len(),
    ensures
        timed_state(staged_state(t, k)),
    decreases k,
{
    assert(timed_state(t[k].state));
    if let Some(q) = t[k].parent {
        assert(0 <= q < k);
        lemma_staged_timed(t, q);
        if let Some(name) = t[k].kind.after() {
            lemma_named(t, name);
            if let Some(i) = named(t, name) {
                assert(timed_state(t[i].state));
                if let StateView::Observed { at, .. } = t[i].state {
                    lemma_moved_is_instant(at, 1);
                }
            }
        }
    }
}

/// Staging keeps a run consistent.
pub proof fn law_staged_is_consistent(v: RunView)
    requires
        consistent(v),
    ensures
        consistent(staged_run(v)),
{
    let t = v.table;
    let u = staged(t);
    lemma_consistent_shape(v);
    law_staging_advances(t);
    law_staging_keeps(t, v.trail, v.t0);
    law_staging_tally(t);
    lemma_seen_stays(t, u, v.captures);
    if names_differ(u) {
        lemma_same_tree(t, u);
        lemma_names_differ(u, t);
        law_staging_keeps_order(t, v.trail, v.t0);
    }
    lemma_same_tree_through(flattened(v.hypothesis), t, u);
    assert forall|k: int| 0 <= k < u.len() implies ((#[trigger] u[k]).kind matches KindView::Unit {
        timeout_ms,
        ..
    } ==> (u[k].state matches StateView::Failed { expected_at } ==> time_after(
        expected_at,
        timeout_ms,
    ) is Some)) by {
        assert(u[k].state is Failed ==> u[k] == t[k]);
    }
    assert forall|k: int| 0 <= k < u.len() implies timed_state((#[trigger] u[k]).state) by {
        lemma_staged_timed(t, k);
    }
}

/// An answer keeps a run consistent.
pub proof fn law_answered_is_consistent(
    v: RunView,
    i: int,
    query: Query,
    answer: Answer,
    now: (int, int),
)
    requires
        consistent(v),
        0 <= i < v.table.len(),
        v.table[i].state is Expecting,
        v.table[i].kind matches KindView::Unit { pattern, timeout_ms, .. } && asks_for(
            query,
            pattern,
            timeout_ms,
            v.table[i].state->Expecting_at,
            v.base_query,
            v.slack_ms,
            v.captures,
        ),
        answer matches Answer::Found { at, .. } ==> is_instant(at),
        captures_drawn(query.pattern@, answer),
    ensures
        consistent(answered_run(v, i, query, answer, now)),
{
    let t = v.table;
    let u = answered_run(v, i, query, answer, now).table;
    lemma_consistent_shape(v);
    law_answer_advances(t, i, answer, now, query.deadline@);
    law_answer_keeps(t, v.trail, v.t0, i, answer, now, query.deadline@);
    law_answer_tally(t, i, answer, now, query.deadline@);
    lemma_seen_stays(t, u, v.captures);
    if let Answer::Found { line, .. } = answer {
        let new = regexps_captures(regexps_of(query.pattern@), line);
        let sort = |value: Seq<char>| seen(u, value);
        assert forall|k: int| 0 <= k < new.len() implies sort((#[trigger] new[k]).1) by {
            assert(part_of(new[k].1, line));
            assert(u[i].kind is Unit);
        }
        lemma_values_are(v.captures, new, sort);
    }
    if names_differ(u) {
        lemma_same_tree(t, u);
        lemma_names_differ(u, t);
        law_answer_keeps_order(t, v.trail, v.t0, i, answer, now, query.deadline@);
    }
    lemma_same_tree_through(flattened(v.hypothesis), t, u);
    assert forall|k: int| 0 <= k < u.len() implies ((#[trigger] u[k]).kind matches KindView::Unit {
        timeout_ms,
        ..
    } ==> (u[k].state matches StateView::Failed { expected_at } ==> time_after(
        expected_at,
        timeout_ms,
    ) is Some)) by {
        if k != i {
            assert(u[k] == t[k]);
        }
    }
}

/// The time of a settled group's observation is that of a unit.
proof fn lemma_settled_times(t: Seq<NodeView>, i: int)
    requires
        shaped(t),
        filled_alls(t),
        timed(t),
        0 <= i < t.len(),
    ensures
        timed_state(settled_state(t, i)),
    decreases t.len() - i,
{
    assert(timed_state(t[i].state));
    if settled_state(t, i) is Observed && settled_state(t, i) != t[i].state {
        let cs = t[i].kind.children();
        let states = states_of(settled(t), cs);
        lemma_settled_children(t, i);
        lemma_first_observed(states, 0);
        assert(t[i].kind is All ==> cs.len() > 0);
        let j = match t[i].kind {
            KindView::All { .. } => law_latest(observed_times(states)),
            _ => first_observed(states, 0)->Some_0,
        };
        let c = cs[j];
        assert(i < c < t.len());
        assert(states[j] is Observed);
        lemma_settled_times(t, c);
    }
}

/// Settling keeps a run consistent.
pub proof fn law_settled_is_consistent(v: RunView, clock: Seq<(int, int)>)
    requires
        consistent(v),
    ensures
        consistent(settled_run(v, clock)),
{
    let t = v.table;
    let u = settled(t);
    lemma_consistent_shape(v);
    law_settling_advances(t);
    law_settling_keeps(t, v.trail, v.t0, clock);
    law_settling_tally(t, clock);
    lemma_seen_stays(t, u, v.captures);
    if names_differ(u) {
        lemma_same_tree(t, u);
        lemma_names_differ(u, t);
        law_settling_keeps_order(t, v.trail, v.t0, clock);
    }
    lemma_same_tree_through(flattened(v.hypothesis), t, u);
    assert forall|k: int| 0 <= k < u.len() implies ((#[trigger] u[k]).kind matches KindView::Unit {
        timeout_ms,
        ..
    } ==> (u[k].state matches StateView::Failed { expected_at } ==> time_after(
        expected_at,
        timeout_ms,
    ) is Some)) by {
        assert(u[k].kind is Unit ==> u[k] == t[k]);
    }
    assert forall|k: int| 0 <= k < u.len() implies timed_state((#[trigger] u[k]).state) by {
        lemma_settled_times(t, k);
    }
}

/// A node and its siblings stand in the table.
proof fn lemma_siblings(nodes: Seq<Node>, i: int)
    requires
        shaped(table(nodes)),
        0 <= i < nodes.len(),
    ensures
        table(nodes)[i] == nodes[i]@,
        nodes[i].parent matches Some(q) ==> q < nodes.len() && (forall|j: int|
            0 <= j < nodes[q as int]@.kind.children().len() ==> 0 <= (
            #[trigger] nodes[q as int]@.kind.children()[j]) < nodes.len()),
{
    let t = table(nodes);
    assert(t.len() == nodes.len());
    if let Some(q) = nodes[i].parent {
        assert(t[i].parent == Some(q as int));
        assert(0 <= q < i);
        assert(t[q as int] == nodes[q as int]@);
        assert forall|j: int| 0 <= j < nodes[q as int]@.kind.children().len() implies 0 <= (
        #[trigger] nodes[q as int]@.kind.children()[j]) < nodes.len() by {
            assert(q < t[q as int].kind.children()[j] < t.len());
        }
    }
}

/// The search window of the unit to blame is within the time line.
proof fn lemma_culprit_window(v: RunView)
    requires
        consistent(v),
    ensures
        v.table.len() > 0,
        failed_unit(v.table, 0) matches Some(i) ==> (v.table[i].kind matches KindView::Unit {
            timeout_ms,
            ..
        } ==> (v.table[i].state matches StateView::Failed { expected_at } ==> time_after(
            expected_at,
            timeout_ms,
        ) is Some)),
{
    lemma_consistent_shape(v);
    lemma_failed_unit(v.table, 0);
}

/// Finds the unit to blame for the failure of a hypothesis, the first that was
/// given up: its name, its pattern, and the bounds of its search window. Where
/// only groups have failed, the root is named, with an empty window.
pub fn find_failed_unit(nodes: &Vec<Node>) -> (r: (String, String, Timestamp, Timestamp))
    requires
        nodes@.len() > 0,
        failed_unit(table(nodes@), 0) matches Some(i) ==> (
        table(nodes@)[i].kind matches KindView::Unit { timeout_ms, .. } ==> (
        table(nodes@)[i].state matches StateView::Failed { expected_at } ==> time_after(
            expected_at,
            timeout_ms,
        ) is Some)),
    ensures
        blames(r.0@, r.1@, r.2@, r.3@, table(nodes@)),
{
    let ghost t = table(nodes@);
    let mut i: usize = 0;
    while i < nodes.len()
        invariant
            i <= nodes@.len(),
            nodes@.len() > 0,
            t == table(nodes@),
            failed_unit(t, i as int) == failed_unit(t, 0),
            failed_unit(t, 0) matches Some(k) ==> (t[k].kind matches KindView::Unit {
                timeout_ms,
                ..
            } ==> (t[k].state matches StateView::Failed { expected_at } ==> time_after(
                expected_at,
                timeout_ms,
            ) is Some)),
        decreases nodes@.len() - i,
    {
        assert(t[i as int] == nodes@[i as int]@);
        match (&nodes[i].state, &nodes[i].kind) {
            (NodeState::Failed { expected_at }, NodeKind::Unit { pattern, timeout_ms, .. }) => {
                assert(failed_unit(t, i as int) == Some(i as int));
                if let Some(search_end) = plus_duration(expected_at, *timeout_ms) {
                    return (nodes[i].name.clone(), pattern.clone(), *expected_at, search_end);
                }
            },
            _ => {},
        }
        i = i + 1;
    }
    assert(t[0] == nodes@[0]@);
    let now = Timestamp::now();
    (nodes[0].name.clone(), String::new(), now, now)
}

/// Whether a failure is laid to the first unit of the table that was given up,
/// with its search window, or to the root where there is no such unit.
pub open spec fn blames(
    name: Seq<char>,
    pattern: Seq<char>,
    start: (int, int),
    end: (int, int),
    t: Seq<NodeView>,
) -> bool {
    match failed_unit(t, 0) {
        Some(i) => {
            &&& name == t[i].name
            &&& pattern == t[i].kind->Unit_pattern
            &&& start == t[i].state->Failed_expected_at
            &&& time_after(start, t[i].kind->Unit_timeout_ms) == Some(end)
        },
        None => name == t[0].name && pattern.len() == 0 && start == end,
    }
}

/// A run between two polls.
pub struct Runner {
    hypothesis: Ghost<Prediction>,
    t0: Ghost<(int, int)>,
    base_query: String,
    poll_interval_ms: u64,
    slack_ms: u64,
    nodes: Vec<Node>,
    captures: CaptureStore,
    observations: Vec<Observation>,
}

impl View for Runner {
    type V = RunView;

    closed spec fn view(&self) -> RunView {
        RunView {
            hypothesis: self.hypothesis@,
            t0: self.t0@,
            base_query: self.base_query@,
            poll_interval_ms: self.poll_interval_ms,
            slack_ms: self.slack_ms,
            table: table(self.nodes@),
            captures: self.captures@,
            trail: entries(self.observations@),
        }
    }
}

/// A run that waits for the answer to a query.
pub struct Asking {
    runner: Runner,
    node: usize,
    expected_at: Timestamp,
    query: Query,
    now: Timestamp,
}

impl Asking {
    /// The run.
    pub closed spec fn run(self) -> RunView {
        self.runner@
    }

    /// The unit that is asked for.
    pub closed spec fn unit(self) -> int {
        self.node as int
    }

    /// What is asked.
    pub closed spec fn asked(self) -> Query {
        self.query
    }

    /// The time of the poll.
    pub closed spec fn polled_at(self) -> (int, int) {
        self.now@
    }
}

/// What to do next.
pub enum Step {
    /// Send the query, and hand on what comes back.
    Ask(Asking),
    /// Wait for the poll interval, and wake the run.
    Rest(Runner),
    /// The hypothesis is decided.
    Done(RunResult),
    /// A search window leaves the time line, or begins behind it: there is no way
    /// to go on.
    Beyond,
}

/// Whether a step is the right one at the end of a poll, once groups are settled:
/// to report the verdict on the root, or to wait for the next poll.
pub open spec fn ends_poll(step: Step, v: RunView) -> bool {
    match v.table[0].state {
        StateView::Failed { .. } => {
            &&& step matches Step::Done(RunResult::Fail(report))
            &&& blames(
                report.failed_prediction@,
                report.pattern@,
                report.search_start@,
                report.search_end@,
                v.table,
            )
            &&& entries(report.audit.observations@) == v.trail
        },
        StateView::Observed { .. } => {
            &&& step matches Step::Done(RunResult::Pass(audit))
            &&& entries(audit.observations@) == v.trail
        },
        _ => step matches Step::Rest(runner) && runner@ == v,
    }
}

/// Whether a step is the right one in a poll at the time `now` in which the units
/// before `from` have been asked for: to ask for the next unit that is looked
/// for, and where there is none, to settle the groups and end the poll.
pub open spec fn goes_on(step: Step, v: RunView, now: (int, int), from: int) -> bool {
    match sought(v.table, from) {
        Some(i) => {
            let at = v.table[i].state->Expecting_at;
            let pattern = v.table[i].kind->Unit_pattern;
            let timeout_ms = v.table[i].kind->Unit_timeout_ms;
            match deadline_of(at, timeout_ms, v.slack_ms) {
                Some(_) => {
                    &&& step matches Step::Ask(asking)
                    &&& asking.run() == v
                    &&& asking.unit() == i
                    &&& asking.polled_at() == now
                    &&& asks_for(
                        asking.asked(),
                        pattern,
                        timeout_ms,
                        at,
                        v.base_query,
                        v.slack_ms,
                        v.captures,
                    )
                },
                None => step is Beyond,
            }
        },
        None => exists|clock: Seq<(int, int)>|
            is_clock(clock, v.table.len()) && #[trigger] ends_poll(step, settled_run(v, clock)),
    }
}

impl Runner {
    #[verifier::type_invariant]
    spec fn valid(self) -> bool {
        consistent(self@)
    }

    /// A run of the configured hypothesis that starts at `t0`.
    pub fn new(config: &RunConfig, t0: Timestamp) -> (r: Runner)
        requires
            no_empty_all(config.hypothesis@),
        ensures
            r@ == begun(*config, t0@),
            consistent(r@),
    {
        let mut nodes = node_table(&config.hypothesis);
        let mut observations: Vec<Observation> = Vec::new();
        proof {
            use_type_invariant(&t0);
            law_flattened_is_a_tree(config.hypothesis@);
            law_begun_is_consistent(*config, t0@);
            assert(table(nodes@).len() == nodes@.len());
            assert(table(nodes@)[0] == nodes@[0]@);
            assert(entries(observations@) =~= Seq::<Entry>::empty());
        }
        expect_node(&mut nodes, 0, t0, &mut observations);
        assert(entries(observations@) =~= begun(*config, t0@).trail);
        Runner {
            hypothesis: Ghost(config.hypothesis@),
            t0: Ghost(t0@),
            base_query: config.source.base_query.clone(),
            poll_interval_ms: config.poll_interval_ms,
            slack_ms: config.ingestion_slack_ms,
            nodes,
            captures: CaptureStore::new(),
            observations,
        }
    }

    /// How long to wait between two polls, in milliseconds.
    pub fn poll_interval_ms(&self) -> (r: u64)
        ensures
            r == self@.poll_interval_ms,
    {
        self.poll_interval_ms
    }

    /// Begins a poll at the time `now`.
    pub fn wake(self, now: Timestamp) -> (step: Step)
        ensures
            can_stage(self@.table) ==> goes_on(step, staged_run(self@), now@, 0),
            !can_stage(self@.table) ==> step is Beyond,
            consistent(staged_run(self@)),
    {
        proof {
            use_type_invariant(&self);
            lemma_consistent_shape(self@);
            law_staged_is_consistent(self@);
        }
        let ghost v = self@;
        let Runner {
            hypothesis,
            t0,
            base_query,
            poll_interval_ms,
            slack_ms,
            nodes,
            captures,
            observations,
        } = self;
        if !has_reference_times(&nodes) {
            return Step::Beyond;
        }
        let mut nodes = nodes;
        let mut observations = observations;
        expecting_pass(&mut nodes, &mut observations);
        let runner = Runner {
            hypothesis,
            t0,
            base_query,
            poll_interval_ms,
            slack_ms,
            nodes,
            captures,
            observations,
        };
        assert(runner@ == staged_run(v));
        runner.go_on(now, 0)
    }

    /// Goes on with a poll in which the units before `from` have been asked for.
    fn go_on(self, now: Timestamp, from: usize) -> (step: Step)
        requires
            from <= self@.table.len(),
        ensures
            goes_on(step, self@, now@, from as int),
    {
        proof {
            use_type_invariant(&self);
        }
        let ghost v = self@;
        let ghost t = v.table;
        assert(t.len() == self.nodes@.len());
        let mut i: usize = from;
        while i < self.nodes.len()
            invariant
                v == self@,
                t == table(self.nodes@),
                v.table == t,
                i <= self.nodes@.len(),
                sought(t, i as int) == sought(t, from as int),
                consistent(v),
            decreases self.nodes@.len() - i,
        {
            assert(t[i as int] == self.nodes@[i as int]@);
            match (&self.nodes[i].state, &self.nodes[i].kind) {
                (NodeState::Expecting { at }, NodeKind::Unit { pattern, timeout_ms, .. }) => {
                    let expected_at = *at;
                    let planned = plan_query(
                        pattern.as_str(),
                        *timeout_ms,
                        at,
                        self.base_query.as_str(),
                        self.slack_ms,
                        &self.captures,
                    );
                    return match planned {
                        Some(query) => Step::Ask(
                            Asking { runner: self, node: i, expected_at, query, now },
                        ),
                        None => Step::Beyond,
                    };
                },
                _ => {},
            }
            i = i + 1;
        }
        self.end_poll()
    }

    /// Ends a poll: settles the groups, and reads the verdict off the root.
    #[verifier::spinoff_prover]
    fn end_poll(self) -> (step: Step)
        ensures
            exists|clock: Seq<(int, int)>|
                is_clock(clock, self@.table.len()) && #[trigger] ends_poll(
                    step,
                    settled_run(self@, clock),
                ),
    {
        proof {
            use_type_invariant(&self);
            lemma_consistent_shape(self@);
        }
        let ghost v = self@;
        let Runner {
            hypothesis,
            t0,
            base_query,
            poll_interval_ms,
            slack_ms,
            nodes,
            captures,
            observations,
        } = self;
        let mut nodes = nodes;
        let mut observations = observations;
        let ghost before = entries(observations@);
        let ghost t = table(nodes@);
        propagation_pass(&mut nodes, &mut observations);
        let ghost clock = choose|clock: Seq<(int, int)>|
            is_clock(clock, t.len()) && entries(observations@) == before + #[trigger] settle_trail(
                t,
                clock,
                0,
            );
        let ghost w = settled_run(v, clock);
        proof {
            law_settled_is_consistent(v, clock);
            lemma_culprit_window(w);
            assert(table(nodes@) == w.table);
            assert(table(nodes@).len() == nodes@.len());
            assert(w.table[0] == nodes@[0]@);
        }
        let verdict: Option<bool> = match &nodes[0].state {
            NodeState::Failed { .. } => Some(false),
            NodeState::Observed { .. } => Some(true),
            _ => None,
        };
        let step = match verdict {
            Some(false) => {
                let (failed_prediction, pattern, search_start, search_end) = find_failed_unit(
                    &nodes,
                );
                Step::Done(
                    RunResult::Fail(
                        FailureReport {
                            failed_prediction,
                            pattern,
                            search_start,
                            search_end,
                            audit: Audit { observations },
                        },
                    ),
                )
            },
            Some(true) => Step::Done(RunResult::Pass(Audit { observations })),
            None => Step::Rest(
                Runner {
                    hypothesis,
                    t0,
                    base_query,
                    poll_interval_ms,
                    slack_ms,
                    nodes,
                    captures,
                    observations,
                },
            ),
        };
        assert(ends_poll(step, w));
        step
    }
}

impl Asking {
    #[verifier::type_invariant]
    spec fn valid(self) -> bool {
        &&& consistent(self.runner@)
        &&& self.node < self.runner@.table.len()
        &&& self.runner@.table[self.node as int].state == (StateView::Expecting {
            at: self.expected_at@,
        })
        &&& self.runner@.table[self.node as int].kind matches KindView::Unit {
            pattern,
            timeout_ms,
            ..
        } && asks_for(
            self.query,
            pattern,
            timeout_ms,
            self.expected_at@,
            self.runner@.base_query,
            self.runner@.slack_ms,
            self.runner@.captures,
        )
    }

    /// What to ask.
    pub fn query(&self) -> (r: &Query)
        ensures
            *r == self.asked(),
    {
        &self.query
    }

    /// The name of the prediction that is asked for.
    pub fn prediction(&self) -> (r: String)
        ensures
            r@ == self.run().table[self.unit()].name,
    {
        proof {
            use_type_invariant(self);
            assert(table(self.runner.nodes@)[self.node as int] == self.runner.nodes@[self.node as int]@);
        }
        self.runner.nodes[self.node].name.clone()
    }

    /// Goes on with what came back for the query.
    pub fn answer(self, reply: Result<Option<LogEntry>, LokiError>) -> (r: (Note, Step))
        ensures
            ({
                let v = answered_run(
                    self.run(),
                    self.unit(),
                    self.asked(),
                    answer_of(reply),
                    self.polled_at(),
                );
                &&& goes_on(r.1, v, self.polled_at(), self.unit() + 1)
                &&& consistent(v)
                &&& notes(
                    r.0,
                    v.table,
                    self.unit(),
                    answer_of(reply),
                    self.polled_at(),
                    self.asked().deadline@,
                )
            }),
    {
        if let Ok(Some(entry)) = &reply {
            proof {
                use_type_invariant(&entry.timestamp);
            }
        }
        proof {
            use_type_invariant(&self);
            lemma_consistent_shape(self.runner@);
        }
        let ghost before = self.runner@;
        let ghost answer = answer_of(reply);
        let ghost v = answered_run(
            self.runner@,
            self.node as int,
            self.query,
            answer_of(reply),
            self.now@,
        );
        let Asking { runner, node, expected_at, query, now } = self;
        let Runner {
            hypothesis,
            t0,
            base_query,
            poll_interval_ms,
            slack_ms,
            nodes,
            captures,
            observations,
        } = runner;
        let mut nodes = nodes;
        let mut observations = observations;
        let mut captures = captures;
        proof {
            lemma_siblings(nodes@, node as int);
        }
        let note = take_answer(
            &mut nodes,
            node,
            expected_at,
            &query,
            now,
            reply,
            &mut captures,
            &mut observations,
        );
        proof {
            law_answered_is_consistent(before, node as int, query, answer, now@);
            assert(table(nodes@).len() == nodes@.len() && node < nodes.len());
        }
        let runner = Runner {
            hypothesis,
            t0,
            base_query,
            poll_interval_ms,
            slack_ms,
            nodes,
            captures,
            observations,
        };
        assert(runner@ == v);
        let step = runner.go_on(now, node + 1);
        (note, step)
    }
}

/// Verdicts rest on the units alone.
proof fn lemma_same_verdict(t: Seq<NodeView>, u: Seq<NodeView>, i: int)
    requires
        shaped(t),
        same_tree(t, u),
        forall|k: int| 0 <= k < t.len() && (#[trigger] t[k]).kind is Unit ==> t[k] == u[k],
        0 <= i < t.len(),
    ensures
        satisfied(t, i) == satisfied(u, i),
        refuted(t, i) == refuted(u, i),
    decreases t.len() - i,
{
    let cs = t[i].kind.children();
    assert(t[i].kind == u[i].kind);
    assert forall|j: int| 0 <= j < cs.len() implies {
        &&& i < #[trigger] cs[j] < t.len()
        &&& satisfied(t, cs[j]) == satisfied(u, cs[j])
        &&& refuted(t, cs[j]) == refuted(u, cs[j])
    } by {
        let c = cs[j];
        assert(i < c < t.len());
        lemma_same_verdict(t, u, c);
    }
    match t[i].kind {
        KindView::Unit { .. } => {},
        KindView::All { .. } => {
            if refuted(t, i) {
                let j = choose|j: int|
                    0 <= j < cs.len() && i < #[trigger] cs[j] < t.len() && refuted(t, cs[j]);
                assert(i < cs[j] < u.len() && refuted(u, cs[j]));
            }
            if refuted(u, i) {
                let j = choose|j: int|
                    0 <= j < cs.len() && i < #[trigger] cs[j] < u.len() && refuted(u, cs[j]);
                assert(i < cs[j] < t.len() && refuted(t, cs[j]));
            }
        },
        KindView::Any { .. } => {
            if satisfied(t, i) {
                let j = choose|j: int|
                    0 <= j < cs.len() && i < #[trigger] cs[j] < t.len() && satisfied(t, cs[j]);
                assert(i < cs[j] < u.len() && satisfied(u, cs[j]));
            }
            if satisfied(u, i) {
                let j = choose|j: int|
                    0 <= j < cs.len() && i < #[trigger] cs[j] < u.len() && satisfied(u, cs[j]);
                assert(i < cs[j] < t.len() && satisfied(t, cs[j]));
            }
        },
    }
}

/// A run passes if and only if the hypothesis is satisfied by the units that
/// were observed, fails if and only if it is refuted by those that were given
/// up, and goes on as long as it is neither. Its audit trail is what has
/// happened so far and what settling adds, and tells all of it, once; and the
/// failure is laid to a unit that was given up.
pub proof fn law_run_verdict(step: Step, v: RunView, now: (int, int), from: int)
    requires
        consistent(v),
        filled_groups(flattened(v.hypothesis)),
        0 <= from,
        goes_on(step, v, now, from),
        sought(v.table, from) is None,
    ensures
        match step {
            Step::Done(RunResult::Pass(audit)) => {
                &&& satisfied(v.table, 0)
                &&& v.trail.is_prefix_of(entries(audit.observations@))
                &&& recorded(settled(v.table), entries(audit.observations@))
                &&& audit.observations@.len() == steps(settled(v.table), v.table.len() as int)
            },
            Step::Done(RunResult::Fail(report)) => {
                &&& refuted(v.table, 0)
                &&& v.trail.is_prefix_of(entries(report.audit.observations@))
                &&& recorded(settled(v.table), entries(report.audit.observations@))
                &&& report.audit.observations@.len() == steps(
                    settled(v.table),
                    v.table.len() as int,
                )
                &&& failed_unit(v.table, 0) matches Some(i)
                &&& report.failed_prediction@ == v.table[i].name
                &&& report.pattern@ == v.table[i].kind->Unit_pattern
            },
            Step::Rest(runner) => !satisfied(v.table, 0) && !refuted(v.table, 0) && consistent(
                runner@,
            ),
            _ => false,
        },
{
    let t = v.table;
    let u = settled(t);
    let clock = choose|clock: Seq<(int, int)>|
        is_clock(clock, v.table.len()) && #[trigger] ends_poll(step, settled_run(v, clock));
    let w = settled_run(v, clock);
    lemma_consistent_shape(v);
    law_settled_is_consistent(v, clock);
    lemma_same_tree(flattened(v.hypothesis), t);
    law_settling_advances(t);
    assert forall|k: int| 0 <= k < t.len() && (#[trigger] t[k]).kind is Unit implies t[k] == u[k] by {
        assert(u[k].kind is Unit);
    }
    lemma_same_verdict(t, u, 0);
    law_verdict(t, v.t0, 0);
    lemma_same_failed_unit(t, u, 0);
    if refuted(t, 0) {
        law_refuted_has_culprit(t, 0);
        lemma_failed_unit(t, 0);
        let i = failed_unit(t, 0)->Some_0;
        assert(t[i] == u[i]);
    }
    assert(v.trail.is_prefix_of(w.trail));
}

proof fn lemma_same_failed_unit(t: Seq<NodeView>, u: Seq<NodeView>, from: int)
    requires
        0 <= from,
        same_tree(t, u),
        forall|k: int| 0 <= k < t.len() && (#[trigger] t[k]).kind is Unit ==> t[k] == u[k],
    ensures
        failed_unit(t, from) == failed_unit(u, from),
    decreases t.len() - from,
{
    if from < t.len() {
        assert(t[from].kind == u[from].kind);
        lemma_same_failed_unit(t, u, from + 1);
    }
}

/// A unit is asked for from the time it is looked for. Where it waits for
/// another prediction, that has been observed, and the range that is searched
/// begins just past the observation: its log line is not matched again.
pub proof fn law_search_starts_past_what_it_waits_for(
    step: Step,
    v: RunView,
    now: (int, int),
    from: int,
    name: Seq<char>,
)
    requires
        consistent(v),
        0 <= from,
        goes_on(step, v, now, from),
        step matches Step::Ask(asking) && v.table[asking.unit()].kind.after() == Some(name)
            && v.table[asking.unit()].parent is Some,
    ensures
        named(v.table, name) matches Some(m) && v.table[m].state matches StateView::Observed {
            at,
            ..
        } && precedes(at, step->Ask_0.asked().start@) && step->Ask_0.asked().start@ == moved(at, 1),
{
    lemma_sought(v.table, from);
    let i = step->Ask_0.unit();
    assert(ordered_node(v.table, v.t0, i));
    lemma_named(v.table, name);
    let m = named(v.table, name)->Some_0;
    assert(timed_state(v.table[m].state));
    law_moving_on_is_later(v.table[m].state->Observed_at, 1);
}

/// Every captured value is part of a log line that a unit was observed with.
pub proof fn law_captures_come_from_observed_lines(v: RunView, name: Seq<char>)
    requires
        consistent(v),
    ensures
        captured(v.captures, name) matches Some(value) ==> seen(v.table, value),
{
    if is_captured(v.captures, name) {
        let i = choose|i: int|
            0 <= i < v.captures.len() && (#[trigger] v.captures[i]).0 == name;
        assert(seen(v.table, v.captures[i].1));
    }
}

/// An answer that decides nothing, an error or no match before the deadline,
/// leaves the run as it was.
pub proof fn law_undecided_answer_changes_nothing(
    v: RunView,
    i: int,
    query: Query,
    answer: Answer,
    now: (int, int),
)
    requires
        0 <= i < v.table.len(),
        v.table[i].state is Expecting,
        answer is Error || (answer is Nothing && !precedes(query.deadline@, now)),
    ensures
        answered_run(v, i, query, answer, now) == v,
{
    let w = answered_run(v, i, query, answer, now);
    assert(w.table =~= v.table);
    assert(w.trail =~= v.trail);
}

/// What is in the audit trail stays there.
pub proof fn law_trail_only_grows(
    v: RunView,
    i: int,
    query: Query,
    answer: Answer,
    now: (int, int),
    clock: Seq<(int, int)>,
)
    ensures
        v.trail.is_prefix_of(staged_run(v).trail),
        v.trail.is_prefix_of(answered_run(v, i, query, answer, now).trail),
        v.trail.is_prefix_of(settled_run(v, clock).trail),
{
}

/// Whether the bindings of a hypothesis differ from the names that are made up
/// for its predictions without one.
pub open spec fn bindings_stand_out(p: Prediction) -> bool {
    forall|m: int, j: int|
        #![trigger preorder(p)[m], preorder(p)[j]]
        0 <= m < preorder(p).len() && 0 <= j < preorder(p).len() && preorder(p)[m].binding() is Some
            && preorder(p)[j].binding() is None ==> preorder(p)[m].binding() != Some(
            node_name(preorder(p), j),
        )
}

/// A hypothesis that validation accepts can be run: no group is empty. Where its
/// bindings differ from made-up names, every `after` leads to the prediction
/// with that binding, which comes before the one that waits.
pub proof fn law_accepted_hypotheses_can_run(p: Prediction)
    requires
        validation_issues(p).len() == 0,
    ensures
        no_empty_all(p),
        filled_groups(flattened(p)),
        bindings_stand_out(p) ==> forall|k: int|
            0 <= k < flattened(p).len() ==> ((#[trigger] flattened(p)[k]).kind.after() matches Some(
                name,
            ) ==> (named(flattened(p), name) matches Some(m) && m < k && preorder(p)[m].binding()
                == Some(name))),
{
    let ns = preorder(p);
    let t = flattened(p);
    law_accepted_hypotheses(p);
    assert forall|i: int| 0 <= i < t.len() && !((#[trigger] t[i]).kind is Unit) implies t[i].kind.children().len()
        > 0 by {
        assert(!(ns[i] is Unit));
    }
    if bindings_stand_out(p) {
        assert forall|k: int| 0 <= k < t.len() implies ((#[trigger] t[k]).kind.after() matches Some(
            name,
        ) ==> (named(t, name) matches Some(m) && m < k && ns[m].binding() == Some(name))) by {
            if let Some(name) = t[k].kind.after() {
                assert(ns[k].after() == Some(name));
                assert(is_bound(ns.take(k), name));
                let j = choose|j: int|
                    0 <= j < ns.take(k).len() && (#[trigger] ns.take(k)[j]).binding() == Some(name);
                assert(ns[j].binding() == Some(name));
                assert(t[j].name == name);
                lemma_named(t, name);
                let m = named(t, name)->Some_0;
                assert(t[m].name == name);
                if ns[m].binding() is None {
                    assert(node_name(ns, m) == name);
                    assert(ns[j].binding() != Some(node_name(ns, m)));
                }
                assert(ns[m].binding() == Some(name));
                if j < m {
                    assert(ns[j].binding() != ns[m].binding());
                }
            }
        }
    }
}

/// In a hypothesis that validation accepts, and whose bindings differ from
/// made-up names, no two predictions have the same name.
pub proof fn law_accepted_names_differ(p: Prediction)
    requires
        validation_issues(p).len() == 0,
        bindings_stand_out(p),
    ensures
        names_differ(flattened(p)),
{
    let ns = preorder(p);
    let t = flattened(p);
    law_accepted_hypotheses(p);
    assert forall|i: int, j: int| 0 <= i < j < t.len() implies (#[trigger] t[i]).name != (
    #[trigger] t[j]).name by {
        assert(t[i].name == node_name(ns, i));
        assert(t[j].name == node_name(ns, j));
        if ns[i].binding() is Some && ns[j].binding() is Some {
            assert(ns[j].binding() != ns[i].binding());
        } else if ns[i].binding() is None && ns[j].binding() is None {
            lemma_made_up_names_differ(ns, i, j);
        } else if ns[i].binding() is Some {
            assert(ns[i].binding() != Some(node_name(ns, j)));
        } else {
            assert(ns[j].binding() != Some(node_name(ns, i)));
        }
    }
}

/// The audit trail of a run of an accepted hypothesis is in order: it starts with
/// the root at `t0`; each prediction has at most one entry with which the search
/// for it begins and one with which that ends, the latter behind the former; a
/// child is looked for behind its parent and not behind the end of its parent;
/// and what waits for another prediction is looked for behind the observation of
/// that, dated one nanosecond later.
pub proof fn law_audit_is_in_order(step: Step, v: RunView, now: (int, int), from: int)
    requires
        consistent(v),
        validation_issues(v.hypothesis).len() == 0,
        bindings_stand_out(v.hypothesis),
        goes_on(step, v, now, from),
    ensures
        step matches Step::Done(result) ==> in_order(
            flattened(v.hypothesis),
            result_trail(result),
            v.t0,
        ),
        step matches Step::Rest(runner) ==> in_order(
            flattened(v.hypothesis),
            runner@.trail,
            v.t0,
        ),
{
    if sought(v.table, from) is None {
        let h = flattened(v.hypothesis);
        let clock = choose|clock: Seq<(int, int)>|
            is_clock(clock, v.table.len()) && #[trigger] ends_poll(step, settled_run(v, clock));
        let w = settled_run(v, clock);
        law_settled_is_consistent(v, clock);
        law_accepted_names_differ(v.hypothesis);
        law_flattened_is_a_tree(v.hypothesis);
        lemma_names_differ(h, w.table);
        lemma_same_tree(h, w.table);
        reveal(orderly);
        lemma_same_order(w.table, h, w.trail, v.t0);
    }
}

/// A run starts with the settings of its configuration, nothing captured, and the
/// root looked for from `t0`, which is all that the trail tells; everything else
/// is pending.
pub proof fn law_begun(config: RunConfig, t0: (int, int))
    ensures
        ({
            let v = begun(config, t0);
            &&& v.hypothesis == config.hypothesis@
            &&& v.t0 == t0
            &&& v.base_query == config.source.base_query@
            &&& v.poll_interval_ms == config.poll_interval_ms
            &&& v.slack_ms == config.ingestion_slack_ms
            &&& v.captures.len() == 0
            &&& v.table.len() == preorder(config.hypothesis@).len()
            &&& v.table.len() > 0
            &&& v.table[0].state == (StateView::Expecting { at: t0 })
            &&& forall|k: int|
                0 <= k < v.table.len() ==> {
                    let node = flattened(config.hypothesis@)[k];
                    &&& (#[trigger] v.table[k]).name == node.name
                    &&& v.table[k].kind == node.kind
                    &&& v.table[k].parent == node.parent
                    &&& k > 0 ==> v.table[k].state is Pending
                }
            &&& v.trail.len() == 1
            &&& v.trail[0] == (Entry {
                kind: ObservationKind::Expecting,
                prediction: v.table[0].name,
                timestamp: t0,
                log_line: None,
            })
        }),
{
    law_flattened_is_a_tree(config.hypothesis@);
}

/// Nothing in a run changes what it was configured with. Staging and settling
/// capture nothing, and an answer changes no node but the one that was asked for.
pub proof fn law_settings_stay(
    v: RunView,
    i: int,
    query: Query,
    answer: Answer,
    now: (int, int),
    clock: Seq<(int, int)>,
    w: RunView,
)
    requires
        0 <= i < v.table.len(),
        w == staged_run(v) || w == answered_run(v, i, query, answer, now) || w == settled_run(
            v,
            clock,
        ),
    ensures
        w.hypothesis == v.hypothesis,
        w.t0 == v.t0,
        w.base_query == v.base_query,
        w.poll_interval_ms == v.poll_interval_ms,
        w.slack_ms == v.slack_ms,
        w.table.len() == v.table.len(),
        w == staged_run(v) ==> w.captures == v.captures && w.table == staged(v.table),
        w == settled_run(v, clock) ==> w.captures == v.captures && w.table == settled(v.table),
        w == answered_run(v, i, query, answer, now) ==> {
            &&& forall|k: int| 0 <= k < v.table.len() && k != i ==> #[trigger] w.table[k] == v.table[k]
            &&& w.table[i].name == v.table[i].name
            &&& w.table[i].kind == v.table[i].kind
            &&& w.table[i].parent == v.table[i].parent
            &&& w.table[i].state == answered_state(
                v.table[i].state->Expecting_at,
                answer,
                now,
                query.deadline@,
            )
            &&& w.captures == answer_captures(v.captures, query.pattern@, answer)
            &&& w.trail == v.trail + answer_trail(v.table[i].name, answer, now, query.deadline@)
        },
{
}

/// The unit that is asked for next is the first that is looked for, and there is
/// none only where no unit is.
pub proof fn law_first_sought(t: Seq<NodeView>, from: int)
    requires
        0 <= from,
    ensures
        match sought(t, from) {
            Some(i) => {
                &&& from <= i < t.len()
                &&& t[i].kind is Unit && t[i].state is Expecting
                &&& forall|k: int|
                    from <= k < i ==> !((#[trigger] t[k]).kind is Unit && t[k].state is Expecting)
            },
            None => forall|k: int|
                from <= k < t.len() ==> !((#[trigger] t[k]).kind is Unit && t[k].state is Expecting),
        },
    decreases t.len() - from,
{
    if from < t.len() && !(t[from].kind is Unit && t[from].state is Expecting) {
        law_first_sought(t, from + 1);
    }
}

/// Node `k` of a run is prediction `k` of its hypothesis.
proof fn lemma_run_mirrors_hypothesis(v: RunView, k: int)
    requires
        consistent(v),
        0 <= k < v.table.len(),
    ensures
        v.table.len() == preorder(v.hypothesis).len(),
        v.table[k].kind.after() == preorder(v.hypothesis)[k].after(),
        v.table[k].kind is Unit <==> preorder(v.hypothesis)[k] is Unit,
        preorder(v.hypothesis)[k] matches Prediction::Unit { pattern, after, timeout_ms, .. }
            ==> v.table[k].kind == (KindView::Unit { pattern, after, timeout_ms }),
        k > 0 ==> v.table[k].parent is Some,
{
    assert(flattened(v.hypothesis).len() == v.table.len());
    law_table_mirrors_hypothesis(v.hypothesis, k);
    assert(flattened(v.hypothesis)[k].kind == v.table[k].kind);
}

/// What is asked in a poll: every unit of the hypothesis that is looked for, in
/// order. The query for one searches, from the time it is looked for and for as
/// long as its timeout says, for the base query and its pattern with everything
/// captured so far filled in; and it can be given up the configured slack after
/// the end of that window. Only where that leaves the time line is there no query.
pub proof fn law_what_is_asked(step: Step, v: RunView, now: (int, int), from: int)
    requires
        consistent(v),
        0 <= from,
        goes_on(step, v, now, from),
    ensures
        v.table.len() == preorder(v.hypothesis).len(),
        step matches Step::Ask(asking) ==> {
            let i = asking.unit();
            let query = asking.asked();
            &&& from <= i < v.table.len()
            &&& asking.run() == v
            &&& asking.polled_at() == now
            &&& forall|k: int|
                from <= k < i ==> !(preorder(v.hypothesis)[k] is Unit && (
                #[trigger] v.table[k]).state is Expecting)
            &&& v.table[i].state == (StateView::Expecting { at: query.start@ })
            &&& preorder(v.hypothesis)[i] matches Prediction::Unit { pattern, timeout_ms, .. }
            &&& query.pattern@ == resolved(pattern, v.captures)
            &&& query.text@ == v.base_query + seq![' '] + resolved(pattern, v.captures)
            &&& shifted(query.start@, timeout_ms * 1_000_000) == Some(query.end@)
            &&& shifted(query.end@, v.slack_ms * 1_000_000) == Some(query.deadline@)
        },
        !(step is Ask || step is Beyond) ==> forall|k: int|
            from <= k < v.table.len() ==> !(preorder(v.hypothesis)[k] is Unit && (
            #[trigger] v.table[k]).state is Expecting),
        step is Beyond ==> exists|i: int|
            #![trigger v.table[i]]
            from <= i < v.table.len() && v.table[i].state is Expecting && (
            preorder(v.hypothesis)[i] matches Prediction::Unit { timeout_ms, .. } && (match shifted(
                v.table[i].state->Expecting_at,
                timeout_ms * 1_000_000,
            ) {
                Some(end) => shifted(end, v.slack_ms * 1_000_000) is None,
                None => true,
            })),
{
    let t = v.table;
    law_table_mirrors_hypothesis(v.hypothesis, 0);
    law_first_sought(t, from);
    assert forall|k: int| 0 <= k < t.len() implies (preorder(v.hypothesis)[k] is Unit <==> (
    #[trigger] t[k]).kind is Unit) by {
        lemma_run_mirrors_hypothesis(v, k);
    }
    if let Some(i) = sought(t, from) {
        let at = t[i].state->Expecting_at;
        lemma_run_mirrors_hypothesis(v, i);
        law_window_and_deadline(at, t[i].kind->Unit_timeout_ms, v.slack_ms);
        if let Step::Ask(asking) = step {
            law_query(
                asking.asked(),
                t[i].kind->Unit_pattern,
                t[i].kind->Unit_timeout_ms,
                at,
                v.base_query,
                v.slack_ms,
                v.captures,
            );
        }
    }
}

/// No prediction that waits for a binding is looked for, nor has been, unless the
/// prediction with that binding has been observed; and the search for it starts
/// one nanosecond past that observation.
pub proof fn law_nothing_runs_ahead(v: RunView, k: int, name: Seq<char>)
    requires
        consistent(v),
        validation_issues(v.hypothesis).len() == 0,
        bindings_stand_out(v.hypothesis),
        0 < k < v.table.len(),
        preorder(v.hypothesis)[k].after() == Some(name),
        !(v.table[k].state is Pending),
    ensures
        exists|m: int|
            #![trigger v.table[m]]
            0 <= m < k && preorder(v.hypothesis)[m].binding() == Some(name) && (
            v.table[m].state matches StateView::Observed { at, .. } && (
            v.table[k].state matches StateView::Expecting { at: from } ==> shifted(at, 1) == Some(
                from,
            )) && (v.table[k].state matches StateView::Failed { expected_at } ==> shifted(at, 1)
                == Some(expected_at))),
{
    let t = flattened(v.hypothesis);
    lemma_run_mirrors_hypothesis(v, k);
    law_accepted_hypotheses_can_run(v.hypothesis);
    assert(t[k].kind.after() == Some(name));
    lemma_named_same(t, v.table, name);
    assert(ordered_node(v.table, v.t0, k));
    let m = named(t, name)->Some_0;
    lemma_named(t, name);
    assert(v.table[m].state is Observed);
}

/// A failure is laid to the first unit of the hypothesis that was given up, with
/// its name, its pattern, and the window that was searched for it: from the time
/// it was looked for, as long as its timeout.
pub proof fn law_failure_report(step: Step, v: RunView, now: (int, int), from: int)
    requires
        consistent(v),
        filled_groups(flattened(v.hypothesis)),
        0 <= from,
        goes_on(step, v, now, from),
    ensures
        step matches Step::Done(RunResult::Fail(report)) ==> exists|i: int|
            #![trigger v.table[i]]
            0 <= i < v.table.len() && report.failed_prediction@ == v.table[i].name && v.table[i].state
                == (StateView::Failed { expected_at: report.search_start@ }) && (
            preorder(v.hypothesis)[i] matches Prediction::Unit { pattern, timeout_ms, .. }
                && report.pattern@ == pattern && shifted(
                report.search_start@,
                timeout_ms * 1_000_000,
            ) == Some(report.search_end@)) && (forall|k: int|
                0 <= k < i ==> !(preorder(v.hypothesis)[k] is Unit && (
                #[trigger] v.table[k]).state is Failed)),
{
    if let Step::Done(RunResult::Fail(report)) = step {
        let t = v.table;
        let u = settled(t);
        law_run_verdict(step, v, now, from);
        let clock = choose|clock: Seq<(int, int)>|
            is_clock(clock, v.table.len()) && #[trigger] ends_poll(step, settled_run(v, clock));
        law_settling_advances(t);
        assert forall|k: int| 0 <= k < t.len() && (#[trigger] t[k]).kind is Unit implies t[k]
            == u[k] by {
            assert(u[k].kind is Unit);
        }
        lemma_same_failed_unit(t, u, 0);
        law_first_failed_unit(t, 0);
        let i = failed_unit(t, 0)->Some_0;
        assert(t[i] == u[i]);
        assert forall|k: int| 0 <= k <= i implies (preorder(v.hypothesis)[k] is Unit <==> (
        #[trigger] t[k]).kind is Unit) by {
            lemma_run_mirrors_hypothesis(v, k);
        }
        lemma_run_mirrors_hypothesis(v, i);
        law_window_and_deadline(report.search_start@, t[i].kind->Unit_timeout_ms, 0);
    }
}

/// What is waited with between two polls is the run with its groups settled, and
/// nothing else changed. A run ends exactly where settling decides the root, and
/// its audit trail is what had happened and what settling added.
pub proof fn law_poll_ends(step: Step, v: RunView, now: (int, int), from: int)
    requires
        goes_on(step, v, now, from),
    ensures
        step matches Step::Rest(runner) ==> {
            &&& runner@.hypothesis == v.hypothesis
            &&& runner@.t0 == v.t0
            &&& runner@.base_query == v.base_query
            &&& runner@.poll_interval_ms == v.poll_interval_ms
            &&& runner@.slack_ms == v.slack_ms
            &&& runner@.captures == v.captures
            &&& runner@.table == settled(v.table)
            &&& exists|clock: Seq<(int, int)>|
                clock.len() == v.table.len() && runner@.trail == v.trail + #[trigger] settle_trail(
                    v.table,
                    clock,
                    0,
                )
            &&& !(settled(v.table)[0].state is Observed)
            &&& !(settled(v.table)[0].state is Failed)
        },
        step matches Step::Done(RunResult::Pass(audit)) ==> {
            &&& settled(v.table)[0].state is Observed
            &&& exists|clock: Seq<(int, int)>|
                clock.len() == v.table.len() && entries(audit.observations@) == v.trail
                    + #[trigger] settle_trail(v.table, clock, 0)
        },
        step matches Step::Done(RunResult::Fail(report)) ==> {
            &&& settled(v.table)[0].state is Failed
            &&& exists|clock: Seq<(int, int)>|
                clock.len() == v.table.len() && entries(report.audit.observations@) == v.trail
                    + #[trigger] settle_trail(v.table, clock, 0)
        },
{
    if sought(v.table, from) is None {
        let clock = choose|clock: Seq<(int, int)>|
            is_clock(clock, v.table.len()) && #[trigger] ends_poll(step, settled_run(v, clock));
        assert(settled_run(v, clock).trail == v.trail + settle_trail(v.table, clock, 0));
    }
}

/// Whom a failure is laid to: the first unit that was given up, with its name, its
/// pattern, and a window from the time it was looked for that is as long as its
/// timeout; and where no unit was, the root, with no pattern and an empty window.
pub proof fn law_blames(
    name: Seq<char>,
    pattern: Seq<char>,
    start: (int, int),
    end: (int, int),
    t: Seq<NodeView>,
    i: int,
)
    requires
        blames(name, pattern, start, end, t),
    ensures
        0 <= i < t.len() && t[i].kind is Unit && t[i].state is Failed && (forall|k: int|
            0 <= k < i ==> !((#[trigger] t[k]).kind is Unit && t[k].state is Failed)) ==> {
            &&& name == t[i].name
            &&& t[i].state == (StateView::Failed { expected_at: start })
            &&& t[i].kind matches KindView::Unit { pattern: p, timeout_ms, .. }
            &&& pattern == p
            &&& shifted(start, timeout_ms * 1_000_000) == Some(end)
        },
        (forall|k: int|
            0 <= k < t.len() ==> !((#[trigger] t[k]).kind is Unit && t[k].state is Failed)) ==> {
            &&& name == t[0].name
            &&& pattern.len() == 0
            &&& start == end
        },
{
    law_first_failed_unit(t, 0);
    if 0 <= i < t.len() {
        law_window_and_deadline(start, t[i].kind->Unit_timeout_ms, 0);
    }
}

} // verus!
