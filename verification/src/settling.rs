//! When groups are decided.

use vstd::prelude::*;
use crate::observation::{entries, Entry, Observation, ObservationKind};
use crate::text::optional_text;
use crate::time::{is_instant, precedes, Timestamp};
use crate::tree::{
    filled_alls, indices, shaped, table, KindView, Node, NodeKind, NodeState, NodeView, StateView,
};

verus! {

/// The latest of some instants.
pub open spec fn latest(times: Seq<(int, int)>) -> (int, int)
    decreases times.len(),
{
    if times.len() <= 1 {
        times[0]
    } else {
        let before = latest(times.drop_last());
        if precedes(before, times.last()) {
            times.last()
        } else {
            before
        }
    }
}

/// The latest of some instants is one of them, and none of them is later.
pub proof fn law_latest(times: Seq<(int, int)>) -> (j: int)
    requires
        times.len() > 0,
    ensures
        0 <= j < times.len(),
        latest(times) == times[j],
        forall|k: int| 0 <= k < times.len() ==> !precedes(latest(times), #[trigger] times[k]),
    decreases times.len(),
{
    if times.len() == 1 {
        0
    } else {
        let front = times.drop_last();
        let j = law_latest(front);
        assert forall|k: int| 0 <= k < times.len() implies !precedes(
            latest(times),
            #[trigger] times[k],
        ) by {
            if k < front.len() {
                assert(!precedes(latest(front), front[k]));
            }
        }
        if latest(times) == times.last() {
            times.len() - 1
        } else {
            j
        }
    }
}

/// What becomes of a group.
#[derive(Debug)]
pub enum Outcome {
    /// Undecided.
    Open,
    /// Observed, at the given time and with the given line.
    Seen { at: Timestamp, line: Option<String> },
    /// Failed.
    Lost,
}

/// The model of an [`Outcome`].
pub enum OutcomeView {
    Open,
    Seen { at: (int, int), line: Option<Seq<char>> },
    Lost,
}

impl View for Outcome {
    type V = OutcomeView;

    open spec fn view(&self) -> OutcomeView {
        match self {
            Outcome::Open => OutcomeView::Open,
            Outcome::Seen { at, line } => OutcomeView::Seen {
                at: at@,
                line: optional_text(*line),
            },
            Outcome::Lost => OutcomeView::Lost,
        }
    }
}

/// Whether some of the given states is that of a failed node.
pub open spec fn some_failed(states: Seq<StateView>) -> bool {
    exists|j: int| 0 <= j < states.len() && (#[trigger] states[j]) is Failed
}

/// Whether all of the given states are those of failed nodes.
pub open spec fn all_failed(states: Seq<StateView>) -> bool {
    forall|j: int| 0 <= j < states.len() ==> (#[trigger] states[j]) is Failed
}

/// Whether all of the given states are those of observed nodes.
pub open spec fn all_observed(states: Seq<StateView>) -> bool {
    forall|j: int| 0 <= j < states.len() ==> (#[trigger] states[j]) is Observed
}

/// The first of the given states, from `j` on, that is that of an observed node.
pub open spec fn first_observed(states: Seq<StateView>, j: int) -> Option<int>
    decreases states.len() - j,
{
    if j >= states.len() {
        None
    } else if states[j] is Observed {
        Some(j)
    } else {
        first_observed(states, j + 1)
    }
}

/// The times at which nodes were observed.
pub open spec fn observed_times(states: Seq<StateView>) -> Seq<(int, int)> {
    Seq::new(states.len(), |j: int| states[j]->Observed_at)
}

/// What becomes of a group whose children are in the given states. An `All`
/// fails with any of its children; it is observed with the last of them. An
/// `Any` fails with the last of its children; it is observed with the first of
/// them, in their order, that is.
pub open spec fn decided(kind: KindView, states: Seq<StateView>) -> OutcomeView {
    match kind {
        KindView::Unit { .. } => OutcomeView::Open,
        KindView::All { .. } => if some_failed(states) {
            OutcomeView::Lost
        } else if all_observed(states) {
            OutcomeView::Seen { at: latest(observed_times(states)), line: None }
        } else {
            OutcomeView::Open
        },
        KindView::Any { .. } => if all_failed(states) {
            OutcomeView::Lost
        } else {
            match first_observed(states, 0) {
                Some(j) => OutcomeView::Seen {
                    at: states[j]->Observed_at,
                    line: states[j]->Observed_line,
                },
                None => OutcomeView::Open,
            }
        },
    }
}

/// The state that an outcome brings a node to that was in the given state and is
/// looked for from `expected_at`.
pub open spec fn concluded(outcome: OutcomeView, state: StateView, expected_at: (int, int)) -> StateView {
    match outcome {
        OutcomeView::Open => state,
        OutcomeView::Seen { at, line } => StateView::Observed { at, line },
        OutcomeView::Lost => StateView::Failed { expected_at },
    }
}

/// The trail entry that goes with an outcome of the node of the given name. A
/// failure is dated by the clock.
pub open spec fn conclusion(outcome: OutcomeView, name: Seq<char>, now: (int, int)) -> Seq<Entry> {
    match outcome {
        OutcomeView::Open => seq![],
        OutcomeView::Seen { at, .. } => seq![
            Entry {
                kind: ObservationKind::Observed,
                prediction: name,
                timestamp: at,
                log_line: None,
            },
        ],
        OutcomeView::Lost => seq![
            Entry {
                kind: ObservationKind::Failed,
                prediction: name,
                timestamp: now,
                log_line: None,
            },
        ],
    }
}

/// What becomes of node `i` in settling.
pub open spec fn settled_outcome(t: Seq<NodeView>, i: int) -> OutcomeView {
    if t[i].state is Expecting {
        let cs = t[i].kind.children();
        decided(t[i].kind, settled_states(t, i, cs, cs.len()))
    } else {
        OutcomeView::Open
    }
}

/// The state of node `i` once settling is done: a group in expectation is
/// decided by the settled states of its children.
pub open spec fn settled_state(t: Seq<NodeView>, i: int) -> StateView
    decreases t.len() - i, 0nat,
        when 0 <= i < t.len()
{
    match t[i].state {
        StateView::Expecting { at } => {
            let cs = t[i].kind.children();
            concluded(decided(t[i].kind, settled_states(t, i, cs, cs.len())), t[i].state, at)
        },
        state => state,
    }
}

/// The settled states of the first `n` of the given nodes, all of which lie
/// behind node `i`.
pub open spec fn settled_states(t: Seq<NodeView>, i: int, cs: Seq<int>, n: nat) -> Seq<StateView>
    decreases t.len() - i - 1, n,
        when i < t.len()
{
    if n == 0 {
        seq![]
    } else {
        let c = cs[n - 1];
        let state = if i < c < t.len() {
            settled_state(t, c)
        } else {
            StateView::Pending
        };
        settled_states(t, i, cs, (n - 1) as nat).push(state)
    }
}

/// The table once settling is done.
pub open spec fn settled(t: Seq<NodeView>) -> Seq<NodeView> {
    Seq::new(t.len(), |k: int| NodeView { state: settled_state(t, k), ..t[k] })
}

/// Whether `clock` gives an instant for each of `n` nodes.
pub open spec fn is_clock(clock: Seq<(int, int)>, n: nat) -> bool {
    &&& clock.len() == n
    &&& forall|k: int| 0 <= k < n ==> is_instant(#[trigger] clock[k])
}

/// The trail entries of settling, from the last node down to node `i`. `clock`
/// gives the time at which each node was settled.
pub open spec fn settle_trail(t: Seq<NodeView>, clock: Seq<(int, int)>, i: int) -> Seq<Entry>
    decreases t.len() - i,
{
    if i >= t.len() {
        seq![]
    } else {
        settle_trail(t, clock, i + 1) + conclusion(settled_outcome(t, i), t[i].name, clock[i])
    }
}

/// The table while settling goes on: the nodes from `i` on are done.
pub open spec fn partly_settled(t: Seq<NodeView>, i: int) -> Seq<NodeView> {
    Seq::new(
        t.len(),
        |k: int|
            NodeView {
                state: if k >= i {
                    settled_state(t, k)
                } else {
                    t[k].state
                },
                ..t[k]
            },
    )
}

/// The states of the given nodes of a table.
pub open spec fn states_of(t: Seq<NodeView>, cs: Seq<int>) -> Seq<StateView> {
    Seq::new(cs.len(), |j: int| t[cs[j]].state)
}

/// The settled states of a node's children are what the table holds once they
/// are done.
pub proof fn lemma_settled_states(t: Seq<NodeView>, i: int, n: nat)
    requires
        shaped(t),
        0 <= i < t.len(),
        n <= t[i].kind.children().len(),
    ensures
        settled_states(t, i, t[i].kind.children(), n).len() == n,
        forall|j: int|
            0 <= j < n ==> (#[trigger] settled_states(t, i, t[i].kind.children(), n)[j])
                == settled_state(t, t[i].kind.children()[j]),
    decreases n,
{
    if n > 0 {
        lemma_settled_states(t, i, (n - 1) as nat);
        let cs = t[i].kind.children();
        let c = cs[n - 1];
        assert(i < c < t.len());
    }
}

/// Finds the first observed child.
fn find_first_observed(nodes: &Vec<Node>, children: &Vec<usize>) -> (r: Option<usize>)
    requires
        forall|j: int| 0 <= j < children@.len() ==> (#[trigger] children@[j]) < nodes@.len(),
    ensures
        match r {
            Some(j) => first_observed(states_of(table(nodes@), indices(children@)), 0) == Some(
                j as int,
            ) && j < children@.len() && table(nodes@)[children@[j as int] as int].state is Observed,
            None => first_observed(states_of(table(nodes@), indices(children@)), 0) is None,
        },
{
    let ghost states = states_of(table(nodes@), indices(children@));
    let mut j: usize = 0;
    while j < children.len()
        invariant
            forall|j: int| 0 <= j < children@.len() ==> (#[trigger] children@[j]) < nodes@.len(),
            states == states_of(table(nodes@), indices(children@)),
            j <= children@.len(),
            first_observed(states, j as int) == first_observed(states, 0),
        decreases children@.len() - j,
    {
        assert(states[j as int] == nodes@[children@[j as int] as int]@.state);
        if matches!(nodes[children[j]].state, NodeState::Observed { .. }) {
            return Some(j);
        }
        j = j + 1;
    }
    None
}

/// Whether some child has failed.
fn any_child_failed(nodes: &Vec<Node>, children: &Vec<usize>) -> (r: bool)
    requires
        forall|j: int| 0 <= j < children@.len() ==> (#[trigger] children@[j]) < nodes@.len(),
    ensures
        r == some_failed(states_of(table(nodes@), indices(children@))),
{
    let ghost states = states_of(table(nodes@), indices(children@));
    let mut j: usize = 0;
    while j < children.len()
        invariant
            forall|j: int| 0 <= j < children@.len() ==> (#[trigger] children@[j]) < nodes@.len(),
            states == states_of(table(nodes@), indices(children@)),
            j <= children@.len(),
            forall|k: int| 0 <= k < j ==> !((#[trigger] states[k]) is Failed),
        decreases children@.len() - j,
    {
        assert(states[j as int] == nodes@[children@[j as int] as int]@.state);
        if matches!(nodes[children[j]].state, NodeState::Failed { .. }) {
            assert(states[j as int] is Failed);
            return true;
        }
        j = j + 1;
    }
    false
}

/// Whether all children have failed, one of them aside.
pub(crate) fn other_children_failed(nodes: &Vec<Node>, children: &Vec<usize>, aside: Option<usize>) -> (r: bool)
    requires
        forall|j: int| 0 <= j < children@.len() ==> (#[trigger] children@[j]) < nodes@.len(),
    ensures
        r == forall|j: int|
            0 <= j < children@.len() && Some(#[trigger] children@[j]) != aside ==> table(
                nodes@,
            )[children@[j] as int].state is Failed,
{
    let ghost t = table(nodes@);
    let mut j: usize = 0;
    while j < children.len()
        invariant
            forall|j: int| 0 <= j < children@.len() ==> (#[trigger] children@[j]) < nodes@.len(),
            t == table(nodes@),
            j <= children@.len(),
            forall|k: int|
                0 <= k < j && Some(#[trigger] children@[k]) != aside
                    ==> t[children@[k] as int].state is Failed,
        decreases children@.len() - j,
    {
        let c: usize = children[j];
        assert(t[c as int] == nodes@[c as int]@);
        let counts = match aside {
            Some(a) => c != a,
            None => true,
        };
        if counts && !matches!(nodes[c].state, NodeState::Failed { .. }) {
            assert(Some(children@[j as int]) != aside);
            return false;
        }
        j = j + 1;
    }
    true
}

/// The time of the last observation, if all children are observed.
fn last_observation(nodes: &Vec<Node>, children: &Vec<usize>) -> (r: Option<Timestamp>)
    requires
        children@.len() > 0,
        forall|j: int| 0 <= j < children@.len() ==> (#[trigger] children@[j]) < nodes@.len(),
    ensures
        match r {
            Some(at) => all_observed(states_of(table(nodes@), indices(children@))) && at@ == latest(
                observed_times(states_of(table(nodes@), indices(children@))),
            ),
            None => !all_observed(states_of(table(nodes@), indices(children@))),
        },
{
    let ghost states = states_of(table(nodes@), indices(children@));
    let ghost times = observed_times(states);
    let mut best: Option<Timestamp> = None;
    let mut j: usize = 0;
    while j < children.len()
        invariant
            forall|j: int| 0 <= j < children@.len() ==> (#[trigger] children@[j]) < nodes@.len(),
            states == states_of(table(nodes@), indices(children@)),
            times == observed_times(states),
            j <= children@.len(),
            forall|k: int| 0 <= k < j ==> (#[trigger] states[k]) is Observed,
            j > 0 ==> (best matches Some(at) && at@ == latest(times.take(j as int))),
        decreases children@.len() - j,
    {
        assert(states[j as int] == nodes@[children@[j as int] as int]@.state);
        match &nodes[children[j]].state {
            NodeState::Observed { at, .. } => {
                assert(times.take(j + 1).drop_last() =~= times.take(j as int));
                assert(times.take(j + 1).last() == at@);
                let later = match &best {
                    Some(b) => at.is_after(b),
                    None => true,
                };
                if later || j == 0 {
                    best = Some(*at);
                }
            },
            _ => {
                return None;
            },
        }
        j = j + 1;
    }
    assert(times.take(j as int) =~= times);
    best
}

/// Decides what becomes of node `i`.
pub fn group_outcome(nodes: &Vec<Node>, i: usize) -> (r: Outcome)
    requires
        i < nodes@.len(),
        forall|j: int|
            0 <= j < nodes@[i as int]@.kind.children().len() ==> 0 <= (
            #[trigger] nodes@[i as int]@.kind.children()[j]) < nodes@.len(),
        nodes@[i as int]@.kind is All ==> nodes@[i as int]@.kind.children().len() > 0,
    ensures
        r@ == decided(
            nodes@[i as int]@.kind,
            states_of(table(nodes@), nodes@[i as int]@.kind.children()),
        ),
{
    let ghost cs = nodes@[i as int]@.kind.children();
    match &nodes[i].kind {
        NodeKind::Unit { .. } => Outcome::Open,
        NodeKind::All { children, .. } => {
            assert(indices(children@) == cs);
            assert(forall|j: int| 0 <= j < children@.len() ==> (#[trigger] children@[j]) == cs[j]);
            if any_child_failed(nodes, children) {
                Outcome::Lost
            } else {
                match last_observation(nodes, children) {
                    Some(at) => Outcome::Seen { at, line: None },
                    None => Outcome::Open,
                }
            }
        },
        NodeKind::Any { children, .. } => {
            assert(indices(children@) == cs);
            assert(forall|j: int| 0 <= j < children@.len() ==> (#[trigger] children@[j]) == cs[j]);
            let ghost states = states_of(table(nodes@), cs);
            let lost = other_children_failed(nodes, children, None);
            assert(lost == all_failed(states)) by {
                assert(forall|j: int|
                    0 <= j < children@.len() ==> (#[trigger] states[j]) == table(
                        nodes@,
                    )[children@[j] as int].state);
                if all_failed(states) {
                    assert forall|j: int| 0 <= j < children@.len() implies table(
                        nodes@,
                    )[(#[trigger] children@[j]) as int].state is Failed by {
                        assert(states[j] is Failed);
                    }
                }
                if lost {
                    assert forall|j: int| 0 <= j < states.len() implies (
                    #[trigger] states[j]) is Failed by {
                        assert(Some(children@[j]) != None::<usize>);
                    }
                }
            }
            if lost {
                Outcome::Lost
            } else {
                match find_first_observed(nodes, children) {
                    Some(j) => {
                        assert(states[j as int] == nodes@[children@[j as int] as int]@.state);
                        match &nodes[children[j]].state {
                            NodeState::Observed { at, line } => Outcome::Seen {
                                at: *at,
                                line: line.clone(),
                            },
                            _ => Outcome::Open,
                        }
                    },
                    None => Outcome::Open,
                }
            }
        },
    }
}

/// The entries of settling depend on the clock at the settled nodes alone.
proof fn lemma_settle_trail_clock(
    t: Seq<NodeView>,
    clock: Seq<(int, int)>,
    other: Seq<(int, int)>,
    i: int,
)
    requires
        forall|k: int| i <= k < t.len() ==> (#[trigger] clock[k]) == other[k],
    ensures
        settle_trail(t, clock, i) == settle_trail(t, other, i),
    decreases t.len() - i,
{
    if i < t.len() {
        lemma_settle_trail_clock(t, clock, other, i + 1);
        assert(clock[i] == other[i]);
    }
}

/// What becomes of node `i` is decided by the children that are done.
proof fn lemma_partly_settled_children(t: Seq<NodeView>, i: int)
    requires
        shaped(t),
        0 <= i < t.len(),
    ensures
        partly_settled(t, i + 1)[i] == t[i],
        states_of(partly_settled(t, i + 1), t[i].kind.children()) == settled_states(
            t,
            i,
            t[i].kind.children(),
            t[i].kind.children().len(),
        ),
{
    let cs = t[i].kind.children();
    lemma_settled_states(t, i, cs.len());
    let u = states_of(partly_settled(t, i + 1), cs);
    assert forall|j: int| 0 <= j < cs.len() implies u[j] == settled_state(t, cs[j]) by {
        let c = cs[j];
        assert(i < c < t.len());
    }
    assert(u =~= settled_states(t, i, cs, cs.len()));
}

/// Moving on from node `i + 1` to node `i`.
pub proof fn lemma_partly_settled_next(t: Seq<NodeView>, i: int)
    requires
        0 <= i < t.len(),
    ensures
        partly_settled(t, i) == partly_settled(t, i + 1).update(
            i,
            NodeView { state: settled_state(t, i), ..t[i] },
        ),
{
    assert(partly_settled(t, i) =~= partly_settled(t, i + 1).update(
        i,
        NodeView { state: settled_state(t, i), ..t[i] },
    ));
}

/// Decides a node that is looked for from `expected_at`: writes down what became
/// of it, and enters it in the trail. A failure is dated `now`.
pub fn conclude(
    nodes: &mut Vec<Node>,
    i: usize,
    outcome: Outcome,
    expected_at: Timestamp,
    now: Timestamp,
    observations: &mut Vec<Observation>,
)
    requires
        i < old(nodes)@.len(),
    ensures
        table(final(nodes)@) == table(old(nodes)@).update(
            i as int,
            NodeView {
                state: concluded(outcome@, old(nodes)@[i as int]@.state, expected_at@),
                ..old(nodes)@[i as int]@
            },
        ),
        entries(final(observations)@) == entries(old(observations)@) + conclusion(
            outcome@,
            old(nodes)@[i as int]@.name,
            now@,
        ),
{
    let ghost t = table(nodes@);
    let ghost node = nodes@[i as int]@;
    let name = nodes[i].name.clone();
    match outcome {
        Outcome::Open => {
            assert(t =~= t.update(i as int, node));
            assert(entries(observations@) =~= entries(old(observations)@) + Seq::<Entry>::empty());
        },
        Outcome::Seen { at, line } => {
            nodes[i].state = NodeState::Observed { at, line };
            observations.push(
                Observation {
                    kind: ObservationKind::Observed,
                    prediction: name,
                    timestamp: at,
                    log_line: None,
                },
            );
        },
        Outcome::Lost => {
            nodes[i].state = NodeState::Failed { expected_at };
            observations.push(
                Observation {
                    kind: ObservationKind::Failed,
                    prediction: name,
                    timestamp: now,
                    log_line: None,
                },
            );
        },
    }
    assert(table(nodes@) =~= t.update(
        i as int,
        NodeView { state: concluded(outcome@, node.state, expected_at@), ..node },
    ));
    assert(entries(observations@) =~= entries(old(observations)@) + conclusion(
        outcome@,
        node.name,
        now@,
    ));
}

/// Settles the groups in expectation from the leaves upwards: each is decided by
/// its children. Each failure is dated by a look at the clock.
pub fn propagation_pass(nodes: &mut Vec<Node>, observations: &mut Vec<Observation>)
    requires
        shaped(table(old(nodes)@)),
        filled_alls(table(old(nodes)@)),
    ensures
        table(final(nodes)@) == settled(table(old(nodes)@)),
        exists|clock: Seq<(int, int)>|
            is_clock(clock, old(nodes)@.len()) && entries(final(observations)@) == entries(
                old(observations)@,
            ) + #[trigger] settle_trail(table(old(nodes)@), clock, 0),
{
    let ghost t = table(nodes@);
    let ghost base = entries(observations@);
    let mut i: usize = nodes.len();
    let ghost mut clock: Seq<(int, int)> = Seq::new(t.len(), |k: int| (0int, 0int));
    proof {
        assert(t.len() == i);
        assert(partly_settled(t, i as int) =~= t);
        assert(base + settle_trail(t, clock, i as int) =~= base);
    }
    while i > 0
        invariant
            shaped(t),
            filled_alls(t),
            i <= t.len(),
            is_clock(clock, t.len()),
            table(nodes@) == partly_settled(t, i as int),
            entries(observations@) == base + settle_trail(t, clock, i as int),
        decreases i,
    {
        i = i - 1;
        let ghost u = table(nodes@);
        proof {
            lemma_partly_settled_children(t, i as int);
            lemma_partly_settled_next(t, i as int);
            assert(u.len() == nodes@.len() && u.len() == t.len());
            assert(u[i as int] == nodes@[i as int]@);
            assert(t[i as int].kind is All ==> t[i as int].kind.children().len() > 0);
            assert forall|j: int| 0 <= j < t[i as int].kind.children().len() implies 0 <= (
            #[trigger] t[i as int].kind.children()[j]) < t.len() by {}
        }
        let expected_at: Option<Timestamp> = match &nodes[i].state {
            NodeState::Expecting { at } => Some(*at),
            _ => None,
        };
        if let Some(expected_at) = expected_at {
            let outcome = group_outcome(nodes, i);
            let now = Timestamp::now();
            proof {
                let later = clock.update(i as int, now@);
                lemma_settle_trail_clock(t, clock, later, i + 1);
                clock = later;
            }
            conclude(nodes, i, outcome, expected_at, now, observations);
            assert(entries(observations@) =~= base + settle_trail(t, clock, i as int));
        } else {
            assert(u =~= u.update(i as int, t[i as int]));
            assert(entries(observations@) =~= base + settle_trail(t, clock, i as int));
        }
    }
    assert(partly_settled(t, 0) =~= settled(t));
}

/// In a settled table the states of a group's children are those that it was
/// decided by.
pub proof fn lemma_settled_children(t: Seq<NodeView>, i: int)
    requires
        shaped(t),
        0 <= i < t.len(),
    ensures
        states_of(settled(t), t[i].kind.children()) == settled_states(
            t,
            i,
            t[i].kind.children(),
            t[i].kind.children().len(),
        ),
{
    let cs = t[i].kind.children();
    lemma_settled_states(t, i, cs.len());
    let u = states_of(settled(t), cs);
    assert forall|j: int| 0 <= j < cs.len() implies u[j] == settled_state(t, cs[j]) by {
        let c = cs[j];
        assert(i < c < t.len());
    }
    assert(u =~= settled_states(t, i, cs, cs.len()));
}

/// What [`first_observed`] finds.
pub proof fn lemma_first_observed(states: Seq<StateView>, j: int)
    requires
        0 <= j,
    ensures
        match first_observed(states, j) {
            Some(k) => j <= k < states.len() && states[k] is Observed && forall|m: int|
                j <= m < k ==> !((#[trigger] states[m]) is Observed),
            None => forall|m: int| j <= m < states.len() ==> !((#[trigger] states[m]) is Observed),
        },
    decreases states.len() - j,
{
    if j < states.len() && !(states[j] is Observed) {
        lemma_first_observed(states, j + 1);
    }
}

/// Settling leaves all but groups that are looked for as they are, and each of
/// those is decided by what its children have come to.
///
/// An `All` fails exactly if one of them has failed, and is observed exactly if all
/// of them are, at the time of the last of them. An `Any` fails exactly if all of
/// them have failed, and is observed exactly if one of them is, with the time and
/// the line of the first that is, in their order. Otherwise it is looked for on.
pub proof fn law_settled(t: Seq<NodeView>, i: int)
    requires
        shaped(t),
        filled_alls(t),
        0 <= i < t.len(),
    ensures
        settled(t).len() == t.len(),
        settled(t)[i].name == t[i].name,
        settled(t)[i].kind == t[i].kind,
        settled(t)[i].parent == t[i].parent,
        t[i].kind is Unit || !(t[i].state is Expecting) ==> settled(t)[i].state == t[i].state,
        ({
            let u = settled(t);
            t[i].state is Expecting ==> match t[i].kind {
                KindView::Unit { .. } => true,
                KindView::All { children, .. } => {
                    let failed = exists|j: int|
                        0 <= j < children.len() && u[#[trigger] children[j]].state is Failed;
                    let seen = forall|j: int|
                        0 <= j < children.len() ==> u[#[trigger] children[j]].state is Observed;
                    &&& failed ==> u[i].state == (StateView::Failed {
                        expected_at: t[i].state->Expecting_at,
                    })
                    &&& seen ==> {
                        &&& u[i].state matches StateView::Observed { at, line }
                        &&& line is None
                        &&& exists|j: int|
                            0 <= j < children.len() && u[#[trigger] children[j]].state->Observed_at
                                == at
                        &&& forall|j: int|
                            0 <= j < children.len() ==> !precedes(
                                at,
                                u[#[trigger] children[j]].state->Observed_at,
                            )
                    }
                    &&& !failed && !seen ==> u[i].state == t[i].state
                },
                KindView::Any { children, .. } => {
                    let failed = forall|j: int|
                        0 <= j < children.len() ==> u[#[trigger] children[j]].state is Failed;
                    let seen = exists|j: int|
                        0 <= j < children.len() && u[#[trigger] children[j]].state is Observed;
                    &&& failed ==> u[i].state == (StateView::Failed {
                        expected_at: t[i].state->Expecting_at,
                    })
                    &&& seen ==> exists|j: int|
                        0 <= j < children.len() && u[i].state == u[#[trigger] children[j]].state
                            && u[i].state is Observed && (forall|m: int|
                            0 <= m < j ==> !(u[#[trigger] children[m]].state is Observed))
                    &&& !failed && !seen ==> u[i].state == t[i].state
                },
            }
        }),
{
    let u = settled(t);
    let cs = t[i].kind.children();
    let states = states_of(u, cs);
    lemma_settled_children(t, i);
    lemma_first_observed(states, 0);
    if t[i].state is Expecting {
        assert(u[i].state == concluded(
            decided(t[i].kind, states),
            t[i].state,
            t[i].state->Expecting_at,
        ));
        match t[i].kind {
            KindView::Unit { .. } => {},
            KindView::All { children, .. } => {
                let failed = exists|j: int|
                    0 <= j < children.len() && u[#[trigger] children[j]].state is Failed;
                let seen = forall|j: int|
                    0 <= j < children.len() ==> u[#[trigger] children[j]].state is Observed;
                assert(failed == some_failed(states)) by {
                    if failed {
                        let j = choose|j: int|
                            0 <= j < children.len() && u[#[trigger] children[j]].state is Failed;
                        assert(states[j] is Failed);
                    }
                    if some_failed(states) {
                        let j = choose|j: int|
                            0 <= j < states.len() && (#[trigger] states[j]) is Failed;
                        assert(u[children[j]].state is Failed);
                    }
                }
                assert(seen == all_observed(states)) by {
                    if seen {
                        assert forall|j: int| 0 <= j < states.len() implies (
                        #[trigger] states[j]) is Observed by {
                            assert(u[children[j]].state is Observed);
                        }
                    }
                    if all_observed(states) {
                        assert forall|j: int| 0 <= j < children.len() implies u[#[trigger] children[j]].state is Observed by {
                            assert(states[j] is Observed);
                        }
                    }
                }
                assert(children.len() > 0);
                if seen {
                    assert(!failed) by {
                        if failed {
                            let j = choose|j: int|
                                0 <= j < children.len() && u[#[trigger] children[j]].state is Failed;
                            assert(u[children[j]].state is Observed);
                        }
                    }
                    let times = observed_times(states);
                    let j = law_latest(times);
                    assert(u[children[j]].state->Observed_at == times[j]);
                    assert forall|m: int| 0 <= m < children.len() implies !precedes(
                        latest(times),
                        u[#[trigger] children[m]].state->Observed_at,
                    ) by {
                        assert(times[m] == u[children[m]].state->Observed_at);
                    }
                }
            },
            KindView::Any { children, .. } => {
                let failed = forall|j: int|
                    0 <= j < children.len() ==> u[#[trigger] children[j]].state is Failed;
                let seen = exists|j: int|
                    0 <= j < children.len() && u[#[trigger] children[j]].state is Observed;
                assert(failed == all_failed(states)) by {
                    if failed {
                        assert forall|j: int| 0 <= j < states.len() implies (
                        #[trigger] states[j]) is Failed by {
                            assert(u[children[j]].state is Failed);
                        }
                    }
                    if all_failed(states) {
                        assert forall|j: int| 0 <= j < children.len() implies u[#[trigger] children[j]].state is Failed by {
                            assert(states[j] is Failed);
                        }
                    }
                }
                if seen {
                    let j = choose|j: int|
                        0 <= j < children.len() && u[#[trigger] children[j]].state is Observed;
                    assert(states[j] is Observed);
                    assert(!failed) by {
                        if failed {
                            assert(u[children[j]].state is Failed);
                        }
                    }
                    let f = first_observed(states, 0)->Some_0;
                    assert(states[f] == u[children[f]].state);
                    assert forall|m: int| 0 <= m < f implies !(u[#[trigger] children[m]].state is Observed) by {
                        assert(!(states[m] is Observed));
                    }
                } else if first_observed(states, 0) is Some {
                    let f = first_observed(states, 0)->Some_0;
                    assert(u[children[f]].state is Observed);
                }
            },
        }
    }
}

/// The trail of settling goes from the last node to the first: a group that is
/// decided is entered, an observation with its time and a failure with the time on
/// the clock, and no other node.
pub proof fn law_settle_trail(t: Seq<NodeView>, clock: Seq<(int, int)>, i: int)
    requires
        0 <= i < t.len(),
    ensures
        settle_trail(t, clock, t.len() as int).len() == 0,
        settled(t)[i].state == t[i].state ==> settle_trail(t, clock, i) == settle_trail(
            t,
            clock,
            i + 1,
        ),
        settled(t)[i].state != t[i].state && settled(t)[i].state is Observed ==> settle_trail(
            t,
            clock,
            i,
        ) == settle_trail(t, clock, i + 1).push(
            Entry {
                kind: ObservationKind::Observed,
                prediction: t[i].name,
                timestamp: settled(t)[i].state->Observed_at,
                log_line: None,
            },
        ),
        settled(t)[i].state != t[i].state && settled(t)[i].state is Failed ==> settle_trail(
            t,
            clock,
            i,
        ) == settle_trail(t, clock, i + 1).push(
            Entry {
                kind: ObservationKind::Failed,
                prediction: t[i].name,
                timestamp: clock[i],
                log_line: None,
            },
        ),
{
    let rest = settle_trail(t, clock, i + 1);
    assert(rest + Seq::<Entry>::empty() =~= rest);
}

/// What becomes of a group by the states of its children. An `All` is lost with any
/// that has failed, and seen where all are observed, at a time of one of them that
/// none of them lies behind. An `Any` is lost where all have failed, and seen with
/// the first that is observed, at its time and with its line.
pub proof fn law_decided(kind: KindView, states: Seq<StateView>)
    requires
        kind is All ==> states.len() > 0,
    ensures
        match kind {
            KindView::Unit { .. } => decided(kind, states) is Open,
            KindView::All { .. } => {
                let failed = exists|j: int| 0 <= j < states.len() && (#[trigger] states[j]) is Failed;
                let seen = forall|j: int|
                    0 <= j < states.len() ==> (#[trigger] states[j]) is Observed;
                &&& decided(kind, states) is Lost <==> failed
                &&& decided(kind, states) is Seen <==> seen
                &&& decided(kind, states) matches OutcomeView::Seen { at, line } ==> {
                    &&& line is None
                    &&& exists|j: int|
                        0 <= j < states.len() && (#[trigger] states[j])->Observed_at == at
                    &&& forall|j: int|
                        0 <= j < states.len() ==> !precedes(at, (#[trigger] states[j])->Observed_at)
                }
            },
            KindView::Any { .. } => {
                let failed = forall|j: int|
                    0 <= j < states.len() ==> (#[trigger] states[j]) is Failed;
                let seen = exists|j: int| 0 <= j < states.len() && (#[trigger] states[j]) is Observed;
                &&& decided(kind, states) is Lost <==> failed
                &&& decided(kind, states) is Seen <==> seen
                &&& decided(kind, states) matches OutcomeView::Seen { at, line } ==> exists|j: int|
                    0 <= j < states.len() && #[trigger] states[j] == (StateView::Observed {
                        at,
                        line,
                    }) && (forall|m: int| 0 <= m < j ==> !((#[trigger] states[m]) is Observed))
            },
        },
{
    lemma_first_observed(states, 0);
    match kind {
        KindView::Unit { .. } => {},
        KindView::All { .. } => {
            if all_observed(states) {
                let times = observed_times(states);
                let j = law_latest(times);
                assert(states[j]->Observed_at == times[j]);
                assert(states[j] is Observed);
                assert(!some_failed(states));
                assert forall|m: int| 0 <= m < states.len() implies !precedes(
                    latest(times),
                    (#[trigger] states[m])->Observed_at,
                ) by {
                    assert(times[m] == states[m]->Observed_at);
                }
            }
        },
        KindView::Any { .. } => {
            if let Some(j) = first_observed(states, 0) {
                assert(states[j] is Observed);
            }
        },
    }
}

/// What an outcome does to a node: an open one nothing; one that is seen makes it
/// observed, at that time and with that line; a lost one makes it failed since the
/// time from which it was looked for. The last two are entered in the trail, an
/// observation with its time and a failure with that on the clock.
pub proof fn law_concluded(
    at: (int, int),
    line: Option<Seq<char>>,
    state: StateView,
    expected_at: (int, int),
    name: Seq<char>,
    now: (int, int),
)
    ensures
        concluded(OutcomeView::Open, state, expected_at) == state,
        concluded(OutcomeView::Seen { at, line }, state, expected_at) == (StateView::Observed {
            at,
            line,
        }),
        concluded(OutcomeView::Lost, state, expected_at) == (StateView::Failed { expected_at }),
        conclusion(OutcomeView::Open, name, now).len() == 0,
        conclusion(OutcomeView::Seen { at, line }, name, now).len() == 1,
        conclusion(OutcomeView::Seen { at, line }, name, now)[0] == (Entry {
            kind: ObservationKind::Observed,
            prediction: name,
            timestamp: at,
            log_line: None,
        }),
        conclusion(OutcomeView::Lost, name, now).len() == 1,
        conclusion(OutcomeView::Lost, name, now)[0] == (Entry {
            kind: ObservationKind::Failed,
            prediction: name,
            timestamp: now,
            log_line: None,
        }),
{
}

} // verus!
