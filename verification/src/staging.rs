//! When predictions begin to be looked for.

use vstd::prelude::*;
use crate::observation::{entries, Entry, Observation, ObservationKind};
use crate::time::{shifted, Timestamp};
use crate::tree::{is_child, shaped, table, Node, NodeKind, NodeState, NodeView, StateView};

verus! {

/// The node that a name refers to: the last one that has it.
pub open spec fn named(t: Seq<NodeView>, name: Seq<char>) -> Option<int>
    decreases t.len(),
{
    if t.len() == 0 {
        None
    } else if t.last().name == name {
        Some(t.len() - 1)
    } else {
        named(t.drop_last(), name)
    }
}

/// The time from which a node is looked for, where its parent is looked for from
/// `parent_at`: just past the observation of the node it waits for, and that of
/// its parent where it waits for none. `None` as long as that is not observed.
pub open spec fn reference_time(
    t: Seq<NodeView>,
    after: Option<Seq<char>>,
    parent_at: (int, int),
) -> Option<(int, int)> {
    match after {
        None => Some(parent_at),
        Some(name) => match named(t, name) {
            None => None,
            Some(i) => match t[i].state {
                StateView::Observed { at, .. } => shifted(at, 1),
                _ => None,
            },
        },
    }
}

/// The state of node `k` once staging is done: a pending node is looked for as
/// soon as its parent is and its reference time is known.
pub open spec fn staged_state(t: Seq<NodeView>, k: int) -> StateView
    decreases k,
{
    match (t[k].state, t[k].parent) {
        (StateView::Pending, Some(q)) => if 0 <= q < k {
            match staged_state(t, q) {
                StateView::Expecting { at } => match reference_time(t, t[k].kind.after(), at) {
                    Some(from) => StateView::Expecting { at: from },
                    None => StateView::Pending,
                },
                _ => StateView::Pending,
            }
        } else {
            StateView::Pending
        },
        (state, _) => state,
    }
}

/// Whether what a node waits for was observed at the last instant of all, so that
/// there is none to look for the node from.
pub open spec fn waits_for_last_instant(t: Seq<NodeView>, after: Option<Seq<char>>) -> bool {
    after matches Some(name) && named(t, name) matches Some(i) && (
    t[i].state matches StateView::Observed { at, .. } && shifted(at, 1) is None)
}

/// Whether node `k` comes up for staging with no instant to look for it from.
pub open spec fn overruns(t: Seq<NodeView>, k: int) -> bool {
    &&& t[k].state is Pending
    &&& t[k].parent matches Some(q) && 0 <= q < k && staged_state(t, q) is Expecting
    &&& waits_for_last_instant(t, t[k].kind.after())
}

/// Whether there is an instant to look from for every node that comes up for
/// staging.
pub open spec fn can_stage(t: Seq<NodeView>) -> bool {
    forall|k: int| 0 <= k < t.len() ==> !#[trigger] overruns(t, k)
}

/// The table once staging is done.
pub open spec fn staged(t: Seq<NodeView>) -> Seq<NodeView> {
    Seq::new(t.len(), |k: int| NodeView { state: staged_state(t, k), ..t[k] })
}

/// The trail entry of a node that begins to be looked for.
pub open spec fn expecting_entry(name: Seq<char>, at: (int, int)) -> Entry {
    Entry {
        kind: ObservationKind::Expecting,
        prediction: name,
        timestamp: at,
        log_line: None,
    }
}

/// The trail entries of those among the first `n` of the given nodes that begin
/// to be looked for.
pub open spec fn child_entries(t: Seq<NodeView>, cs: Seq<int>, n: int) -> Seq<Entry>
    decreases n,
{
    if n <= 0 {
        seq![]
    } else {
        let c = cs[n - 1];
        let rest = child_entries(t, cs, n - 1);
        match (t[c].state, staged_state(t, c)) {
            (StateView::Pending, StateView::Expecting { at }) => rest.push(
                expecting_entry(t[c].name, at),
            ),
            _ => rest,
        }
    }
}

/// The trail entries of staging: those of the children of the first `n` nodes,
/// parent by parent.
pub open spec fn stage_trail(t: Seq<NodeView>, n: int) -> Seq<Entry>
    decreases n,
{
    if n <= 0 {
        seq![]
    } else {
        let cs = t[n - 1].kind.children();
        stage_trail(t, n - 1) + child_entries(t, cs, cs.len() as int)
    }
}

/// The table while staging goes on: the children of the nodes before `i` are
/// done, and those of node `i` that come before `b`.
pub open spec fn partly_staged(t: Seq<NodeView>, i: int, b: int) -> Seq<NodeView> {
    Seq::new(
        t.len(),
        |k: int|
            NodeView {
                state: if t[k].parent matches Some(q) && (q < i || (q == i && k < b)) {
                    staged_state(t, k)
                } else {
                    t[k].state
                },
                ..t[k]
            },
    )
}

/// A name refers to a node of the table.
pub proof fn lemma_named(t: Seq<NodeView>, name: Seq<char>)
    ensures
        named(t, name) matches Some(i) ==> 0 <= i < t.len() && t[i].name == name && (forall|k: int|
            i < k < t.len() ==> (#[trigger] t[k]).name != name),
        named(t, name) is None ==> forall|k: int|
            0 <= k < t.len() ==> (#[trigger] t[k]).name != name,
    decreases t.len(),
{
    if t.len() > 0 && t.last().name != name {
        let front = t.drop_last();
        lemma_named(front, name);
        assert(forall|k: int| 0 <= k < front.len() ==> front[k] == #[trigger] t[k]);
        if named(front, name) is None {
            assert forall|k: int| 0 <= k < t.len() implies (#[trigger] t[k]).name != name by {
                if k < front.len() {
                    assert(front[k].name != name);
                }
            }
        } else {
            let i = named(front, name)->Some_0;
            assert forall|k: int| i < k < t.len() implies (#[trigger] t[k]).name != name by {
                if k < front.len() {
                    assert(front[k].name != name);
                }
            }
        }
    }
}

/// What a name refers to depends on the names alone.
pub proof fn lemma_named_same(t: Seq<NodeView>, u: Seq<NodeView>, name: Seq<char>)
    requires
        t.len() == u.len(),
        forall|k: int| 0 <= k < t.len() ==> (#[trigger] t[k]).name == u[k].name,
    ensures
        named(t, name) == named(u, name),
    decreases t.len(),
{
    if t.len() > 0 {
        assert(t[t.len() - 1].name == u[u.len() - 1].name);
        assert forall|k: int| 0 <= k < t.drop_last().len() implies (
        #[trigger] t.drop_last()[k]).name == u.drop_last()[k].name by {
            assert(t[k].name == u[k].name);
        }
        lemma_named_same(t.drop_last(), u.drop_last(), name);
    }
}

/// Reference times depend on the names and the observations alone.
proof fn lemma_reference_time_same(
    t: Seq<NodeView>,
    u: Seq<NodeView>,
    after: Option<Seq<char>>,
    parent_at: (int, int),
)
    requires
        t.len() == u.len(),
        forall|k: int|
            0 <= k < t.len() ==> (#[trigger] t[k]).name == u[k].name && (t[k].state is Observed
                || u[k].state is Observed ==> t[k].state == u[k].state),
    ensures
        reference_time(t, after, parent_at) == reference_time(u, after, parent_at),
{
    if let Some(name) = after {
        lemma_named_same(t, u, name);
        lemma_named(t, name);
        if let Some(i) = named(t, name) {
            assert(t[i].name == u[i].name);
        }
    }
}

/// Finds the node that a name refers to.
pub fn node_named(nodes: &Vec<Node>, name: &String) -> (r: Option<usize>)
    ensures
        match r {
            Some(i) => named(table(nodes@), name@) == Some(i as int) && i < nodes@.len(),
            None => named(table(nodes@), name@) is None,
        },
{
    let mut n: usize = nodes.len();
    let ghost t = table(nodes@);
    assert(t.take(n as int) =~= t);
    while n > 0
        invariant
            n <= nodes@.len(),
            t == table(nodes@),
            named(t.take(n as int), name@) == named(t, name@),
        decreases n,
    {
        assert(t.take(n as int).drop_last() =~= t.take(n - 1));
        assert(t[n - 1] == nodes@[n - 1]@);
        if nodes[n - 1].name == *name {
            return Some(n - 1);
        }
        n = n - 1;
    }
    None
}

/// Tests [`waits_for_last_instant`] for a node.
fn lacks_ref_time(child: &Node, nodes: &Vec<Node>) -> (r: bool)
    ensures
        r == waits_for_last_instant(table(nodes@), child@.kind.after()),
{
    let after = match &child.kind {
        NodeKind::Unit { after, .. } => after,
        NodeKind::All { after, .. } => after,
        NodeKind::Any { after, .. } => after,
    };
    match after {
        None => false,
        Some(name) => match node_named(nodes, name) {
            None => false,
            Some(i) => {
                assert(table(nodes@)[i as int] == nodes@[i as int]@);
                match &nodes[i].state {
                    NodeState::Observed { at, .. } => at.next().is_none(),
                    _ => false,
                }
            },
        },
    }
}

/// Determines the time from which a node is looked for: just past the
/// observation of the node it waits for, or the expected time of its parent.
/// `None` if what it waits for is not observed yet.
pub fn resolve_ref_time(child: &Node, nodes: &Vec<Node>, parent_expected_at: Timestamp) -> (r:
    Option<Timestamp>)
    requires
        !waits_for_last_instant(table(nodes@), child@.kind.after()),
    ensures
        match r {
            Some(from) => reference_time(
                table(nodes@),
                child@.kind.after(),
                parent_expected_at@,
            ) == Some(from@),
            None => reference_time(
                table(nodes@),
                child@.kind.after(),
                parent_expected_at@,
            ) is None,
        },
{
    let after = match &child.kind {
        NodeKind::Unit { after, .. } => after,
        NodeKind::All { after, .. } => after,
        NodeKind::Any { after, .. } => after,
    };
    match after {
        None => Some(parent_expected_at),
        Some(name) => match node_named(nodes, name) {
            None => None,
            Some(i) => {
                assert(table(nodes@)[i as int] == nodes@[i as int]@);
                match &nodes[i].state {
                    NodeState::Observed { at, .. } => at.next(),
                    _ => None,
                }
            },
        },
    }
}

/// Begins to look for a pending node.
pub fn expect_node(
    nodes: &mut Vec<Node>,
    id: usize,
    at: Timestamp,
    observations: &mut Vec<Observation>,
)
    requires
        id < old(nodes)@.len(),
    ensures
        old(nodes)@[id as int]@.state is Pending ==> table(final(nodes)@) == table(
            old(nodes)@,
        ).update(
            id as int,
            NodeView { state: StateView::Expecting { at: at@ }, ..old(nodes)@[id as int]@ },
        ) && entries(final(observations)@) == entries(old(observations)@).push(
            expecting_entry(old(nodes)@[id as int]@.name, at@),
        ),
        !(old(nodes)@[id as int]@.state is Pending) ==> *final(nodes) == *old(nodes)
            && *final(observations) == *old(observations),
        final(nodes)@.len() == old(nodes)@.len(),
{
    if !matches!(nodes[id].state, NodeState::Pending) {
        return;
    }
    nodes[id].state = NodeState::Expecting { at };
    let prediction = nodes[id].name.clone();
    observations.push(
        Observation {
            kind: ObservationKind::Expecting,
            prediction,
            timestamp: at,
            log_line: None,
        },
    );
    assert(table(nodes@) =~= table(old(nodes)@).update(
        id as int,
        NodeView { state: StateView::Expecting { at: at@ }, ..old(nodes)@[id as int]@ },
    ));
    assert(entries(observations@) =~= entries(old(observations)@).push(
        expecting_entry(old(nodes)@[id as int]@.name, at@),
    ));
}

/// Staging changes the state of pending nodes only.
pub proof fn lemma_staged_state(t: Seq<NodeView>, k: int)
    ensures
        !(t[k].state is Pending) ==> staged_state(t, k) == t[k].state,
        t[k].state is Pending ==> staged_state(t, k) is Pending || staged_state(t, k) is Expecting,
{
}

/// What a table looks like while staging goes on, node by node.
proof fn lemma_partly_staged_reference(
    t: Seq<NodeView>,
    i: int,
    b: int,
    after: Option<Seq<char>>,
    at: (int, int),
)
    ensures
        reference_time(partly_staged(t, i, b), after, at) == reference_time(t, after, at),
{
    let u = partly_staged(t, i, b);
    assert forall|k: int| 0 <= k < t.len() implies (#[trigger] t[k]).name == u[k].name && (
    t[k].state is Observed || u[k].state is Observed ==> t[k].state == u[k].state) by {
        lemma_staged_state(t, k);
    }
    lemma_reference_time_same(t, u, after, at);
}

/// Moving on from node `i` to the next changes nothing where node `i` has no
/// children left.
pub proof fn lemma_partly_staged_next(t: Seq<NodeView>, i: int)
    requires
        shaped(t),
        0 <= i < t.len(),
    ensures
        partly_staged(t, i, t.len() as int) == partly_staged(t, i + 1, 0),
{
    assert(partly_staged(t, i, t.len() as int) =~= partly_staged(t, i + 1, 0));
}

/// A node that is not a group in expectation stages none of its children.
pub proof fn lemma_partly_staged_skip(t: Seq<NodeView>, i: int)
    requires
        shaped(t),
        0 <= i < t.len(),
        !(staged_state(t, i) is Expecting) || t[i].kind is Unit,
    ensures
        partly_staged(t, i, 0) == partly_staged(t, i + 1, 0),
        child_entries(t, t[i].kind.children(), t[i].kind.children().len() as int).len() == 0,
{
    let u = partly_staged(t, i, 0);
    let v = partly_staged(t, i + 1, 0);
    assert forall|k: int| 0 <= k < t.len() implies u[k] == v[k] by {
        if t[k].parent == Some(i) {
            assert(is_child(t, i, k));
        }
    }
    assert(u =~= v);
    lemma_no_child_entries(t, i, t[i].kind.children().len() as int);
}

proof fn lemma_no_child_entries(t: Seq<NodeView>, i: int, n: int)
    requires
        shaped(t),
        0 <= i < t.len(),
        !(staged_state(t, i) is Expecting) || t[i].kind is Unit,
        0 <= n <= t[i].kind.children().len(),
    ensures
        child_entries(t, t[i].kind.children(), n).len() == 0,
    decreases n,
{
    if n > 0 {
        lemma_no_child_entries(t, i, n - 1);
        let c = t[i].kind.children()[n - 1];
        assert(t[c].parent == Some(i));
    }
}

/// The bound up to which the children of node `i` are done once the first `j`
/// of them are.
pub open spec fn done_bound(t: Seq<NodeView>, i: int, j: int) -> int {
    if j < t[i].kind.children().len() {
        t[i].kind.children()[j]
    } else {
        t.len() as int
    }
}

/// Staging child `j` of node `i`.
pub proof fn lemma_partly_staged_child(t: Seq<NodeView>, i: int, j: int)
    requires
        shaped(t),
        0 <= i < t.len(),
        0 <= j < t[i].kind.children().len(),
    ensures
        ({
            let c = t[i].kind.children()[j];
            &&& i < c < t.len()
            &&& partly_staged(t, i, done_bound(t, i, j))[c] == t[c]
            &&& partly_staged(t, i, done_bound(t, i, j + 1)) == partly_staged(
                t,
                i,
                done_bound(t, i, j),
            ).update(c, NodeView { state: staged_state(t, c), ..t[c] })
        }),
{
    let cs = t[i].kind.children();
    let c = cs[j];
    let u = partly_staged(t, i, done_bound(t, i, j));
    let v = partly_staged(t, i, done_bound(t, i, j + 1));
    assert(t[c].parent == Some(i));
    if j + 1 < cs.len() {
        assert(cs[j] < cs[j + 1]);
    }
    let w = u.update(c, NodeView { state: staged_state(t, c), ..t[c] });
    assert forall|k: int| 0 <= k < t.len() implies v[k] == w[k] by {
        if k != c && t[k].parent == Some(i) && c < k < done_bound(t, i, j + 1) {
            assert(is_child(t, i, k));
            let m = choose|m: int| 0 <= m < cs.len() && #[trigger] cs[m] == k;
            if m <= j {
                if m < j {
                    assert(cs[m] < cs[j]);
                }
            } else if j + 1 < m {
                assert(cs[j + 1] < cs[m]);
            }
            assert(false);
        }
    }
    assert(v =~= w);
}

/// Tests whether there is an instant to look from for every node that comes up
/// for staging.
pub fn has_reference_times(nodes: &Vec<Node>) -> (r: bool)
    requires
        shaped(table(nodes@)),
    ensures
        r == can_stage(table(nodes@)),
{
    let ghost t = table(nodes@);
    let mut since: Vec<Option<Timestamp>> = Vec::new();
    assert(t.len() == nodes@.len());
    while since.len() < nodes.len()
        invariant
            t == table(nodes@),
            t.len() == nodes@.len(),
            shaped(t),
            since@.len() <= t.len(),
            forall|j: int|
                0 <= j < since@.len() ==> match #[trigger] since@[j] {
                    Some(at) => staged_state(t, j) == (StateView::Expecting { at: at@ }),
                    None => !(staged_state(t, j) is Expecting),
                },
            forall|j: int| 0 <= j < since@.len() ==> !#[trigger] overruns(t, j),
        decreases t.len() - since@.len(),
    {
        let k: usize = since.len();
        assert(t[k as int] == nodes@[k as int]@);
        proof {
            lemma_staged_state(t, k as int);
            if k > 0 {
                assert(t[k as int].parent matches Some(q) && 0 <= q < k);
            }
        }
        let mut from: Option<Timestamp> = None;
        match (&nodes[k].state, nodes[k].parent) {
            (NodeState::Expecting { at }, _) => {
                from = Some(*at);
            },
            (NodeState::Pending, Some(q)) => {
                assert(0 <= q < k);
                if let Some(parent_at) = since[q] {
                    if lacks_ref_time(&nodes[k], nodes) {
                        assert(overruns(t, k as int));
                        return false;
                    }
                    from = resolve_ref_time(&nodes[k], nodes, parent_at);
                }
            },
            _ => {},
        }
        since.push(from);
    }
    true
}

/// Stages every pending child of a group in expectation whose `after` dependency
/// is met. Ordering comes only from `after` references; children without one
/// use the expected time of their parent.
pub fn expecting_pass(nodes: &mut Vec<Node>, observations: &mut Vec<Observation>)
    requires
        shaped(table(old(nodes)@)),
        can_stage(table(old(nodes)@)),
    ensures
        table(final(nodes)@) == staged(table(old(nodes)@)),
        entries(final(observations)@) == entries(old(observations)@) + stage_trail(
            table(old(nodes)@),
            old(nodes)@.len() as int,
        ),
{
    let ghost t = table(nodes@);
    let ghost base = entries(observations@);
    let n: usize = nodes.len();
    let mut i: usize = 0;
    proof {
        assert(partly_staged(t, 0, 0) =~= t) by {
            assert forall|k: int| 0 <= k < t.len() implies partly_staged(t, 0, 0)[k] == t[k] by {
                if k > 0 {
                    assert(t[k].parent matches Some(q) && 0 <= q);
                }
            }
        }
        assert(base + stage_trail(t, 0) =~= base);
    }
    while i < n
        invariant
            n == t.len(),
            i <= n,
            shaped(t),
            can_stage(t),
            table(nodes@) == partly_staged(t, i as int, 0),
            entries(observations@) == base + stage_trail(t, i as int),
        decreases n - i,
    {
        assert(table(nodes@).len() == nodes@.len() && table(nodes@).len() == n);
        assert(table(nodes@)[i as int] == nodes@[i as int]@);
        proof {
            lemma_staged_state(t, i as int);
        }
        let children: Option<(Vec<usize>, Timestamp)> = match (&nodes[i].state, &nodes[i].kind) {
            (NodeState::Expecting { at }, NodeKind::All { children, .. }) => Some(
                (children.clone(), *at),
            ),
            (NodeState::Expecting { at }, NodeKind::Any { children, .. }) => Some(
                (children.clone(), *at),
            ),
            _ => None,
        };
        match children {
            None => {
                proof {
                    lemma_partly_staged_skip(t, i as int);
                    assert(base + stage_trail(t, i + 1) =~= base + stage_trail(t, i as int));
                }
            },
            Some((children, expected_at)) => {
                let ghost cs = t[i as int].kind.children();
                assert(indices_match(children@, cs));
                let mut j: usize = 0;
                proof {
                    lemma_first_bound(t, i as int);
                    assert(base + stage_trail(t, i as int) + child_entries(t, cs, 0) =~= base
                        + stage_trail(t, i as int));
                }
                while j < children.len()
                    invariant
                        n == t.len(),
                        i < n,
                        shaped(t),
                        can_stage(t),
                        cs == t[i as int].kind.children(),
                        indices_match(children@, cs),
                        staged_state(t, i as int) == (StateView::Expecting { at: expected_at@ }),
                        j <= children@.len(),
                        table(nodes@) == partly_staged(
                            t,
                            i as int,
                            done_bound(t, i as int, j as int),
                        ),
                        entries(observations@) == base + stage_trail(t, i as int) + child_entries(
                            t,
                            cs,
                            j as int,
                        ),
                    decreases children@.len() - j,
                {
                    let c: usize = children[j];
                    let ghost u = table(nodes@);
                    let ghost trail = entries(observations@);
                    proof {
                        assert(c == cs[j as int]);
                        lemma_partly_staged_child(t, i as int, j as int);
                        assert(u.len() == nodes@.len() && u.len() == n);
                        assert(u[c as int] == nodes@[c as int]@);
                        assert(t[c as int].parent == Some(i as int));
                        lemma_partly_staged_reference(
                            t,
                            i as int,
                            done_bound(t, i as int, j as int),
                            t[c as int].kind.after(),
                            expected_at@,
                        );
                        lemma_staged_state(t, c as int);
                    }
                    if matches!(nodes[c].state, NodeState::Pending) {
                        proof {
                            assert(!overruns(t, c as int));
                            if let Some(name) = t[c as int].kind.after() {
                                lemma_named(t, name);
                                lemma_named_same(t, u, name);
                                if let Some(w) = named(t, name) {
                                    lemma_staged_state(t, w);
                                }
                            }
                        }
                        let ref_time = resolve_ref_time(&nodes[c], nodes, expected_at);
                        if let Some(from) = ref_time {
                            expect_node(nodes, c, from, observations);
                            assert(entries(observations@) =~= base + stage_trail(t, i as int)
                                + child_entries(t, cs, j + 1));
                        } else {
                            assert(u =~= u.update(c as int, t[c as int]));
                        }
                    } else {
                        assert(u =~= u.update(c as int, t[c as int]));
                    }
                    j = j + 1;
                }
                proof {
                    lemma_partly_staged_next(t, i as int);
                    assert(base + stage_trail(t, i + 1) =~= base + stage_trail(t, i as int)
                        + child_entries(t, cs, cs.len() as int));
                }
            },
        }
        i = i + 1;
    }
    proof {
        let u = partly_staged(t, n as int, 0);
        assert forall|k: int| 0 <= k < t.len() implies u[k] == staged(t)[k] by {
            if k > 0 {
                assert(t[k].parent matches Some(q) && 0 <= q < k);
            }
        }
        assert(u =~= staged(t));
    }
}

/// Whether indices in a vector are the given ones.
spec fn indices_match(v: Seq<usize>, cs: Seq<int>) -> bool {
    &&& v.len() == cs.len()
    &&& forall|j: int| 0 <= j < v.len() ==> #[trigger] v[j] == cs[j]
}

/// Before the first child of node `i` nothing is staged beyond the nodes before
/// it.
pub proof fn lemma_first_bound(t: Seq<NodeView>, i: int)
    requires
        shaped(t),
        0 <= i < t.len(),
    ensures
        partly_staged(t, i, done_bound(t, i, 0)) == partly_staged(t, i, 0),
{
    let cs = t[i].kind.children();
    let u = partly_staged(t, i, done_bound(t, i, 0));
    let v = partly_staged(t, i, 0);
    assert forall|k: int| 0 <= k < t.len() implies u[k] == v[k] by {
        if t[k].parent == Some(i) {
            assert(is_child(t, i, k));
            let m = choose|m: int| 0 <= m < cs.len() && #[trigger] cs[m] == k;
            if m > 0 {
                assert(cs[0] < cs[m]);
            }
        }
    }
    assert(u =~= v);
}

/// Staging touches pending nodes alone. One whose parent is looked for is looked
/// for from the same time where it waits for nothing; where it waits for a name, it
/// is looked for from one nanosecond past the observation of the last node `w` of
/// that name, and stays pending as long as that is not observed. One whose parent
/// is not looked for stays pending.
pub proof fn law_staged(t: Seq<NodeView>, q: int, k: int, w: int)
    requires
        shaped(t),
        0 <= k < t.len(),
        k > 0 ==> t[k].parent == Some(q),
    ensures
        staged(t).len() == t.len(),
        staged(t)[k].name == t[k].name,
        staged(t)[k].kind == t[k].kind,
        staged(t)[k].parent == t[k].parent,
        !(t[k].state is Pending) ==> staged(t)[k].state == t[k].state,
        k == 0 ==> staged(t)[k].state == t[k].state,
        k > 0 && t[k].state is Pending ==> {
            &&& !(staged(t)[q].state is Expecting) ==> staged(t)[k].state is Pending
            &&& staged(t)[q].state is Expecting && t[k].kind.after() is None ==> staged(t)[k].state
                == staged(t)[q].state
            &&& t[k].kind.after() matches Some(name) ==> {
                &&& (forall|j: int| 0 <= j < t.len() ==> (#[trigger] t[j]).name != name) ==> staged(
                    t,
                )[k].state is Pending
                &&& 0 <= w < t.len() && t[w].name == name && (forall|j: int|
                    w < j < t.len() ==> (#[trigger] t[j]).name != name) ==> {
                    &&& !(t[w].state is Observed) ==> staged(t)[k].state is Pending
                    &&& t[w].state is Observed && staged(t)[q].state is Expecting ==> match shifted(
                        t[w].state->Observed_at,
                        1,
                    ) {
                        Some(from) => staged(t)[k].state == (StateView::Expecting { at: from }),
                        None => staged(t)[k].state is Pending,
                    }
                }
            }
        },
{
    lemma_staged_state(t, k);
    if k > 0 {
        assert(0 <= q < k);
        if let Some(name) = t[k].kind.after() {
            lemma_named(t, name);
        }
    }
}

/// The trail of staging goes through the nodes, and for each through its children,
/// in order: a child that begins to be looked for is entered, with the time it is
/// looked for from, and no other.
pub proof fn law_stage_trail(t: Seq<NodeView>, i: int, n: int)
    requires
        0 <= i < t.len(),
        0 <= n < t[i].kind.children().len(),
    ensures
        stage_trail(t, 0).len() == 0,
        stage_trail(t, i + 1) == stage_trail(t, i) + child_entries(
            t,
            t[i].kind.children(),
            t[i].kind.children().len() as int,
        ),
        child_entries(t, t[i].kind.children(), 0).len() == 0,
        ({
            let cs = t[i].kind.children();
            let c = cs[n];
            &&& t[c].state is Pending && staged_state(t, c) is Expecting ==> child_entries(
                t,
                cs,
                n + 1,
            ) == child_entries(t, cs, n).push(
                Entry {
                    kind: ObservationKind::Expecting,
                    prediction: t[c].name,
                    timestamp: staged_state(t, c)->Expecting_at,
                    log_line: None,
                },
            )
            &&& !(t[c].state is Pending && staged_state(t, c) is Expecting) ==> child_entries(
                t,
                cs,
                n + 1,
            ) == child_entries(t, cs, n)
        }),
{
}

/// Staging can go ahead unless a node comes up for it that waits for an observation
/// at the last instant of all.
pub proof fn law_can_stage(t: Seq<NodeView>, k: int, q: int, w: int, name: Seq<char>)
    requires
        0 <= q < k < t.len(),
        0 <= w < t.len(),
        t[k].parent == Some(q),
        t[k].state is Pending,
        staged(t)[q].state is Expecting,
        t[k].kind.after() == Some(name),
        t[w].name == name,
        forall|j: int| w < j < t.len() ==> (#[trigger] t[j]).name != name,
        t[w].state is Observed,
        shifted(t[w].state->Observed_at, 1) is None,
    ensures
        !can_stage(t),
{
    lemma_named(t, name);
    assert(named(t, name) == Some(w));
    assert(overruns(t, k));
}

/// The time from which a node is looked for: that of its parent where it waits for
/// nothing, and otherwise one nanosecond past the observation of the last node `w`
/// of the name that it waits for. There is none as long as that is not observed.
pub proof fn law_reference_time(
    t: Seq<NodeView>,
    name: Seq<char>,
    parent_at: (int, int),
    w: int,
)
    ensures
        reference_time(t, None, parent_at) == Some(parent_at),
        (forall|j: int| 0 <= j < t.len() ==> (#[trigger] t[j]).name != name) ==> reference_time(
            t,
            Some(name),
            parent_at,
        ) is None,
        0 <= w < t.len() && t[w].name == name && (forall|j: int|
            w < j < t.len() ==> (#[trigger] t[j]).name != name) ==> match t[w].state {
            StateView::Observed { at, .. } => reference_time(t, Some(name), parent_at) == shifted(
                at,
                1,
            ),
            _ => reference_time(t, Some(name), parent_at) is None,
        },
{
    lemma_named(t, name);
}

/// Where staging cannot go ahead, a node is to blame that is pending while its
/// parent is looked for, and that waits for an observation at the last instant.
pub proof fn law_cannot_stage(t: Seq<NodeView>)
    requires
        !can_stage(t),
    ensures
        exists|k: int, q: int, w: int|
            #![trigger t[k], t[q], t[w]]
            0 <= q < k < t.len() && 0 <= w < t.len() && t[k].parent == Some(q)
                && t[k].state is Pending && staged(t)[q].state is Expecting && t[k].kind.after()
                == Some(t[w].name) && (t[w].state matches StateView::Observed { at, .. } && shifted(
                at,
                1,
            ) is None),
{
    let k = choose|k: int| 0 <= k < t.len() && #[trigger] overruns(t, k);
    let q = t[k].parent->Some_0;
    let name = t[k].kind.after()->Some_0;
    let w = named(t, name)->Some_0;
    lemma_named(t, name);
    assert(t[w].name == name);
    assert(staged(t)[q].state == staged_state(t, q));
}

} // verus!
