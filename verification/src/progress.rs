//! What holds of a table of predictions at every point of a run, and what its
//! groups come to.

use vstd::prelude::*;
use crate::observation::{Entry, ObservationKind};
use crate::polling::{answer_trail, answered_state, time_after, Answer};
use crate::settling::{
    all_failed, all_observed, decided, latest, lemma_first_observed, lemma_settled_children,
    lemma_settled_states, observed_times, settle_trail, settled, settled_outcome, settled_state,
    settled_states, some_failed, states_of,
};
use crate::staging::{
    child_entries, expecting_entry, lemma_named, lemma_named_same, lemma_staged_state, named,
    stage_trail, staged, staged_state,
};
use crate::time::shifted;
use crate::tree::{filled_alls, is_child, shaped, KindView, NodeView, StateView};

verus! {

/// Whether two tables hold the same predictions, whatever has become of them.
pub open spec fn same_tree(t: Seq<NodeView>, u: Seq<NodeView>) -> bool {
    &&& t.len() == u.len()
    &&& forall|k: int|
        #![trigger t[k]]
        #![trigger u[k]]
        0 <= k < t.len() ==> t[k].name == u[k].name && t[k].kind == u[k].kind && t[k].parent
            == u[k].parent
}

/// Whether a state can follow another in one step: a pending node begins to be
/// looked for, and one that is looked for is observed or given up. Both of the
/// latter are final.
pub open spec fn follows(before: StateView, after: StateView) -> bool {
    match before {
        StateView::Pending => after is Pending || after is Expecting,
        StateView::Expecting { at } => after == before || after is Observed || after == (
        StateView::Failed { expected_at: at }),
        _ => after == before,
    }
}

/// Whether each node of a table has made at most one step to another.
pub open spec fn advances(t: Seq<NodeView>, u: Seq<NodeView>) -> bool {
    &&& same_tree(t, u)
    &&& forall|k: int|
        #![trigger t[k]]
        #![trigger u[k]]
        0 <= k < t.len() ==> follows(t[k].state, u[k].state)
}

/// Whether every group has a child.
pub open spec fn filled_groups(t: Seq<NodeView>) -> bool {
    forall|i: int|
        0 <= i < t.len() && !((#[trigger] t[i]).kind is Unit) ==> t[i].kind.children().len() > 0
}

/// Whether the decision on node `i`, if there is one, rests on its children.
pub open spec fn sound_node(t: Seq<NodeView>, i: int) -> bool {
    let states = states_of(t, t[i].kind.children());
    match (t[i].kind, t[i].state) {
        (KindView::All { .. }, StateView::Observed { at, line }) => all_observed(states) && at
            == latest(observed_times(states)) && line is None,
        (KindView::All { .. }, StateView::Failed { .. }) => some_failed(states),
        (KindView::Any { .. }, StateView::Observed { at, line }) => exists|j: int|
            0 <= j < states.len() && #[trigger] states[j] == (StateView::Observed { at, line }),
        (KindView::Any { .. }, StateView::Failed { .. }) => all_failed(states),
        _ => true,
    }
}

/// Whether every decision on a group rests on its children.
pub open spec fn sound(t: Seq<NodeView>) -> bool {
    forall|i: int| 0 <= i < t.len() ==> #[trigger] sound_node(t, i)
}

/// The time from which a node is looked for, or was until it was given up.
pub open spec fn since(state: StateView) -> Option<(int, int)> {
    match state {
        StateView::Expecting { at } => Some(at),
        StateView::Failed { expected_at } => Some(expected_at),
        _ => None,
    }
}

/// Whether node `k`, if it has begun to be looked for, did so in order: the root
/// at `t0`; any other node not before its parent, not before what it waits for
/// was observed, and from the right time on.
pub open spec fn ordered_node(t: Seq<NodeView>, t0: (int, int), k: int) -> bool {
    t[k].state is Pending || match t[k].parent {
        None => since(t[k].state) matches Some(at) ==> at == t0,
        Some(q) => {
            &&& !(t[q].state is Pending)
            &&& match t[k].kind.after() {
                Some(name) => {
                    &&& named(t, name) is Some
                    &&& t[named(t, name)->Some_0].state is Observed
                    &&& since(t[k].state) is Some ==> since(t[k].state) == shifted(
                        t[named(t, name)->Some_0].state->Observed_at,
                        1,
                    )
                },
                None => since(t[k].state) is Some && since(t[q].state) is Some ==> since(t[k].state)
                    == since(t[q].state),
            }
        },
    }
}

/// Whether every node that has begun to be looked for did so in order.
pub open spec fn ordered(t: Seq<NodeView>, t0: (int, int)) -> bool {
    forall|k: int| 0 <= k < t.len() ==> #[trigger] ordered_node(t, t0, k)
}

/// Whether the search window of every unit that was given up is within the time
/// line.
pub open spec fn windowed(t: Seq<NodeView>) -> bool {
    forall|k: int|
        0 <= k < t.len() ==> ((#[trigger] t[k]).kind matches KindView::Unit { timeout_ms, .. } ==> (
        t[k].state matches StateView::Failed { expected_at } ==> time_after(
            expected_at,
            timeout_ms,
        ) is Some))
}

/// Whether an entry says that the given node began to be looked for.
pub open spec fn tells_begin(e: Entry, node: NodeView) -> bool {
    &&& e.kind is Expecting
    &&& e.prediction == node.name
    &&& e.log_line is None
    &&& since(node.state) matches Some(at) ==> e.timestamp == at
}

/// Whether an entry says how the search for the given node ended. The log line
/// stands with the unit that it was observed for.
pub open spec fn tells_end(e: Entry, node: NodeView) -> bool {
    match node.state {
        StateView::Observed { at, line } => e == (Entry {
            kind: ObservationKind::Observed,
            prediction: node.name,
            timestamp: at,
            log_line: if node.kind is Unit {
                line
            } else {
                None
            },
        }),
        StateView::Failed { .. } => e.kind is Failed && e.prediction == node.name && e.log_line is None,
        _ => false,
    }
}

/// Whether the trail tells, in order, everything that has happened to node `k`.
pub open spec fn recorded_node(t: Seq<NodeView>, trail: Seq<Entry>, k: int) -> bool {
    match t[k].state {
        StateView::Pending => true,
        StateView::Expecting { .. } => exists|m: int|
            0 <= m < trail.len() && tells_begin(#[trigger] trail[m], t[k]),
        _ => exists|m: int, n: int|
            0 <= m < n < trail.len() && tells_begin(#[trigger] trail[m], t[k]) && tells_end(
                #[trigger] trail[n],
                t[k],
            ),
    }
}

/// Whether the trail tells everything that has happened.
pub open spec fn recorded(t: Seq<NodeView>, trail: Seq<Entry>) -> bool {
    forall|k: int| 0 <= k < t.len() ==> #[trigger] recorded_node(t, trail, k)
}

/// Whether the units that are observed satisfy prediction `i`: an `All` needs
/// every one of its children satisfied, an `Any` at least one.
pub open spec fn satisfied(t: Seq<NodeView>, i: int) -> bool
    decreases t.len() - i,
{
    let cs = t[i].kind.children();
    match t[i].kind {
        KindView::Unit { .. } => t[i].state is Observed,
        KindView::All { .. } => forall|j: int|
            0 <= j < cs.len() && i < #[trigger] cs[j] < t.len() ==> satisfied(t, cs[j]),
        KindView::Any { .. } => exists|j: int|
            0 <= j < cs.len() && i < #[trigger] cs[j] < t.len() && satisfied(t, cs[j]),
    }
}

/// Whether the units that were given up refute prediction `i`: one child that is
/// refuted is enough for an `All`, an `Any` needs all of them refuted.
pub open spec fn refuted(t: Seq<NodeView>, i: int) -> bool
    decreases t.len() - i,
{
    let cs = t[i].kind.children();
    match t[i].kind {
        KindView::Unit { .. } => t[i].state is Failed,
        KindView::All { .. } => exists|j: int|
            0 <= j < cs.len() && i < #[trigger] cs[j] < t.len() && refuted(t, cs[j]),
        KindView::Any { .. } => forall|j: int|
            0 <= j < cs.len() && i < #[trigger] cs[j] < t.len() ==> refuted(t, cs[j]),
    }
}

/// A table with the same predictions is a tree where the other one is.
pub proof fn lemma_same_tree(t: Seq<NodeView>, u: Seq<NodeView>)
    requires
        same_tree(t, u),
    ensures
        shaped(t) ==> shaped(u),
        filled_alls(t) ==> filled_alls(u),
        filled_groups(t) ==> filled_groups(u),
        same_tree(u, t),
{
    if shaped(t) {
        assert forall|k: int| 0 < k < u.len() implies ((#[trigger] u[k]).parent matches Some(q) && 0
            <= q < k && is_child(u, q, k)) by {
            assert(t[k].parent matches Some(q) && 0 <= q < k && is_child(t, q, k));
            let q = t[k].parent->Some_0;
            assert(t[q].kind == u[q].kind);
            let j = choose|j: int|
                0 <= j < t[q].kind.children().len() && #[trigger] t[q].kind.children()[j] == k;
            assert(u[q].kind.children()[j] == k);
        }
        assert forall|i: int, j: int|
            #![trigger u[i].kind.children()[j]]
            0 <= i < u.len() && 0 <= j < u[i].kind.children().len() implies {
            let c = u[i].kind.children()[j];
            i < c < u.len() && u[c].parent == Some(i)
        } by {
            let c = t[i].kind.children()[j];
            assert(t[i].kind == u[i].kind);
            assert(i < c < t.len() && t[c].parent == Some(i));
            assert(t[c].parent == u[c].parent);
        }
        assert forall|i: int, j: int, m: int|
            #![trigger u[i].kind.children()[j], u[i].kind.children()[m]]
            0 <= i < u.len() && 0 <= j < m < u[i].kind.children().len() implies u[i].kind.children()[j]
            < u[i].kind.children()[m] by {
            assert(t[i].kind == u[i].kind);
            assert(t[i].kind.children()[j] < t[i].kind.children()[m]);
        }
        assert(t[0].parent == u[0].parent);
    }
}

/// Staging lets no node do more than begin to be looked for.
pub proof fn law_staging_advances(t: Seq<NodeView>)
    ensures
        advances(t, staged(t)),
        forall|k: int|
            0 <= k < t.len() && !((#[trigger] staged(t)[k]).state is Expecting) ==> staged(t)[k]
                == t[k],
{
    assert forall|k: int| 0 <= k < t.len() implies follows(t[k].state, #[trigger] staged(t)[k].state) by {
        lemma_staged_state(t, k);
    }
    assert forall|k: int| 0 <= k < t.len() && !((#[trigger] staged(t)[k]).state is Expecting) implies staged(
        t,
    )[k] == t[k] by {
        lemma_staged_state(t, k);
    }
}

/// Settling lets groups be decided, and leaves units and pending nodes as they
/// are.
pub proof fn law_settling_advances(t: Seq<NodeView>)
    ensures
        advances(t, settled(t)),
        forall|k: int|
            0 <= k < t.len() && ((#[trigger] settled(t)[k]).kind is Unit || t[k].state is Pending)
                ==> settled(t)[k] == t[k],
{
    assert forall|k: int| 0 <= k < t.len() implies follows(
        t[k].state,
        #[trigger] settled(t)[k].state,
    ) by {}
}

/// An answer lets a unit that is looked for be observed or given up.
pub proof fn law_answer_advances(
    t: Seq<NodeView>,
    i: int,
    answer: Answer,
    now: (int, int),
    deadline: (int, int),
)
    requires
        0 <= i < t.len(),
        t[i].state is Expecting,
    ensures
        advances(
            t,
            t.update(
                i,
                NodeView {
                    state: answered_state(t[i].state->Expecting_at, answer, now, deadline),
                    ..t[i]
                },
            ),
        ),
{
}

/// Decisions that have been taken stay sound.
proof fn lemma_sound_kept(t: Seq<NodeView>, u: Seq<NodeView>, i: int)
    requires
        shaped(t),
        sound(t),
        advances(t, u),
        0 <= i < t.len(),
        u[i].state == t[i].state,
    ensures
        sound_node(u, i),
{
    let cs = t[i].kind.children();
    let before = states_of(t, cs);
    let after = states_of(u, cs);
    assert(sound_node(t, i));
    assert(t[i].kind == u[i].kind);
    assert forall|j: int| 0 <= j < cs.len() && (before[j] is Observed || before[j] is Failed) implies
        #[trigger] after[j] == before[j] by {
        let c = cs[j];
        assert(i < c < t.len());
        assert(follows(t[c].state, u[c].state));
    }
    match (t[i].kind, t[i].state) {
        (KindView::All { .. }, StateView::Observed { .. }) => {
            assert forall|j: int| 0 <= j < after.len() implies (#[trigger] after[j]) is Observed by {
                assert(before[j] is Observed);
            }
            assert(after =~= before);
        },
        (KindView::All { .. }, StateView::Failed { .. }) => {
            let j = choose|j: int| 0 <= j < before.len() && (#[trigger] before[j]) is Failed;
            assert(after[j] is Failed);
        },
        (KindView::Any { .. }, StateView::Observed { at, line }) => {
            let j = choose|j: int|
                0 <= j < before.len() && #[trigger] before[j] == (StateView::Observed { at, line });
            assert(after[j] == before[j]);
        },
        (KindView::Any { .. }, StateView::Failed { .. }) => {
            assert forall|j: int| 0 <= j < after.len() implies (#[trigger] after[j]) is Failed by {
                assert(before[j] is Failed);
            }
        },
        _ => {},
    }
}

/// Nodes that have begun to be looked for stay in order.
proof fn lemma_order_kept(t: Seq<NodeView>, u: Seq<NodeView>, t0: (int, int), k: int)
    requires
        shaped(t),
        ordered(t, t0),
        advances(t, u),
        0 <= k < t.len(),
        !(t[k].state is Pending),
    ensures
        ordered_node(u, t0, k),
{
    assert(ordered_node(t, t0, k));
    assert(follows(t[k].state, u[k].state));
    if let Some(q) = t[k].parent {
        assert(0 <= q < k);
        assert(follows(t[q].state, u[q].state));
        if let Some(name) = t[k].kind.after() {
            lemma_named_same(t, u, name);
            lemma_named(t, name);
            let i = named(t, name)->Some_0;
            assert(follows(t[i].state, u[i].state));
        }
    }
}

/// What the trail tells of a node that has not moved, it still tells when it has
/// grown.
proof fn lemma_record_kept(
    t: Seq<NodeView>,
    u: Seq<NodeView>,
    trail: Seq<Entry>,
    more: Seq<Entry>,
    k: int,
)
    requires
        advances(t, u),
        recorded(t, trail),
        0 <= k < t.len(),
        u[k].state == t[k].state,
    ensures
        recorded_node(u, trail + more, k),
{
    assert(recorded_node(t, trail, k));
    assert(t[k].name == u[k].name && t[k].kind == u[k].kind);
    let whole = trail + more;
    match t[k].state {
        StateView::Pending => {},
        StateView::Expecting { .. } => {
            let m = choose|m: int| 0 <= m < trail.len() && tells_begin(#[trigger] trail[m], t[k]);
            assert(whole[m] == trail[m]);
        },
        _ => {
            let (m, n) = choose|m: int, n: int|
                0 <= m < n < trail.len() && tells_begin(#[trigger] trail[m], t[k]) && tells_end(
                    #[trigger] trail[n],
                    t[k],
                );
            assert(whole[m] == trail[m]);
            assert(whole[n] == trail[n]);
        },
    }
}

/// A node whose end is entered in the trail is fully recorded.
proof fn lemma_record_end(
    t: Seq<NodeView>,
    u: Seq<NodeView>,
    trail: Seq<Entry>,
    more: Seq<Entry>,
    k: int,
    n: int,
)
    requires
        advances(t, u),
        recorded(t, trail),
        0 <= k < t.len(),
        t[k].state is Expecting,
        0 <= n < more.len(),
        tells_end(more[n], u[k]),
    ensures
        recorded_node(u, trail + more, k),
{
    assert(recorded_node(t, trail, k));
    assert(follows(t[k].state, u[k].state));
    let whole = trail + more;
    let m = choose|m: int| 0 <= m < trail.len() && tells_begin(#[trigger] trail[m], t[k]);
    assert(whole[m] == trail[m]);
    assert(whole[trail.len() + n] == more[n]);
    assert(tells_begin(whole[m], u[k]));
}

/// Staging enters every node that it moves in the trail.
proof fn lemma_child_entry(t: Seq<NodeView>, cs: Seq<int>, n: int, j: int)
    requires
        0 <= j < n <= cs.len(),
        t[cs[j]].state is Pending,
        staged_state(t, cs[j]) is Expecting,
    ensures
        child_entries(t, cs, n).contains(
            expecting_entry(t[cs[j]].name, staged_state(t, cs[j])->Expecting_at),
        ),
    decreases n,
{
    let e = expecting_entry(t[cs[j]].name, staged_state(t, cs[j])->Expecting_at);
    let here = child_entries(t, cs, n);
    if j == n - 1 {
        assert(here[here.len() - 1] == e);
    } else {
        lemma_child_entry(t, cs, n - 1, j);
        let rest = child_entries(t, cs, n - 1);
        let m = choose|m: int| 0 <= m < rest.len() && rest[m] == e;
        assert(here[m] == e);
    }
}

proof fn lemma_stage_entry(t: Seq<NodeView>, n: int, q: int, j: int)
    requires
        0 <= q < n <= t.len(),
        0 <= j < t[q].kind.children().len(),
        t[t[q].kind.children()[j]].state is Pending,
        staged_state(t, t[q].kind.children()[j]) is Expecting,
    ensures
        ({
            let c = t[q].kind.children()[j];
            stage_trail(t, n).contains(
                expecting_entry(t[c].name, staged_state(t, c)->Expecting_at),
            )
        }),
    decreases n,
{
    let c = t[q].kind.children()[j];
    let e = expecting_entry(t[c].name, staged_state(t, c)->Expecting_at);
    let here = stage_trail(t, n);
    let cs = t[n - 1].kind.children();
    let front = stage_trail(t, n - 1);
    let back = child_entries(t, cs, cs.len() as int);
    if q == n - 1 {
        lemma_child_entry(t, cs, cs.len() as int, j);
        let m = choose|m: int| 0 <= m < back.len() && back[m] == e;
        assert(here[front.len() + m] == e);
    } else {
        lemma_stage_entry(t, n - 1, q, j);
        let m = choose|m: int| 0 <= m < front.len() && front[m] == e;
        assert(here[m] == e);
    }
}

/// Staging keeps every decision sound, every search in order, and the trail
/// complete.
pub proof fn law_staging_keeps(t: Seq<NodeView>, trail: Seq<Entry>, t0: (int, int))
    requires
        shaped(t),
        sound(t),
        ordered(t, t0),
        recorded(t, trail),
    ensures
        sound(staged(t)),
        ordered(staged(t), t0),
        recorded(staged(t), trail + stage_trail(t, t.len() as int)),
{
    let u = staged(t);
    law_staging_advances(t);
    assert forall|i: int| 0 <= i < u.len() implies #[trigger] sound_node(u, i) by {
        if u[i].state is Expecting || u[i].state is Pending {
        } else {
            lemma_sound_kept(t, u, i);
        }
    }
    assert forall|k: int| 0 <= k < u.len() implies #[trigger] ordered_node(u, t0, k) by {
        if t[k].state is Pending {
            if u[k].state is Expecting {
                let q = t[k].parent->Some_0;
                assert(u[q].state == staged_state(t, q));
                if let Some(name) = t[k].kind.after() {
                    lemma_named_same(t, u, name);
                    lemma_named(t, name);
                    let i = named(t, name)->Some_0;
                    assert(follows(t[i].state, u[i].state));
                }
            }
        } else {
            lemma_order_kept(t, u, t0, k);
        }
    }
    let more = stage_trail(t, t.len() as int);
    assert forall|k: int| 0 <= k < u.len() implies #[trigger] recorded_node(u, trail + more, k) by {
        if u[k].state == t[k].state {
            lemma_record_kept(t, u, trail, more, k);
        } else {
            lemma_staged_state(t, k);
            let q = t[k].parent->Some_0;
            assert(is_child(t, q, k));
            let j = choose|j: int|
                0 <= j < t[q].kind.children().len() && #[trigger] t[q].kind.children()[j] == k;
            lemma_stage_entry(t, t.len() as int, q, j);
            let e = expecting_entry(t[k].name, staged_state(t, k)->Expecting_at);
            let m = choose|m: int| 0 <= m < more.len() && more[m] == e;
            assert((trail + more)[trail.len() + m] == e);
            assert(tells_begin(e, u[k]));
        }
    }
}

/// An answer keeps every decision sound, every search in order, and the trail
/// complete.
pub proof fn law_answer_keeps(
    t: Seq<NodeView>,
    trail: Seq<Entry>,
    t0: (int, int),
    i: int,
    answer: Answer,
    now: (int, int),
    deadline: (int, int),
)
    requires
        shaped(t),
        sound(t),
        ordered(t, t0),
        recorded(t, trail),
        0 <= i < t.len(),
        t[i].kind is Unit,
        t[i].state is Expecting,
    ensures
        ({
            let u = t.update(
                i,
                NodeView {
                    state: answered_state(t[i].state->Expecting_at, answer, now, deadline),
                    ..t[i]
                },
            );
            &&& sound(u)
            &&& ordered(u, t0)
            &&& recorded(u, trail + answer_trail(t[i].name, answer, now, deadline))
        }),
{
    let state = answered_state(t[i].state->Expecting_at, answer, now, deadline);
    let u = t.update(i, NodeView { state, ..t[i] });
    law_answer_advances(t, i, answer, now, deadline);
    assert forall|k: int| 0 <= k < u.len() implies #[trigger] sound_node(u, k) by {
        if k != i {
            lemma_sound_kept(t, u, k);
        }
    }
    assert forall|k: int| 0 <= k < u.len() implies #[trigger] ordered_node(u, t0, k) by {
        if !(t[k].state is Pending) {
            lemma_order_kept(t, u, t0, k);
        }
    }
    let more = answer_trail(t[i].name, answer, now, deadline);
    assert forall|k: int| 0 <= k < u.len() implies #[trigger] recorded_node(u, trail + more, k) by {
        if u[k].state == t[k].state {
            lemma_record_kept(t, u, trail, more, k);
        } else {
            lemma_record_end(t, u, trail, more, k, 0);
        }
    }
}

/// Settling enters every node that it decides in the trail.
proof fn lemma_settle_entry(t: Seq<NodeView>, clock: Seq<(int, int)>, i: int, k: int) -> (n: int)
    requires
        0 <= i <= k < t.len(),
        !(t[k].kind is Unit),
        settled_state(t, k) != t[k].state,
    ensures
        0 <= n < settle_trail(t, clock, i).len(),
        tells_end(settle_trail(t, clock, i)[n], settled(t)[k]),
    decreases t.len() - i,
{
    let rest = settle_trail(t, clock, i + 1);
    if i == k {
        rest.len() as int
    } else {
        let n = lemma_settle_entry(t, clock, i + 1, k);
        assert(settle_trail(t, clock, i)[n] == rest[n]);
        n
    }
}

/// Settling keeps every decision sound and every search in order.
proof fn lemma_settling_keeps_ranks(t: Seq<NodeView>, t0: (int, int))
    requires
        shaped(t),
        sound(t),
        ordered(t, t0),
    ensures
        sound(settled(t)),
        ordered(settled(t), t0),
{
    let u = settled(t);
    law_settling_advances(t);
    assert forall|i: int| 0 <= i < u.len() implies #[trigger] sound_node(u, i) by {
        if u[i].state == t[i].state {
            lemma_sound_kept(t, u, i);
        } else {
            lemma_settled_children(t, i);
            let cs = t[i].kind.children();
            let states = states_of(u, cs);
            assert(settled_outcome(t, i) == decided(t[i].kind, states));
            lemma_first_observed(states, 0);
        }
    }
    assert forall|k: int| 0 <= k < u.len() implies #[trigger] ordered_node(u, t0, k) by {
        if !(t[k].state is Pending) {
            lemma_order_kept(t, u, t0, k);
        }
    }
}

/// Settling keeps every decision sound, every search in order, and the trail
/// complete.
pub proof fn law_settling_keeps(
    t: Seq<NodeView>,
    trail: Seq<Entry>,
    t0: (int, int),
    clock: Seq<(int, int)>,
)
    requires
        shaped(t),
        sound(t),
        ordered(t, t0),
        recorded(t, trail),
    ensures
        sound(settled(t)),
        ordered(settled(t), t0),
        recorded(settled(t), trail + settle_trail(t, clock, 0)),
{
    let u = settled(t);
    law_settling_advances(t);
    lemma_settling_keeps_ranks(t, t0);
    let more = settle_trail(t, clock, 0);
    assert forall|k: int| 0 <= k < u.len() implies #[trigger] recorded_node(u, trail + more, k) by {
        if u[k].state == t[k].state {
            lemma_record_kept(t, u, trail, more, k);
        } else {
            let n = lemma_settle_entry(t, clock, 0, k);
            lemma_record_end(t, u, trail, more, k, n);
        }
    }
}

/// No prediction is both satisfied and refuted.
pub proof fn law_verdicts_exclude_each_other(t: Seq<NodeView>, i: int)
    requires
        shaped(t),
        0 <= i < t.len(),
    ensures
        !(satisfied(t, i) && refuted(t, i)),
    decreases t.len() - i,
{
    let cs = t[i].kind.children();
    assert forall|j: int| 0 <= j < cs.len() implies !(satisfied(t, #[trigger] cs[j]) && refuted(
        t,
        cs[j],
    )) by {
        let c = cs[j];
        assert(i < c < t.len());
        law_verdicts_exclude_each_other(t, c);
    }
    if satisfied(t, i) && refuted(t, i) {
        match t[i].kind {
            KindView::Unit { .. } => {},
            KindView::All { .. } => {
                let j = choose|j: int|
                    0 <= j < cs.len() && i < #[trigger] cs[j] < t.len() && refuted(t, cs[j]);
                assert(satisfied(t, cs[j]));
            },
            KindView::Any { .. } => {
                let j = choose|j: int|
                    0 <= j < cs.len() && i < #[trigger] cs[j] < t.len() && satisfied(t, cs[j]);
                assert(refuted(t, cs[j]));
            },
        }
    }
}

/// A node that is observed is satisfied, and one that has failed is refuted.
pub proof fn law_decisions_are_justified(t: Seq<NodeView>, i: int)
    requires
        shaped(t),
        sound(t),
        0 <= i < t.len(),
    ensures
        t[i].state is Observed ==> satisfied(t, i),
        t[i].state is Failed ==> refuted(t, i),
    decreases t.len() - i,
{
    let cs = t[i].kind.children();
    let states = states_of(t, cs);
    assert(sound_node(t, i));
    assert forall|j: int| 0 <= j < cs.len() implies {
        &&& i < #[trigger] cs[j] < t.len()
        &&& states[j] is Observed ==> satisfied(t, cs[j])
        &&& states[j] is Failed ==> refuted(t, cs[j])
    } by {
        let c = cs[j];
        assert(i < c < t.len());
        law_decisions_are_justified(t, c);
    }
    match (t[i].kind, t[i].state) {
        (KindView::All { .. }, StateView::Observed { .. }) => {
            assert forall|j: int| 0 <= j < cs.len() && i < #[trigger] cs[j] < t.len() implies satisfied(
                t,
                cs[j],
            ) by {
                assert(states[j] is Observed);
            }
        },
        (KindView::All { .. }, StateView::Failed { .. }) => {
            let j = choose|j: int| 0 <= j < states.len() && (#[trigger] states[j]) is Failed;
            assert(i < cs[j] < t.len() && refuted(t, cs[j]));
        },
        (KindView::Any { .. }, StateView::Observed { at, line }) => {
            let j = choose|j: int|
                0 <= j < states.len() && #[trigger] states[j] == (StateView::Observed { at, line });
            assert(i < cs[j] < t.len() && satisfied(t, cs[j]));
        },
        (KindView::Any { .. }, StateView::Failed { .. }) => {
            assert forall|j: int| 0 <= j < cs.len() && i < #[trigger] cs[j] < t.len() implies refuted(
                t,
                cs[j],
            ) by {
                assert(states[j] is Failed);
            }
        },
        _ => {},
    }
}

/// A prediction with a verdict has begun to be looked for.
proof fn lemma_verdict_begun(t: Seq<NodeView>, t0: (int, int), i: int)
    requires
        shaped(t),
        filled_groups(t),
        ordered(t, t0),
        0 <= i < t.len(),
        satisfied(t, i) || refuted(t, i),
    ensures
        !(t[i].state is Pending),
    decreases t.len() - i,
{
    let cs = t[i].kind.children();
    if !(t[i].kind is Unit) {
        assert(cs.len() > 0);
        assert(i < cs[0] < t.len());
        let j = if exists|j: int|
            0 <= j < cs.len() && i < #[trigger] cs[j] < t.len() && (satisfied(t, cs[j]) || refuted(
                t,
                cs[j],
            )) {
            choose|j: int|
                0 <= j < cs.len() && i < #[trigger] cs[j] < t.len() && (satisfied(t, cs[j])
                    || refuted(t, cs[j]))
        } else {
            0
        };
        lemma_verdict_begun(t, t0, cs[j]);
        assert(ordered_node(t, t0, cs[j]));
        assert(t[cs[j]].parent == Some(i));
    }
}

/// Once settling is done a prediction is observed if and only if it is
/// satisfied, and has failed if and only if it is refuted: an `All` is observed
/// with every child and fails with any, an `Any` the other way round.
pub proof fn law_verdict(t: Seq<NodeView>, t0: (int, int), i: int)
    requires
        shaped(t),
        filled_groups(t),
        sound(t),
        ordered(t, t0),
        0 <= i < t.len(),
    ensures
        settled(t)[i].state is Observed <==> satisfied(settled(t), i),
        settled(t)[i].state is Failed <==> refuted(settled(t), i),
    decreases t.len() - i,
{
    let u = settled(t);
    law_settling_advances(t);
    lemma_same_tree(t, u);
    lemma_settling_keeps_ranks(t, t0);
    law_decisions_are_justified(u, i);
    law_verdicts_exclude_each_other(u, i);
    let cs = t[i].kind.children();
    if satisfied(u, i) || refuted(u, i) {
        lemma_verdict_begun(u, t0, i);
        if t[i].kind is Unit {
        } else if u[i].state is Expecting {
            let states = states_of(u, cs);
            lemma_settled_children(t, i);
            assert(follows(t[i].state, u[i].state));
            assert(t[i].state == u[i].state);
            assert(decided(t[i].kind, states) is Open);
            lemma_first_observed(states, 0);
            assert forall|j: int| 0 <= j < cs.len() implies {
                &&& i < #[trigger] cs[j] < t.len()
                &&& states[j] is Observed <==> satisfied(u, cs[j])
                &&& states[j] is Failed <==> refuted(u, cs[j])
            } by {
                let c = cs[j];
                assert(i < c < t.len());
                law_verdict(t, t0, c);
            }
            assert(false) by {
                match t[i].kind {
                    KindView::Unit { .. } => {},
                    KindView::All { .. } => {
                        if satisfied(u, i) {
                            assert(all_observed(states)) by {
                                assert forall|j: int| 0 <= j < states.len() implies (
                                #[trigger] states[j]) is Observed by {
                                    assert(i < cs[j] < t.len());
                                }
                            }
                        } else {
                            let j = choose|j: int|
                                0 <= j < cs.len() && i < #[trigger] cs[j] < u.len() && refuted(
                                    u,
                                    cs[j],
                                );
                            assert(states[j] is Failed);
                        }
                    },
                    KindView::Any { .. } => {
                        if refuted(u, i) {
                            assert(all_failed(states)) by {
                                assert forall|j: int| 0 <= j < states.len() implies (
                                #[trigger] states[j]) is Failed by {
                                    assert(i < cs[j] < t.len());
                                }
                            }
                        } else {
                            let j = choose|j: int|
                                0 <= j < cs.len() && i < #[trigger] cs[j] < u.len() && satisfied(
                                    u,
                                    cs[j],
                                );
                            assert(states[j] is Observed);
                        }
                    },
                }
            }
        }
    }
}

/// The first unit, from node `from` on, that was given up.
pub open spec fn failed_unit(t: Seq<NodeView>, from: int) -> Option<int>
    decreases t.len() - from,
{
    if from >= t.len() {
        None
    } else if t[from].kind is Unit && t[from].state is Failed {
        Some(from)
    } else {
        failed_unit(t, from + 1)
    }
}

/// What [`failed_unit`] finds.
pub proof fn lemma_failed_unit(t: Seq<NodeView>, from: int)
    requires
        0 <= from,
    ensures
        match failed_unit(t, from) {
            Some(k) => from <= k < t.len() && t[k].kind is Unit && t[k].state is Failed,
            None => forall|k: int|
                from <= k < t.len() && (#[trigger] t[k]).kind is Unit ==> !(t[k].state is Failed),
        },
    decreases t.len() - from,
{
    if from < t.len() && !(t[from].kind is Unit && t[from].state is Failed) {
        lemma_failed_unit(t, from + 1);
    }
}

/// Where a prediction is refuted, some unit was given up: there is a culprit to
/// report.
pub proof fn law_refuted_has_culprit(t: Seq<NodeView>, i: int)
    requires
        shaped(t),
        filled_groups(t),
        0 <= i < t.len(),
        refuted(t, i),
    ensures
        failed_unit(t, 0) is Some,
    decreases t.len() - i,
{
    let cs = t[i].kind.children();
    match t[i].kind {
        KindView::Unit { .. } => {
            lemma_failed_unit(t, 0);
        },
        KindView::All { .. } => {
            let j = choose|j: int|
                0 <= j < cs.len() && i < #[trigger] cs[j] < t.len() && refuted(t, cs[j]);
            law_refuted_has_culprit(t, cs[j]);
        },
        KindView::Any { .. } => {
            assert(i < cs[0] < t.len());
            law_refuted_has_culprit(t, cs[0]);
        },
    }
}

/// Within a group nothing is positional: a child that waits for nothing is
/// looked for from the same time as the group, wherever it stands.
pub proof fn law_children_start_with_their_group(t: Seq<NodeView>, q: int, k: int)
    requires
        shaped(t),
        0 <= q < t.len(),
        0 <= k < t.len(),
        is_child(t, q, k),
        t[k].state is Pending,
        t[k].kind.after() is None,
        staged(t)[q].state is Expecting,
    ensures
        staged(t)[k].state == staged(t)[q].state,
{
    let j = choose|j: int|
        0 <= j < t[q].kind.children().len() && #[trigger] t[q].kind.children()[j] == k;
    assert(t[k].parent == Some(q));
}

/// One pass of staging is enough: a second one finds nothing to do.
pub proof fn law_staging_is_complete(t: Seq<NodeView>)
    requires
        shaped(t),
    ensures
        staged(staged(t)) == staged(t),
{
    let u = staged(t);
    assert forall|k: int| 0 <= k < t.len() implies staged_state(u, k) == u[k].state by {
        lemma_staged_twice(t, k);
    }
    assert(staged(u) =~= u);
}

proof fn lemma_staged_twice(t: Seq<NodeView>, k: int)
    requires
        shaped(t),
        0 <= k < t.len(),
    ensures
        staged_state(staged(t), k) == staged_state(t, k),
    decreases k,
{
    let u = staged(t);
    law_staging_advances(t);
    lemma_staged_state(t, k);
    if let Some(q) = t[k].parent {
        assert(0 <= q < k);
        lemma_staged_twice(t, q);
        if let Some(name) = t[k].kind.after() {
            lemma_named_same(t, u, name);
            lemma_named(t, name);
            if let Some(i) = named(t, name) {
                assert(follows(t[i].state, u[i].state));
            }
        }
    }
}

/// One pass of settling is enough: a second one finds nothing to do.
pub proof fn law_settling_is_complete(t: Seq<NodeView>)
    requires
        shaped(t),
    ensures
        settled(settled(t)) == settled(t),
{
    let u = settled(t);
    assert forall|k: int| 0 <= k < t.len() implies settled_state(u, k) == u[k].state by {
        lemma_settled_twice(t, k);
    }
    assert(settled(u) =~= u);
}

proof fn lemma_settled_twice(t: Seq<NodeView>, i: int)
    requires
        shaped(t),
        0 <= i < t.len(),
    ensures
        settled_state(settled(t), i) == settled_state(t, i),
    decreases t.len() - i,
{
    let u = settled(t);
    law_settling_advances(t);
    lemma_same_tree(t, u);
    if u[i].state is Expecting {
        let cs = t[i].kind.children();
        assert(follows(t[i].state, u[i].state));
        lemma_settled_states(t, i, cs.len());
        lemma_settled_states(u, i, cs.len());
        let a = settled_states(t, i, cs, cs.len());
        let b = settled_states(u, i, cs, cs.len());
        assert forall|j: int| 0 <= j < cs.len() implies a[j] == b[j] by {
            let c = cs[j];
            assert(i < c < t.len());
            lemma_settled_twice(t, c);
        }
        assert(a =~= b);
    }
}

/// What satisfies and what refutes a prediction: for a unit, its own observation
/// and its own failure; for an `All`, that every child is satisfied, and that one
/// is refuted; for an `Any`, that one child is satisfied, and that every one is
/// refuted.
pub proof fn law_what_satisfies_and_refutes(t: Seq<NodeView>, i: int)
    requires
        shaped(t),
        0 <= i < t.len(),
    ensures
        match t[i].kind {
            KindView::Unit { .. } => {
                &&& satisfied(t, i) <==> t[i].state is Observed
                &&& refuted(t, i) <==> t[i].state is Failed
            },
            KindView::All { children, .. } => {
                &&& satisfied(t, i) <==> forall|j: int|
                    0 <= j < children.len() ==> satisfied(t, #[trigger] children[j])
                &&& refuted(t, i) <==> exists|j: int|
                    0 <= j < children.len() && refuted(t, #[trigger] children[j])
            },
            KindView::Any { children, .. } => {
                &&& satisfied(t, i) <==> exists|j: int|
                    0 <= j < children.len() && satisfied(t, #[trigger] children[j])
                &&& refuted(t, i) <==> forall|j: int|
                    0 <= j < children.len() ==> refuted(t, #[trigger] children[j])
            },
        },
{
    let cs = t[i].kind.children();
    assert forall|j: int| 0 <= j < cs.len() implies i < #[trigger] cs[j] < t.len() by {
        assert(i < t[i].kind.children()[j] < t.len());
    }
}

/// The unit that is blamed is the first that was given up, and there is none only
/// where no unit was.
pub proof fn law_first_failed_unit(t: Seq<NodeView>, from: int)
    requires
        0 <= from,
    ensures
        match failed_unit(t, from) {
            Some(i) => {
                &&& from <= i < t.len()
                &&& t[i].kind is Unit && t[i].state is Failed
                &&& forall|k: int|
                    from <= k < i ==> !((#[trigger] t[k]).kind is Unit && t[k].state is Failed)
            },
            None => forall|k: int|
                from <= k < t.len() ==> !((#[trigger] t[k]).kind is Unit && t[k].state is Failed),
        },
    decreases t.len() - from,
{
    if from < t.len() && !(t[from].kind is Unit && t[from].state is Failed) {
        law_first_failed_unit(t, from + 1);
    }
}

} // verus!
