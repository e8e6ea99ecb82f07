//! The order of an audit trail: which entry stands before which.

use vstd::prelude::*;
use crate::observation::{Entry, ObservationKind};
use crate::polling::{answer_trail, answered_state, Answer};
use crate::progress::{lemma_same_tree, same_tree};
use crate::settling::{
    conclusion, lemma_partly_settled_next, partly_settled, settle_trail, settled, settled_outcome,
    settled_state,
};
use crate::staging::{
    child_entries, done_bound, expecting_entry, lemma_first_bound, lemma_named,
    lemma_partly_staged_child, lemma_partly_staged_next, lemma_staged_state, named, partly_staged,
    stage_trail, staged, staged_state,
};
use crate::time::shifted;
use crate::tree::{shaped, NodeView, StateView};

verus! {

/// Whether no two nodes of a table have the same name.
pub open spec fn names_differ(t: Seq<NodeView>) -> bool {
    forall|i: int, j: int|
        0 <= i < j < t.len() ==> (#[trigger] t[i]).name != (#[trigger] t[j]).name
}

/// Whether an entry says that the prediction of the given name began to be
/// looked for.
pub open spec fn is_begin_of(e: Entry, name: Seq<char>) -> bool {
    e.kind is Expecting && e.prediction == name
}

/// Whether an entry says that the search for the prediction of the given name
/// ended.
pub open spec fn is_end_of(e: Entry, name: Seq<char>) -> bool {
    !(e.kind is Expecting) && e.prediction == name
}

/// Whether the prediction of the given name begins to be looked for somewhere
/// before position `n` of a trail.
pub open spec fn begun_before(trail: Seq<Entry>, name: Seq<char>, n: int) -> bool {
    exists|m: int| 0 <= m < n && is_begin_of(#[trigger] trail[m], name)
}

/// Whether the search for the prediction of the given name ends somewhere before
/// position `n` of a trail.
pub open spec fn ended_before(trail: Seq<Entry>, name: Seq<char>, n: int) -> bool {
    exists|m: int| 0 <= m < n && is_end_of(#[trigger] trail[m], name)
}

/// Whether the prediction of the given name is observed somewhere before
/// position `n` of a trail, one nanosecond before `at`.
pub open spec fn observed_just_before(
    trail: Seq<Entry>,
    name: Seq<char>,
    n: int,
    at: (int, int),
) -> bool {
    exists|m: int|
        0 <= m < n && (#[trigger] trail[m]).kind is Observed && trail[m].prediction == name
            && shifted(trail[m].timestamp, 1) == Some(at)
}

/// Whether the entry at position `n`, with which the search for node `k` begins,
/// stands in the right place: behind that of its parent and not behind the end of
/// its parent, and where the node waits for another, behind the observation of
/// that, dated one nanosecond later.
pub open spec fn begins_in_order(t: Seq<NodeView>, trail: Seq<Entry>, n: int, k: int) -> bool {
    t[k].parent matches Some(q) ==> {
        &&& begun_before(trail, t[q].name, n)
        &&& !ended_before(trail, t[q].name, n)
        &&& t[k].kind.after() matches Some(x) ==> observed_just_before(
            trail,
            x,
            n,
            trail[n].timestamp,
        )
    }
}

/// Whether a trail is in order: it starts with the root at `t0`; a prediction has
/// at most one entry with which the search for it begins and one with which that
/// ends, the latter behind the former; and every search begins in the right
/// place.
pub open spec fn in_order(t: Seq<NodeView>, trail: Seq<Entry>, t0: (int, int)) -> bool {
    &&& trail.len() > 0
    &&& trail[0] == expecting_entry(t[0].name, t0)
    &&& forall|m: int, n: int|
        0 <= m < n < trail.len() && (#[trigger] trail[m]).prediction == (
        #[trigger] trail[n]).prediction ==> trail[m].kind is Expecting && !(
        trail[n].kind is Expecting)
    &&& forall|n: int|
        0 <= n < trail.len() && !((#[trigger] trail[n]).kind is Expecting) ==> begun_before(
            trail,
            trail[n].prediction,
            n,
        )
    &&& forall|n: int, k: int|
        0 <= n < trail.len() && 0 <= k < t.len() && is_begin_of(
            #[trigger] trail[n],
            (#[trigger] t[k]).name,
        ) ==> begins_in_order(t, trail, n, k)
}

/// Whether an entry tells what has happened to a node.
pub open spec fn tells_of(e: Entry, node: NodeView) -> bool {
    &&& e.prediction == node.name
    &&& match e.kind {
        ObservationKind::Expecting => !(node.state is Pending),
        ObservationKind::Observed => node.state is Observed,
        ObservationKind::Failed => node.state is Failed,
    }
}

/// Whether an entry tells what has happened to some node of a table.
pub open spec fn tells_of_some(t: Seq<NodeView>, e: Entry) -> bool {
    exists|k: int| 0 <= k < t.len() && tells_of(e, #[trigger] t[k])
}

/// Whether the observation of a node is told, with its time.
pub open spec fn observation_told(trail: Seq<Entry>, node: NodeView) -> bool {
    exists|m: int|
        0 <= m < trail.len() && (#[trigger] trail[m]).kind is Observed && trail[m].prediction
            == node.name && trail[m].timestamp == node.state->Observed_at
}

/// Whether a trail tells of nothing but what has happened, and of every begin and
/// every observation.
pub open spec fn truthful(t: Seq<NodeView>, trail: Seq<Entry>) -> bool {
    &&& forall|m: int| 0 <= m < trail.len() ==> tells_of_some(t, #[trigger] trail[m])
    &&& forall|k: int|
        0 <= k < t.len() && !((#[trigger] t[k]).state is Pending) ==> begun_before(
            trail,
            t[k].name,
            trail.len() as int,
        )
    &&& forall|k: int|
        0 <= k < t.len() && (#[trigger] t[k]).state is Observed ==> observation_told(trail, t[k])
}

/// Whether a trail is in order and truthful.
#[verifier::opaque]
pub open spec fn orderly(t: Seq<NodeView>, trail: Seq<Entry>, t0: (int, int)) -> bool {
    in_order(t, trail, t0) && truthful(t, trail)
}

/// An entry of a node tells of that node, where names differ.
proof fn lemma_tells_of(t: Seq<NodeView>, e: Entry, k: int)
    requires
        names_differ(t),
        0 <= k < t.len(),
        tells_of_some(t, e),
        e.prediction == t[k].name,
    ensures
        tells_of(e, t[k]),
{
    let j = choose|j: int| 0 <= j < t.len() && tells_of(e, #[trigger] t[j]);
    if j < k {
        assert(t[j].name != t[k].name);
    } else if k < j {
        assert(t[k].name != t[j].name);
    }
}

/// What stands before a position stays there when a trail grows.
proof fn lemma_prefix(trail: Seq<Entry>, e: Entry, name: Seq<char>, n: int, at: (int, int))
    requires
        0 <= n <= trail.len(),
    ensures
        begun_before(trail.push(e), name, n) == begun_before(trail, name, n),
        ended_before(trail.push(e), name, n) == ended_before(trail, name, n),
        observed_just_before(trail.push(e), name, n, at) == observed_just_before(
            trail,
            name,
            n,
            at,
        ),
{
    let more = trail.push(e);
    assert forall|m: int| 0 <= m < n implies more[m] == trail[m] by {}
    if begun_before(trail, name, n) {
        let m = choose|m: int| 0 <= m < n && is_begin_of(#[trigger] trail[m], name);
        assert(is_begin_of(more[m], name));
    }
    if ended_before(trail, name, n) {
        let m = choose|m: int| 0 <= m < n && is_end_of(#[trigger] trail[m], name);
        assert(is_end_of(more[m], name));
    }
    if observed_just_before(trail, name, n, at) {
        let m = choose|m: int|
            0 <= m < n && (#[trigger] trail[m]).kind is Observed && trail[m].prediction == name
                && shifted(trail[m].timestamp, 1) == Some(at);
        assert(more[m].kind is Observed);
    }
}

/// A new entry keeps a trail in order if it is the first of its sort for its
/// prediction, an end stands behind a begin, and a begin stands in the right
/// place.
proof fn lemma_grows(
    t: Seq<NodeView>,
    u: Seq<NodeView>,
    trail: Seq<Entry>,
    t0: (int, int),
    e: Entry,
    k: int,
)
    requires
        names_differ(t),
        in_order(t, trail, t0),
        t.len() == u.len(),
        forall|j: int|
            0 <= j < t.len() ==> (#[trigger] u[j]).name == t[j].name && u[j].kind == t[j].kind
                && u[j].parent == t[j].parent,
        shaped(t),
        0 <= k < t.len(),
        e.prediction == t[k].name,
        forall|m: int|
            0 <= m < trail.len() && (#[trigger] trail[m]).prediction == t[k].name
                ==> trail[m].kind is Expecting && !(e.kind is Expecting),
        !(e.kind is Expecting) ==> begun_before(trail, t[k].name, trail.len() as int),
        e.kind is Expecting ==> begins_in_order(u, trail.push(e), trail.len() as int, k),
    ensures
        in_order(u, trail.push(e), t0),
{
    let more = trail.push(e);
    let last = trail.len() as int;
    assert(more[0] == trail[0]);
    assert forall|m: int, n: int|
        0 <= m < n < more.len() && (#[trigger] more[m]).prediction == (
        #[trigger] more[n]).prediction implies more[m].kind is Expecting && !(
    more[n].kind is Expecting) by {
        assert(more[m] == trail[m]);
        if n < last {
            assert(more[n] == trail[n]);
        }
    }
    assert forall|n: int|
        0 <= n < more.len() && !((#[trigger] more[n]).kind is Expecting) implies begun_before(
        more,
        more[n].prediction,
        n,
    ) by {
        lemma_prefix(trail, e, more[n].prediction, n, t0);
        if n < last {
            assert(more[n] == trail[n]);
        }
    }
    assert forall|n: int, j: int|
        0 <= n < more.len() && 0 <= j < u.len() && is_begin_of(
            #[trigger] more[n],
            (#[trigger] u[j]).name,
        ) implies begins_in_order(u, more, n, j) by {
        assert(u[j].name == t[j].name);
        if n < last {
            assert(more[n] == trail[n]);
            assert(is_begin_of(trail[n], t[j].name));
            assert(begins_in_order(t, trail, n, j));
            if let Some(q) = t[j].parent {
                if j > 0 {
                    assert(0 <= q < j);
                }
                assert(u[q].name == t[q].name);
                lemma_prefix(trail, e, t[q].name, n, t0);
                if let Some(x) = t[j].kind.after() {
                    lemma_prefix(trail, e, x, n, trail[n].timestamp);
                }
            }
        } else {
            if j < k {
                assert(t[j].name != t[k].name);
            } else if k < j {
                assert(t[k].name != t[j].name);
            }
        }
    }
}

/// What the trail tells is still so after one node has moved and an entry tells
/// of it.
proof fn lemma_tells_on(
    t: Seq<NodeView>,
    trail: Seq<Entry>,
    k: int,
    state: StateView,
    e: Entry,
)
    requires
        truthful(t, trail),
        0 <= k < t.len(),
        tells_of(e, NodeView { state, ..t[k] }),
        !(state is Pending),
        t[k].state is Pending ==> e.kind is Expecting,
        t[k].state is Pending || t[k].state is Expecting,
        state is Observed ==> e.kind is Observed && e.timestamp == state->Observed_at,
    ensures
        truthful(t.update(k, NodeView { state, ..t[k] }), trail.push(e)),
{
    let u = t.update(k, NodeView { state, ..t[k] });
    let more = trail.push(e);
    let last = trail.len() as int;
    assert forall|m: int| 0 <= m < more.len() implies tells_of_some(u, #[trigger] more[m]) by {
        if m < last {
            assert(more[m] == trail[m]);
            assert(tells_of_some(t, trail[m]));
            let j = choose|j: int| 0 <= j < t.len() && tells_of(trail[m], #[trigger] t[j]);
            assert(tells_of(more[m], u[j]));
        } else {
            assert(tells_of(more[m], u[k]));
        }
    }
    assert forall|j: int| 0 <= j < u.len() && !((#[trigger] u[j]).state is Pending) implies begun_before(
        more,
        u[j].name,
        more.len() as int,
    ) by {
        if j == k && t[k].state is Pending {
            assert(is_begin_of(more[last], u[j].name));
        } else {
            assert(!(t[j].state is Pending));
            let m = choose|m: int| 0 <= m < last && is_begin_of(#[trigger] trail[m], t[j].name);
            assert(more[m] == trail[m]);
            assert(is_begin_of(more[m], u[j].name));
        }
    }
    assert forall|j: int| 0 <= j < u.len() && (#[trigger] u[j]).state is Observed implies observation_told(
        more,
        u[j],
    ) by {
        if j == k {
            assert(more[last].kind is Observed);
        } else {
            assert(observation_told(trail, t[j]));
            let m = choose|m: int|
                0 <= m < last && (#[trigger] trail[m]).kind is Observed && trail[m].prediction
                    == t[j].name && trail[m].timestamp == t[j].state->Observed_at;
            assert(more[m] == trail[m]);
        }
    }
}

/// The entries of a node tell of that node.
proof fn lemma_entries_of(t: Seq<NodeView>, trail: Seq<Entry>, k: int)
    requires
        names_differ(t),
        truthful(t, trail),
        0 <= k < t.len(),
    ensures
        forall|m: int|
            0 <= m < trail.len() && (#[trigger] trail[m]).prediction == t[k].name ==> tells_of(
                trail[m],
                t[k],
            ),
{
    assert forall|m: int|
        0 <= m < trail.len() && (#[trigger] trail[m]).prediction == t[k].name implies tells_of(
        trail[m],
        t[k],
    ) by {
        assert(tells_of_some(t, trail[m]));
        lemma_tells_of(t, trail[m], k);
    }
}

/// The end of a trail is the right place for the begin of a node whose parent is
/// looked for, and that waits for nothing, or for what is observed.
proof fn lemma_begin_place(
    t: Seq<NodeView>,
    trail: Seq<Entry>,
    k: int,
    at: (int, int),
    q: int,
    w: int,
)
    requires
        names_differ(t),
        truthful(t, trail),
        0 <= k < t.len(),
        t[k].parent == Some(q),
        0 <= q < t.len(),
        t[q].state is Expecting,
        t[k].kind.after() matches Some(x) ==> 0 <= w < t.len() && t[w].name == x
            && t[w].state is Observed && shifted(t[w].state->Observed_at, 1) == Some(at),
    ensures
        begins_in_order(
            t.update(k, NodeView { state: StateView::Expecting { at }, ..t[k] }),
            trail.push(expecting_entry(t[k].name, at)),
            trail.len() as int,
            k,
        ),
{
    let u = t.update(k, NodeView { state: StateView::Expecting { at }, ..t[k] });
    let e = expecting_entry(t[k].name, at);
    let last = trail.len() as int;
    assert(u[q].name == t[q].name);
    lemma_prefix(trail, e, t[q].name, last, at);
    assert(begun_before(trail, t[q].name, last));
    lemma_entries_of(t, trail, q);
    if ended_before(trail, t[q].name, last) {
        let m = choose|m: int| 0 <= m < last && is_end_of(#[trigger] trail[m], t[q].name);
        assert(tells_of(trail[m], t[q]));
    }
    if let Some(x) = t[k].kind.after() {
        lemma_prefix(trail, e, x, last, at);
        assert(observation_told(trail, t[w]));
        let m = choose|m: int|
            0 <= m < last && (#[trigger] trail[m]).kind is Observed && trail[m].prediction
                == t[w].name && trail[m].timestamp == t[w].state->Observed_at;
        assert(trail[m].kind is Observed);
        assert(observed_just_before(trail, x, last, at));
    }
}

/// Beginning to look for a node keeps the trail in order.
proof fn lemma_begin(
    t: Seq<NodeView>,
    trail: Seq<Entry>,
    t0: (int, int),
    k: int,
    at: (int, int),
    q: int,
    w: int,
)
    requires
        shaped(t),
        names_differ(t),
        orderly(t, trail, t0),
        0 <= k < t.len(),
        t[k].state is Pending,
        t[k].parent == Some(q),
        0 <= q < t.len(),
        t[q].state is Expecting,
        t[k].kind.after() matches Some(x) ==> 0 <= w < t.len() && t[w].name == x
            && t[w].state is Observed && shifted(t[w].state->Observed_at, 1) == Some(at),
    ensures
        orderly(
            t.update(k, NodeView { state: StateView::Expecting { at }, ..t[k] }),
            trail.push(expecting_entry(t[k].name, at)),
            t0,
        ),
{
    reveal(orderly);
    let state = StateView::Expecting { at };
    let u = t.update(k, NodeView { state, ..t[k] });
    let e = expecting_entry(t[k].name, at);
    lemma_tells_on(t, trail, k, state, e);
    lemma_entries_of(t, trail, k);
    lemma_begin_place(t, trail, k, at, q, w);
    lemma_grows(t, u, trail, t0, e, k);
}

/// Ending the search for a node keeps the trail in order.
proof fn lemma_end(
    t: Seq<NodeView>,
    trail: Seq<Entry>,
    t0: (int, int),
    k: int,
    state: StateView,
    e: Entry,
)
    requires
        shaped(t),
        names_differ(t),
        orderly(t, trail, t0),
        0 <= k < t.len(),
        t[k].state is Expecting,
        e.prediction == t[k].name,
        !(e.kind is Expecting),
        tells_of(e, NodeView { state, ..t[k] }),
        state is Observed ==> e.timestamp == state->Observed_at,
    ensures
        orderly(t.update(k, NodeView { state, ..t[k] }), trail.push(e), t0),
{
    reveal(orderly);
    let u = t.update(k, NodeView { state, ..t[k] });
    lemma_tells_on(t, trail, k, state, e);
    lemma_entries_of(t, trail, k);
    assert(begun_before(trail, t[k].name, trail.len() as int));
    lemma_grows(t, u, trail, t0, e, k);
}

/// A table that differs from a tree in states alone is a tree with the same
/// names.
proof fn lemma_same_names(t: Seq<NodeView>, u: Seq<NodeView>)
    requires
        shaped(t),
        names_differ(t),
        same_tree(t, u),
    ensures
        shaped(u),
        names_differ(u),
{
    lemma_same_tree(t, u);
    assert forall|i: int, j: int| 0 <= i < j < u.len() implies (#[trigger] u[i]).name != (
    #[trigger] u[j]).name by {
        assert(t[i].name != t[j].name);
    }
}

/// The trail is in order while the children of node `i` are staged.
proof fn lemma_staging_children(
    t: Seq<NodeView>,
    trail: Seq<Entry>,
    t0: (int, int),
    i: int,
    j: int,
)
    requires
        shaped(t),
        names_differ(t),
        0 <= i < t.len(),
        0 <= j <= t[i].kind.children().len(),
        orderly(partly_staged(t, i, 0), trail, t0),
    ensures
        orderly(
            partly_staged(t, i, done_bound(t, i, j)),
            trail + child_entries(t, t[i].kind.children(), j),
            t0,
        ),
    decreases j,
{
    let cs = t[i].kind.children();
    if j == 0 {
        lemma_first_bound(t, i);
        assert(trail + child_entries(t, cs, 0) =~= trail);
    } else {
        lemma_staging_children(t, trail, t0, i, j - 1);
        lemma_partly_staged_child(t, i, j - 1);
        let c = cs[j - 1];
        let u = partly_staged(t, i, done_bound(t, i, j - 1));
        let sofar = trail + child_entries(t, cs, j - 1);
        lemma_staged_state(t, c);
        assert(t[c].parent == Some(i));
        if t[c].state is Pending && staged_state(t, c) is Expecting {
            let at = staged_state(t, c)->Expecting_at;
            lemma_same_names(t, u);
            assert(u[i].state == staged_state(t, i)) by {
                if i > 0 {
                    assert(t[i].parent matches Some(q) && q < i);
                }
            }
            let w = match t[c].kind.after() {
                Some(x) => named(t, x)->Some_0,
                None => 0,
            };
            if let Some(x) = t[c].kind.after() {
                lemma_named(t, x);
                lemma_staged_state(t, w);
                assert(u[w].state == t[w].state);
            }
            lemma_begin(u, sofar, t0, c, at, i, w);
            assert(sofar.push(expecting_entry(t[c].name, at)) =~= trail + child_entries(t, cs, j));
        } else {
            assert(u =~= u.update(c, t[c]));
            assert(staged_state(t, c) == t[c].state);
        }
    }
}

/// The trail is in order while the children of the nodes before `i` are staged.
proof fn lemma_staging(t: Seq<NodeView>, trail: Seq<Entry>, t0: (int, int), i: int)
    requires
        shaped(t),
        names_differ(t),
        orderly(t, trail, t0),
        0 <= i <= t.len(),
    ensures
        orderly(partly_staged(t, i, 0), trail + stage_trail(t, i), t0),
    decreases i,
{
    if i == 0 {
        assert(partly_staged(t, 0, 0) =~= t) by {
            assert forall|k: int| 0 <= k < t.len() implies partly_staged(t, 0, 0)[k] == t[k] by {
                if k > 0 {
                    assert(t[k].parent matches Some(q) && 0 <= q);
                }
            }
        }
        assert(trail + stage_trail(t, 0) =~= trail);
    } else {
        let cs = t[i - 1].kind.children();
        lemma_staging(t, trail, t0, i - 1);
        let sofar = trail + stage_trail(t, i - 1);
        lemma_staging_children(t, sofar, t0, i - 1, cs.len() as int);
        lemma_partly_staged_next(t, i - 1);
        assert(sofar + child_entries(t, cs, cs.len() as int) =~= trail + stage_trail(t, i));
    }
}

/// Staging keeps a trail in order.
pub proof fn law_staging_keeps_order(t: Seq<NodeView>, trail: Seq<Entry>, t0: (int, int))
    requires
        shaped(t),
        names_differ(t),
        orderly(t, trail, t0),
    ensures
        orderly(staged(t), trail + stage_trail(t, t.len() as int), t0),
{
    let n = t.len() as int;
    lemma_staging(t, trail, t0, n);
    assert(partly_staged(t, n, 0) =~= staged(t)) by {
        assert forall|k: int| 0 <= k < t.len() implies partly_staged(t, n, 0)[k] == staged(t)[k] by {
            if k > 0 {
                assert(t[k].parent matches Some(q) && 0 <= q < k);
            }
        }
    }
}

/// An answer keeps a trail in order.
pub proof fn law_answer_keeps_order(
    t: Seq<NodeView>,
    trail: Seq<Entry>,
    t0: (int, int),
    i: int,
    answer: Answer,
    now: (int, int),
    deadline: (int, int),
)
    requires
        shaped(t),
        names_differ(t),
        orderly(t, trail, t0),
        0 <= i < t.len(),
        t[i].state is Expecting,
    ensures
        orderly(
            t.update(
                i,
                NodeView {
                    state: answered_state(t[i].state->Expecting_at, answer, now, deadline),
                    ..t[i]
                },
            ),
            trail + answer_trail(t[i].name, answer, now, deadline),
            t0,
        ),
{
    let state = answered_state(t[i].state->Expecting_at, answer, now, deadline);
    let more = answer_trail(t[i].name, answer, now, deadline);
    if more.len() == 0 {
        assert(t.update(i, NodeView { state, ..t[i] }) =~= t);
        assert(trail + more =~= trail);
    } else {
        lemma_end(t, trail, t0, i, state, more[0]);
        assert(trail + more =~= trail.push(more[0]));
    }
}

/// The trail is in order while the nodes from `i` on are settled.
proof fn lemma_settling(
    t: Seq<NodeView>,
    trail: Seq<Entry>,
    t0: (int, int),
    clock: Seq<(int, int)>,
    i: int,
)
    requires
        shaped(t),
        names_differ(t),
        orderly(t, trail, t0),
        0 <= i <= t.len(),
    ensures
        orderly(partly_settled(t, i), trail + settle_trail(t, clock, i), t0),
    decreases t.len() - i,
{
    if i == t.len() {
        assert(partly_settled(t, i) =~= t);
        assert(trail + settle_trail(t, clock, i) =~= trail);
    } else {
        lemma_settling(t, trail, t0, clock, i + 1);
        lemma_partly_settled_next(t, i);
        let u = partly_settled(t, i + 1);
        let sofar = trail + settle_trail(t, clock, i + 1);
        let more = conclusion(settled_outcome(t, i), t[i].name, clock[i]);
        lemma_same_names(t, u);
        assert(u[i] == t[i]);
        assert(trail + settle_trail(t, clock, i) =~= sofar + more);
        if more.len() == 0 {
            assert(settled_state(t, i) == t[i].state);
            assert(u =~= u.update(i, t[i]));
            assert(sofar + more =~= sofar);
        } else {
            lemma_end(u, sofar, t0, i, settled_state(t, i), more[0]);
            assert(sofar + more =~= sofar.push(more[0]));
        }
    }
}

/// Settling keeps a trail in order.
pub proof fn law_settling_keeps_order(
    t: Seq<NodeView>,
    trail: Seq<Entry>,
    t0: (int, int),
    clock: Seq<(int, int)>,
)
    requires
        shaped(t),
        names_differ(t),
        orderly(t, trail, t0),
    ensures
        orderly(settled(t), trail + settle_trail(t, clock, 0), t0),
{
    lemma_settling(t, trail, t0, clock, 0);
    assert(partly_settled(t, 0) =~= settled(t));
}

/// A trail that holds only the begin of the root is in order.
pub proof fn lemma_first_entry(t: Seq<NodeView>, t0: (int, int))
    requires
        shaped(t),
        names_differ(t),
        t[0].state == (StateView::Expecting { at: t0 }),
        forall|k: int| 0 < k < t.len() ==> (#[trigger] t[k]).state is Pending,
    ensures
        orderly(t, seq![expecting_entry(t[0].name, t0)], t0),
{
    reveal(orderly);
    let trail = seq![expecting_entry(t[0].name, t0)];
    assert(tells_of(trail[0], t[0]));
    assert(is_begin_of(trail[0], t[0].name));
    assert forall|n: int, k: int|
        0 <= n < trail.len() && 0 <= k < t.len() && is_begin_of(
            #[trigger] trail[n],
            (#[trigger] t[k]).name,
        ) implies begins_in_order(t, trail, n, k) by {
        if k > 0 {
            assert(t[0].name != t[k].name);
        }
    }
}

/// Whether a trail is in order does not depend on the states in a table.
pub proof fn lemma_same_order(
    t: Seq<NodeView>,
    u: Seq<NodeView>,
    trail: Seq<Entry>,
    t0: (int, int),
)
    requires
        shaped(t),
        same_tree(t, u),
        in_order(t, trail, t0),
    ensures
        in_order(u, trail, t0),
{
    assert(t[0].name == u[0].name);
    assert forall|n: int, k: int|
        0 <= n < trail.len() && 0 <= k < u.len() && is_begin_of(
            #[trigger] trail[n],
            (#[trigger] u[k]).name,
        ) implies begins_in_order(u, trail, n, k) by {
        assert(t[k].name == u[k].name);
        assert(begins_in_order(t, trail, n, k));
        if let Some(q) = t[k].parent {
            assert(k > 0 && 0 <= q < k);
            assert(t[q].name == u[q].name);
        }
    }
}

} // verus!
