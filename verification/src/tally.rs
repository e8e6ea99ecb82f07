//! How many entries an audit trail has: one for every step of every node.

use vstd::prelude::*;
use crate::polling::{answer_trail, answered_state, Answer};
use crate::settling::{settle_trail, settled, settled_state};
use crate::staging::{child_entries, lemma_staged_state, stage_trail, staged, staged_state};
use crate::tree::{is_child, shaped, NodeView, StateView};

verus! {

/// How many steps lead to a state: none to a pending node, one to a node that is
/// looked for, and two to one that is decided.
pub open spec fn step_count(state: StateView) -> nat {
    match state {
        StateView::Pending => 0,
        StateView::Expecting { .. } => 1,
        _ => 2,
    }
}

/// How many steps the first `n` nodes of a table have made.
pub open spec fn steps(t: Seq<NodeView>, n: int) -> nat
    decreases n,
{
    if n <= 0 {
        0
    } else {
        steps(t, n - 1) + step_count(t[n - 1].state)
    }
}

/// Where every node is pending, no step has been made.
pub proof fn lemma_no_steps(t: Seq<NodeView>, n: int)
    requires
        0 <= n <= t.len(),
        forall|k: int| 0 <= k < t.len() ==> (#[trigger] t[k]).state is Pending,
    ensures
        steps(t, n) == 0,
    decreases n,
{
    if n > 0 {
        lemma_no_steps(t, n - 1);
        assert(t[n - 1].state is Pending);
    }
}

/// Whether staging moves node `k`.
spec fn moves(t: Seq<NodeView>, k: int) -> bool {
    t[k].state is Pending && staged_state(t, k) is Expecting
}

/// How many of the first `n` nodes are children of node `q` that staging moves.
spec fn moved_children(t: Seq<NodeView>, q: int, n: int) -> nat
    decreases n,
{
    if n <= 0 {
        0
    } else if t[n - 1].parent == Some(q) && moves(t, n - 1) {
        moved_children(t, q, n - 1) + 1
    } else {
        moved_children(t, q, n - 1)
    }
}

/// How many of the first `n` nodes have a parent before `q` and are moved by
/// staging.
spec fn moved_before(t: Seq<NodeView>, q: int, n: int) -> nat
    decreases n,
{
    if n <= 0 {
        0
    } else if (t[n - 1].parent matches Some(p) && p < q) && moves(t, n - 1) {
        moved_before(t, q, n - 1) + 1
    } else {
        moved_before(t, q, n - 1)
    }
}

proof fn lemma_moved_before_next(t: Seq<NodeView>, q: int, n: int)
    ensures
        moved_before(t, q + 1, n) == moved_before(t, q, n) + moved_children(t, q, n),
    decreases n,
{
    if n > 0 {
        lemma_moved_before_next(t, q, n - 1);
    }
}

proof fn lemma_moved_before_none(t: Seq<NodeView>, n: int)
    requires
        shaped(t),
        n <= t.len(),
    ensures
        moved_before(t, 0, n) == 0,
    decreases n,
{
    if n > 0 {
        lemma_moved_before_none(t, n - 1);
        if n - 1 > 0 {
            assert(t[n - 1].parent matches Some(q) && 0 <= q);
        }
    }
}

/// Where no child of `q` stands, none is counted.
proof fn lemma_moved_children_gap(t: Seq<NodeView>, q: int, a: int, b: int)
    requires
        0 <= a <= b,
        forall|k: int| a <= k < b ==> (#[trigger] t[k]).parent != Some(q),
    ensures
        moved_children(t, q, b) == moved_children(t, q, a),
    decreases b - a,
{
    if a < b {
        lemma_moved_children_gap(t, q, a, b - 1);
        assert(t[b - 1].parent != Some(q));
    }
}

/// Between two neighbouring children of a node, before the first and behind the
/// last, there is no other child of it.
proof fn lemma_between_children(t: Seq<NodeView>, q: int, m: int, k: int)
    requires
        shaped(t),
        0 <= q < t.len(),
        0 <= m <= t[q].kind.children().len(),
        0 <= k < t.len(),
        m > 0 ==> t[q].kind.children()[m - 1] < k,
        m < t[q].kind.children().len() ==> k < t[q].kind.children()[m],
    ensures
        t[k].parent != Some(q),
{
    let cs = t[q].kind.children();
    if t[k].parent == Some(q) {
        assert(is_child(t, q, k));
        let j = choose|j: int| 0 <= j < cs.len() && #[trigger] cs[j] == k;
        if j < m {
            if j < m - 1 {
                assert(cs[j] < cs[m - 1]);
            }
        } else if m < j {
            assert(cs[m] < cs[j]);
        }
    }
}

/// The entries of the first `m` children of node `q` are as many as are moved up
/// to the next child.
proof fn lemma_child_entries_len(t: Seq<NodeView>, q: int, m: int)
    requires
        shaped(t),
        0 <= q < t.len(),
        0 <= m <= t[q].kind.children().len(),
    ensures
        child_entries(t, t[q].kind.children(), m).len() == moved_children(
            t,
            q,
            if m < t[q].kind.children().len() {
                t[q].kind.children()[m]
            } else {
                t.len() as int
            },
        ),
    decreases m,
{
    let cs = t[q].kind.children();
    let end = if m < cs.len() {
        cs[m]
    } else {
        t.len() as int
    };
    if m < cs.len() {
        assert(q < cs[m] < t.len());
    }
    if m == 0 {
        assert forall|k: int| 0 <= k < end implies (#[trigger] t[k]).parent != Some(q) by {
            lemma_between_children(t, q, 0, k);
        }
        lemma_moved_children_gap(t, q, 0, end);
    } else {
        let c = cs[m - 1];
        assert(q < c < t.len() && t[c].parent == Some(q));
        if m < cs.len() {
            assert(cs[m - 1] < cs[m]);
        }
        lemma_child_entries_len(t, q, m - 1);
        assert forall|k: int| c + 1 <= k < end implies (#[trigger] t[k]).parent != Some(q) by {
            lemma_between_children(t, q, m, k);
        }
        lemma_moved_children_gap(t, q, c + 1, end);
        lemma_staged_state(t, c);
    }
}

proof fn lemma_stage_trail_len(t: Seq<NodeView>, n: int)
    requires
        shaped(t),
        0 <= n <= t.len(),
    ensures
        stage_trail(t, n).len() == moved_before(t, n, t.len() as int),
    decreases n,
{
    if n == 0 {
        lemma_moved_before_none(t, t.len() as int);
    } else {
        lemma_stage_trail_len(t, n - 1);
        lemma_child_entries_len(t, n - 1, t[n - 1].kind.children().len() as int);
        lemma_moved_before_next(t, n - 1, t.len() as int);
    }
}

proof fn lemma_staged_steps(t: Seq<NodeView>, n: int)
    requires
        shaped(t),
        0 <= n <= t.len(),
    ensures
        steps(staged(t), n) == steps(t, n) + moved_before(t, t.len() as int, n),
    decreases n,
{
    if n > 0 {
        lemma_staged_steps(t, n - 1);
        let k = n - 1;
        lemma_staged_state(t, k);
        if k > 0 {
            assert(t[k].parent matches Some(q) && q < k);
        }
    }
}

/// Staging enters every step that it makes in the trail, once.
pub proof fn law_staging_tally(t: Seq<NodeView>)
    requires
        shaped(t),
    ensures
        steps(staged(t), t.len() as int) == steps(t, t.len() as int) + stage_trail(
            t,
            t.len() as int,
        ).len(),
{
    lemma_stage_trail_len(t, t.len() as int);
    lemma_staged_steps(t, t.len() as int);
}

/// A table in which one node changes.
pub proof fn lemma_update_steps(t: Seq<NodeView>, i: int, node: NodeView, n: int)
    requires
        0 <= i < t.len(),
        0 <= n <= t.len(),
    ensures
        steps(t.update(i, node), n) == steps(t, n) + (if i < n {
            step_count(node.state) - step_count(t[i].state)
        } else {
            0
        }),
    decreases n,
{
    if n > 0 {
        lemma_update_steps(t, i, node, n - 1);
    }
}

/// An answer enters the step that it makes, if any, in the trail, once.
pub proof fn law_answer_tally(
    t: Seq<NodeView>,
    i: int,
    answer: Answer,
    now: (int, int),
    deadline: (int, int),
)
    requires
        0 <= i < t.len(),
        t[i].state is Expecting,
    ensures
        steps(
            t.update(
                i,
                NodeView {
                    state: answered_state(t[i].state->Expecting_at, answer, now, deadline),
                    ..t[i]
                },
            ),
            t.len() as int,
        ) == steps(t, t.len() as int) + answer_trail(t[i].name, answer, now, deadline).len(),
{
    let state = answered_state(t[i].state->Expecting_at, answer, now, deadline);
    lemma_update_steps(t, i, NodeView { state, ..t[i] }, t.len() as int);
}

proof fn lemma_settled_steps(t: Seq<NodeView>, clock: Seq<(int, int)>, i: int)
    requires
        0 <= i <= t.len(),
    ensures
        steps(settled(t), t.len() as int) - steps(settled(t), i) == steps(t, t.len() as int)
            - steps(t, i) + settle_trail(t, clock, i).len(),
    decreases t.len() - i,
{
    if i < t.len() {
        lemma_settled_steps(t, clock, i + 1);
        assert(settled(t)[i].state == settled_state(t, i));
        assert(steps(settled(t), i + 1) == steps(settled(t), i) + step_count(settled_state(t, i)));
        assert(steps(t, i + 1) == steps(t, i) + step_count(t[i].state));
    }
}

/// Settling enters every step that it makes in the trail, once.
pub proof fn law_settling_tally(t: Seq<NodeView>, clock: Seq<(int, int)>)
    ensures
        steps(settled(t), t.len() as int) == steps(t, t.len() as int) + settle_trail(
            t,
            clock,
            0,
        ).len(),
{
    lemma_settled_steps(t, clock, 0);
}

} // verus!
