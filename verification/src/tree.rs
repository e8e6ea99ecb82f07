//! The predictions of a hypothesis as a flat table of nodes.

use vstd::prelude::*;
use crate::hypothesis::{
    child_pos, lemma_child_span, lemma_preorder, preorder, preorder_all, stands_at, Binding,
    Prediction, PredictionDef,
};
use crate::text::{decimal, decimal_text, lemma_decimal_differs, optional_text};
use crate::time::Timestamp;

verus! {

broadcast use vstd::string::group_string_axioms;

/// A prediction in the table.
#[derive(Debug)]
pub struct Node {
    /// Display name: the binding, or one made up for a prediction without any.
    pub name: String,
    pub kind: NodeKind,
    pub state: NodeState,
    /// Index of the parent node; the root has none.
    pub parent: Option<usize>,
}

/// What a node predicts.
#[derive(Debug)]
pub enum NodeKind {
    Unit { pattern: String, after: Option<Binding>, timeout_ms: u64 },
    All { after: Option<Binding>, children: Vec<usize> },
    Any { after: Option<Binding>, children: Vec<usize> },
}

/// How far a node has come.
#[derive(Debug)]
pub enum NodeState {
    /// Not looked for yet.
    Pending,
    /// Looked for since the given time.
    Expecting { at: Timestamp },
    /// Seen at the given time, with the log line of a unit.
    Observed { at: Timestamp, line: Option<String> },
    /// Looked for since the given time, and given up.
    Failed { expected_at: Timestamp },
}

/// The model of a [`NodeKind`].
pub enum KindView {
    Unit { pattern: Seq<char>, after: Option<Seq<char>>, timeout_ms: u64 },
    All { after: Option<Seq<char>>, children: Seq<int> },
    Any { after: Option<Seq<char>>, children: Seq<int> },
}

impl KindView {
    /// The binding that the node waits for.
    pub open spec fn after(self) -> Option<Seq<char>> {
        match self {
            KindView::Unit { after, .. } => after,
            KindView::All { after, .. } => after,
            KindView::Any { after, .. } => after,
        }
    }

    /// The indices of the children of a group; a unit has none.
    pub open spec fn children(self) -> Seq<int> {
        match self {
            KindView::Unit { .. } => seq![],
            KindView::All { children, .. } => children,
            KindView::Any { children, .. } => children,
        }
    }
}

/// The model of a [`NodeState`].
pub enum StateView {
    Pending,
    Expecting { at: (int, int) },
    Observed { at: (int, int), line: Option<Seq<char>> },
    Failed { expected_at: (int, int) },
}

/// The model of a [`Node`].
pub struct NodeView {
    pub name: Seq<char>,
    pub kind: KindView,
    pub state: StateView,
    pub parent: Option<int>,
}

/// Indices as integers.
pub open spec fn indices(v: Seq<usize>) -> Seq<int> {
    v.map_values(|c: usize| c as int)
}

impl View for NodeKind {
    type V = KindView;

    open spec fn view(&self) -> KindView {
        match self {
            NodeKind::Unit { pattern, after, timeout_ms } => KindView::Unit {
                pattern: pattern@,
                after: optional_text(*after),
                timeout_ms: *timeout_ms,
            },
            NodeKind::All { after, children } => KindView::All {
                after: optional_text(*after),
                children: indices(children@),
            },
            NodeKind::Any { after, children } => KindView::Any {
                after: optional_text(*after),
                children: indices(children@),
            },
        }
    }
}

impl View for NodeState {
    type V = StateView;

    open spec fn view(&self) -> StateView {
        match self {
            NodeState::Pending => StateView::Pending,
            NodeState::Expecting { at } => StateView::Expecting { at: at@ },
            NodeState::Observed { at, line } => StateView::Observed {
                at: at@,
                line: optional_text(*line),
            },
            NodeState::Failed { expected_at } => StateView::Failed { expected_at: expected_at@ },
        }
    }
}

impl View for Node {
    type V = NodeView;

    open spec fn view(&self) -> NodeView {
        NodeView {
            name: self.name@,
            kind: self.kind@,
            state: self.state@,
            parent: match self.parent {
                Some(p) => Some(p as int),
                None => None,
            },
        }
    }
}

/// The models of the nodes of a table.
pub open spec fn table(nodes: Seq<Node>) -> Seq<NodeView> {
    nodes.map_values(|n: Node| n@)
}

impl NodeState {
    /// Whether the node is decided.
    pub fn is_terminal(&self) -> (r: bool)
        ensures
            r == (self@ is Observed || self@ is Failed),
    {
        matches!(self, NodeState::Observed { .. } | NodeState::Failed { .. })
    }
}

/// How many of the first `n` predictions have no binding.
pub open spec fn anonymous(ns: Seq<Prediction>, n: int) -> nat
    decreases n,
{
    if n <= 0 {
        0
    } else if ns[n - 1].binding() is None {
        anonymous(ns, n - 1) + 1
    } else {
        anonymous(ns, n - 1)
    }
}

/// The display name of prediction `k`: its binding, or `_anon_` and its number
/// among the predictions without one.
pub open spec fn node_name(ns: Seq<Prediction>, k: int) -> Seq<char> {
    match ns[k].binding() {
        Some(b) => b,
        None => "_anon_"@ + decimal(anonymous(ns, k + 1)),
    }
}

/// The kind of the node at position `k` for the prediction `p`.
pub open spec fn node_kind(p: Prediction, k: int) -> KindView {
    match p {
        Prediction::Unit { pattern, after, timeout_ms, .. } => KindView::Unit {
            pattern,
            after,
            timeout_ms,
        },
        Prediction::All { after, children, .. } => KindView::All {
            after,
            children: Seq::new(children.len(), |j: int| child_pos(p, k, j)),
        },
        Prediction::Any { after, children, .. } => KindView::Any {
            after,
            children: Seq::new(children.len(), |j: int| child_pos(p, k, j)),
        },
    }
}

/// The parents of the predictions of the tree `p`, in depth-first order, where
/// `p` is at position `pos` and has the given parent.
pub open spec fn parents(p: Prediction, pos: int, parent: Option<int>) -> Seq<Option<int>>
    decreases p, 0nat,
{
    match p {
        Prediction::Unit { .. } => seq![parent],
        Prediction::All { children, .. } => seq![parent] + parents_all(children, pos),
        Prediction::Any { children, .. } => seq![parent] + parents_all(children, pos),
    }
}

/// The parents of the predictions of several trees, one after the other, that
/// are the children of the prediction at position `owner`.
pub open spec fn parents_all(ps: Seq<Prediction>, owner: int) -> Seq<Option<int>>
    decreases ps, ps.len(),
{
    if ps.len() == 0 {
        seq![]
    } else {
        parents_all(ps.drop_last(), owner) + parents(
            ps.last(),
            owner + 1 + preorder_all(ps.drop_last()).len(),
            Some(owner),
        )
    }
}

/// The node of prediction `k`, before anything has happened to it.
pub open spec fn fresh_node(ns: Seq<Prediction>, k: int, parent: Option<int>) -> NodeView {
    NodeView {
        name: node_name(ns, k),
        kind: node_kind(ns[k], k),
        state: StateView::Pending,
        parent,
    }
}

/// The table of a hypothesis: its predictions in depth-first order, none of them
/// looked for yet.
pub open spec fn flattened(p: Prediction) -> Seq<NodeView> {
    Seq::new(preorder(p).len(), |k: int| fresh_node(preorder(p), k, parents(p, 0, None)[k]))
}

/// The number of anonymous predictions among the first `n` is at most `n`.
proof fn lemma_anonymous_bound(ns: Seq<Prediction>, n: int)
    requires
        0 <= n,
    ensures
        anonymous(ns, n) <= n,
    decreases n,
{
    if n > 0 {
        lemma_anonymous_bound(ns, n - 1);
    }
}

/// Predictions without a binding are counted on.
proof fn lemma_anonymous_grows(ns: Seq<Prediction>, a: int, b: int)
    requires
        0 <= a <= b,
    ensures
        anonymous(ns, a) <= anonymous(ns, b),
    decreases b - a,
{
    if a < b {
        lemma_anonymous_grows(ns, a, b - 1);
    }
}

/// The names that are made up for predictions differ from each other.
pub proof fn lemma_made_up_names_differ(ns: Seq<Prediction>, i: int, j: int)
    requires
        0 <= i < j,
        ns[i].binding() is None,
        ns[j].binding() is None,
    ensures
        node_name(ns, i) != node_name(ns, j),
{
    lemma_anonymous_grows(ns, i + 1, j);
    let a = decimal(anonymous(ns, i + 1));
    let b = decimal(anonymous(ns, j + 1));
    if node_name(ns, i) == node_name(ns, j) {
        let n = "_anon_"@.len() as int;
        assert(("_anon_"@ + a).skip(n) =~= a);
        assert(("_anon_"@ + b).skip(n) =~= b);
        lemma_decimal_differs(anonymous(ns, i + 1), anonymous(ns, j + 1));
    }
}

/// Parents and predictions are listed in the same order.
proof fn lemma_parents_len(p: Prediction, pos: int, parent: Option<int>)
    ensures
        parents(p, pos, parent).len() == preorder(p).len(),
        parents(p, pos, parent) == seq![parent] + parents_all(p.children(), pos),
    decreases p, 0nat,
{
    match p {
        Prediction::Unit { .. } => {
            assert(parents(p, pos, parent) =~= seq![parent] + parents_all(p.children(), pos));
        },
        Prediction::All { children, .. } => {
            lemma_parents_all_len(children, pos);
        },
        Prediction::Any { children, .. } => {
            lemma_parents_all_len(children, pos);
        },
    }
}

proof fn lemma_parents_all_len(ps: Seq<Prediction>, owner: int)
    ensures
        parents_all(ps, owner).len() == preorder_all(ps).len(),
    decreases ps, ps.len(),
{
    if ps.len() > 0 {
        lemma_parents_all_len(ps.drop_last(), owner);
        lemma_parents_len(
            ps.last(),
            owner + 1 + preorder_all(ps.drop_last()).len(),
            Some(owner),
        );
    }
}

proof fn lemma_parents_all_prefix(ps: Seq<Prediction>, owner: int, j: int)
    requires
        0 <= j <= ps.len(),
    ensures
        parents_all(ps.take(j), owner).len() <= parents_all(ps, owner).len(),
        parents_all(ps, owner).take(parents_all(ps.take(j), owner).len() as int) == parents_all(
            ps.take(j),
            owner,
        ),
    decreases ps.len(),
{
    if j == ps.len() {
        assert(ps.take(j) =~= ps);
        assert(parents_all(ps, owner).take(parents_all(ps, owner).len() as int) =~= parents_all(
            ps,
            owner,
        ));
    } else {
        lemma_parents_all_prefix(ps.drop_last(), owner, j);
        assert(ps.drop_last().take(j) =~= ps.take(j));
        let n = parents_all(ps.take(j), owner).len() as int;
        assert(parents_all(ps, owner).take(n) =~= parents_all(ps.drop_last(), owner).take(n));
    }
}

/// The parents within child `j` are those of that child's own tree.
proof fn lemma_parents_child(p: Prediction, pos: int, parent: Option<int>, j: int)
    requires
        0 <= j < p.children().len(),
    ensures
        child_pos(p, pos, j) - pos + preorder(p.children()[j]).len() <= parents(
            p,
            pos,
            parent,
        ).len(),
        forall|k: int|
            #![trigger parents(p.children()[j], child_pos(p, pos, j), Some(pos))[k]]
            0 <= k < preorder(p.children()[j]).len() ==> parents(p, pos, parent)[child_pos(
                p,
                pos,
                j,
            ) - pos + k] == parents(p.children()[j], child_pos(p, pos, j), Some(pos))[k],
{
    let cs = p.children();
    let mine = parents(cs[j], child_pos(p, pos, j), Some(pos));
    lemma_parents_len(p, pos, parent);
    lemma_parents_len(cs[j], child_pos(p, pos, j), Some(pos));
    lemma_parents_all_prefix(cs, pos, j + 1);
    lemma_parents_all_len(cs.take(j), pos);
    assert(cs.take(j + 1).drop_last() =~= cs.take(j));
    assert(cs.take(j + 1).last() == cs[j]);
    let start = preorder_all(cs.take(j)).len() as int;
    let upto = parents_all(cs.take(j + 1), pos);
    assert(upto == parents_all(cs.take(j), pos) + mine);
    assert forall|k: int| 0 <= k < preorder(cs[j]).len() implies parents(p, pos, parent)[1 + start
        + k] == #[trigger] mine[k] by {
        assert(upto[start + k] == mine[k]);
        assert(parents_all(cs, pos).take(upto.len() as int)[start + k] == parents_all(cs, pos)[start
            + k]);
        assert(parents(p, pos, parent)[1 + start + k] == parents_all(cs, pos)[start + k]);
    }
}

/// The child whose tree a position lies in.
proof fn lemma_find_child(ns: Seq<Prediction>, p: Prediction, pos: int, i: int, n: int) -> (j: int)
    requires
        stands_at(ns, p, pos),
        0 <= n <= p.children().len(),
        pos < i < child_pos(p, pos, n),
    ensures
        0 <= j < n,
        child_pos(p, pos, j) <= i < child_pos(p, pos, j + 1),
    decreases n,
{
    lemma_child_span(ns, p, pos, 0);
    if n == 0 {
        0
    } else {
        lemma_child_span(ns, p, pos, n - 1);
        if i >= child_pos(p, pos, n - 1) {
            n - 1
        } else {
            lemma_find_child(ns, p, pos, i, n - 1)
        }
    }
}

/// Whether the prediction at position `k` is a child of the one at position `q`.
pub open spec fn is_child_at(ns: Seq<Prediction>, q: int, k: int) -> bool {
    exists|j: int|
        0 <= j < ns[q].children().len() && #[trigger] child_pos(ns[q], q, j) == k
}

/// Every prediction's tree stands at its own position, the prediction is the
/// parent of its children, and all but the root are the child of their parent.
proof fn lemma_links(ns: Seq<Prediction>, p: Prediction, pos: int, parent: Option<int>, i: int)
    requires
        stands_at(ns, p, pos),
        pos <= i < pos + preorder(p).len(),
    ensures
        stands_at(ns, ns[i], i),
        i + preorder(ns[i]).len() <= pos + preorder(p).len(),
        forall|j: int|
            0 <= j < ns[i].children().len() ==> parents(p, pos, parent)[#[trigger] child_pos(
                ns[i],
                i,
                j,
            ) - pos] == Some(i),
        i == pos ==> parents(p, pos, parent)[0] == parent,
        i > pos ==> (parents(p, pos, parent)[i - pos] matches Some(q) && pos <= q < i
            && is_child_at(ns, q, i)),
    decreases p,
{
    let cs = p.children();
    lemma_child_span(ns, p, pos, 0);
    lemma_parents_len(p, pos, parent);
    if i == pos {
        assert(ns[i] == p);
        assert forall|j: int| 0 <= j < cs.len() implies parents(p, pos, parent)[#[trigger] child_pos(
            p,
            pos,
            j,
        ) - pos] == Some(pos) by {
            lemma_parents_child(p, pos, parent, j);
            lemma_parents_len(cs[j], child_pos(p, pos, j), Some(pos));
            lemma_preorder(cs[j]);
            assert(parents(cs[j], child_pos(p, pos, j), Some(pos))[0] == Some(pos));
        }
    } else {
        let j = lemma_find_child(ns, p, pos, i, cs.len() as int);
        lemma_child_span(ns, p, pos, j);
        lemma_child_span(ns, p, pos, j + 1);
        let at = child_pos(p, pos, j);
        lemma_parents_child(p, pos, parent, j);
        lemma_parents_len(cs[j], at, Some(pos));
        let inner = parents(cs[j], at, Some(pos));
        match p {
            Prediction::Unit { .. } => {},
            Prediction::All { children, .. } => {
                assert(children[j] == cs[j]);
                lemma_links(ns, children[j], at, Some(pos), i);
            },
            Prediction::Any { children, .. } => {
                assert(children[j] == cs[j]);
                lemma_links(ns, children[j], at, Some(pos), i);
            },
        }
        assert(parents(p, pos, parent)[i - pos] == inner[i - at]);
        assert forall|m: int| 0 <= m < ns[i].children().len() implies parents(
            p,
            pos,
            parent,
        )[#[trigger] child_pos(ns[i], i, m) - pos] == Some(i) by {
            lemma_child_span(ns, ns[i], i, m);
            lemma_child_span(ns, ns[i], i, m + 1);
            lemma_preorder(ns[i].children()[m]);
            assert(parents(p, pos, parent)[child_pos(ns[i], i, m) - pos] == inner[child_pos(
                ns[i],
                i,
                m,
            ) - at]);
        }
        if i == at {
            assert(inner[0] == Some(pos));
            assert(is_child_at(ns, pos, i));
        }
    }
}

/// Whether node `k` is a child of node `q`.
pub open spec fn is_child(t: Seq<NodeView>, q: int, k: int) -> bool {
    exists|j: int| 0 <= j < t[q].kind.children().len() && #[trigger] t[q].kind.children()[j] == k
}

/// Whether a table is a tree: the root comes first, children follow their parent
/// in the order of their indices, and parents and children know each other.
pub open spec fn shaped(t: Seq<NodeView>) -> bool {
    &&& t.len() > 0
    &&& t[0].parent is None
    &&& forall|k: int|
        0 < k < t.len() ==> ((#[trigger] t[k]).parent matches Some(q) && 0 <= q < k && is_child(
            t,
            q,
            k,
        ))
    &&& forall|i: int, j: int|
        #![trigger t[i].kind.children()[j]]
        0 <= i < t.len() && 0 <= j < t[i].kind.children().len() ==> {
            let c = t[i].kind.children()[j];
            i < c < t.len() && t[c].parent == Some(i)
        }
    &&& forall|i: int, j: int, m: int|
        #![trigger t[i].kind.children()[j], t[i].kind.children()[m]]
        0 <= i < t.len() && 0 <= j < m < t[i].kind.children().len() ==> t[i].kind.children()[j]
            < t[i].kind.children()[m]
}

/// Whether every `All` group has a child.
pub open spec fn filled_alls(t: Seq<NodeView>) -> bool {
    forall|i: int|
        0 <= i < t.len() && (#[trigger] t[i]).kind is All ==> t[i].kind.children().len() > 0
}

proof fn lemma_child_order(ns: Seq<Prediction>, p: Prediction, pos: int, j: int, m: int)
    requires
        stands_at(ns, p, pos),
        0 <= j < m <= p.children().len(),
    ensures
        child_pos(p, pos, j) < child_pos(p, pos, m),
    decreases m - j,
{
    lemma_child_span(ns, p, pos, j);
    lemma_preorder(p.children()[j]);
    if j + 1 < m {
        lemma_child_order(ns, p, pos, j + 1, m);
    }
}

/// The children of a node of the table lie behind it and know it as their
/// parent.
proof fn lemma_flattened_child(p: Prediction, i: int, j: int)
    requires
        0 <= i < preorder(p).len(),
        0 <= j < preorder(p)[i].children().len(),
    ensures
        flattened(p)[i].kind.children().len() == preorder(p)[i].children().len(),
        flattened(p)[i].kind.children()[j] == child_pos(preorder(p)[i], i, j),
        i < child_pos(preorder(p)[i], i, j) < preorder(p).len(),
        flattened(p)[child_pos(preorder(p)[i], i, j)].parent == Some(i),
{
    let ns = preorder(p);
    assert(ns.subrange(0, ns.len() as int) =~= ns);
    lemma_links(ns, p, 0, None, i);
    lemma_child_span(ns, ns[i], i, j);
    lemma_child_span(ns, ns[i], i, j + 1);
    lemma_preorder(ns[i].children()[j]);
}

/// All nodes of the table but the root are a child of their parent.
proof fn lemma_flattened_parent(p: Prediction, k: int)
    requires
        0 < k < preorder(p).len(),
    ensures
        flattened(p)[k].parent matches Some(q) && 0 <= q < k && is_child(flattened(p), q, k),
{
    let ns = preorder(p);
    assert(ns.subrange(0, ns.len() as int) =~= ns);
    lemma_links(ns, p, 0, None, k);
    let q = flattened(p)[k].parent->Some_0;
    let j = choose|j: int| 0 <= j < ns[q].children().len() && #[trigger] child_pos(ns[q], q, j) == k;
    lemma_flattened_child(p, q, j);
    assert(flattened(p)[q].kind.children()[j] == k);
}

/// The number of children in the table is that of the prediction.
proof fn lemma_flattened_arity(p: Prediction, i: int)
    requires
        0 <= i < preorder(p).len(),
    ensures
        flattened(p)[i].kind.children().len() == preorder(p)[i].children().len(),
{
}

/// The table of a hypothesis is a tree.
pub proof fn law_flattened_is_a_tree(p: Prediction)
    ensures
        shaped(flattened(p)),
{
    let ns = preorder(p);
    let t = flattened(p);
    lemma_preorder(p);
    assert(ns.subrange(0, ns.len() as int) =~= ns);
    lemma_links(ns, p, 0, None, 0);
    assert(t[0].parent is None);
    assert forall|k: int| 0 < k < t.len() implies ((#[trigger] t[k]).parent matches Some(q) && 0 <= q
        < k && is_child(t, q, k)) by {
        lemma_flattened_parent(p, k);
    }
    assert forall|i: int, j: int|
        #![trigger t[i].kind.children()[j]]
        0 <= i < t.len() && 0 <= j < t[i].kind.children().len() implies {
        let c = t[i].kind.children()[j];
        i < c < t.len() && t[c].parent == Some(i)
    } by {
        lemma_flattened_arity(p, i);
        lemma_flattened_child(p, i, j);
    }
    assert forall|i: int, j: int, m: int|
        #![trigger t[i].kind.children()[j], t[i].kind.children()[m]]
        0 <= i < t.len() && 0 <= j < m < t[i].kind.children().len() implies t[i].kind.children()[j]
        < t[i].kind.children()[m] by {
        lemma_flattened_arity(p, i);
        lemma_flattened_child(p, i, j);
        lemma_flattened_child(p, i, m);
        lemma_links(ns, p, 0, None, i);
        lemma_child_order(ns, ns[i], i, j, m);
    }
}

/// Adds the nodes of a tree to the table.
fn flatten(
    def: &PredictionDef,
    parent: Option<usize>,
    nodes: &mut Vec<Node>,
    anon_counter: &mut usize,
    Ghost(ns): Ghost<Seq<Prediction>>,
)
    requires
        stands_at(ns, def@, old(nodes)@.len() as int),
        *old(anon_counter) == anonymous(ns, old(nodes)@.len() as int),
    ensures
        final(nodes)@.len() == old(nodes)@.len() + preorder(def@).len(),
        final(nodes)@.take(old(nodes)@.len() as int) == old(nodes)@,
        forall|k: int|
            old(nodes)@.len() <= k < final(nodes)@.len() ==> (#[trigger] final(nodes)@[k])@
                == fresh_node(
                ns,
                k,
                parents(
                    def@,
                    old(nodes)@.len() as int,
                    match parent {
                        Some(q) => Some(q as int),
                        None => None,
                    },
                )[k - old(nodes)@.len()],
            ),
        *final(anon_counter) == anonymous(ns, final(nodes)@.len() as int),
    decreases def,
{
    let ghost p = def@;
    let ghost before = nodes@;
    let ghost up: Option<int> = match parent {
        Some(q) => Some(q as int),
        None => None,
    };
    let id: usize = nodes.len();
    let ghost pos = id as int;
    proof {
        lemma_child_span(ns, p, pos, 0);
        lemma_preorder(p);
        lemma_parents_len(p, pos, up);
        lemma_anonymous_bound(ns, pos);
    }
    nodes.push(
        Node {
            name: String::new(),
            kind: NodeKind::Unit { pattern: String::new(), after: None, timeout_ms: 0 },
            state: NodeState::Pending,
            parent,
        },
    );
    assert(nodes.len() == pos + 1);
    let name = match def.binding() {
        Some(b) => b.to_owned(),
        None => {
            *anon_counter = *anon_counter + 1;
            let number = decimal_text(*anon_counter as u64);
            "_anon_".to_owned().concat(number.as_str())
        },
    };
    assert(name@ == node_name(ns, pos));
    assert(*anon_counter == anonymous(ns, pos + 1));
    let mut child_ids: Vec<usize> = Vec::new();
    if let Some(g) = def.group() {
        while child_ids.len() < g.predictions.len()
            invariant
                p == def@,
                stands_at(ns, p, pos),
                !(def is Unit),
                *g == (if def is All {
                    def->All_0
                } else {
                    def->Any_0
                }),
                p.children().len() == g.predictions@.len(),
                forall|i: int|
                    0 <= i < g.predictions@.len() ==> p.children()[i] == (
                    #[trigger] g.predictions@[i])@,
                pos == id,
                child_ids@.len() <= g.predictions@.len(),
                nodes@.len() == child_pos(p, pos, child_ids@.len() as int),
                nodes@.take(pos) == before,
                before.len() == pos,
                forall|m: int|
                    0 <= m < child_ids@.len() ==> #[trigger] child_ids@[m] == child_pos(p, pos, m),
                forall|k: int|
                    pos < k < nodes@.len() ==> (#[trigger] nodes@[k])@ == fresh_node(
                        ns,
                        k,
                        parents(p, pos, up)[k - pos],
                    ),
                *anon_counter == anonymous(ns, nodes@.len() as int),
            decreases g.predictions@.len() - child_ids@.len(),
        {
            let ghost j = child_ids@.len() as int;
            let ghost prior = nodes@;
            let ghost at = child_pos(p, pos, j);
            proof {
                lemma_child_span(ns, p, pos, j);
                lemma_parents_child(p, pos, up, j);
            }
            let child = &g.predictions[child_ids.len()];
            child_ids.push(nodes.len());
            flatten(child, Some(id), nodes, anon_counter, Ghost(ns));
            proof {
                assert(nodes@.take(pos) =~= before) by {
                    assert(nodes@.take(at).take(pos) =~= nodes@.take(pos));
                }
                assert forall|k: int| pos < k < nodes@.len() implies (#[trigger] nodes@[k])@
                    == fresh_node(ns, k, parents(p, pos, up)[k - pos]) by {
                    if k < at {
                        assert(nodes@.take(at)[k] == prior[k]);
                    } else {
                        assert(parents(p.children()[j], at, Some(pos))[k - at] == parents(
                            p,
                            pos,
                            up,
                        )[k - pos]);
                    }
                }
            }
        }
        proof {
            lemma_child_span(ns, p, pos, child_ids@.len() as int);
        }
    }
    assert(indices(child_ids@) =~= Seq::new(p.children().len(), |m: int| child_pos(p, pos, m)));
    let kind = match def {
        PredictionDef::Unit(u) => NodeKind::Unit {
            pattern: u.pattern.clone(),
            after: u.after.clone(),
            timeout_ms: u.timeout_ms,
        },
        PredictionDef::All(g) => NodeKind::All { after: g.after.clone(), children: child_ids },
        PredictionDef::Any(g) => NodeKind::Any { after: g.after.clone(), children: child_ids },
    };
    nodes[id] = Node { name, kind, state: NodeState::Pending, parent };
    assert(nodes@.take(pos) =~= before);
    assert(nodes@[pos]@.kind == node_kind(ns[pos], pos));
}

/// The table of a hypothesis.
pub fn node_table(hypothesis: &PredictionDef) -> (r: Vec<Node>)
    ensures
        table(r@) == flattened(hypothesis@),
{
    let mut nodes: Vec<Node> = Vec::new();
    let mut anon_counter: usize = 0;
    let ghost ns = preorder(hypothesis@);
    assert(ns.subrange(0, ns.len() as int) =~= ns);
    flatten(hypothesis, None, &mut nodes, &mut anon_counter, Ghost(ns));
    assert(table(nodes@) =~= flattened(hypothesis@));
    nodes
}

/// Node `k` of the table is prediction `k` of the hypothesis: of the same kind,
/// with the same name, and it waits for what the prediction waits for, has its
/// pattern and its timeout, and for children the nodes of its children, in order.
pub proof fn law_table_mirrors_hypothesis(p: Prediction, k: int)
    requires
        0 <= k < preorder(p).len(),
    ensures
        flattened(p).len() == preorder(p).len(),
        flattened(p)[k].state is Pending,
        match preorder(p)[k] {
            Prediction::Unit { binding, pattern, after, timeout_ms } => {
                &&& flattened(p)[k].kind == (KindView::Unit { pattern, after, timeout_ms })
                &&& binding matches Some(b) ==> flattened(p)[k].name == b
            },
            Prediction::All { binding, after, children } => {
                &&& flattened(p)[k].kind matches KindView::All { after: a, children: cs }
                &&& a == after
                &&& cs.len() == children.len()
                &&& forall|j: int|
                    0 <= j < cs.len() ==> k < #[trigger] cs[j] < preorder(p).len()
                        && preorder(p)[cs[j]] == children[j] && flattened(p)[cs[j]].parent == Some(
                        k,
                    )
                &&& binding matches Some(b) ==> flattened(p)[k].name == b
            },
            Prediction::Any { binding, after, children } => {
                &&& flattened(p)[k].kind matches KindView::Any { after: a, children: cs }
                &&& a == after
                &&& cs.len() == children.len()
                &&& forall|j: int|
                    0 <= j < cs.len() ==> k < #[trigger] cs[j] < preorder(p).len()
                        && preorder(p)[cs[j]] == children[j] && flattened(p)[cs[j]].parent == Some(
                        k,
                    )
                &&& binding matches Some(b) ==> flattened(p)[k].name == b
            },
        },
        flattened(p)[k].kind.after() == preorder(p)[k].after(),
        k == 0 ==> flattened(p)[k].parent is None,
        k > 0 ==> flattened(p)[k].parent is Some,
{
    let ns = preorder(p);
    let q = ns[k];
    assert(ns.subrange(0, ns.len() as int) =~= ns);
    lemma_links(ns, p, 0, None, k);
    if k > 0 {
        lemma_flattened_parent(p, k);
    }
    let cs = flattened(p)[k].kind.children();
    assert forall|j: int| 0 <= j < q.children().len() implies {
        &&& k < #[trigger] cs[j] < ns.len()
        &&& ns[cs[j]] == q.children()[j]
        &&& flattened(p)[cs[j]].parent == Some(k)
    } by {
        lemma_flattened_child(p, k, j);
        lemma_child_span(ns, q, k, j);
        lemma_child_span(ns, q.children()[j], cs[j], 0);
    }
}

/// A prediction without a binding is named by its number among those that have
/// none, from one on, in depth-first order.
pub proof fn law_made_up_names(p: Prediction, k: int)
    requires
        0 <= k < preorder(p).len(),
        preorder(p)[k].binding() is None,
    ensures
        flattened(p)[k].name == "_anon_"@ + decimal(
            preorder(p).take(k + 1).filter(|q: Prediction| q.binding() is None).len(),
        ),
{
    lemma_anonymous_filter(preorder(p), k + 1);
}

proof fn lemma_anonymous_filter(ns: Seq<Prediction>, n: int)
    requires
        0 <= n <= ns.len(),
    ensures
        anonymous(ns, n) == ns.take(n).filter(|q: Prediction| q.binding() is None).len(),
    decreases n,
{
    reveal(Seq::filter);
    if n > 0 {
        lemma_anonymous_filter(ns, n - 1);
        assert(ns.take(n).drop_last() =~= ns.take(n - 1));
    }
}

/// What a node waits for, and its children, are those of its kind.
pub proof fn law_kind_parts(kind: KindView)
    ensures
        match kind {
            KindView::Unit { after, .. } => kind.after() == after && kind.children().len() == 0,
            KindView::All { after, children } => kind.after() == after && kind.children()
                == children,
            KindView::Any { after, children } => kind.after() == after && kind.children()
                == children,
        },
{
}

/// The model of a table says what the nodes say, one by one: their names, what
/// they wait for, their patterns, timeouts and children, how far they have come,
/// and their parents.
pub proof fn law_table_model(nodes: Seq<Node>, i: int)
    requires
        0 <= i < nodes.len(),
    ensures
        table(nodes).len() == nodes.len(),
        table(nodes)[i].name == nodes[i].name@,
        nodes[i].parent is Some <==> table(nodes)[i].parent is Some,
        nodes[i].parent matches Some(q) ==> table(nodes)[i].parent == Some(q as int),
        match nodes[i].kind {
            NodeKind::Unit { pattern, after, timeout_ms } => {
                &&& table(nodes)[i].kind matches KindView::Unit {
                    pattern: p,
                    after: a,
                    timeout_ms: ms,
                }
                &&& p == pattern@
                &&& ms == timeout_ms
                &&& a is Some <==> after is Some
                &&& after matches Some(b) ==> a == Some(b@)
            },
            NodeKind::All { after, children } => {
                &&& table(nodes)[i].kind matches KindView::All { after: a, children: cs }
                &&& a is Some <==> after is Some
                &&& after matches Some(b) ==> a == Some(b@)
                &&& cs.len() == children@.len()
                &&& forall|j: int| 0 <= j < cs.len() ==> #[trigger] cs[j] == children@[j]
            },
            NodeKind::Any { after, children } => {
                &&& table(nodes)[i].kind matches KindView::Any { after: a, children: cs }
                &&& a is Some <==> after is Some
                &&& after matches Some(b) ==> a == Some(b@)
                &&& cs.len() == children@.len()
                &&& forall|j: int| 0 <= j < cs.len() ==> #[trigger] cs[j] == children@[j]
            },
        },
        match nodes[i].state {
            NodeState::Pending => table(nodes)[i].state is Pending,
            NodeState::Expecting { at } => table(nodes)[i].state == (StateView::Expecting {
                at: at@,
            }),
            NodeState::Observed { at, line } => {
                &&& table(nodes)[i].state matches StateView::Observed { at: seen, line: l }
                &&& seen == at@
                &&& l is Some <==> line is Some
                &&& line matches Some(text) ==> l == Some(text@)
            },
            NodeState::Failed { expected_at } => table(nodes)[i].state == (StateView::Failed {
                expected_at: expected_at@,
            }),
        },
{
}

} // verus!
