//! The declared tree of predictions and the configuration of a run.

use vstd::prelude::*;
use crate::text::optional_text;

verus! {

/// A binding name used to reference a prediction's observation.
pub type Binding = String;

/// Millisecond duration for timeouts.
pub type TimeoutMs = u64;

/// Top-level run configuration.
#[derive(Debug)]
pub struct RunConfig {
    pub source: LokiSource,
    pub poll_interval_ms: u64,
    pub ingestion_slack_ms: u64,
    pub hypothesis: PredictionDef,
}

/// The poll interval, in milliseconds, of a configuration that gives none.
pub fn default_poll_interval() -> (r: u64)
    ensures
        r == 500,
{
    500
}

/// The ingestion slack, in milliseconds, of a configuration that gives none.
pub fn default_ingestion_slack() -> (r: u64)
    ensures
        r == 5000,
{
    5000
}

/// Loki connection parameters.
#[derive(Debug)]
pub struct LokiSource {
    pub url: String,
    pub base_query: String,
}

/// A prediction about an expected log event, or a group of them.
#[derive(Debug)]
pub enum PredictionDef {
    Unit(UnitPrediction),
    All(GroupPrediction),
    Any(GroupPrediction),
}

/// A single expected log line.
#[derive(Debug)]
pub struct UnitPrediction {
    pub binding: Option<Binding>,
    /// LogQL line filter pipeline, e.g. `|= "service registered"`.
    pub pattern: String,
    /// Reference to a prior prediction's binding. `None` means "starts at the
    /// parent's expected time".
    pub after: Option<Binding>,
    pub timeout_ms: TimeoutMs,
}

/// A group of predictions: in an `All` each must be observed, in an `Any` at
/// least one. Ordering within a group is not positional; it comes only from
/// `after` references.
#[derive(Debug)]
pub struct GroupPrediction {
    pub binding: Option<Binding>,
    /// Reference to a prior prediction's binding. `None` means "starts at the
    /// parent's expected time".
    pub after: Option<Binding>,
    pub predictions: Vec<PredictionDef>,
}

/// The mathematical model of a prediction: names and patterns are character
/// sequences, and the children of a group form a sequence.
pub enum Prediction {
    Unit {
        binding: Option<Seq<char>>,
        pattern: Seq<char>,
        after: Option<Seq<char>>,
        timeout_ms: u64,
    },
    All { binding: Option<Seq<char>>, after: Option<Seq<char>>, children: Seq<Prediction> },
    Any { binding: Option<Seq<char>>, after: Option<Seq<char>>, children: Seq<Prediction> },
}

impl Prediction {
    /// The name that `after` references use for this prediction.
    pub open spec fn binding(self) -> Option<Seq<char>> {
        match self {
            Prediction::Unit { binding, .. } => binding,
            Prediction::All { binding, .. } => binding,
            Prediction::Any { binding, .. } => binding,
        }
    }

    /// The binding that this prediction waits for.
    pub open spec fn after(self) -> Option<Seq<char>> {
        match self {
            Prediction::Unit { after, .. } => after,
            Prediction::All { after, .. } => after,
            Prediction::Any { after, .. } => after,
        }
    }

    /// The children of a group; a unit has none.
    pub open spec fn children(self) -> Seq<Prediction> {
        match self {
            Prediction::Unit { .. } => seq![],
            Prediction::All { children, .. } => children,
            Prediction::Any { children, .. } => children,
        }
    }
}

impl PredictionDef {
    /// The model of this prediction.
    pub open spec fn model(self) -> Prediction
        decreases self,
    {
        match self {
            PredictionDef::Unit(u) => Prediction::Unit {
                binding: optional_text(u.binding),
                pattern: u.pattern@,
                after: optional_text(u.after),
                timeout_ms: u.timeout_ms,
            },
            PredictionDef::All(g) => Prediction::All {
                binding: optional_text(g.binding),
                after: optional_text(g.after),
                children: Seq::new(
                    g.predictions@.len(),
                    |i: int|
                        if 0 <= i < g.predictions@.len() {
                            g.predictions@[i].model()
                        } else {
                            arbitrary()
                        },
                ),
            },
            PredictionDef::Any(g) => Prediction::Any {
                binding: optional_text(g.binding),
                after: optional_text(g.after),
                children: Seq::new(
                    g.predictions@.len(),
                    |i: int|
                        if 0 <= i < g.predictions@.len() {
                            g.predictions@[i].model()
                        } else {
                            arbitrary()
                        },
                ),
            },
        }
    }

    /// The name that `after` references use for this prediction.
    pub fn binding(&self) -> (r: Option<&str>)
        ensures
            match r {
                Some(b) => self@.binding() == Some(b@),
                None => self@.binding() is None,
            },
    {
        let binding = match self {
            PredictionDef::Unit(u) => &u.binding,
            PredictionDef::All(g) => &g.binding,
            PredictionDef::Any(g) => &g.binding,
        };
        match binding {
            Some(b) => Some(b.as_str()),
            None => None,
        }
    }

    /// The binding that this prediction waits for.
    pub fn after(&self) -> (r: Option<&str>)
        ensures
            match r {
                Some(a) => self@.after() == Some(a@),
                None => self@.after() is None,
            },
    {
        let after = match self {
            PredictionDef::Unit(u) => &u.after,
            PredictionDef::All(g) => &g.after,
            PredictionDef::Any(g) => &g.after,
        };
        match after {
            Some(a) => Some(a.as_str()),
            None => None,
        }
    }

    /// The children of a group; `None` for a unit.
    pub fn group(&self) -> (r: Option<&GroupPrediction>)
        ensures
            match r {
                Some(g) => !(self is Unit) && *g == (if self is All {
                    self->All_0
                } else {
                    self->Any_0
                }) && self@.children().len() == g.predictions@.len() && (forall|i: int|
                    0 <= i < g.predictions@.len() ==> self@.children()[i] == (
                    #[trigger] g.predictions@[i])@),
                None => self is Unit,
            },
    {
        match self {
            PredictionDef::Unit(_) => None,
            PredictionDef::All(g) => Some(g),
            PredictionDef::Any(g) => Some(g),
        }
    }
}

impl View for PredictionDef {
    type V = Prediction;

    open spec fn view(&self) -> Prediction {
        self.model()
    }
}

/// The predictions of a tree in depth-first order, each before its children.
pub open spec fn preorder(p: Prediction) -> Seq<Prediction>
    decreases p, 0nat,
{
    match p {
        Prediction::Unit { .. } => seq![p],
        Prediction::All { children, .. } => seq![p] + preorder_all(children),
        Prediction::Any { children, .. } => seq![p] + preorder_all(children),
    }
}

/// The predictions of several trees, one tree after the other.
pub open spec fn preorder_all(ps: Seq<Prediction>) -> Seq<Prediction>
    decreases ps, ps.len(),
{
    if ps.len() == 0 {
        seq![]
    } else {
        preorder_all(ps.drop_last()) + preorder(ps.last())
    }
}

/// Whether the tree `p` stands in the list `ns` from position `pos` on.
pub open spec fn stands_at(ns: Seq<Prediction>, p: Prediction, pos: int) -> bool {
    &&& 0 <= pos
    &&& pos + preorder(p).len() <= ns.len()
    &&& ns.subrange(pos, pos + preorder(p).len()) == preorder(p)
}

/// The depth-first position of child `j` of the prediction `p`, where `p` itself
/// is at position `pos`.
pub open spec fn child_pos(p: Prediction, pos: int, j: int) -> int {
    pos + 1 + preorder_all(p.children().take(j)).len()
}

/// The first trees of a list come first in its depth-first order.
proof fn lemma_preorder_all_prefix(ps: Seq<Prediction>, j: int)
    requires
        0 <= j <= ps.len(),
    ensures
        preorder_all(ps.take(j)).len() <= preorder_all(ps).len(),
        preorder_all(ps).take(preorder_all(ps.take(j)).len() as int) == preorder_all(ps.take(j)),
    decreases ps.len(),
{
    if j == ps.len() {
        assert(ps.take(j) =~= ps);
        assert(preorder_all(ps).take(preorder_all(ps).len() as int) =~= preorder_all(ps));
    } else {
        lemma_preorder_all_prefix(ps.drop_last(), j);
        assert(ps.drop_last().take(j) =~= ps.take(j));
        let n = preorder_all(ps.take(j)).len() as int;
        assert(preorder_all(ps).take(n) =~= preorder_all(ps.drop_last()).take(n));
    }
}

/// A prediction comes first among its own tree, and a prediction with its
/// descendants makes up the whole of it.
pub proof fn lemma_preorder(p: Prediction)
    ensures
        preorder(p) == seq![p] + preorder_all(p.children()),
        preorder(p).len() >= 1,
        preorder(p)[0] == p,
{
    if p is Unit {
        assert(preorder(p) =~= seq![p] + preorder_all(p.children()));
    }
}

/// Where a tree stands in a list, each of its children stands behind the
/// children before it.
pub proof fn lemma_child_span(ns: Seq<Prediction>, p: Prediction, pos: int, j: int)
    requires
        stands_at(ns, p, pos),
        0 <= j <= p.children().len(),
    ensures
        ns[pos] == p,
        child_pos(p, pos, 0) == pos + 1,
        child_pos(p, pos, p.children().len() as int) == pos + preorder(p).len(),
        pos < child_pos(p, pos, j) <= pos + preorder(p).len(),
        j < p.children().len() ==> stands_at(ns, p.children()[j], child_pos(p, pos, j)) && child_pos(
            p,
            pos,
            j + 1,
        ) == child_pos(p, pos, j) + preorder(p.children()[j]).len(),
{
    let cs = p.children();
    lemma_preorder(p);
    assert(ns[pos] == ns.subrange(pos, pos + preorder(p).len())[0]);
    assert(cs.take(0) =~= Seq::<Prediction>::empty());
    assert(cs.take(cs.len() as int) =~= cs);
    lemma_preorder_all_prefix(cs, j);
    if j < cs.len() {
        lemma_preorder_all_prefix(cs, j + 1);
        assert(cs.take(j + 1).drop_last() =~= cs.take(j));
        let start = preorder_all(cs.take(j)).len() as int;
        let end = preorder_all(cs.take(j + 1)).len() as int;
        let at = child_pos(p, pos, j);
        let mine = preorder(cs[j]);
        assert(end == start + mine.len());
        assert(ns.subrange(at, at + mine.len()) =~= mine) by {
            assert forall|k: int| 0 <= k < mine.len() implies ns[at + k] == #[trigger] mine[k] by {
                assert(preorder_all(cs.take(j + 1))[start + k] == mine[k]);
                assert(preorder_all(cs).take(end)[start + k] == preorder_all(cs)[start + k]);
                assert(preorder(p)[1 + start + k] == preorder_all(cs)[start + k]);
                assert(ns.subrange(pos, pos + preorder(p).len())[1 + start + k] == ns[at + k]);
            }
        }
    }
}

/// The model of a prediction says what the prediction says: its kind, its names,
/// its pattern and its timeout, and the models of its children in order.
pub proof fn law_model(def: PredictionDef)
    ensures
        match def {
            PredictionDef::Unit(u) => {
                &&& def@ matches Prediction::Unit { binding, pattern, after, timeout_ms }
                &&& u.binding is Some == binding is Some
                &&& u.binding is Some ==> binding->Some_0 == u.binding->Some_0@
                &&& u.after is Some == after is Some
                &&& u.after is Some ==> after->Some_0 == u.after->Some_0@
                &&& pattern == u.pattern@
                &&& timeout_ms == u.timeout_ms
            },
            PredictionDef::All(g) => {
                &&& def@ matches Prediction::All { binding, after, children }
                &&& g.binding is Some == binding is Some
                &&& g.binding is Some ==> binding->Some_0 == g.binding->Some_0@
                &&& g.after is Some == after is Some
                &&& g.after is Some ==> after->Some_0 == g.after->Some_0@
                &&& children.len() == g.predictions@.len()
                &&& forall|j: int|
                    0 <= j < children.len() ==> #[trigger] children[j] == g.predictions@[j]@
            },
            PredictionDef::Any(g) => {
                &&& def@ matches Prediction::Any { binding, after, children }
                &&& g.binding is Some == binding is Some
                &&& g.binding is Some ==> binding->Some_0 == g.binding->Some_0@
                &&& g.after is Some == after is Some
                &&& g.after is Some ==> after->Some_0 == g.after->Some_0@
                &&& children.len() == g.predictions@.len()
                &&& forall|j: int|
                    0 <= j < children.len() ==> #[trigger] children[j] == g.predictions@[j]@
            },
        },
{
}

/// The names, and the children, of a prediction are those that it is written with.
pub proof fn law_prediction_parts(p: Prediction)
    ensures
        match p {
            Prediction::Unit { binding, after, .. } => p.binding() == binding && p.after() == after
                && p.children().len() == 0,
            Prediction::All { binding, after, children } => p.binding() == binding && p.after()
                == after && p.children() == children,
            Prediction::Any { binding, after, children } => p.binding() == binding && p.after()
                == after && p.children() == children,
        },
{
}

/// Where the trees of the children of `p` begin in its depth-first order, and at
/// last where they end.
pub open spec fn child_starts(p: Prediction) -> Seq<int> {
    Seq::new(p.children().len() + 1, |j: int| child_pos(p, 0, j))
}

/// Depth-first order: a prediction comes first, and the trees of its children
/// follow one after the other, each in its own depth-first order, with nothing in
/// between and nothing behind.
pub proof fn law_preorder(p: Prediction)
    ensures
        preorder(p)[0] == p,
        child_starts(p).len() == p.children().len() + 1,
        child_starts(p)[0] == 1,
        child_starts(p).last() == preorder(p).len(),
        forall|j: int|
            0 <= j < p.children().len() ==> {
                let at = child_starts(p)[j];
                let end = child_starts(p)[j + 1];
                &&& 0 <= at <= end <= preorder(p).len()
                &&& preorder(p).subrange(at, end) == preorder(#[trigger] p.children()[j])
            },
{
    let ns = preorder(p);
    assert(ns.subrange(0, ns.len() as int) =~= ns);
    lemma_preorder(p);
    lemma_child_span(ns, p, 0, 0);
    assert forall|j: int| 0 <= j < p.children().len() implies {
        let at = child_starts(p)[j];
        let end = child_starts(p)[j + 1];
        &&& 0 <= at <= end <= preorder(p).len()
        &&& preorder(p).subrange(at, end) == preorder(#[trigger] p.children()[j])
    } by {
        lemma_child_span(ns, p, 0, j);
        lemma_child_span(ns, p, 0, j + 1);
    }
}

} // verus!
