//! How the outcome of validation varies with the hypothesis and with what is
//! known before it.

use vstd::prelude::*;
use crate::hypothesis::{preorder, preorder_all, Prediction};
use crate::pattern::template_refs_of;
use crate::validate::{
    binding_issues, binding_phase, capture_issues, capture_issues_all, capture_issues_any,
    display_name, is_bound, law_scope_adds_definitions, lemma_scope_common_members, pattern_issues,
    pattern_phase, reference_issues, reference_phase, root_issues, scope, scope_all, scope_common,
    undefined_refs, validation_issues, Issue,
};

verus! {

/// Whether the issues `a` are among the issues `b`, in the same order, and
/// whatever else is in `b` is a capture that is not guaranteed to be defined.
pub open spec fn lacks_captures(a: Seq<Issue>, b: Seq<Issue>) -> bool
    decreases b.len(),
{
    if b.len() == 0 {
        a.len() == 0
    } else {
        ||| a.len() > 0 && a.last() == b.last() && lacks_captures(a.drop_last(), b.drop_last())
        ||| b.last() is UndefinedCapture && lacks_captures(a, b.drop_last())
    }
}

/// Whether the issues `a` are among the issues `b`, in the same order.
pub open spec fn is_subsequence(a: Seq<Issue>, b: Seq<Issue>) -> bool
    decreases b.len(),
{
    if b.len() == 0 {
        a.len() == 0
    } else {
        ||| a.len() > 0 && a.last() == b.last() && is_subsequence(a.drop_last(), b.drop_last())
        ||| is_subsequence(a, b.drop_last())
    }
}

/// Whether `q` is `p` with some `All` groups turned into `Any` groups and other
/// timeouts.
pub open spec fn loosened(p: Prediction, q: Prediction) -> bool
    decreases p,
{
    match p {
        Prediction::Unit { binding, pattern, after, .. } => {
            &&& q is Unit
            &&& q->Unit_binding == binding
            &&& q->Unit_pattern == pattern
            &&& q->Unit_after == after
        },
        Prediction::All { binding, after, children } => {
            &&& !(q is Unit)
            &&& q.binding() == binding
            &&& q.after() == after
            &&& q.children().len() == children.len()
            &&& forall|j: int|
                0 <= j < children.len() ==> loosened(#[trigger] children[j], q.children()[j])
        },
        Prediction::Any { binding, after, children } => {
            &&& q is Any
            &&& q.binding() == binding
            &&& q.after() == after
            &&& q.children().len() == children.len()
            &&& forall|j: int|
                0 <= j < children.len() ==> loosened(#[trigger] children[j], q.children()[j])
        },
    }
}

/// [`loosened`] for several trees, one by one.
spec fn loosened_each(ps: Seq<Prediction>, qs: Seq<Prediction>) -> bool {
    &&& ps.len() == qs.len()
    &&& forall|j: int| 0 <= j < ps.len() ==> loosened(#[trigger] ps[j], qs[j])
}

/// Whether two predictions differ at most in what kind of group they are and in
/// their timeouts, and in what is below them.
spec fn alike(a: Prediction, b: Prediction) -> bool {
    &&& a.binding() == b.binding()
    &&& a.after() == b.after()
    &&& a is Unit == b is Unit
    &&& a.children().len() == b.children().len()
    &&& a is Unit ==> a->Unit_pattern == b->Unit_pattern
}

/// [`alike`] for sequences of predictions.
spec fn alike_each(ns: Seq<Prediction>, ms: Seq<Prediction>) -> bool {
    &&& ns.len() == ms.len()
    &&& forall|k: int|
        #![trigger ns[k]]
        #![trigger ms[k]]
        0 <= k < ns.len() ==> alike(ns[k], ms[k])
}

proof fn lemma_lacks_same(a: Seq<Issue>)
    ensures
        lacks_captures(a, a),
    decreases a.len(),
{
    if a.len() > 0 {
        lemma_lacks_same(a.drop_last());
    }
}

proof fn lemma_lacks_concat(a: Seq<Issue>, b: Seq<Issue>, c: Seq<Issue>, d: Seq<Issue>)
    requires
        lacks_captures(a, b),
        lacks_captures(c, d),
    ensures
        lacks_captures(a + c, b + d),
    decreases d.len(),
{
    if d.len() == 0 {
        assert(a + c =~= a);
        assert(b + d =~= b);
    } else {
        assert((b + d).drop_last() =~= b + d.drop_last());
        assert((b + d).last() == d.last());
        if c.len() > 0 && c.last() == d.last() && lacks_captures(c.drop_last(), d.drop_last()) {
            lemma_lacks_concat(a, b, c.drop_last(), d.drop_last());
            assert((a + c).drop_last() =~= a + c.drop_last());
        } else {
            lemma_lacks_concat(a, b, c, d.drop_last());
        }
    }
}

proof fn lemma_lacks_is_subsequence(a: Seq<Issue>, b: Seq<Issue>)
    requires
        lacks_captures(a, b),
    ensures
        is_subsequence(a, b),
        b.len() == 0 ==> a.len() == 0,
    decreases b.len(),
{
    if b.len() > 0 {
        if a.len() > 0 && a.last() == b.last() && lacks_captures(a.drop_last(), b.drop_last()) {
            lemma_lacks_is_subsequence(a.drop_last(), b.drop_last());
        } else {
            lemma_lacks_is_subsequence(a, b.drop_last());
        }
    }
}

/// Where more is known, fewer references are undefined.
proof fn lemma_undefined_refs(
    name: Seq<char>,
    refs: Seq<Seq<char>>,
    more: Set<Seq<char>>,
    known: Set<Seq<char>>,
)
    requires
        known.subset_of(more),
    ensures
        lacks_captures(undefined_refs(name, refs, more), undefined_refs(name, refs, known)),
    decreases refs.len(),
{
    if refs.len() > 0 {
        lemma_undefined_refs(name, refs.drop_last(), more, known);
        let a = undefined_refs(name, refs, more);
        let b = undefined_refs(name, refs, known);
        if !known.contains(refs.last()) {
            assert(b.drop_last() =~= undefined_refs(name, refs.drop_last(), known));
            if !more.contains(refs.last()) {
                assert(a.drop_last() =~= undefined_refs(name, refs.drop_last(), more));
            }
        }
    }
}

proof fn lemma_front(ps: Seq<Prediction>, qs: Seq<Prediction>)
    requires
        loosened_each(ps, qs),
        ps.len() > 0,
    ensures
        loosened_each(ps.drop_last(), qs.drop_last()),
        loosened(ps.last(), qs.last()),
{
    assert(loosened(ps[ps.len() - 1], qs[qs.len() - 1]));
    assert forall|j: int| 0 <= j < ps.drop_last().len() implies loosened(
        #[trigger] ps.drop_last()[j],
        qs.drop_last()[j],
    ) by {
        assert(loosened(ps[j], qs[j]));
    }
}

/// A loosened tree of which less is known before guarantees less, and only lacks
/// more captures.
proof fn lemma_loosened(
    p: Prediction,
    q: Prediction,
    more: Set<Seq<char>>,
    known: Set<Seq<char>>,
)
    requires
        loosened(p, q),
        known.subset_of(more),
    ensures
        scope(q, known).subset_of(scope(p, more)),
        lacks_captures(capture_issues(p, more), capture_issues(q, known)),
    decreases p, 0nat,
{
    match p {
        Prediction::Unit { binding, pattern, .. } => {
            lemma_undefined_refs(display_name(binding), template_refs_of(pattern), more, known);
        },
        Prediction::All { children, .. } => {
            let qs = q.children();
            assert(loosened_each(children, qs));
            if q is All {
                lemma_loosened_all(children, qs, more, known);
            } else {
                lemma_loosened_all_any(children, qs, more, known);
            }
        },
        Prediction::Any { children, .. } => {
            let qs = q.children();
            assert(loosened_each(children, qs));
            lemma_loosened_any(children, qs, more, known);
        },
    }
}

proof fn lemma_loosened_all(
    ps: Seq<Prediction>,
    qs: Seq<Prediction>,
    more: Set<Seq<char>>,
    known: Set<Seq<char>>,
)
    requires
        loosened_each(ps, qs),
        known.subset_of(more),
    ensures
        scope_all(qs, known).subset_of(scope_all(ps, more)),
        lacks_captures(capture_issues_all(ps, more), capture_issues_all(qs, known)),
    decreases ps, ps.len(),
{
    if ps.len() > 0 {
        lemma_front(ps, qs);
        let front = ps.drop_last();
        let before = qs.drop_last();
        lemma_loosened_all(front, before, more, known);
        lemma_loosened(ps.last(), qs.last(), scope_all(front, more), scope_all(before, known));
        lemma_lacks_concat(
            capture_issues_all(front, more),
            capture_issues_all(before, known),
            capture_issues(ps.last(), scope_all(front, more)),
            capture_issues(qs.last(), scope_all(before, known)),
        );
    }
}

proof fn lemma_loosened_all_any(
    ps: Seq<Prediction>,
    qs: Seq<Prediction>,
    more: Set<Seq<char>>,
    known: Set<Seq<char>>,
)
    requires
        loosened_each(ps, qs),
        known.subset_of(more),
    ensures
        known.subset_of(scope_all(ps, more)),
        ps.len() > 0 ==> scope_common(qs, known).subset_of(scope_all(ps, more)),
        lacks_captures(capture_issues_all(ps, more), capture_issues_any(qs, known)),
    decreases ps, ps.len(),
{
    if ps.len() > 0 {
        lemma_front(ps, qs);
        let front = ps.drop_last();
        let before = qs.drop_last();
        lemma_loosened_all_any(front, before, more, known);
        lemma_loosened(ps.last(), qs.last(), scope_all(front, more), known);
        law_scope_adds_definitions(ps.last(), scope_all(front, more));
        lemma_lacks_concat(
            capture_issues_all(front, more),
            capture_issues_any(before, known),
            capture_issues(ps.last(), scope_all(front, more)),
            capture_issues(qs.last(), known),
        );
    }
}

proof fn lemma_loosened_any(
    ps: Seq<Prediction>,
    qs: Seq<Prediction>,
    more: Set<Seq<char>>,
    known: Set<Seq<char>>,
)
    requires
        loosened_each(ps, qs),
        known.subset_of(more),
    ensures
        scope_common(qs, known).subset_of(scope_common(ps, more)),
        lacks_captures(capture_issues_any(ps, more), capture_issues_any(qs, known)),
    decreases ps, ps.len(),
{
    if ps.len() > 0 {
        lemma_front(ps, qs);
        let front = ps.drop_last();
        let before = qs.drop_last();
        lemma_loosened_any(front, before, more, known);
        lemma_loosened(ps.last(), qs.last(), more, known);
        lemma_lacks_concat(
            capture_issues_any(front, more),
            capture_issues_any(before, known),
            capture_issues(ps.last(), more),
            capture_issues(qs.last(), known),
        );
    }
}

proof fn lemma_loosened_same(p: Prediction)
    ensures
        loosened(p, p),
    decreases p,
{
    match p {
        Prediction::Unit { .. } => {},
        Prediction::All { children, .. } => {
            assert forall|j: int| 0 <= j < children.len() implies loosened(
                #[trigger] children[j],
                p.children()[j],
            ) by {
                lemma_loosened_same(children[j]);
            }
        },
        Prediction::Any { children, .. } => {
            assert forall|j: int| 0 <= j < children.len() implies loosened(
                #[trigger] children[j],
                p.children()[j],
            ) by {
                lemma_loosened_same(children[j]);
            }
        },
    }
}

/// Where more captures are known before a tree, the issues with its references
/// are a subsequence of those where fewer are; the tree adds the same names in
/// both cases, so that more are guaranteed behind it too.
pub proof fn law_more_known_captures(p: Prediction, more: Set<Seq<char>>, known: Set<Seq<char>>)
    requires
        known.subset_of(more),
    ensures
        is_subsequence(capture_issues(p, more), capture_issues(p, known)),
        scope(p, known).subset_of(scope(p, more)),
        scope(p, known) == known.union(scope(p, Set::empty())),
        scope(p, more) == more.union(scope(p, Set::empty())),
{
    lemma_loosened_same(p);
    lemma_loosened(p, p, more, known);
    lemma_lacks_is_subsequence(capture_issues(p, more), capture_issues(p, known));
    law_scope_adds_definitions(p, known);
    law_scope_adds_definitions(p, more);
}

proof fn lemma_loosened_preorder(p: Prediction, q: Prediction)
    requires
        loosened(p, q),
    ensures
        alike(p, q),
        alike_each(preorder(p), preorder(q)),
    decreases p, 0nat,
{
    match p {
        Prediction::Unit { .. } => {},
        Prediction::All { children, .. } => {
            assert(loosened_each(children, q.children()));
            lemma_loosened_preorder_all(children, q.children());
        },
        Prediction::Any { children, .. } => {
            assert(loosened_each(children, q.children()));
            lemma_loosened_preorder_all(children, q.children());
        },
    }
}

proof fn lemma_loosened_preorder_all(ps: Seq<Prediction>, qs: Seq<Prediction>)
    requires
        loosened_each(ps, qs),
    ensures
        alike_each(preorder_all(ps), preorder_all(qs)),
    decreases ps, ps.len(),
{
    if ps.len() > 0 {
        lemma_front(ps, qs);
        lemma_loosened_preorder_all(ps.drop_last(), qs.drop_last());
        lemma_loosened_preorder(ps.last(), qs.last());
    }
}

proof fn lemma_alike_bound(ns: Seq<Prediction>, ms: Seq<Prediction>, b: Seq<char>)
    requires
        alike_each(ns, ms),
    ensures
        is_bound(ns, b) == is_bound(ms, b),
{
    if is_bound(ns, b) {
        let j = choose|j: int| 0 <= j < ns.len() && (#[trigger] ns[j]).binding() == Some(b);
        assert(ms[j].binding() == Some(b));
    }
    if is_bound(ms, b) {
        let j = choose|j: int| 0 <= j < ms.len() && (#[trigger] ms[j]).binding() == Some(b);
        assert(ns[j].binding() == Some(b));
    }
}

proof fn lemma_alike_phases(ns: Seq<Prediction>, ms: Seq<Prediction>, n: int)
    requires
        alike_each(ns, ms),
        0 <= n <= ns.len(),
    ensures
        binding_phase(ns, n) == binding_phase(ms, n),
        reference_phase(ns, n) == reference_phase(ms, n),
        pattern_phase(ns, n) == pattern_phase(ms, n),
    decreases n,
{
    if n > 0 {
        let k = n - 1;
        lemma_alike_phases(ns, ms, k);
        assert(alike(ns[k], ms[k]));
        assert(alike_each(ns.take(k), ms.take(k))) by {
            assert forall|i: int| 0 <= i < k implies alike(
                #[trigger] ns.take(k)[i],
                ms.take(k)[i],
            ) by {
                assert(alike(ns[i], ms[i]));
            }
        }
        if let Some(b) = ns[k].binding() {
            lemma_alike_bound(ns.take(k), ms.take(k), b);
        }
        if let Some(r) = ns[k].after() {
            lemma_alike_bound(ns.take(k), ms.take(k), r);
            lemma_alike_bound(ns, ms, r);
        }
        assert(binding_issues(ns, k) =~= binding_issues(ms, k));
        assert(reference_issues(ns, k) =~= reference_issues(ms, k));
        assert(pattern_issues(ns[k]) =~= pattern_issues(ms[k]));
    }
}

/// Turning an `All` group into an `Any` group, and other timeouts, can only add
/// issues, all of them captures that are no longer guaranteed to be defined: the
/// issues of the hypothesis as it was are a subsequence of the new ones. So what
/// is accepted with an `Any` is accepted with an `All`.
pub proof fn law_any_is_stricter_than_all(p: Prediction, q: Prediction)
    requires
        loosened(p, q),
    ensures
        lacks_captures(validation_issues(p), validation_issues(q)),
        is_subsequence(validation_issues(p), validation_issues(q)),
        validation_issues(q).len() == 0 ==> validation_issues(p).len() == 0,
{
    let ns = preorder(p);
    let ms = preorder(q);
    let n = ns.len() as int;
    let none = Set::<Seq<char>>::empty();
    lemma_loosened_preorder(p, q);
    lemma_alike_phases(ns, ms, n);
    lemma_loosened(p, q, none, none);
    let same = binding_phase(ns, n) + root_issues(p) + reference_phase(ns, n) + pattern_phase(ns, n);
    assert(root_issues(p) =~= root_issues(q));
    lemma_lacks_same(same);
    lemma_lacks_concat(same, same, capture_issues(p, none), capture_issues(q, none));
    lemma_lacks_is_subsequence(validation_issues(p), validation_issues(q));
}

/// In an `All` group what is guaranteed, and the issues, are handed on from child
/// to child: each child is met with what those before it guarantee, and its
/// issues follow theirs. Nothing that was guaranteed is lost, and an empty group
/// changes nothing.
pub proof fn law_all_goes_child_by_child(p: Prediction, known: Set<Seq<char>>)
    requires
        p is All,
    ensures
        scope(p, known) == scope_all(p.children(), known),
        capture_issues(p, known) == capture_issues_all(p.children(), known),
        scope_all(p.children().take(0), known) == known,
        capture_issues_all(p.children().take(0), known).len() == 0,
        forall|j: int|
            #![trigger p.children()[j]]
            0 <= j < p.children().len() ==> {
                let before = scope_all(p.children().take(j), known);
                &&& scope_all(p.children().take(j + 1), known) == scope(p.children()[j], before)
                &&& capture_issues_all(p.children().take(j + 1), known) == capture_issues_all(
                    p.children().take(j),
                    known,
                ) + capture_issues(p.children()[j], before)
            },
        known.subset_of(scope(p, known)),
        p.children().len() == 0 ==> scope(p, known) == known && capture_issues(p, known).len() == 0,
{
    let cs = p.children();
    assert(cs.take(0) =~= Seq::<Prediction>::empty());
    assert forall|j: int|
        #![trigger p.children()[j]]
        0 <= j < cs.len() implies {
        let before = scope_all(cs.take(j), known);
        &&& scope_all(cs.take(j + 1), known) == scope(cs[j], before)
        &&& capture_issues_all(cs.take(j + 1), known) == capture_issues_all(cs.take(j), known)
            + capture_issues(cs[j], before)
    } by {
        assert(cs.take(j + 1).drop_last() =~= cs.take(j));
        assert(cs.take(j + 1).last() == cs[j]);
    }
    law_scope_adds_definitions(p, known);
}

/// In an `Any` group every branch is met with what was guaranteed before the
/// group, so that none can use what only another one defines, and the issues of
/// the branches follow each other. Behind a group that is not empty exactly
/// that is guaranteed which every branch guarantees.
pub proof fn law_any_takes_branches_apart(p: Prediction, known: Set<Seq<char>>)
    requires
        p is Any,
        p.children().len() > 0,
    ensures
        forall|c: Seq<char>| #[trigger]
            scope(p, known).contains(c) <==> forall|j: int|
                0 <= j < p.children().len() ==> scope(#[trigger] p.children()[j], known).contains(c),
        capture_issues(p, known) == capture_issues_any(p.children(), known),
        capture_issues_any(p.children().take(0), known).len() == 0,
        forall|j: int|
            #![trigger p.children()[j]]
            0 <= j < p.children().len() ==> capture_issues_any(p.children().take(j + 1), known)
                == capture_issues_any(p.children().take(j), known) + capture_issues(
                p.children()[j],
                known,
            ),
{
    let cs = p.children();
    assert(cs.take(0) =~= Seq::<Prediction>::empty());
    assert forall|c: Seq<char>| #[trigger]
        scope(p, known).contains(c) <==> forall|j: int|
            0 <= j < cs.len() ==> scope(#[trigger] cs[j], known).contains(c) by {
        lemma_scope_common_members(cs, known, c);
        if known.contains(c) {
            assert forall|j: int| 0 <= j < cs.len() implies scope(#[trigger] cs[j], known).contains(
                c,
            ) by {
                law_scope_adds_definitions(cs[j], known);
            }
        }
    }
    assert forall|j: int|
        #![trigger p.children()[j]]
        0 <= j < cs.len() implies capture_issues_any(cs.take(j + 1), known) == capture_issues_any(
        cs.take(j),
        known,
    ) + capture_issues(cs[j], known) by {
        assert(cs.take(j + 1).drop_last() =~= cs.take(j));
        assert(cs.take(j + 1).last() == cs[j]);
    }
}

} // verus!
