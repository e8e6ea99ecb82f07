//! Validation of a hypothesis before it is run.

use vstd::prelude::*;
use crate::captures::{refusal, regex_error};
use crate::hypothesis::{
    child_pos, lemma_child_span, lemma_preorder, preorder, stands_at, Prediction, PredictionDef,
    UnitPrediction,
};
use crate::names::NameSet;
use crate::pattern::{
    capture_names_of, defined_capture_names, defined_captures, law_defined_captures, regexp_strings,
    regexps_of, template_refs, template_refs_of,
};
use crate::text::texts;

verus! {

broadcast use vstd::string::group_string_axioms;

/// What is wrong with a hypothesis.
#[derive(Debug)]
pub enum ValidationError {
    DuplicateBinding(String),
    UnknownReference { prediction: String, reference: String },
    ForwardReference { prediction: String, reference: String },
    EmptyGroup(String),
    RootHasAfter,
    InvalidRegexp { prediction: String, error: String },
    UndefinedCapture { prediction: String, capture: String },
}

/// The model of a [`ValidationError`], over character sequences.
pub enum Issue {
    DuplicateBinding(Seq<char>),
    UnknownReference { prediction: Seq<char>, reference: Seq<char> },
    ForwardReference { prediction: Seq<char>, reference: Seq<char> },
    EmptyGroup(Seq<char>),
    RootHasAfter,
    InvalidRegexp { prediction: Seq<char>, error: Seq<char> },
    UndefinedCapture { prediction: Seq<char>, capture: Seq<char> },
}

impl View for ValidationError {
    type V = Issue;

    open spec fn view(&self) -> Issue {
        match self {
            ValidationError::DuplicateBinding(b) => Issue::DuplicateBinding(b@),
            ValidationError::UnknownReference { prediction, reference } => Issue::UnknownReference {
                prediction: prediction@,
                reference: reference@,
            },
            ValidationError::ForwardReference { prediction, reference } => Issue::ForwardReference {
                prediction: prediction@,
                reference: reference@,
            },
            ValidationError::EmptyGroup(g) => Issue::EmptyGroup(g@),
            ValidationError::RootHasAfter => Issue::RootHasAfter,
            ValidationError::InvalidRegexp { prediction, error } => Issue::InvalidRegexp {
                prediction: prediction@,
                error: error@,
            },
            ValidationError::UndefinedCapture { prediction, capture } => Issue::UndefinedCapture {
                prediction: prediction@,
                capture: capture@,
            },
        }
    }
}

/// The models of several errors.
pub open spec fn issues(errors: Seq<ValidationError>) -> Seq<Issue> {
    errors.map_values(|e: ValidationError| e@)
}

/// The name under which a prediction is reported.
pub open spec fn display_name(binding: Option<Seq<char>>) -> Seq<char> {
    match binding {
        Some(b) => b,
        None => "<anonymous>"@,
    }
}

/// Whether one of the predictions `ns` has the binding `b`.
pub open spec fn is_bound(ns: Seq<Prediction>, b: Seq<char>) -> bool {
    exists|j: int| 0 <= j < ns.len() && (#[trigger] ns[j]).binding() == Some(b)
}

/// The bindings of the predictions `ns`.
pub open spec fn bindings(ns: Seq<Prediction>) -> Set<Seq<char>> {
    Set::new(|b: Seq<char>| is_bound(ns, b))
}

/// What is wrong with prediction `k` on its own: its binding has been used
/// before, or it is a group without children.
pub open spec fn binding_issues(ns: Seq<Prediction>, k: int) -> Seq<Issue> {
    let p = ns[k];
    let repeated = match p.binding() {
        Some(b) => if is_bound(ns.take(k), b) {
            seq![Issue::DuplicateBinding(b)]
        } else {
            seq![]
        },
        None => seq![],
    };
    let empty = if !(p is Unit) && p.children().len() == 0 {
        seq![Issue::EmptyGroup(display_name(p.binding()))]
    } else {
        seq![]
    };
    repeated + empty
}

/// The binding and group issues of the first `n` predictions.
pub open spec fn binding_phase(ns: Seq<Prediction>, n: int) -> Seq<Issue>
    decreases n,
{
    if n <= 0 {
        seq![]
    } else {
        binding_phase(ns, n - 1) + binding_issues(ns, n - 1)
    }
}

/// What is wrong with the `after` reference of prediction `k`: no prediction has
/// that binding, or none before it in depth-first order has.
pub open spec fn reference_issues(ns: Seq<Prediction>, k: int) -> Seq<Issue> {
    let p = ns[k];
    match p.after() {
        Some(r) => if is_bound(ns.take(k), r) {
            seq![]
        } else if is_bound(ns, r) {
            seq![
                Issue::ForwardReference { prediction: display_name(p.binding()), reference: r },
            ]
        } else {
            seq![
                Issue::UnknownReference { prediction: display_name(p.binding()), reference: r },
            ]
        },
        None => seq![],
    }
}

/// The reference issues of the first `n` predictions.
pub open spec fn reference_phase(ns: Seq<Prediction>, n: int) -> Seq<Issue>
    decreases n,
{
    if n <= 0 {
        seq![]
    } else {
        reference_phase(ns, n - 1) + reference_issues(ns, n - 1)
    }
}

/// The issue of a regular expression that does not compile.
pub open spec fn regexp_issue(prediction: Seq<char>, refused: Option<Seq<char>>) -> Seq<Issue> {
    match refused {
        Some(error) => seq![Issue::InvalidRegexp { prediction, error }],
        None => seq![],
    }
}

/// The issues of those regular expressions that do not compile.
pub open spec fn regexp_issues(prediction: Seq<char>, regexps: Seq<Seq<char>>) -> Seq<Issue>
    decreases regexps.len(),
{
    if regexps.len() == 0 {
        seq![]
    } else {
        regexp_issues(prediction, regexps.drop_last()) + regexp_issue(
            prediction,
            refusal(regexps.last()),
        )
    }
}

/// What is wrong with the regular expressions of a prediction.
pub open spec fn pattern_issues(p: Prediction) -> Seq<Issue> {
    match p {
        Prediction::Unit { binding, pattern, .. } => regexp_issues(
            display_name(binding),
            regexps_of(pattern),
        ),
        _ => seq![],
    }
}

/// The pattern issues of the first `n` predictions.
pub open spec fn pattern_phase(ns: Seq<Prediction>, n: int) -> Seq<Issue>
    decreases n,
{
    if n <= 0 {
        seq![]
    } else {
        pattern_phase(ns, n - 1) + pattern_issues(ns[n - 1])
    }
}

/// The captures that are guaranteed once `p` has been observed, where those in
/// `known` are guaranteed before it. A unit adds the capture groups of its
/// `| regexp "..."` stages, an `All` what its children add one after the other,
/// and an `Any` what every one of its branches adds.
pub open spec fn scope(p: Prediction, known: Set<Seq<char>>) -> Set<Seq<char>>
    decreases p, 0nat,
{
    match p {
        Prediction::Unit { pattern, .. } => known.union(defined_captures(pattern).to_set()),
        Prediction::All { children, .. } => scope_all(children, known),
        Prediction::Any { children, .. } => if children.len() == 0 {
            known
        } else {
            known.union(scope_common(children, known))
        },
    }
}

/// The captures that each of `ps`, taken on its own, guarantees.
pub open spec fn scope_common(ps: Seq<Prediction>, known: Set<Seq<char>>) -> Set<Seq<char>>
    decreases ps, ps.len(),
{
    if ps.len() == 0 {
        Set::full()
    } else {
        scope_common(ps.drop_last(), known).intersect(scope(ps.last(), known))
    }
}

/// The captures that are guaranteed once all of `ps` have been observed.
pub open spec fn scope_all(ps: Seq<Prediction>, known: Set<Seq<char>>) -> Set<Seq<char>>
    decreases ps, ps.len(),
{
    if ps.len() == 0 {
        known
    } else {
        scope(ps.last(), scope_all(ps.drop_last(), known))
    }
}

/// The issues of those references that are not guaranteed to be defined.
pub open spec fn undefined_refs(
    prediction: Seq<char>,
    refs: Seq<Seq<char>>,
    known: Set<Seq<char>>,
) -> Seq<Issue>
    decreases refs.len(),
{
    if refs.len() == 0 {
        seq![]
    } else {
        let rest = undefined_refs(prediction, refs.drop_last(), known);
        if known.contains(refs.last()) {
            rest
        } else {
            rest.push(Issue::UndefinedCapture { prediction, capture: refs.last() })
        }
    }
}

/// The capture references in the tree `p` that are not guaranteed to be defined,
/// where the captures in `known` are guaranteed before it.
pub open spec fn capture_issues(p: Prediction, known: Set<Seq<char>>) -> Seq<Issue>
    decreases p, 0nat,
{
    match p {
        Prediction::Unit { binding, pattern, .. } => undefined_refs(
            display_name(binding),
            template_refs_of(pattern),
            known,
        ),
        Prediction::All { children, .. } => capture_issues_all(children, known),
        Prediction::Any { children, .. } => capture_issues_any(children, known),
    }
}

/// The capture issues of trees that are all observed: each sees what the trees
/// before it guarantee.
pub open spec fn capture_issues_all(ps: Seq<Prediction>, known: Set<Seq<char>>) -> Seq<Issue>
    decreases ps, ps.len(),
{
    if ps.len() == 0 {
        seq![]
    } else {
        capture_issues_all(ps.drop_last(), known) + capture_issues(
            ps.last(),
            scope_all(ps.drop_last(), known),
        )
    }
}

/// The capture issues of alternative trees: each sees only what is guaranteed
/// before all of them.
pub open spec fn capture_issues_any(ps: Seq<Prediction>, known: Set<Seq<char>>) -> Seq<Issue>
    decreases ps, ps.len(),
{
    if ps.len() == 0 {
        seq![]
    } else {
        capture_issues_any(ps.drop_last(), known) + capture_issues(ps.last(), known)
    }
}

/// The issue of a root that waits for another prediction.
pub open spec fn root_issues(p: Prediction) -> Seq<Issue> {
    if p.after() is Some {
        seq![Issue::RootHasAfter]
    } else {
        seq![]
    }
}

/// Everything that is wrong with a hypothesis, in the order of the phases.
pub open spec fn validation_issues(p: Prediction) -> Seq<Issue> {
    let ns = preorder(p);
    let n = ns.len() as int;
    binding_phase(ns, n) + root_issues(p) + reference_phase(ns, n) + pattern_phase(ns, n)
        + capture_issues(p, Set::empty())
}

/// The name under which a prediction is reported.
fn display_name_of(binding: Option<&str>) -> (r: String)
    ensures
        r@ == display_name(
            match binding {
                Some(b) => Some(b@),
                None => None,
            },
        ),
{
    match binding {
        Some(b) => b.to_owned(),
        None => "<anonymous>".to_owned(),
    }
}

/// Appends one error.
fn report(errors: &mut Vec<ValidationError>, error: ValidationError)
    ensures
        issues(final(errors)@) == issues(old(errors)@).push(error@),
{
    errors.push(error);
    assert(issues(errors@) =~= issues(old(errors)@).push(error@));
}

/// The bindings up to and including prediction `k`.
proof fn lemma_bindings_step(ns: Seq<Prediction>, k: int)
    requires
        0 <= k < ns.len(),
    ensures
        bindings(ns.take(k + 1)) == (match ns[k].binding() {
            Some(b) => bindings(ns.take(k)).insert(b),
            None => bindings(ns.take(k)),
        }),
{
    let less = ns.take(k);
    let more = ns.take(k + 1);
    assert forall|b: Seq<char>| is_bound(more, b) == (is_bound(less, b) || ns[k].binding() == Some(
        b,
    )) by {
        if is_bound(more, b) {
            let j = choose|j: int| 0 <= j < more.len() && (#[trigger] more[j]).binding() == Some(b);
            if j < k {
                assert(less[j].binding() == Some(b));
            }
        }
        if is_bound(less, b) {
            let j = choose|j: int| 0 <= j < less.len() && (#[trigger] less[j]).binding() == Some(b);
            assert(more[j].binding() == Some(b));
        }
        if ns[k].binding() == Some(b) {
            assert(more[k].binding() == Some(b));
        }
    }
    assert(bindings(more) =~= (match ns[k].binding() {
        Some(b) => bindings(less).insert(b),
        None => bindings(less),
    }));
}

/// Collects the bindings of a tree, and reports repeated bindings and empty
/// groups.
fn collect_bindings(
    pred: &PredictionDef,
    seen: &mut NameSet,
    errors: &mut Vec<ValidationError>,
    Ghost(base): Ghost<Seq<Issue>>,
    Ghost(ns): Ghost<Seq<Prediction>>,
    Ghost(pos): Ghost<int>,
)
    requires
        stands_at(ns, pred@, pos),
        old(seen)@ == bindings(ns.take(pos)),
        issues(old(errors)@) == base + binding_phase(ns, pos),
    ensures
        final(seen)@ == bindings(ns.take(pos + preorder(pred@).len())),
        issues(final(errors)@) == base + binding_phase(ns, pos + preorder(pred@).len()),
    decreases pred,
{
    let ghost p = pred@;
    proof {
        lemma_child_span(ns, p, pos, 0);
        lemma_preorder(p);
        lemma_bindings_step(ns, pos);
    }
    let ghost start = issues(errors@);
    let ghost mut repeated: Seq<Issue> = seq![];
    if let Some(b) = pred.binding() {
        if !seen.insert(b.to_owned()) {
            report(errors, ValidationError::DuplicateBinding(b.to_owned()));
            proof {
                repeated = seq![Issue::DuplicateBinding(b@)];
            }
        }
    }
    assert(issues(errors@) =~= start + repeated);
    assert(seen@ == bindings(ns.take(pos + 1)));
    match pred.group() {
        None => {
            assert(issues(errors@) =~= base + binding_phase(ns, pos + 1));
            assert(preorder(p).len() == 1);
        },
        Some(g) => {
            if g.predictions.len() == 0 {
                report(errors, ValidationError::EmptyGroup(display_name_of(pred.binding())));
            }
            assert(issues(errors@) =~= base + binding_phase(ns, pos + 1));
            let mut j: usize = 0;
            while j < g.predictions.len()
                invariant
                    p == pred@,
                    stands_at(ns, p, pos),
                    !(pred is Unit),
                    *g == (if pred is All {
                        pred->All_0
                    } else {
                        pred->Any_0
                    }),
                    p.children().len() == g.predictions@.len(),
                    forall|i: int|
                        0 <= i < g.predictions@.len() ==> p.children()[i] == (
                        #[trigger] g.predictions@[i])@,
                    0 <= j <= g.predictions@.len(),
                    seen@ == bindings(ns.take(child_pos(p, pos, j as int))),
                    issues(errors@) == base + binding_phase(ns, child_pos(p, pos, j as int)),
                decreases g.predictions@.len() - j,
            {
                proof {
                    lemma_child_span(ns, p, pos, j as int);
                }
                let child = &g.predictions[j];
                collect_bindings(
                    child,
                    seen,
                    errors,
                    Ghost(base),
                    Ghost(ns),
                    Ghost(child_pos(p, pos, j as int)),
                );
                j = j + 1;
            }
            proof {
                lemma_child_span(ns, p, pos, j as int);
            }
        },
    }
}

/// Reports `after` references to unknown bindings and to bindings that do not
/// come before the prediction. `all` are the bindings of the whole hypothesis and
/// `before` those of the predictions visited so far.
fn check_references(
    pred: &PredictionDef,
    all: &NameSet,
    before: &mut NameSet,
    errors: &mut Vec<ValidationError>,
    Ghost(base): Ghost<Seq<Issue>>,
    Ghost(ns): Ghost<Seq<Prediction>>,
    Ghost(pos): Ghost<int>,
)
    requires
        stands_at(ns, pred@, pos),
        all@ == bindings(ns),
        old(before)@ == bindings(ns.take(pos)),
        issues(old(errors)@) == base + reference_phase(ns, pos),
    ensures
        final(before)@ == bindings(ns.take(pos + preorder(pred@).len())),
        issues(final(errors)@) == base + reference_phase(ns, pos + preorder(pred@).len()),
    decreases pred,
{
    let ghost p = pred@;
    proof {
        lemma_child_span(ns, p, pos, 0);
        lemma_preorder(p);
        lemma_bindings_step(ns, pos);
    }
    let ghost start = issues(errors@);
    if let Some(a) = pred.after() {
        let reference = a.to_owned();
        if !before.contains(&reference) {
            let prediction = display_name_of(pred.binding());
            if all.contains(&reference) {
                report(errors, ValidationError::ForwardReference { prediction, reference });
            } else {
                report(errors, ValidationError::UnknownReference { prediction, reference });
            }
        }
    }
    assert(issues(errors@) =~= start + reference_issues(ns, pos));
    assert(issues(errors@) =~= base + reference_phase(ns, pos + 1));
    if let Some(b) = pred.binding() {
        before.insert(b.to_owned());
    }
    match pred.group() {
        None => {
            assert(preorder(p).len() == 1);
        },
        Some(g) => {
            let mut j: usize = 0;
            while j < g.predictions.len()
                invariant
                    p == pred@,
                    stands_at(ns, p, pos),
                    all@ == bindings(ns),
                    !(pred is Unit),
                    *g == (if pred is All {
                        pred->All_0
                    } else {
                        pred->Any_0
                    }),
                    p.children().len() == g.predictions@.len(),
                    forall|i: int|
                        0 <= i < g.predictions@.len() ==> p.children()[i] == (
                        #[trigger] g.predictions@[i])@,
                    0 <= j <= g.predictions@.len(),
                    before@ == bindings(ns.take(child_pos(p, pos, j as int))),
                    issues(errors@) == base + reference_phase(ns, child_pos(p, pos, j as int)),
                decreases g.predictions@.len() - j,
            {
                proof {
                    lemma_child_span(ns, p, pos, j as int);
                }
                let child = &g.predictions[j];
                check_references(
                    child,
                    all,
                    before,
                    errors,
                    Ghost(base),
                    Ghost(ns),
                    Ghost(child_pos(p, pos, j as int)),
                );
                j = j + 1;
            }
            proof {
                lemma_child_span(ns, p, pos, j as int);
            }
        },
    }
}

/// Reports a regular expression that was refused, for the given reason.
pub fn report_regexp(prediction: &str, refused: Option<String>, errors: &mut Vec<ValidationError>)
    ensures
        issues(final(errors)@) == issues(old(errors)@) + regexp_issue(
            prediction@,
            match refused {
                Some(error) => Some(error@),
                None => None,
            },
        ),
{
    let ghost start = issues(errors@);
    if let Some(error) = refused {
        report(
            errors,
            ValidationError::InvalidRegexp { prediction: prediction.to_owned(), error },
        );
        assert(issues(errors@) =~= start + seq![
            Issue::InvalidRegexp { prediction: prediction@, error: error@ },
        ]);
    } else {
        assert(issues(errors@) =~= start + Seq::<Issue>::empty());
    }
}

/// Reports the regular expressions of a unit that do not compile.
fn check_unit_patterns(u: &UnitPrediction, errors: &mut Vec<ValidationError>)
    ensures
        issues(final(errors)@) == issues(old(errors)@) + regexp_issues(
            display_name(crate::text::optional_text(u.binding)),
            regexps_of(u.pattern@),
        ),
{
    let name = match &u.binding {
        Some(b) => b.clone(),
        None => "<anonymous>".to_owned(),
    };
    let raws = regexp_strings(u.pattern.as_str());
    let ghost all = regexps_of(u.pattern@);
    let ghost start = issues(errors@);
    let mut i: usize = 0;
    assert(all.take(0) =~= Seq::<Seq<char>>::empty());
    assert(issues(errors@) =~= start + regexp_issues(name@, all.take(0)));
    while i < raws.len()
        invariant
            i <= raws@.len(),
            all == texts(raws@),
            issues(errors@) == start + regexp_issues(name@, all.take(i as int)),
        decreases raws@.len() - i,
    {
        assert(all.take(i + 1).drop_last() =~= all.take(i as int));
        assert(all[i as int] == raws@[i as int]@);
        let ghost mid = issues(errors@);
        let refused = regex_error(raws[i].as_str());
        report_regexp(name.as_str(), refused, errors);
        assert(issues(errors@) =~= start + regexp_issues(name@, all.take(i + 1)));
        i = i + 1;
    }
    assert(all.take(i as int) =~= all);
}

/// Reports the regular expressions in a tree that do not compile.
fn check_patterns(
    pred: &PredictionDef,
    errors: &mut Vec<ValidationError>,
    Ghost(base): Ghost<Seq<Issue>>,
    Ghost(ns): Ghost<Seq<Prediction>>,
    Ghost(pos): Ghost<int>,
)
    requires
        stands_at(ns, pred@, pos),
        issues(old(errors)@) == base + pattern_phase(ns, pos),
    ensures
        issues(final(errors)@) == base + pattern_phase(ns, pos + preorder(pred@).len()),
    decreases pred,
{
    let ghost p = pred@;
    proof {
        lemma_child_span(ns, p, pos, 0);
        lemma_preorder(p);
    }
    if let PredictionDef::Unit(u) = pred {
        check_unit_patterns(u, errors);
        assert(issues(errors@) =~= base + pattern_phase(ns, pos + 1));
    } else {
        assert(issues(errors@) =~= base + pattern_phase(ns, pos + 1));
    }
    match pred.group() {
        None => {
            assert(preorder(p).len() == 1);
        },
        Some(g) => {
            let mut j: usize = 0;
            while j < g.predictions.len()
                invariant
                    p == pred@,
                    stands_at(ns, p, pos),
                    !(pred is Unit),
                    *g == (if pred is All {
                        pred->All_0
                    } else {
                        pred->Any_0
                    }),
                    p.children().len() == g.predictions@.len(),
                    forall|i: int|
                        0 <= i < g.predictions@.len() ==> p.children()[i] == (
                        #[trigger] g.predictions@[i])@,
                    0 <= j <= g.predictions@.len(),
                    issues(errors@) == base + pattern_phase(ns, child_pos(p, pos, j as int)),
                decreases g.predictions@.len() - j,
            {
                proof {
                    lemma_child_span(ns, p, pos, j as int);
                }
                let child = &g.predictions[j];
                check_patterns(
                    child,
                    errors,
                    Ghost(base),
                    Ghost(ns),
                    Ghost(child_pos(p, pos, j as int)),
                );
                j = j + 1;
            }
            proof {
                lemma_child_span(ns, p, pos, j as int);
            }
        },
    }
}

/// Reports the capture references of a unit that are not guaranteed to be
/// defined, and adds the captures that the unit defines.
fn check_unit_captures(
    u: &UnitPrediction,
    guaranteed: &mut NameSet,
    errors: &mut Vec<ValidationError>,
)
    ensures
        final(guaranteed)@ == old(guaranteed)@.union(defined_captures(u.pattern@).to_set()),
        issues(final(errors)@) == issues(old(errors)@) + undefined_refs(
            display_name(crate::text::optional_text(u.binding)),
            template_refs_of(u.pattern@),
            old(guaranteed)@,
        ),
{
    let name = match &u.binding {
        Some(b) => b.clone(),
        None => "<anonymous>".to_owned(),
    };
    let refs = template_refs(u.pattern.as_str());
    let ghost all = template_refs_of(u.pattern@);
    let ghost known = guaranteed@;
    let ghost start = issues(errors@);
    let mut i: usize = 0;
    assert(all.take(0) =~= Seq::<Seq<char>>::empty());
    assert(issues(errors@) =~= start + undefined_refs(name@, all.take(0), known));
    while i < refs.len()
        invariant
            i <= refs@.len(),
            all == texts(refs@),
            guaranteed@ == known,
            issues(errors@) == start + undefined_refs(name@, all.take(i as int), known),
        decreases refs@.len() - i,
    {
        assert(all.take(i + 1).drop_last() =~= all.take(i as int));
        assert(all[i as int] == refs@[i as int]@);
        if !guaranteed.contains(&refs[i]) {
            report(
                errors,
                ValidationError::UndefinedCapture {
                    prediction: name.clone(),
                    capture: refs[i].clone(),
                },
            );
        }
        assert(issues(errors@) =~= start + undefined_refs(name@, all.take(i + 1), known));
        i = i + 1;
    }
    assert(all.take(i as int) =~= all);
    let defined = defined_capture_names(u.pattern.as_str());
    let ghost new = defined_captures(u.pattern@);
    let mut k: usize = 0;
    assert(guaranteed@ =~= known.union(new.take(0).to_set()));
    while k < defined.len()
        invariant
            k <= defined@.len(),
            new == texts(defined@),
            guaranteed@ == known.union(new.take(k as int).to_set()),
        decreases defined@.len() - k,
    {
        guaranteed.insert(defined[k].clone());
        proof {
            let less = new.take(k as int);
            let more = new.take(k + 1);
            assert(new[k as int] == defined@[k as int]@);
            assert(more =~= less.push(new[k as int]));
            assert forall|c: Seq<char>| more.contains(c) == (less.contains(c) || c
                == new[k as int]) by {
                if less.contains(c) {
                    let m = choose|m: int| 0 <= m < less.len() && less[m] == c;
                    assert(more[m] == c);
                }
                if c == new[k as int] {
                    assert(more[k as int] == c);
                }
            }
            assert(guaranteed@ =~= known.union(more.to_set()));
        }
        k = k + 1;
    }
    assert(new.take(k as int) =~= new);
}

/// Walks a tree depth first, tracking which captures are guaranteed to be
/// defined, and reports the references to any other.
pub fn check_captures(
    pred: &PredictionDef,
    guaranteed: &mut NameSet,
    errors: &mut Vec<ValidationError>,
)
    ensures
        final(guaranteed)@ == scope(pred@, old(guaranteed)@),
        issues(final(errors)@) == issues(old(errors)@) + capture_issues(
            pred@,
            old(guaranteed)@,
        ),
    decreases pred,
{
    let ghost known = guaranteed@;
    let ghost start = issues(errors@);
    let ghost cs = pred@.children();
    match pred {
        PredictionDef::Unit(u) => check_unit_captures(u, guaranteed, errors),
        PredictionDef::All(g) => {
            let mut j: usize = 0;
            assert(cs.take(0) =~= Seq::<Prediction>::empty());
            assert(start + Seq::<Issue>::empty() =~= start);
            while j < g.predictions.len()
                invariant
                    *pred == PredictionDef::All(*g),
                    cs == pred@.children(),
                    j <= g.predictions@.len(),
                    guaranteed@ == scope_all(cs.take(j as int), known),
                    issues(errors@) == start + capture_issues_all(cs.take(j as int), known),
                decreases g.predictions@.len() - j,
            {
                assert(cs.take(j + 1).drop_last() =~= cs.take(j as int));
                let child = &g.predictions[j];
                check_captures(child, guaranteed, errors);
                assert(issues(errors@) =~= start + capture_issues_all(cs.take(j + 1), known));
                j = j + 1;
            }
            assert(cs.take(j as int) =~= cs);
        },
        PredictionDef::Any(g) => {
            let mut common: Option<NameSet> = None;
            let mut j: usize = 0;
            assert(cs.take(0) =~= Seq::<Prediction>::empty());
            assert(start + Seq::<Issue>::empty() =~= start);
            while j < g.predictions.len()
                invariant
                    *pred == PredictionDef::Any(*g),
                    cs == pred@.children(),
                    j <= g.predictions@.len(),
                    guaranteed@ == known,
                    j == 0 <==> common is None,
                    common matches Some(s) ==> s@ == scope_common(cs.take(j as int), known),
                    issues(errors@) == start + capture_issues_any(cs.take(j as int), known),
                decreases g.predictions@.len() - j,
            {
                assert(cs.take(j + 1).drop_last() =~= cs.take(j as int));
                let child = &g.predictions[j];
                let mut branch = guaranteed.duplicate();
                check_captures(child, &mut branch, errors);
                let next = match &common {
                    None => branch,
                    Some(s) => s.common(&branch),
                };
                proof {
                    if j == 0 {
                        assert(scope_common(cs.take(0), known) == Set::<Seq<char>>::full());
                    }
                    assert(next@ =~= scope_common(cs.take(j + 1), known));
                }
                common = Some(next);
                assert(issues(errors@) =~= start + capture_issues_any(cs.take(j + 1), known));
                j = j + 1;
            }
            assert(cs.take(j as int) =~= cs);
            if let Some(s) = &common {
                guaranteed.extend(s);
            }
            assert(guaranteed@ =~= scope(pred@, known));
        },
    }
}

/// Validates a hypothesis before execution.
///
/// Checks:
/// 1. Binding uniqueness across the entire tree
/// 2. Every `after` reference points to an existing binding
/// 3. No forward references (the referenced binding must appear before the
///    referencing prediction in depth-first order)
/// 4. `All`/`Any` groups must have at least one child
/// 5. The root prediction must not have `after`
/// 6. All `| regexp "..."` patterns have valid regex syntax
/// 7. `${name}` capture references are guaranteed to be defined before use
pub fn validate(hypothesis: &PredictionDef) -> (r: Result<(), Vec<ValidationError>>)
    ensures
        match r {
            Ok(_) => validation_issues(hypothesis@).len() == 0,
            Err(errors) => validation_issues(hypothesis@).len() > 0 && issues(errors@)
                == validation_issues(hypothesis@),
        },
{
    let ghost p = hypothesis@;
    let ghost ns = preorder(p);
    let ghost n = ns.len() as int;
    proof {
        assert(ns.subrange(0, n) =~= ns);
        assert(bindings(ns.take(0)) =~= Set::<Seq<char>>::empty());
        assert(ns.take(n) =~= ns);
    }
    let mut errors: Vec<ValidationError> = Vec::new();
    let mut all = NameSet::new();
    let ghost base0 = issues(errors@);
    assert(base0 =~= Seq::<Issue>::empty());
    assert(base0 + binding_phase(ns, 0) =~= base0);
    collect_bindings(hypothesis, &mut all, &mut errors, Ghost(base0), Ghost(ns), Ghost(0));
    let ghost base1 = issues(errors@);
    assert(base1 =~= binding_phase(ns, n));
    if hypothesis.after().is_some() {
        report(&mut errors, ValidationError::RootHasAfter);
    }
    let ghost base2 = issues(errors@);
    assert(base2 =~= base1 + root_issues(p));
    let mut before = NameSet::new();
    assert(base2 + reference_phase(ns, 0) =~= base2);
    check_references(
        hypothesis,
        &all,
        &mut before,
        &mut errors,
        Ghost(base2),
        Ghost(ns),
        Ghost(0),
    );
    let ghost base3 = issues(errors@);
    assert(base3 + pattern_phase(ns, 0) =~= base3);
    check_patterns(hypothesis, &mut errors, Ghost(base3), Ghost(ns), Ghost(0));
    let mut guaranteed = NameSet::new();
    check_captures(hypothesis, &mut guaranteed, &mut errors);
    assert(issues(errors@) == validation_issues(p));
    if errors.len() == 0 {
        assert(issues(errors@).len() == 0);
        Ok(())
    } else {
        assert(issues(errors@).len() > 0);
        Err(errors)
    }
}

/// The words of an issue.
pub open spec fn issue_text(issue: Issue) -> Seq<char> {
    match issue {
        Issue::DuplicateBinding(b) => "duplicate binding: `"@ + b + "`"@,
        Issue::UnknownReference { prediction, reference } => "unknown reference `"@ + reference
            + "` in prediction `"@ + prediction + "`"@,
        Issue::ForwardReference { prediction, reference } => "forward reference `"@ + reference
            + "` in prediction `"@ + prediction
            + "` (referenced prediction not yet observable)"@,
        Issue::EmptyGroup(g) => "empty group prediction `"@ + g
            + "` (All/Any must have >= 1 child)"@,
        Issue::RootHasAfter => "root prediction must not have `after` set"@,
        Issue::InvalidRegexp { prediction, error } => "invalid regexp in prediction `"@ + prediction
            + "`: "@ + error,
        Issue::UndefinedCapture { prediction, capture } => "capture `${"@ + capture
            + "}` used in prediction `"@ + prediction
            + "` but not guaranteed to be defined (not defined or defined in only some branches of an Any group)"@,
    }
}

impl ValidationError {
    /// The error in words.
    pub fn message(&self) -> (r: String)
        ensures
            r@ == issue_text(self@),
    {
        match self {
            ValidationError::DuplicateBinding(b) => "duplicate binding: `".to_owned().concat(
                b.as_str(),
            ).concat("`"),
            ValidationError::UnknownReference { prediction, reference } =>
                "unknown reference `".to_owned().concat(reference.as_str()).concat(
                "` in prediction `",
            ).concat(prediction.as_str()).concat("`"),
            ValidationError::ForwardReference { prediction, reference } =>
                "forward reference `".to_owned().concat(reference.as_str()).concat(
                "` in prediction `",
            ).concat(prediction.as_str()).concat("` (referenced prediction not yet observable)"),
            ValidationError::EmptyGroup(g) => "empty group prediction `".to_owned().concat(
                g.as_str(),
            ).concat("` (All/Any must have >= 1 child)"),
            ValidationError::RootHasAfter => "root prediction must not have `after` set".to_owned(),
            ValidationError::InvalidRegexp { prediction, error } =>
                "invalid regexp in prediction `".to_owned().concat(prediction.as_str()).concat(
                "`: ",
            ).concat(error.as_str()),
            ValidationError::UndefinedCapture { prediction, capture } =>
                "capture `${".to_owned().concat(capture.as_str()).concat(
                "}` used in prediction `",
            ).concat(prediction.as_str()).concat(
                "` but not guaranteed to be defined (not defined or defined in only some branches of an Any group)",
            ),
        }
    }
}

/// Whether no two predictions have the same binding.
pub open spec fn unique_bindings(ns: Seq<Prediction>) -> bool {
    forall|i: int, j: int|
        0 <= i < j < ns.len() && (#[trigger] ns[i]).binding() is Some ==> (
        #[trigger] ns[j]).binding() != ns[i].binding()
}

/// Whether every group has a child.
pub open spec fn nonempty_groups(ns: Seq<Prediction>) -> bool {
    forall|k: int|
        0 <= k < ns.len() && !((#[trigger] ns[k]) is Unit) ==> ns[k].children().len() > 0
}

/// Whether every `after` names the binding of an earlier prediction.
pub open spec fn backward_references(ns: Seq<Prediction>) -> bool {
    forall|k: int|
        0 <= k < ns.len() ==> ((#[trigger] ns[k]).after() matches Some(r) ==> is_bound(
            ns.take(k),
            r,
        ))
}

/// Whether every regular expression compiles.
pub open spec fn sound_regexps(ns: Seq<Prediction>) -> bool {
    forall|k: int|
        0 <= k < ns.len() ==> ((#[trigger] ns[k]) matches Prediction::Unit {
            pattern,
            ..
        } ==> forall|i: int|
            0 <= i < regexps_of(pattern).len() ==> refusal(#[trigger] regexps_of(pattern)[i]) is None)
}

/// Whether every capture reference in the tree `p` is guaranteed to be defined
/// before it is used, where the captures in `known` are defined before the tree.
pub open spec fn guaranteed_references(p: Prediction, known: Set<Seq<char>>) -> bool
    decreases p,
{
    match p {
        Prediction::Unit { pattern, .. } => forall|i: int|
            0 <= i < template_refs_of(pattern).len() ==> known.contains(
                #[trigger] template_refs_of(pattern)[i],
            ),
        Prediction::All { children, .. } => forall|j: int|
            0 <= j < children.len() ==> guaranteed_references(
                #[trigger] children[j],
                scope_all(children.take(j), known),
            ),
        Prediction::Any { children, .. } => forall|j: int|
            0 <= j < children.len() ==> guaranteed_references(#[trigger] children[j], known),
    }
}

proof fn lemma_binding_phase_empty(ns: Seq<Prediction>, n: int)
    requires
        0 <= n <= ns.len(),
    ensures
        binding_phase(ns, n).len() == 0 <==> forall|k: int|
            0 <= k < n ==> (#[trigger] binding_issues(ns, k)).len() == 0,
    decreases n,
{
    if n > 0 {
        lemma_binding_phase_empty(ns, n - 1);
        assert(binding_issues(ns, n - 1).len() >= 0);
    }
}

proof fn lemma_reference_phase_empty(ns: Seq<Prediction>, n: int)
    requires
        0 <= n <= ns.len(),
    ensures
        reference_phase(ns, n).len() == 0 <==> forall|k: int|
            0 <= k < n ==> (#[trigger] reference_issues(ns, k)).len() == 0,
    decreases n,
{
    if n > 0 {
        lemma_reference_phase_empty(ns, n - 1);
        assert(reference_issues(ns, n - 1).len() >= 0);
    }
}

proof fn lemma_pattern_phase_empty(ns: Seq<Prediction>, n: int)
    requires
        0 <= n <= ns.len(),
    ensures
        pattern_phase(ns, n).len() == 0 <==> forall|k: int|
            0 <= k < n ==> pattern_issues(#[trigger] ns[k]).len() == 0,
    decreases n,
{
    if n > 0 {
        lemma_pattern_phase_empty(ns, n - 1);
        assert(pattern_issues(ns[n - 1]).len() >= 0);
    }
}

proof fn lemma_regexp_issues_empty(name: Seq<char>, raws: Seq<Seq<char>>)
    ensures
        regexp_issues(name, raws).len() == 0 <==> forall|i: int|
            0 <= i < raws.len() ==> refusal(#[trigger] raws[i]) is None,
    decreases raws.len(),
{
    if raws.len() > 0 {
        lemma_regexp_issues_empty(name, raws.drop_last());
        let last = raws.len() - 1;
        assert(raws[last] == raws.last());
        assert(forall|i: int| 0 <= i < last ==> raws.drop_last()[i] == #[trigger] raws[i]);
        if regexp_issues(name, raws).len() == 0 {
            assert forall|i: int| 0 <= i < raws.len() implies refusal(
                #[trigger] raws[i],
            ) is None by {
                if i < last {
                    assert(refusal(raws.drop_last()[i]) is None);
                }
            }
        }
    }
}

proof fn lemma_undefined_refs_empty(name: Seq<char>, refs: Seq<Seq<char>>, known: Set<Seq<char>>)
    ensures
        undefined_refs(name, refs, known).len() == 0 <==> forall|i: int|
            0 <= i < refs.len() ==> known.contains(#[trigger] refs[i]),
    decreases refs.len(),
{
    if refs.len() > 0 {
        lemma_undefined_refs_empty(name, refs.drop_last(), known);
        let last = refs.len() - 1;
        assert(refs[last] == refs.last());
        assert(forall|i: int| 0 <= i < last ==> refs.drop_last()[i] == #[trigger] refs[i]);
        if undefined_refs(name, refs, known).len() == 0 {
            assert forall|i: int| 0 <= i < refs.len() implies known.contains(
                #[trigger] refs[i],
            ) by {
                if i < last {
                    assert(known.contains(refs.drop_last()[i]));
                }
            }
        }
    }
}

proof fn lemma_capture_issues_empty(p: Prediction, known: Set<Seq<char>>)
    ensures
        capture_issues(p, known).len() == 0 <==> guaranteed_references(p, known),
    decreases p, 0nat,
{
    match p {
        Prediction::Unit { binding, pattern, .. } => {
            lemma_undefined_refs_empty(display_name(binding), template_refs_of(pattern), known);
        },
        Prediction::All { children, .. } => {
            lemma_capture_issues_all_empty(children, known);
        },
        Prediction::Any { children, .. } => {
            lemma_capture_issues_any_empty(children, known);
        },
    }
}

proof fn lemma_capture_issues_all_empty(ps: Seq<Prediction>, known: Set<Seq<char>>)
    ensures
        capture_issues_all(ps, known).len() == 0 <==> forall|j: int|
            0 <= j < ps.len() ==> guaranteed_references(
                #[trigger] ps[j],
                scope_all(ps.take(j), known),
            ),
    decreases ps, ps.len(),
{
    if ps.len() > 0 {
        let front = ps.drop_last();
        let last = ps.len() - 1;
        lemma_capture_issues_all_empty(front, known);
        lemma_capture_issues_empty(ps.last(), scope_all(front, known));
        assert(ps.take(last) =~= front);
        assert forall|j: int| 0 <= j < last implies front[j] == #[trigger] ps[j] && front.take(j)
            == ps.take(j) by {
            assert(front.take(j) =~= ps.take(j));
        }
        if capture_issues_all(ps, known).len() == 0 {
            assert forall|j: int| 0 <= j < ps.len() implies guaranteed_references(
                #[trigger] ps[j],
                scope_all(ps.take(j), known),
            ) by {
                if j < last {
                    assert(guaranteed_references(front[j], scope_all(front.take(j), known)));
                }
            }
        }
        if forall|j: int|
            0 <= j < ps.len() ==> guaranteed_references(
                #[trigger] ps[j],
                scope_all(ps.take(j), known),
            ) {
            assert forall|j: int| 0 <= j < front.len() implies guaranteed_references(
                #[trigger] front[j],
                scope_all(front.take(j), known),
            ) by {
                assert(guaranteed_references(ps[j], scope_all(ps.take(j), known)));
            }
            assert(guaranteed_references(ps[last], scope_all(ps.take(last), known)));
        }
    }
}

proof fn lemma_capture_issues_any_empty(ps: Seq<Prediction>, known: Set<Seq<char>>)
    ensures
        capture_issues_any(ps, known).len() == 0 <==> forall|j: int|
            0 <= j < ps.len() ==> guaranteed_references(#[trigger] ps[j], known),
    decreases ps, ps.len(),
{
    if ps.len() > 0 {
        let front = ps.drop_last();
        let last = ps.len() - 1;
        lemma_capture_issues_any_empty(front, known);
        lemma_capture_issues_empty(ps.last(), known);
        assert(forall|j: int| 0 <= j < last ==> front[j] == #[trigger] ps[j]);
        if capture_issues_any(ps, known).len() == 0 {
            assert forall|j: int| 0 <= j < ps.len() implies guaranteed_references(
                #[trigger] ps[j],
                known,
            ) by {
                if j < last {
                    assert(guaranteed_references(front[j], known));
                }
            }
        }
        if forall|j: int| 0 <= j < ps.len() ==> guaranteed_references(#[trigger] ps[j], known) {
            assert forall|j: int| 0 <= j < front.len() implies guaranteed_references(
                #[trigger] front[j],
                known,
            ) by {
                assert(guaranteed_references(ps[j], known));
            }
            assert(guaranteed_references(ps[last], known));
        }
    }
}

/// A hypothesis is accepted exactly if its bindings are unique, its groups have
/// children, its root waits for nothing, every `after` names an earlier
/// prediction, every regular expression compiles, and every capture reference
/// is guaranteed to be defined.
pub proof fn law_accepted_hypotheses(p: Prediction)
    ensures
        validation_issues(p).len() == 0 <==> {
            &&& unique_bindings(preorder(p))
            &&& nonempty_groups(preorder(p))
            &&& p.after() is None
            &&& backward_references(preorder(p))
            &&& sound_regexps(preorder(p))
            &&& guaranteed_references(p, Set::empty())
        },
{
    let ns = preorder(p);
    let n = ns.len() as int;
    lemma_binding_phase_empty(ns, n);
    lemma_reference_phase_empty(ns, n);
    lemma_pattern_phase_empty(ns, n);
    lemma_capture_issues_empty(p, Set::empty());
    assert((forall|k: int| 0 <= k < n ==> (#[trigger] binding_issues(ns, k)).len() == 0) <==> (
    unique_bindings(ns) && nonempty_groups(ns))) by {
        if forall|k: int| 0 <= k < n ==> (#[trigger] binding_issues(ns, k)).len() == 0 {
            assert forall|i: int, j: int|
                0 <= i < j < ns.len() && (#[trigger] ns[i]).binding() is Some implies (
            #[trigger] ns[j]).binding() != ns[i].binding() by {
                assert(binding_issues(ns, j).len() == 0);
                if ns[j].binding() == ns[i].binding() {
                    assert(ns.take(j)[i].binding() == ns[j].binding());
                    assert(is_bound(ns.take(j), ns[j].binding()->Some_0));
                }
            }
            assert forall|k: int| 0 <= k < ns.len() && !((#[trigger] ns[k]) is Unit) implies
                ns[k].children().len() > 0 by {
                assert(binding_issues(ns, k).len() == 0);
            }
        }
        if unique_bindings(ns) && nonempty_groups(ns) {
            assert forall|k: int| 0 <= k < n implies (#[trigger] binding_issues(ns, k)).len()
                == 0 by {
                if let Some(b) = ns[k].binding() {
                    if is_bound(ns.take(k), b) {
                        let j = choose|j: int|
                            0 <= j < ns.take(k).len() && (#[trigger] ns.take(k)[j]).binding()
                                == Some(b);
                        assert(ns[j].binding() == ns[k].binding());
                    }
                }
            }
        }
    }
    assert((forall|k: int| 0 <= k < n ==> (#[trigger] reference_issues(ns, k)).len() == 0)
        <==> backward_references(ns)) by {
        if forall|k: int| 0 <= k < n ==> (#[trigger] reference_issues(ns, k)).len() == 0 {
            assert forall|k: int| 0 <= k < ns.len() implies ((#[trigger] ns[k]).after() matches Some(
                r,
            ) ==> is_bound(ns.take(k), r)) by {
                assert(reference_issues(ns, k).len() == 0);
            }
        }
        if backward_references(ns) {
            assert forall|k: int| 0 <= k < n implies (#[trigger] reference_issues(ns, k)).len()
                == 0 by {
                assert(ns[k].after() matches Some(r) ==> is_bound(ns.take(k), r));
            }
        }
    }
    assert((forall|k: int| 0 <= k < n ==> pattern_issues(#[trigger] ns[k]).len() == 0)
        <==> sound_regexps(ns)) by {
        assert forall|k: int| 0 <= k < n implies (pattern_issues(#[trigger] ns[k]).len() == 0 <==> (
        ns[k] matches Prediction::Unit { pattern, .. } ==> forall|i: int|
            0 <= i < regexps_of(pattern).len() ==> refusal(
                #[trigger] regexps_of(pattern)[i],
            ) is None)) by {
            if let Prediction::Unit { binding, pattern, .. } = ns[k] {
                lemma_regexp_issues_empty(display_name(binding), regexps_of(pattern));
            }
        }
    }
}

/// The captures that a tree defines by itself are added to those known before
/// it, whatever these are.
pub proof fn law_scope_adds_definitions(p: Prediction, known: Set<Seq<char>>)
    ensures
        scope(p, known) == known.union(scope(p, Set::empty())),
    decreases p, 0nat,
{
    let none = Set::<Seq<char>>::empty();
    match p {
        Prediction::Unit { pattern, .. } => {
            assert(scope(p, known) =~= known.union(scope(p, none)));
        },
        Prediction::All { children, .. } => {
            lemma_scope_all_adds(children, known);
        },
        Prediction::Any { children, .. } => {
            lemma_scope_common_adds(children, known);
            assert(scope(p, known) =~= known.union(scope(p, none)));
        },
    }
}

proof fn lemma_scope_all_adds(ps: Seq<Prediction>, known: Set<Seq<char>>)
    ensures
        scope_all(ps, known) == known.union(scope_all(ps, Set::empty())),
    decreases ps, ps.len(),
{
    let none = Set::<Seq<char>>::empty();
    if ps.len() > 0 {
        let front = ps.drop_last();
        lemma_scope_all_adds(front, known);
        law_scope_adds_definitions(ps.last(), scope_all(front, known));
        law_scope_adds_definitions(ps.last(), scope_all(front, none));
    }
    assert(scope_all(ps, known) =~= known.union(scope_all(ps, none)));
}

proof fn lemma_scope_common_adds(ps: Seq<Prediction>, known: Set<Seq<char>>)
    ensures
        known.union(scope_common(ps, known)) == known.union(scope_common(ps, Set::empty())),
    decreases ps, ps.len(),
{
    let none = Set::<Seq<char>>::empty();
    if ps.len() > 0 {
        let front = ps.drop_last();
        lemma_scope_common_adds(front, known);
        law_scope_adds_definitions(ps.last(), known);
        assert forall|c: Seq<char>| known.union(scope_common(ps, known)).contains(c)
            == known.union(scope_common(ps, none)).contains(c) by {
            assert(known.union(scope_common(front, known)).contains(c) == known.union(
                scope_common(front, none),
            ).contains(c));
        }
    }
    assert(known.union(scope_common(ps, known)) =~= known.union(scope_common(ps, none)));
}

/// After an `Any` group exactly those captures are guaranteed that were
/// guaranteed before it or that every one of its branches guarantees.
pub proof fn law_any_guarantees_common_captures(
    p: Prediction,
    known: Set<Seq<char>>,
    c: Seq<char>,
)
    requires
        p is Any,
        p.children().len() > 0,
    ensures
        scope(p, known).contains(c) <==> known.contains(c) || forall|j: int|
            0 <= j < p.children().len() ==> scope(#[trigger] p.children()[j], known).contains(c),
{
    lemma_scope_common_members(p.children(), known, c);
}

/// What each of several trees guarantees, name by name.
pub proof fn lemma_scope_common_members(ps: Seq<Prediction>, known: Set<Seq<char>>, c: Seq<char>)
    ensures
        scope_common(ps, known).contains(c) <==> forall|j: int|
            0 <= j < ps.len() ==> scope(#[trigger] ps[j], known).contains(c),
    decreases ps.len(),
{
    if ps.len() > 0 {
        let front = ps.drop_last();
        let last = ps.len() - 1;
        lemma_scope_common_members(front, known, c);
        assert(forall|j: int| 0 <= j < last ==> front[j] == #[trigger] ps[j]);
        if scope_common(ps, known).contains(c) {
            assert forall|j: int| 0 <= j < ps.len() implies scope(
                #[trigger] ps[j],
                known,
            ).contains(c) by {
                if j < last {
                    assert(scope(front[j], known).contains(c));
                }
            }
        }
        if forall|j: int| 0 <= j < ps.len() ==> scope(#[trigger] ps[j], known).contains(c) {
            assert forall|j: int| 0 <= j < front.len() implies scope(
                #[trigger] front[j],
                known,
            ).contains(c) by {
                assert(scope(ps[j], known).contains(c));
            }
            assert(scope(ps[last], known).contains(c));
        }
    }
}

/// What is in two sequences together is in one of them.
proof fn lemma_in_either(a: Seq<Issue>, b: Seq<Issue>, x: Issue)
    ensures
        (a + b).contains(x) <==> a.contains(x) || b.contains(x),
{
    let c = a + b;
    if a.contains(x) {
        let i = choose|i: int| 0 <= i < a.len() && a[i] == x;
        assert(c[i] == x);
    }
    if b.contains(x) {
        let i = choose|i: int| 0 <= i < b.len() && b[i] == x;
        assert(c[a.len() + i] == x);
    }
    if c.contains(x) {
        let i = choose|i: int| 0 <= i < c.len() && c[i] == x;
        if i < a.len() {
            assert(a[i] == x);
        } else {
            assert(b[i - a.len()] == x);
        }
    }
}

proof fn lemma_phase_members(ns: Seq<Prediction>, n: int, x: Issue)
    ensures
        binding_phase(ns, n).contains(x) <==> exists|k: int|
            0 <= k < n && (#[trigger] binding_issues(ns, k)).contains(x),
        reference_phase(ns, n).contains(x) <==> exists|k: int|
            0 <= k < n && (#[trigger] reference_issues(ns, k)).contains(x),
        pattern_phase(ns, n).contains(x) <==> exists|k: int|
            0 <= k < n && pattern_issues(#[trigger] ns[k]).contains(x),
    decreases n,
{
    if n > 0 {
        lemma_phase_members(ns, n - 1, x);
        lemma_in_either(binding_phase(ns, n - 1), binding_issues(ns, n - 1), x);
        lemma_in_either(reference_phase(ns, n - 1), reference_issues(ns, n - 1), x);
        lemma_in_either(pattern_phase(ns, n - 1), pattern_issues(ns[n - 1]), x);
        if exists|k: int| 0 <= k < n && (#[trigger] binding_issues(ns, k)).contains(x) {
            let k = choose|k: int| 0 <= k < n && (#[trigger] binding_issues(ns, k)).contains(x);
            assert(k < n - 1 || k == n - 1);
        }
        if exists|k: int| 0 <= k < n && (#[trigger] reference_issues(ns, k)).contains(x) {
            let k = choose|k: int| 0 <= k < n && (#[trigger] reference_issues(ns, k)).contains(x);
            assert(k < n - 1 || k == n - 1);
        }
        if exists|k: int| 0 <= k < n && pattern_issues(#[trigger] ns[k]).contains(x) {
            let k = choose|k: int| 0 <= k < n && pattern_issues(#[trigger] ns[k]).contains(x);
            assert(k < n - 1 || k == n - 1);
        }
    }
}

proof fn lemma_regexp_members(name: Seq<char>, raws: Seq<Seq<char>>, x: Issue)
    ensures
        regexp_issues(name, raws).contains(x) <==> (x matches Issue::InvalidRegexp {
            prediction,
            error,
        } && prediction == name && exists|i: int|
            0 <= i < raws.len() && refusal(#[trigger] raws[i]) == Some(error)),
    decreases raws.len(),
{
    if raws.len() > 0 {
        let front = raws.drop_last();
        let last = raws.len() - 1;
        let here = regexp_issue(name, refusal(raws.last()));
        lemma_regexp_members(name, front, x);
        lemma_in_either(regexp_issues(name, front), here, x);
        assert(here.contains(x) <==> (x matches Issue::InvalidRegexp { prediction, error }
            && prediction == name && refusal(raws.last()) == Some(error))) by {
            if let Some(error) = refusal(raws.last()) {
                assert(here[0] == (Issue::InvalidRegexp { prediction: name, error }));
            }
        }
        if let Issue::InvalidRegexp { prediction, error } = x {
            if exists|i: int| 0 <= i < front.len() && refusal(#[trigger] front[i]) == Some(error) {
                let i = choose|i: int|
                    0 <= i < front.len() && refusal(#[trigger] front[i]) == Some(error);
                assert(refusal(raws[i]) == Some(error));
            }
            if exists|i: int| 0 <= i < raws.len() && refusal(#[trigger] raws[i]) == Some(error) {
                let i = choose|i: int|
                    0 <= i < raws.len() && refusal(#[trigger] raws[i]) == Some(error);
                if i < last {
                    assert(refusal(front[i]) == Some(error));
                }
            }
        }
    }
}

/// A prediction is reported by its binding, and as anonymous where it has none.
pub proof fn law_display_name(binding: Option<Seq<char>>)
    ensures
        binding matches Some(b) ==> display_name(binding) == b,
        binding is None ==> display_name(binding) == "<anonymous>"@,
{
}

/// Captures alone can be undefined where captures are checked.
proof fn lemma_capture_issues_are_undefined(p: Prediction, known: Set<Seq<char>>, x: Issue)
    requires
        capture_issues(p, known).contains(x),
    ensures
        x is UndefinedCapture,
    decreases p,
{
    law_capture_issues(p, known, x);
    match p {
        Prediction::Unit { .. } => {},
        Prediction::All { children, .. } => {
            let j = choose|j: int|
                0 <= j < children.len() && capture_issues(
                    #[trigger] children[j],
                    scope_all(children.take(j), known),
                ).contains(x);
            lemma_capture_issues_are_undefined(children[j], scope_all(children.take(j), known), x);
        },
        Prediction::Any { children, .. } => {
            let j = choose|j: int|
                0 <= j < children.len() && capture_issues(#[trigger] children[j], known).contains(x);
            lemma_capture_issues_are_undefined(children[j], known, x);
        },
    }
}

/// What validation reports, and nothing else: a binding that two predictions have;
/// a group without children; a root that waits; an `after` that no prediction is
/// bound to; one that only the prediction itself or a later one is bound to; a
/// regular expression that does not compile, with the reason; and a capture that is
/// not guaranteed to be defined.
pub proof fn law_what_is_reported(p: Prediction, x: Issue)
    ensures
        validation_issues(p).contains(x) <==> ({
            let ns = preorder(p);
            match x {
                Issue::DuplicateBinding(b) => exists|i: int, j: int|
                    0 <= i < j < ns.len() && (#[trigger] ns[i]).binding() == Some(b) && (
                    #[trigger] ns[j]).binding() == Some(b),
                Issue::EmptyGroup(g) => exists|k: int|
                    0 <= k < ns.len() && !((#[trigger] ns[k]) is Unit) && ns[k].children().len()
                        == 0 && g == display_name(ns[k].binding()),
                Issue::RootHasAfter => p.after() is Some,
                Issue::UnknownReference { prediction, reference } => {
                    &&& exists|k: int|
                        0 <= k < ns.len() && (#[trigger] ns[k]).after() == Some(reference)
                            && prediction == display_name(ns[k].binding())
                    &&& forall|j: int|
                        0 <= j < ns.len() ==> (#[trigger] ns[j]).binding() != Some(reference)
                },
                Issue::ForwardReference { prediction, reference } => {
                    &&& exists|k: int|
                        0 <= k < ns.len() && (#[trigger] ns[k]).after() == Some(reference)
                            && prediction == display_name(ns[k].binding()) && (forall|j: int|
                            0 <= j < k ==> (#[trigger] ns[j]).binding() != Some(reference))
                    &&& exists|j: int|
                        0 <= j < ns.len() && (#[trigger] ns[j]).binding() == Some(reference)
                },
                Issue::InvalidRegexp { prediction, error } => exists|k: int|
                    0 <= k < ns.len() && ((#[trigger] ns[k]) matches Prediction::Unit {
                        binding,
                        pattern,
                        ..
                    } && prediction == display_name(binding) && exists|i: int|
                        0 <= i < regexps_of(pattern).len() && refusal(
                            #[trigger] regexps_of(pattern)[i],
                        ) == Some(error)),
                Issue::UndefinedCapture { .. } => capture_issues(p, Set::empty()).contains(x),
            }
        }),
{
    let ns = preorder(p);
    let n = ns.len() as int;
    let a = binding_phase(ns, n);
    let r = root_issues(p);
    let b = reference_phase(ns, n);
    let c = pattern_phase(ns, n);
    let d = capture_issues(p, Set::empty());
    lemma_in_either(a, r, x);
    lemma_in_either(a + r, b, x);
    lemma_in_either(a + r + b, c, x);
    lemma_in_either(a + r + b + c, d, x);
    lemma_phase_members(ns, n, x);
    assert(r.contains(x) <==> x is RootHasAfter && p.after() is Some) by {
        if p.after() is Some {
            assert(r[0] is RootHasAfter);
        }
    }
    if d.contains(x) {
        lemma_capture_issues_are_undefined(p, Set::empty(), x);
    }
    lemma_binding_issue_kinds(ns, x);
    lemma_reference_issue_kinds(ns, x);
    assert forall|k: int| 0 <= k < n implies (pattern_issues(#[trigger] ns[k]).contains(x) <==> (
    ns[k] matches Prediction::Unit { binding, pattern, .. } && x matches Issue::InvalidRegexp {
        prediction,
        error,
    } && prediction == display_name(binding) && exists|i: int|
        0 <= i < regexps_of(pattern).len() && refusal(#[trigger] regexps_of(pattern)[i]) == Some(
            error,
        ))) by {
        if let Prediction::Unit { binding, pattern, .. } = ns[k] {
            lemma_regexp_members(display_name(binding), regexps_of(pattern), x);
        }
    }
}

proof fn lemma_binding_issue_kinds(ns: Seq<Prediction>, x: Issue)
    ensures
        (exists|k: int| 0 <= k < ns.len() && (#[trigger] binding_issues(ns, k)).contains(x)) <==> (
        match x {
            Issue::DuplicateBinding(b) => exists|i: int, j: int|
                0 <= i < j < ns.len() && (#[trigger] ns[i]).binding() == Some(b) && (
                #[trigger] ns[j]).binding() == Some(b),
            Issue::EmptyGroup(g) => exists|k: int|
                0 <= k < ns.len() && !((#[trigger] ns[k]) is Unit) && ns[k].children().len() == 0
                    && g == display_name(ns[k].binding()),
            _ => false,
        }),
{
    assert forall|k: int| 0 <= k < ns.len() implies ((#[trigger] binding_issues(ns, k)).contains(x)
        <==> (match x {
        Issue::DuplicateBinding(b) => ns[k].binding() == Some(b) && is_bound(ns.take(k), b),
        Issue::EmptyGroup(g) => !(ns[k] is Unit) && ns[k].children().len() == 0 && g
            == display_name(ns[k].binding()),
        _ => false,
    })) by {
        let here = binding_issues(ns, k);
        let repeated = ns[k].binding() is Some && is_bound(
            ns.take(k),
            ns[k].binding()->Some_0,
        );
        if repeated {
            assert(here[0] == Issue::DuplicateBinding(ns[k].binding()->Some_0));
        }
        if !(ns[k] is Unit) && ns[k].children().len() == 0 {
            assert(here[here.len() - 1] == Issue::EmptyGroup(display_name(ns[k].binding())));
        }
    }
    match x {
        Issue::DuplicateBinding(b) => {
            if exists|k: int| 0 <= k < ns.len() && (#[trigger] binding_issues(ns, k)).contains(x) {
                let k = choose|k: int|
                    0 <= k < ns.len() && (#[trigger] binding_issues(ns, k)).contains(x);
                let j = choose|j: int|
                    0 <= j < ns.take(k).len() && (#[trigger] ns.take(k)[j]).binding() == Some(b);
                assert(ns[j].binding() == Some(b));
                assert(ns[k].binding() == Some(b));
            }
            if exists|i: int, j: int|
                0 <= i < j < ns.len() && (#[trigger] ns[i]).binding() == Some(b) && (
                #[trigger] ns[j]).binding() == Some(b) {
                let (i, j) = choose|i: int, j: int|
                    0 <= i < j < ns.len() && (#[trigger] ns[i]).binding() == Some(b) && (
                    #[trigger] ns[j]).binding() == Some(b);
                assert(ns.take(j)[i].binding() == Some(b));
                assert(binding_issues(ns, j).contains(x));
            }
        },
        Issue::EmptyGroup(g) => {
            if exists|k: int|
                0 <= k < ns.len() && !((#[trigger] ns[k]) is Unit) && ns[k].children().len() == 0
                    && g == display_name(ns[k].binding()) {
                let k = choose|k: int|
                    0 <= k < ns.len() && !((#[trigger] ns[k]) is Unit) && ns[k].children().len()
                        == 0 && g == display_name(ns[k].binding());
                assert(binding_issues(ns, k).contains(x));
            }
        },
        _ => {},
    }
}

proof fn lemma_reference_issue_kinds(ns: Seq<Prediction>, x: Issue)
    ensures
        (exists|k: int| 0 <= k < ns.len() && (#[trigger] reference_issues(ns, k)).contains(x))
            <==> (match x {
            Issue::UnknownReference { prediction, reference } => {
                &&& exists|k: int|
                    0 <= k < ns.len() && (#[trigger] ns[k]).after() == Some(reference) && prediction
                        == display_name(ns[k].binding())
                &&& forall|j: int|
                    0 <= j < ns.len() ==> (#[trigger] ns[j]).binding() != Some(reference)
            },
            Issue::ForwardReference { prediction, reference } => {
                &&& exists|k: int|
                    0 <= k < ns.len() && (#[trigger] ns[k]).after() == Some(reference) && prediction
                        == display_name(ns[k].binding()) && (forall|j: int|
                        0 <= j < k ==> (#[trigger] ns[j]).binding() != Some(reference))
                &&& exists|j: int|
                    0 <= j < ns.len() && (#[trigger] ns[j]).binding() == Some(reference)
            },
            _ => false,
        }),
{
    assert forall|k: int, r: Seq<char>|
        0 <= k <= ns.len() implies (#[trigger] is_bound(ns.take(k), r) <==> exists|j: int|
        0 <= j < k && (#[trigger] ns[j]).binding() == Some(r)) by {
        if is_bound(ns.take(k), r) {
            let j = choose|j: int|
                0 <= j < ns.take(k).len() && (#[trigger] ns.take(k)[j]).binding() == Some(r);
            assert(ns[j].binding() == Some(r));
        }
        if exists|j: int| 0 <= j < k && (#[trigger] ns[j]).binding() == Some(r) {
            let j = choose|j: int| 0 <= j < k && (#[trigger] ns[j]).binding() == Some(r);
            assert(ns.take(k)[j].binding() == Some(r));
        }
    }
    assert forall|k: int| 0 <= k < ns.len() implies ((#[trigger] reference_issues(ns, k)).contains(
        x,
    ) <==> (match x {
        Issue::UnknownReference { prediction, reference } => ns[k].after() == Some(reference)
            && prediction == display_name(ns[k].binding()) && !is_bound(ns.take(k), reference)
            && !is_bound(ns, reference),
        Issue::ForwardReference { prediction, reference } => ns[k].after() == Some(reference)
            && prediction == display_name(ns[k].binding()) && !is_bound(ns.take(k), reference)
            && is_bound(ns, reference),
        _ => false,
    })) by {
        let here = reference_issues(ns, k);
        if here.len() > 0 {
            assert(here.len() == 1);
            assert(here.contains(here[0]));
        }
    }
    match x {
        Issue::UnknownReference { prediction, reference } => {
            if exists|k: int|
                0 <= k < ns.len() && (#[trigger] ns[k]).after() == Some(reference) && prediction
                    == display_name(ns[k].binding()) {
                let k = choose|k: int|
                    0 <= k < ns.len() && (#[trigger] ns[k]).after() == Some(reference)
                        && prediction == display_name(ns[k].binding());
                assert(reference_issues(ns, k).contains(x) <==> !is_bound(ns.take(k), reference)
                    && !is_bound(ns, reference));
            }
        },
        Issue::ForwardReference { prediction, reference } => {
            if exists|k: int|
                0 <= k < ns.len() && (#[trigger] ns[k]).after() == Some(reference) && prediction
                    == display_name(ns[k].binding()) && (forall|j: int|
                    0 <= j < k ==> (#[trigger] ns[j]).binding() != Some(reference)) {
                let k = choose|k: int|
                    0 <= k < ns.len() && (#[trigger] ns[k]).after() == Some(reference)
                        && prediction == display_name(ns[k].binding()) && (forall|j: int|
                        0 <= j < k ==> (#[trigger] ns[j]).binding() != Some(reference));
                assert(!is_bound(ns.take(k), reference));
                assert(reference_issues(ns, k).contains(x) <==> is_bound(ns, reference));
            }
            if exists|k: int| 0 <= k < ns.len() && (#[trigger] reference_issues(ns, k)).contains(x) {
                let k = choose|k: int|
                    0 <= k < ns.len() && (#[trigger] reference_issues(ns, k)).contains(x);
                assert(!is_bound(ns.take(k), reference));
                assert(ns[k].after() == Some(reference));
            }
        },
        _ => {},
    }
}

/// Which captures are reported as undefined: those that a unit refers to and that
/// are not known where it stands. The children of an `All` know, besides what is
/// known before it, what those before them guarantee; the branches of an `Any`
/// know no more than what is known before it.
pub proof fn law_capture_issues(p: Prediction, known: Set<Seq<char>>, x: Issue)
    ensures
        capture_issues(p, known).contains(x) <==> (match p {
            Prediction::Unit { binding, pattern, .. } => x matches Issue::UndefinedCapture {
                prediction,
                capture,
            } && prediction == display_name(binding) && !known.contains(capture)
                && template_refs_of(pattern).contains(capture),
            Prediction::All { children, .. } => exists|j: int|
                0 <= j < children.len() && capture_issues(
                    #[trigger] children[j],
                    scope_all(children.take(j), known),
                ).contains(x),
            Prediction::Any { children, .. } => exists|j: int|
                0 <= j < children.len() && capture_issues(#[trigger] children[j], known).contains(x),
        }),
{
    match p {
        Prediction::Unit { binding, pattern, .. } => {
            lemma_undefined_members(display_name(binding), template_refs_of(pattern), known, x);
        },
        Prediction::All { children, .. } => {
            lemma_all_members(children, known, x, children.len() as int);
            assert(children.take(children.len() as int) =~= children);
            if exists|j: int|
                0 <= j < children.len() && #[trigger] issue_of_child(children, known, x, j) {
                let j = choose|j: int|
                    0 <= j < children.len() && #[trigger] issue_of_child(children, known, x, j);
                assert(capture_issues(children[j], scope_all(children.take(j), known)).contains(x));
            }
            if exists|j: int|
                0 <= j < children.len() && capture_issues(
                    #[trigger] children[j],
                    scope_all(children.take(j), known),
                ).contains(x) {
                let j = choose|j: int|
                    0 <= j < children.len() && capture_issues(
                        #[trigger] children[j],
                        scope_all(children.take(j), known),
                    ).contains(x);
                assert(issue_of_child(children, known, x, j));
            }
        },
        Prediction::Any { children, .. } => {
            lemma_any_members(children, known, x);
        },
    }
}

proof fn lemma_undefined_members(
    name: Seq<char>,
    refs: Seq<Seq<char>>,
    known: Set<Seq<char>>,
    x: Issue,
)
    ensures
        undefined_refs(name, refs, known).contains(x) <==> (x matches Issue::UndefinedCapture {
            prediction,
            capture,
        } && prediction == name && !known.contains(capture) && refs.contains(capture)),
    decreases refs.len(),
{
    if refs.len() > 0 {
        let front = refs.drop_last();
        let last = refs.last();
        let rest = undefined_refs(name, front, known);
        lemma_undefined_members(name, front, known, x);
        if let Issue::UndefinedCapture { capture, .. } = x {
            assert(refs.contains(capture) <==> front.contains(capture) || capture == last) by {
                if front.contains(capture) {
                    let i = choose|i: int| 0 <= i < front.len() && front[i] == capture;
                    assert(refs[i] == capture);
                }
                if capture == last {
                    assert(refs[refs.len() - 1] == capture);
                }
                if refs.contains(capture) {
                    let i = choose|i: int| 0 <= i < refs.len() && refs[i] == capture;
                    if i < front.len() {
                        assert(front[i] == capture);
                    }
                }
            }
        }
        let e = Issue::UndefinedCapture { prediction: name, capture: last };
        lemma_in_either(rest, seq![e], x);
        assert(rest.push(e) =~= rest + seq![e]);
        assert(seq![e].contains(x) <==> x == e) by {
            assert(seq![e][0] == e);
        }
    }
}

/// Whether the issue `x` is that of child `j` of an `All`.
spec fn issue_of_child(ps: Seq<Prediction>, known: Set<Seq<char>>, x: Issue, j: int) -> bool {
    capture_issues(ps[j], scope_all(ps.take(j), known)).contains(x)
}

proof fn lemma_all_members(ps: Seq<Prediction>, known: Set<Seq<char>>, x: Issue, n: int)
    requires
        0 <= n <= ps.len(),
    ensures
        capture_issues_all(ps.take(n), known).contains(x) <==> exists|j: int|
            0 <= j < n && #[trigger] issue_of_child(ps, known, x, j),
    decreases n,
{
    if n > 0 {
        lemma_all_members(ps, known, x, n - 1);
        assert(ps.take(n).drop_last() =~= ps.take(n - 1));
        assert(ps.take(n).last() == ps[n - 1]);
        lemma_in_either(
            capture_issues_all(ps.take(n - 1), known),
            capture_issues(ps[n - 1], scope_all(ps.take(n - 1), known)),
            x,
        );
        assert(issue_of_child(ps, known, x, n - 1) <==> capture_issues(
            ps[n - 1],
            scope_all(ps.take(n - 1), known),
        ).contains(x));
    }
}

proof fn lemma_any_members(ps: Seq<Prediction>, known: Set<Seq<char>>, x: Issue)
    ensures
        capture_issues_any(ps, known).contains(x) <==> exists|j: int|
            0 <= j < ps.len() && capture_issues(#[trigger] ps[j], known).contains(x),
    decreases ps.len(),
{
    if ps.len() > 0 {
        let front = ps.drop_last();
        let last = ps.len() - 1;
        lemma_any_members(front, known, x);
        lemma_in_either(capture_issues_any(front, known), capture_issues(ps.last(), known), x);
        assert(forall|j: int| 0 <= j < last ==> front[j] == #[trigger] ps[j]);
        if capture_issues_any(front, known).contains(x) {
            let j = choose|j: int|
                0 <= j < front.len() && capture_issues(#[trigger] front[j], known).contains(x);
            assert(capture_issues(ps[j], known).contains(x));
        }
        if exists|j: int| 0 <= j < ps.len() && capture_issues(#[trigger] ps[j], known).contains(x) {
            let j = choose|j: int|
                0 <= j < ps.len() && capture_issues(#[trigger] ps[j], known).contains(x);
            if j < last {
                assert(capture_issues(front[j], known).contains(x));
            }
        }
        assert(ps[last] == ps.last());
    }
}

/// What a unit guarantees: what is known before it, and the names of the groups of
/// all its expressions. What an `All` guarantees is what its children do, each
/// behind those before it.
pub proof fn law_scope(p: Prediction, known: Set<Seq<char>>, c: Seq<char>)
    ensures
        match p {
            Prediction::Unit { pattern, .. } => scope(p, known).contains(c) <==> known.contains(c)
                || exists|i: int, j: int|
                0 <= i < regexps_of(pattern).len() && 0 <= j < capture_names_of(
                    regexps_of(pattern)[i],
                ).len() && #[trigger] capture_names_of(regexps_of(pattern)[i])[j] == c,
            Prediction::All { children, .. } => {
                &&& scope(p, known) == scope_all(children, known)
                &&& scope_all(children.take(0), known) == known
                &&& forall|j: int|
                    0 <= j < children.len() ==> scope_all(children.take(j + 1), known) == scope(
                        #[trigger] children[j],
                        scope_all(children.take(j), known),
                    )
            },
            Prediction::Any { children, .. } => children.len() == 0 ==> scope(p, known) == known,
        },
{
    match p {
        Prediction::Unit { pattern, .. } => {
            let names = defined_captures(pattern);
            law_defined_captures(pattern);
            if names.contains(c) {
                let k = choose|k: int| 0 <= k < names.len() && names[k] == c;
                let i = choose|i: int|
                    0 <= i < regexps_of(pattern).len() && capture_names_of(
                        #[trigger] regexps_of(pattern)[i],
                    ).contains(names[k]);
                let here = capture_names_of(regexps_of(pattern)[i]);
                let j = choose|j: int| 0 <= j < here.len() && here[j] == c;
                assert(capture_names_of(regexps_of(pattern)[i])[j] == c);
            }
        },
        Prediction::All { children, .. } => {
            assert forall|j: int| 0 <= j < children.len() implies scope_all(
                children.take(j + 1),
                known,
            ) == scope(#[trigger] children[j], scope_all(children.take(j), known)) by {
                assert(children.take(j + 1).drop_last() =~= children.take(j));
            }
        },
        Prediction::Any { .. } => {},
    }
}

/// The issues come in phases: bindings and groups, the root, references, regular
/// expressions, and captures. In the first phases they come in depth-first order,
/// and each prediction adds one issue for each thing that is wrong with it.
pub proof fn law_issues_come_in_order(p: Prediction, k: int)
    requires
        0 <= k < preorder(p).len(),
    ensures
        ({
            let ns = preorder(p);
            let n = ns.len() as int;
            &&& validation_issues(p) == binding_phase(ns, n) + (if p.after() is Some {
                seq![Issue::RootHasAfter]
            } else {
                seq![]
            }) + reference_phase(ns, n) + pattern_phase(ns, n) + capture_issues(p, Set::empty())
            &&& binding_phase(ns, 0).len() == 0
            &&& reference_phase(ns, 0).len() == 0
            &&& pattern_phase(ns, 0).len() == 0
            &&& binding_phase(ns, k).is_prefix_of(binding_phase(ns, k + 1))
            &&& reference_phase(ns, k).is_prefix_of(reference_phase(ns, k + 1))
            &&& pattern_phase(ns, k).is_prefix_of(pattern_phase(ns, k + 1))
            &&& binding_phase(ns, k + 1).len() - binding_phase(ns, k).len() == (if ns[k].binding() is Some
                && (exists|j: int|
                0 <= j < k && (#[trigger] ns[j]).binding() == ns[k].binding()) {
                1int
            } else {
                0
            }) + (if !(ns[k] is Unit) && ns[k].children().len() == 0 {
                1int
            } else {
                0
            })
            &&& reference_phase(ns, k + 1).len() - reference_phase(ns, k).len() == (
            if ns[k].after() is Some && (forall|j: int|
                0 <= j < k ==> (#[trigger] ns[j]).binding() != ns[k].after()) {
                1int
            } else {
                0
            })
            &&& pattern_phase(ns, k + 1).len() - pattern_phase(ns, k).len() == match ns[k] {
                Prediction::Unit { pattern, .. } => regexps_of(pattern).filter(
                    |raw: Seq<char>| refusal(raw) is Some,
                ).len() as int,
                _ => 0int,
            }
        }),
{
    let ns = preorder(p);
    let before = ns.take(k);
    if let Some(b) = ns[k].binding() {
        if is_bound(before, b) {
            let j = choose|j: int| 0 <= j < before.len() && (#[trigger] before[j]).binding() == Some(b);
            assert(ns[j].binding() == ns[k].binding());
        }
        if exists|j: int| 0 <= j < k && (#[trigger] ns[j]).binding() == ns[k].binding() {
            let j = choose|j: int| 0 <= j < k && (#[trigger] ns[j]).binding() == ns[k].binding();
            assert(before[j].binding() == Some(b));
        }
    }
    if let Some(r) = ns[k].after() {
        if is_bound(before, r) {
            let j = choose|j: int| 0 <= j < before.len() && (#[trigger] before[j]).binding() == Some(r);
            assert(ns[j].binding() == ns[k].after());
        }
        if exists|j: int| 0 <= j < k && (#[trigger] ns[j]).binding() == ns[k].after() {
            let j = choose|j: int| 0 <= j < k && (#[trigger] ns[j]).binding() == ns[k].after();
            assert(before[j].binding() == Some(r));
        }
    }
    if let Prediction::Unit { binding, pattern, .. } = ns[k] {
        lemma_regexp_count(display_name(binding), regexps_of(pattern));
    }
}

proof fn lemma_regexp_count(name: Seq<char>, raws: Seq<Seq<char>>)
    ensures
        regexp_issues(name, raws).len() == raws.filter(
            |raw: Seq<char>| refusal(raw) is Some,
        ).len(),
    decreases raws.len(),
{
    reveal(Seq::filter);
    if raws.len() > 0 {
        lemma_regexp_count(name, raws.drop_last());
    }
}

/// The words of an issue give every name, and every reason, in full.
pub proof fn law_issue_text(a: Seq<char>, b: Seq<char>)
    ensures
        issue_text(Issue::DuplicateBinding(a)) == "duplicate binding: `"@ + a + "`"@,
        issue_text(Issue::UnknownReference { prediction: a, reference: b })
            == "unknown reference `"@ + b + "` in prediction `"@ + a + "`"@,
        issue_text(Issue::ForwardReference { prediction: a, reference: b })
            == "forward reference `"@ + b + "` in prediction `"@ + a
            + "` (referenced prediction not yet observable)"@,
        issue_text(Issue::EmptyGroup(a)) == "empty group prediction `"@ + a
            + "` (All/Any must have >= 1 child)"@,
        issue_text(Issue::RootHasAfter) == "root prediction must not have `after` set"@,
        issue_text(Issue::InvalidRegexp { prediction: a, error: b })
            == "invalid regexp in prediction `"@ + a + "`: "@ + b,
        issue_text(Issue::UndefinedCapture { prediction: a, capture: b }) == "capture `${"@ + b
            + "}` used in prediction `"@ + a
            + "` but not guaranteed to be defined (not defined or defined in only some branches of an Any group)"@,
{
}

/// The model of errors says what the errors say, one by one.
pub proof fn law_issues(errors: Seq<ValidationError>, i: int)
    requires
        0 <= i < errors.len(),
    ensures
        issues(errors).len() == errors.len(),
        match errors[i] {
            ValidationError::DuplicateBinding(b) => issues(errors)[i] == Issue::DuplicateBinding(
                b@,
            ),
            ValidationError::UnknownReference { prediction, reference } => issues(errors)[i] == (
            Issue::UnknownReference { prediction: prediction@, reference: reference@ }),
            ValidationError::ForwardReference { prediction, reference } => issues(errors)[i] == (
            Issue::ForwardReference { prediction: prediction@, reference: reference@ }),
            ValidationError::EmptyGroup(g) => issues(errors)[i] == Issue::EmptyGroup(g@),
            ValidationError::RootHasAfter => issues(errors)[i] is RootHasAfter,
            ValidationError::InvalidRegexp { prediction, error } => issues(errors)[i] == (
            Issue::InvalidRegexp { prediction: prediction@, error: error@ }),
            ValidationError::UndefinedCapture { prediction, capture } => issues(errors)[i] == (
            Issue::UndefinedCapture { prediction: prediction@, capture: capture@ }),
        },
{
}

} // verus!
