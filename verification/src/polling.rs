//! What is asked for a prediction, and what an answer does to it.

use vstd::prelude::*;
use crate::captures::{
    apply_captures, captured, distinct_names, drawn_from, extract_regexp_captures,
    law_captures_recall, law_every_expression_captures, lemma_last_is_captured, regexps_captures,
    resolved, with_captures, CaptureStore,
};
use crate::loki::{LogEntry, LokiError};
use crate::observation::{entries, Entry, Observation, ObservationKind};
use crate::pattern::regexps_of;
use crate::settling::other_children_failed;
use crate::time::{
    is_instant, law_moving_on_is_later, law_shifted, lemma_moved_is_instant, precedes, shifted,
    Timestamp, MAX_SECS, MIN_SECS, SECOND,
};
use crate::tree::{indices, table, KindView, Node, NodeKind, NodeState, NodeView, StateView};

verus! {

broadcast use vstd::string::group_string_axioms;

/// `at` and a duration in milliseconds, where the sum is within the time line.
pub open spec fn time_after(at: (int, int), ms: u64) -> Option<(int, int)> {
    shifted(at, ms * 1_000_000)
}

/// The instant from which on a unit that is looked for from `at` can be given
/// up: the end of its search window, and the slack that lines may take to be
/// ingested.
pub open spec fn deadline_of(at: (int, int), timeout_ms: u64, slack_ms: u64) -> Option<
    (int, int),
> {
    match time_after(at, timeout_ms) {
        Some(end) => time_after(end, slack_ms),
        None => None,
    }
}

/// A query for the first log line that matches a pattern in a time range.
#[derive(Debug)]
pub struct Query {
    /// The pattern of the unit, with captures filled in.
    pub pattern: String,
    /// The base query and the pattern.
    pub text: String,
    pub start: Timestamp,
    pub end: Timestamp,
    /// From when on the unit can be given up.
    pub deadline: Timestamp,
}

/// The query for a unit: its pattern with captures filled in is appended to the
/// base query, and the time range is its search window.
pub open spec fn asks_for(
    query: Query,
    pattern: Seq<char>,
    timeout_ms: u64,
    at: (int, int),
    base_query: Seq<char>,
    slack_ms: u64,
    captures: Seq<(Seq<char>, Seq<char>)>,
) -> bool {
    &&& query.pattern@ == resolved(pattern, captures)
    &&& query.text@ == base_query + " "@ + resolved(pattern, captures)
    &&& query.start@ == at
    &&& time_after(at, timeout_ms) == Some(query.end@)
    &&& deadline_of(at, timeout_ms, slack_ms) == Some(query.deadline@)
}

/// What came back for a query.
pub enum Answer {
    /// The query failed.
    Error,
    /// No line matches.
    Nothing,
    /// The first line that matches.
    Found { at: (int, int), line: Seq<char> },
}

/// What came back for a query.
pub open spec fn answer_of(reply: Result<Option<LogEntry>, LokiError>) -> Answer {
    match reply {
        Err(_) => Answer::Error,
        Ok(None) => Answer::Nothing,
        Ok(Some(entry)) => Answer::Found { at: entry.timestamp@, line: entry.line@ },
    }
}

/// The state of a unit that is looked for from `at` once the answer is there. A
/// line that matches is an observation. Without one the unit is given up past
/// its deadline, and looked for again before. An error decides nothing.
pub open spec fn answered_state(
    at: (int, int),
    answer: Answer,
    now: (int, int),
    deadline: (int, int),
) -> StateView {
    match answer {
        Answer::Error => StateView::Expecting { at },
        Answer::Nothing => if precedes(deadline, now) {
            StateView::Failed { expected_at: at }
        } else {
            StateView::Expecting { at }
        },
        Answer::Found { at, line } => StateView::Observed { at, line: Some(line) },
    }
}

/// The trail entries of an answer for the unit of the given name.
pub open spec fn answer_trail(
    name: Seq<char>,
    answer: Answer,
    now: (int, int),
    deadline: (int, int),
) -> Seq<Entry> {
    match answer {
        Answer::Error => seq![],
        Answer::Nothing => if precedes(deadline, now) {
            seq![
                Entry {
                    kind: ObservationKind::Failed,
                    prediction: name,
                    timestamp: now,
                    log_line: None,
                },
            ]
        } else {
            seq![]
        },
        Answer::Found { at, line } => seq![
            Entry {
                kind: ObservationKind::Observed,
                prediction: name,
                timestamp: at,
                log_line: Some(line),
            },
        ],
    }
}

/// The captures once the answer to a query with the given pattern is there:
/// those of the line that matches are added.
pub open spec fn answer_captures(
    captures: Seq<(Seq<char>, Seq<char>)>,
    pattern: Seq<char>,
    answer: Answer,
) -> Seq<(Seq<char>, Seq<char>)> {
    match answer {
        Answer::Found { line, .. } => with_captures(
            captures,
            regexps_captures(regexps_of(pattern), line),
        ),
        _ => captures,
    }
}

/// Whether what is captured on an answer to a query with the given pattern is
/// part of the line that matches.
pub open spec fn captures_drawn(pattern: Seq<char>, answer: Answer) -> bool {
    answer matches Answer::Found { line, .. } ==> drawn_from(
        regexps_captures(regexps_of(pattern), line),
        line,
    )
}

/// Whether the failure of node `i` fails its parent too: it is not one of
/// several alternatives, or the others have failed.
pub open spec fn is_critical(t: Seq<NodeView>, i: int) -> bool {
    match t[i].parent {
        None => true,
        Some(q) => match t[q].kind {
            KindView::Any { children, .. } => forall|j: int|
                0 <= j < children.len() && #[trigger] children[j] != i ==> t[children[j]].state is Failed,
            _ => true,
        },
    }
}

/// Adds a duration in milliseconds to an instant.
pub fn plus_duration(at: &Timestamp, ms: u64) -> (r: Option<Timestamp>)
    ensures
        match r {
            Some(t) => time_after(at@, ms) == Some(t@),
            None => time_after(at@, ms) is None,
        },
{
    if ms <= i64::MAX as u64 {
        at.plus_millis(ms as i64)
    } else {
        proof {
            use_type_invariant(at);
        }
        None
    }
}

/// Writes the query for a unit that is looked for from `at`. `None` if its
/// search window, or the slack beyond it, leaves the time line.
pub fn plan_query(
    pattern: &str,
    timeout_ms: u64,
    at: &Timestamp,
    base_query: &str,
    slack_ms: u64,
    captures: &CaptureStore,
) -> (r: Option<Query>)
    ensures
        match r {
            Some(query) => asks_for(
                query,
                pattern@,
                timeout_ms,
                at@,
                base_query@,
                slack_ms,
                captures@,
            ),
            None => deadline_of(at@, timeout_ms, slack_ms) is None,
        },
{
    let end = match plus_duration(at, timeout_ms) {
        Some(end) => end,
        None => {
            return None;
        },
    };
    let deadline = match plus_duration(&end, slack_ms) {
        Some(deadline) => deadline,
        None => {
            return None;
        },
    };
    let pattern = apply_captures(pattern, captures);
    let text = base_query.to_owned().concat(" ").concat(pattern.as_str());
    Some(Query { pattern, text, start: *at, end, deadline })
}

/// Whether the failure of node `node_id` fails its parent too.
pub fn is_critical_timeout(nodes: &Vec<Node>, node_id: usize) -> (r: bool)
    requires
        node_id < nodes@.len(),
        nodes@[node_id as int].parent matches Some(q) ==> q < nodes@.len() && (forall|j: int|
            0 <= j < nodes@[q as int]@.kind.children().len() ==> 0 <= (
            #[trigger] nodes@[q as int]@.kind.children()[j]) < nodes@.len()),
    ensures
        r == is_critical(table(nodes@), node_id as int),
{
    let parent_id: usize = match nodes[node_id].parent {
        Some(q) => q,
        None => {
            return true;
        },
    };
    assert(table(nodes@)[parent_id as int] == nodes@[parent_id as int]@);
    assert(table(nodes@)[node_id as int] == nodes@[node_id as int]@);
    match &nodes[parent_id].kind {
        NodeKind::Any { children, .. } => {
            let ghost cs = nodes@[parent_id as int]@.kind.children();
            assert(cs == indices(children@));
            assert(forall|j: int| 0 <= j < cs.len() ==> #[trigger] cs[j] == children@[j]);
            assert forall|j: int| 0 <= j < children@.len() implies (#[trigger] children@[j])
                < nodes@.len() by {
                assert(cs[j] == children@[j]);
            }
            let r = other_children_failed(nodes, children, Some(node_id));
            proof {
                let t = table(nodes@);
                if r {
                    assert forall|j: int|
                        0 <= j < cs.len() && #[trigger] cs[j] != node_id as int implies t[cs[j]].state is Failed by {
                        assert(Some(children@[j]) != Some(node_id));
                    }
                } else {
                    let j = choose|j: int|
                        0 <= j < children@.len() && Some(#[trigger] children@[j]) != Some(node_id)
                            && !(t[children@[j] as int].state is Failed);
                    assert(cs[j] != node_id as int);
                }
            }
            r
        },
        _ => true,
    }
}

/// What an answer did.
#[derive(Debug)]
pub enum Note {
    /// The query failed and will be asked again.
    Retry,
    /// No line matches yet.
    Waiting,
    /// The prediction was given up; its parent may fail with it.
    TimedOut { critical: bool },
    /// The prediction was observed.
    Seen,
}

/// Whether the note tells what the answer did to unit `i` of the table.
pub open spec fn notes(
    note: Note,
    t: Seq<NodeView>,
    i: int,
    answer: Answer,
    now: (int, int),
    deadline: (int, int),
) -> bool {
    match answer {
        Answer::Error => note is Retry,
        Answer::Nothing => if precedes(deadline, now) {
            note == (Note::TimedOut { critical: is_critical(t, i) })
        } else {
            note is Waiting
        },
        Answer::Found { .. } => note is Seen,
    }
}

/// Takes the answer to the query for unit `i`, which is looked for from
/// `expected_at`, at the time `now`.
pub fn take_answer(
    nodes: &mut Vec<Node>,
    i: usize,
    expected_at: Timestamp,
    query: &Query,
    now: Timestamp,
    reply: Result<Option<LogEntry>, LokiError>,
    captures: &mut CaptureStore,
    observations: &mut Vec<Observation>,
) -> (note: Note)
    requires
        i < old(nodes)@.len(),
        old(nodes)@[i as int]@.state == (StateView::Expecting { at: expected_at@ }),
        old(nodes)@[i as int].parent matches Some(q) ==> q < old(nodes)@.len() && (forall|j: int|
            0 <= j < old(nodes)@[q as int]@.kind.children().len() ==> 0 <= (#[trigger] old(
                nodes,
            )@[q as int]@.kind.children()[j]) < old(nodes)@.len()),
    ensures
        table(final(nodes)@) == table(old(nodes)@).update(
            i as int,
            NodeView {
                state: answered_state(expected_at@, answer_of(reply), now@, query.deadline@),
                ..old(nodes)@[i as int]@
            },
        ),
        final(captures)@ == answer_captures(old(captures)@, query.pattern@, answer_of(reply)),
        captures_drawn(query.pattern@, answer_of(reply)),
        entries(final(observations)@) == entries(old(observations)@) + answer_trail(
            old(nodes)@[i as int]@.name,
            answer_of(reply),
            now@,
            query.deadline@,
        ),
        notes(note, table(final(nodes)@), i as int, answer_of(reply), now@, query.deadline@),
{
    let ghost t = table(nodes@);
    let ghost node = nodes@[i as int]@;
    let ghost trail = entries(observations@);
    let ghost answer = answer_of(reply);
    proof {
        assert(t =~= t.update(i as int, node));
        assert(trail =~= trail + Seq::<Entry>::empty());
    }
    match reply {
        Err(_) => Note::Retry,
        Ok(None) => {
            if now.is_after(&query.deadline) {
                let name = nodes[i].name.clone();
                nodes[i].state = NodeState::Failed { expected_at };
                observations.push(
                    Observation {
                        kind: ObservationKind::Failed,
                        prediction: name,
                        timestamp: now,
                        log_line: None,
                    },
                );
                assert(table(nodes@) =~= t.update(
                    i as int,
                    NodeView { state: StateView::Failed { expected_at: expected_at@ }, ..node },
                ));
                assert(entries(observations@) =~= trail + answer_trail(
                    node.name,
                    answer,
                    now@,
                    query.deadline@,
                ));
                let critical = is_critical_timeout(nodes, i);
                Note::TimedOut { critical }
            } else {
                Note::Waiting
            }
        },
        Ok(Some(entry)) => {
            let name = nodes[i].name.clone();
            let found = extract_regexp_captures(query.pattern.as_str(), entry.line.as_str());
            captures.extend(&found);
            nodes[i].state = NodeState::Observed {
                at: entry.timestamp,
                line: Some(entry.line.clone()),
            };
            assert(table(nodes@) =~= t.update(
                i as int,
                NodeView {
                    state: StateView::Observed { at: entry.timestamp@, line: Some(entry.line@) },
                    ..node
                },
            ));
            observations.push(
                Observation {
                    kind: ObservationKind::Observed,
                    prediction: name,
                    timestamp: entry.timestamp,
                    log_line: Some(entry.line),
                },
            );
            assert(entries(observations@) =~= trail + answer_trail(
                node.name,
                answer,
                now@,
                query.deadline@,
            ));
            Note::Seen
        },
    }
}

/// A unit is not given up before its search window is over and the slack has
/// passed, nor while a query fails: only where none of the lines matches.
pub proof fn law_no_early_failure(
    at: (int, int),
    timeout_ms: u64,
    slack_ms: u64,
    deadline: (int, int),
    answer: Answer,
    now: (int, int),
)
    requires
        is_instant(at),
        deadline_of(at, timeout_ms, slack_ms) == Some(deadline),
        answered_state(at, answer, now, deadline) is Failed,
    ensures
        answer is Nothing,
        precedes(deadline, now),
        time_after(at, timeout_ms) matches Some(end) && precedes(end, now),
        precedes(at, now),
{
    let end = time_after(at, timeout_ms)->Some_0;
    lemma_moved_is_instant(at, timeout_ms * 1_000_000);
    if timeout_ms > 0 {
        law_moving_on_is_later(at, timeout_ms * 1_000_000);
    }
    if slack_ms > 0 {
        law_moving_on_is_later(end, slack_ms * 1_000_000);
    }
}

/// The search window of a unit begins at the time from which it is looked for and
/// is exactly as long as its timeout, and the deadline lies exactly the slack
/// behind the end of the window. There is a deadline exactly if both are within
/// the time line.
pub proof fn law_window_and_deadline(at: (int, int), timeout_ms: u64, slack_ms: u64)
    ensures
        time_after(at, timeout_ms) == shifted(at, timeout_ms * 1_000_000),
        deadline_of(at, timeout_ms, slack_ms) == (match shifted(at, timeout_ms * 1_000_000) {
            Some(end) => shifted(end, slack_ms * 1_000_000),
            None => None,
        }),
        0 <= at.1 < SECOND ==> {
            &&& time_after(at, timeout_ms) matches Some(end) ==> end.0 * SECOND + end.1 == at.0
                * SECOND + at.1 + timeout_ms * 1_000_000
            &&& deadline_of(at, timeout_ms, slack_ms) matches Some(d) ==> d.0 * SECOND + d.1 == at.0
                * SECOND + at.1 + (timeout_ms + slack_ms) * 1_000_000 && 0 <= d.1 < SECOND
            &&& MIN_SECS <= at.0 ==> (deadline_of(at, timeout_ms, slack_ms) is Some <==> at.0 * SECOND
                + at.1 + (timeout_ms + slack_ms) * 1_000_000 < (MAX_SECS + 1) * SECOND)
        },
{
    if 0 <= at.1 < SECOND {
        law_shifted(at, timeout_ms * 1_000_000);
        if let Some(end) = shifted(at, timeout_ms * 1_000_000) {
            law_shifted(end, slack_ms * 1_000_000);
        }
    }
}

/// A query asks the base query, a space, and the pattern with all captures filled
/// in, over the window that begins where the unit is looked for from.
pub proof fn law_query(
    query: Query,
    pattern: Seq<char>,
    timeout_ms: u64,
    at: (int, int),
    base_query: Seq<char>,
    slack_ms: u64,
    captures: Seq<(Seq<char>, Seq<char>)>,
)
    requires
        asks_for(query, pattern, timeout_ms, at, base_query, slack_ms, captures),
    ensures
        query.pattern@ == resolved(pattern, captures),
        query.text@ == base_query + seq![' '] + resolved(pattern, captures),
        query.start@ == at,
        shifted(at, timeout_ms * 1_000_000) == Some(query.end@),
        shifted(query.end@, slack_ms * 1_000_000) == Some(query.deadline@),
{
    reveal_strlit(" ");
    assert(" "@ =~= seq![' ']);
}

/// Each answer does one thing to a unit. A line that matches is its observation,
/// with the time and the line; no match gives it up exactly past the deadline, and
/// the trail is told so at that time; and anything else leaves it as it is. Only
/// a line that matches adds captures.
pub proof fn law_answers(
    name: Seq<char>,
    at: (int, int),
    now: (int, int),
    deadline: (int, int),
    found: (int, int),
    line: Seq<char>,
    captures: Seq<(Seq<char>, Seq<char>)>,
    pattern: Seq<char>,
)
    ensures
        ({
            let seen = Answer::Found { at: found, line };
            &&& answered_state(at, seen, now, deadline) == (StateView::Observed {
                at: found,
                line: Some(line),
            })
            &&& answer_trail(name, seen, now, deadline).len() == 1
            &&& answer_trail(name, seen, now, deadline)[0] == (Entry {
                kind: ObservationKind::Observed,
                prediction: name,
                timestamp: found,
                log_line: Some(line),
            })
        }),
        deadline.0 < now.0 || (deadline.0 == now.0 && deadline.1 < now.1) ==> {
            &&& answered_state(at, Answer::Nothing, now, deadline) == (StateView::Failed {
                expected_at: at,
            })
            &&& answer_trail(name, Answer::Nothing, now, deadline).len() == 1
            &&& answer_trail(name, Answer::Nothing, now, deadline)[0] == (Entry {
                kind: ObservationKind::Failed,
                prediction: name,
                timestamp: now,
                log_line: None,
            })
        },
        !(deadline.0 < now.0 || (deadline.0 == now.0 && deadline.1 < now.1)) ==> {
            &&& answered_state(at, Answer::Nothing, now, deadline) == (StateView::Expecting { at })
            &&& answer_trail(name, Answer::Nothing, now, deadline).len() == 0
        },
        answered_state(at, Answer::Error, now, deadline) == (StateView::Expecting { at }),
        answer_trail(name, Answer::Error, now, deadline).len() == 0,
        answer_captures(captures, pattern, Answer::Nothing) == captures,
        answer_captures(captures, pattern, Answer::Error) == captures,
{
}

/// A line that matches adds, under each name, what the expressions of the query
/// capture from it; every other name keeps its value.
pub proof fn law_answer_captures(
    captures: Seq<(Seq<char>, Seq<char>)>,
    pattern: Seq<char>,
    at: (int, int),
    line: Seq<char>,
    name: Seq<char>,
)
    requires
        distinct_names(captures),
    ensures
        captured(answer_captures(captures, pattern, Answer::Found { at, line }), name) == (
        match captured(regexps_captures(regexps_of(pattern), line), name) {
            Some(value) => Some(value),
            None => captured(captures, name),
        }),
        distinct_names(answer_captures(captures, pattern, Answer::Found { at, line })),
{
    let new = regexps_captures(regexps_of(pattern), line);
    law_every_expression_captures(regexps_of(pattern), Seq::empty(), line, name);
    lemma_last_is_captured(new, name);
    law_captures_recall(captures, new, name);
}

/// A unit that is given up was looked for longer than its timeout and the slack
/// together.
pub proof fn law_given_up_past_the_slack(
    at: (int, int),
    timeout_ms: u64,
    slack_ms: u64,
    deadline: (int, int),
    answer: Answer,
    now: (int, int),
)
    requires
        0 <= at.1 < SECOND,
        0 <= now.1 < SECOND,
        deadline_of(at, timeout_ms, slack_ms) == Some(deadline),
    ensures
        answered_state(at, answer, now, deadline) is Failed <==> answer is Nothing && (now.0 - at.0)
            * SECOND + now.1 - at.1 > (timeout_ms + slack_ms) * 1_000_000,
{
    law_window_and_deadline(at, timeout_ms, slack_ms);
    law_answers(Seq::empty(), at, now, deadline, at, Seq::empty(), Seq::empty(), Seq::empty());
}

/// The reply that is taken is the one that came: an error, nothing, or the entry
/// with its time and its line.
pub proof fn law_answer_of(reply: Result<Option<LogEntry>, LokiError>)
    ensures
        match reply {
            Err(_) => answer_of(reply) is Error,
            Ok(None) => answer_of(reply) is Nothing,
            Ok(Some(entry)) => answer_of(reply) == (Answer::Found {
                at: entry.timestamp@,
                line: entry.line@,
            }),
        },
{
}

/// A failure is critical unless it is that of one of several alternatives of which
/// another has not failed.
pub proof fn law_critical(t: Seq<NodeView>, i: int)
    ensures
        !is_critical(t, i) <==> t[i].parent is Some && t[t[i].parent->Some_0].kind is Any && exists|
            j: int,
        |
            0 <= j < t[t[i].parent->Some_0].kind->Any_children.len()
                && #[trigger] t[t[i].parent->Some_0].kind->Any_children[j] != i
                && !(t[t[t[i].parent->Some_0].kind->Any_children[j]].state is Failed),
{
}

/// A note tells what an answer did: a failed query is asked again, a line that
/// matches is an observation, and no match is waited on up to the deadline and a
/// timeout past it.
pub proof fn law_notes(
    note: Note,
    t: Seq<NodeView>,
    i: int,
    answer: Answer,
    now: (int, int),
    deadline: (int, int),
)
    requires
        notes(note, t, i, answer, now, deadline),
    ensures
        answer is Error <==> note is Retry,
        answer is Found <==> note is Seen,
        answer is Nothing ==> if deadline.0 < now.0 || (deadline.0 == now.0 && deadline.1 < now.1) {
            note == (Note::TimedOut { critical: is_critical(t, i) })
        } else {
            note is Waiting
        },
{
}

} // verus!
