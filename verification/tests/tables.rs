//! Tables of predictions: how they are laid out, staged and settled.

use francis::captures::CaptureStore;
use francis::hypothesis::{GroupPrediction, PredictionDef, UnitPrediction};
use francis::loki::{LogEntry, LokiError};
use francis::observation::{Observation, ObservationKind};
use francis::polling::{is_critical_timeout, plan_query, take_answer, Note};
use francis::runner::find_failed_unit;
use francis::settling::{conclude, group_outcome, propagation_pass, Outcome};
use francis::staging::{
    expect_node, expecting_pass, has_reference_times, node_named, resolve_ref_time,
};
use francis::time::{Timestamp, MAX_SECS};
use francis::tree::{node_table, Node, NodeKind, NodeState};

fn at(secs: i64) -> Timestamp {
    Timestamp::new(secs, 0).unwrap()
}

fn unit(binding: Option<&str>, after: Option<&str>) -> PredictionDef {
    PredictionDef::Unit(UnitPrediction {
        binding: binding.map(str::to_owned),
        pattern: "|= \"x\"".to_owned(),
        after: after.map(str::to_owned),
        timeout_ms: 1_500,
    })
}

fn group(binding: Option<&str>, predictions: Vec<PredictionDef>) -> GroupPrediction {
    GroupPrediction { binding: binding.map(str::to_owned), after: None, predictions }
}

/// `root: All [ a, inner: Any [ b, (c) ], d after a ]`
fn sample() -> Vec<Node> {
    node_table(&PredictionDef::All(group(
        Some("root"),
        vec![
            unit(Some("a"), None),
            PredictionDef::Any(group(None, vec![unit(Some("b"), None), unit(None, None)])),
            unit(Some("d"), Some("a")),
        ],
    )))
}

fn children(node: &Node) -> Vec<usize> {
    match &node.kind {
        NodeKind::Unit { .. } => vec![],
        NodeKind::All { children, .. } => children.clone(),
        NodeKind::Any { children, .. } => children.clone(),
    }
}

fn since(node: &Node) -> Option<Timestamp> {
    match &node.state {
        NodeState::Expecting { at } => Some(*at),
        _ => None,
    }
}

fn seen(secs: i64) -> NodeState {
    NodeState::Observed { at: at(secs), line: Some(format!("line {}", secs)) }
}

fn lost(secs: i64) -> NodeState {
    NodeState::Failed { expected_at: at(secs) }
}

#[test]
fn layout_of_a_table() {
    let nodes = sample();
    let names: Vec<&str> = nodes.iter().map(|n| n.name.as_str()).collect();
    assert_eq!(names, vec!["root", "a", "_anon_1", "b", "_anon_2", "d"]);
    let parents: Vec<Option<usize>> = nodes.iter().map(|n| n.parent).collect();
    assert_eq!(parents, vec![None, Some(0), Some(0), Some(2), Some(2), Some(0)]);
    assert_eq!(children(&nodes[0]), vec![1, 2, 5]);
    assert_eq!(children(&nodes[2]), vec![3, 4]);
    assert!(nodes.iter().all(|n| matches!(n.state, NodeState::Pending)));
    assert!(!nodes[0].state.is_terminal());
    assert!(seen(1).is_terminal() && lost(1).is_terminal());
    assert!(!NodeState::Expecting { at: at(1) }.is_terminal());
    match &nodes[5].kind {
        NodeKind::Unit { pattern, after, timeout_ms } => {
            assert_eq!(pattern, "|= \"x\"");
            assert_eq!(after.as_deref(), Some("a"));
            assert_eq!(*timeout_ms, 1_500);
        }
        _ => panic!("not a unit"),
    }
}

#[test]
fn names_refer_to_the_last_node() {
    let mut nodes = sample();
    assert_eq!(node_named(&nodes, &"b".to_owned()), Some(3));
    assert_eq!(node_named(&nodes, &"z".to_owned()), None);
    nodes[5].name = "b".to_owned();
    assert_eq!(node_named(&nodes, &"b".to_owned()), Some(5));
}

#[test]
fn reference_times() {
    let mut nodes = sample();
    assert_eq!(resolve_ref_time(&nodes[1], &nodes, at(7)), Some(at(7)));
    assert_eq!(resolve_ref_time(&nodes[5], &nodes, at(7)), None);
    nodes[1].state = NodeState::Expecting { at: at(8) };
    assert_eq!(resolve_ref_time(&nodes[5], &nodes, at(7)), None);
    nodes[1].state = lost(8);
    assert_eq!(resolve_ref_time(&nodes[5], &nodes, at(7)), None);
    nodes[1].state = seen(9);
    assert_eq!(resolve_ref_time(&nodes[5], &nodes, at(7)), Timestamp::new(9, 1));
    nodes[1].name = "other".to_owned();
    assert_eq!(resolve_ref_time(&nodes[5], &nodes, at(7)), None);
}

#[test]
fn staging_a_table() {
    let mut nodes = sample();
    let mut trail: Vec<Observation> = Vec::new();
    expecting_pass(&mut nodes, &mut trail);
    assert!(trail.is_empty());

    expect_node(&mut nodes, 0, at(3), &mut trail);
    expect_node(&mut nodes, 0, at(4), &mut trail);
    assert_eq!(since(&nodes[0]), Some(at(3)));
    assert_eq!(trail.len(), 1);

    expecting_pass(&mut nodes, &mut trail);
    let staged: Vec<Option<Timestamp>> = nodes.iter().map(since).collect();
    assert_eq!(
        staged,
        vec![Some(at(3)), Some(at(3)), Some(at(3)), Some(at(3)), Some(at(3)), None]
    );
    let order: Vec<&str> = trail.iter().map(|o| o.prediction.as_str()).collect();
    assert_eq!(order, vec!["root", "a", "_anon_1", "b", "_anon_2"]);

    expecting_pass(&mut nodes, &mut trail);
    assert_eq!(trail.len(), 5);

    nodes[1].state = seen(6);
    expecting_pass(&mut nodes, &mut trail);
    assert_eq!(since(&nodes[5]), Timestamp::new(6, 1));
    assert_eq!(trail.len(), 6);
    assert_eq!(trail[5].timestamp, Timestamp::new(6, 1).unwrap());
    assert_eq!(trail[5].kind, ObservationKind::Expecting);
}

#[test]
fn children_of_a_decided_group_are_not_staged() {
    let mut nodes = sample();
    nodes[0].state = NodeState::Expecting { at: at(1) };
    nodes[2].state = lost(1);
    let mut trail: Vec<Observation> = Vec::new();
    expecting_pass(&mut nodes, &mut trail);
    assert!(matches!(nodes[3].state, NodeState::Pending));
    assert_eq!(trail.len(), 1);
}

#[test]
fn outcomes_of_groups() {
    let mut nodes = sample();
    assert!(matches!(group_outcome(&nodes, 1), Outcome::Open));
    assert!(matches!(group_outcome(&nodes, 0), Outcome::Open));

    nodes[1].state = seen(5);
    nodes[2].state = seen(9);
    nodes[5].state = seen(7);
    match group_outcome(&nodes, 0) {
        Outcome::Seen { at: last, line } => {
            assert_eq!(last, at(9));
            assert_eq!(line, None);
        }
        _ => panic!("undecided"),
    }
    nodes[5].state = lost(7);
    assert!(matches!(group_outcome(&nodes, 0), Outcome::Lost));

    nodes[3].state = lost(1);
    assert!(matches!(group_outcome(&nodes, 2), Outcome::Open));
    nodes[4].state = seen(4);
    match group_outcome(&nodes, 2) {
        Outcome::Seen { at: first, line } => {
            assert_eq!(first, at(4));
            assert_eq!(line.as_deref(), Some("line 4"));
        }
        _ => panic!("undecided"),
    }
    nodes[3].state = seen(8);
    match group_outcome(&nodes, 2) {
        Outcome::Seen { at: first, .. } => assert_eq!(first, at(8)),
        _ => panic!("undecided"),
    }
    nodes[3].state = lost(1);
    nodes[4].state = lost(1);
    assert!(matches!(group_outcome(&nodes, 2), Outcome::Lost));
}

#[test]
fn concluding_a_node() {
    let mut nodes = sample();
    let mut trail: Vec<Observation> = Vec::new();
    conclude(&mut nodes, 2, Outcome::Open, at(1), at(2), &mut trail);
    assert!(trail.is_empty() && matches!(nodes[2].state, NodeState::Pending));
    let outcome = Outcome::Seen { at: at(3), line: Some("l".to_owned()) };
    conclude(&mut nodes, 2, outcome, at(1), at(2), &mut trail);
    assert!(matches!(&nodes[2].state, NodeState::Observed { line: Some(l), .. } if l == "l"));
    assert_eq!(trail[0].kind, ObservationKind::Observed);
    assert_eq!(trail[0].timestamp, at(3));
    assert_eq!(trail[0].log_line, None);
    conclude(&mut nodes, 0, Outcome::Lost, at(1), at(2), &mut trail);
    assert!(matches!(nodes[0].state, NodeState::Failed { expected_at } if expected_at == at(1)));
    assert_eq!(trail[1].kind, ObservationKind::Failed);
    assert_eq!(trail[1].timestamp, at(2));
    assert_eq!(trail[1].prediction, "root");
}

#[test]
fn settling_a_table() {
    let mut nodes = sample();
    let mut trail: Vec<Observation> = Vec::new();
    nodes[0].state = NodeState::Expecting { at: at(1) };
    nodes[2].state = NodeState::Expecting { at: at(1) };
    nodes[1].state = seen(2);
    nodes[3].state = seen(3);
    nodes[5].state = seen(4);
    propagation_pass(&mut nodes, &mut trail);
    assert!(matches!(nodes[2].state, NodeState::Observed { at: t, .. } if t == at(3)));
    assert!(matches!(nodes[0].state, NodeState::Observed { at: t, line: None } if t == at(4)));
    let order: Vec<&str> = trail.iter().map(|o| o.prediction.as_str()).collect();
    assert_eq!(order, vec!["_anon_1", "root"]);

    propagation_pass(&mut nodes, &mut trail);
    assert_eq!(trail.len(), 2);
}

#[test]
fn settling_dates_failures_by_the_clock() {
    let mut nodes = sample();
    let mut trail: Vec<Observation> = Vec::new();
    nodes[0].state = NodeState::Expecting { at: at(1) };
    nodes[2].state = NodeState::Expecting { at: at(1) };
    nodes[3].state = lost(1);
    nodes[4].state = lost(1);
    let before = Timestamp::now();
    propagation_pass(&mut nodes, &mut trail);
    let after = Timestamp::now();
    assert!(matches!(nodes[0].state, NodeState::Failed { expected_at } if expected_at == at(1)));
    assert_eq!(trail.len(), 2);
    for entry in &trail {
        assert_eq!(entry.kind, ObservationKind::Failed);
        assert!(!before.is_after(&entry.timestamp) && !entry.timestamp.is_after(&after));
    }
}

#[test]
fn pending_groups_are_not_settled() {
    let mut nodes = sample();
    let mut trail: Vec<Observation> = Vec::new();
    nodes[3].state = seen(3);
    propagation_pass(&mut nodes, &mut trail);
    assert!(matches!(nodes[2].state, NodeState::Pending));
    assert!(trail.is_empty());
}

#[test]
fn critical_failures() {
    let mut nodes = sample();
    assert!(is_critical_timeout(&nodes, 0));
    assert!(is_critical_timeout(&nodes, 1));
    assert!(!is_critical_timeout(&nodes, 3));
    nodes[4].state = lost(1);
    assert!(is_critical_timeout(&nodes, 3));
    assert!(!is_critical_timeout(&nodes, 4));
}

#[test]
fn the_unit_to_blame() {
    let mut nodes = sample();
    nodes[0].state = lost(1);
    let (name, pattern, start, end) = find_failed_unit(&nodes);
    assert_eq!((name.as_str(), pattern.as_str()), ("root", ""));
    assert_eq!(start, end);

    nodes[5].state = lost(20);
    nodes[3].state = lost(10);
    let (name, pattern, start, end) = find_failed_unit(&nodes);
    assert_eq!((name.as_str(), pattern.as_str()), ("b", "|= \"x\""));
    assert_eq!(start, at(10));
    assert_eq!(end, Timestamp::new(11, 500_000_000).unwrap());
}

#[test]
fn answers_to_a_query() {
    let mut nodes = sample();
    nodes[1].state = NodeState::Expecting { at: at(10) };
    let mut captures = CaptureStore::new();
    captures.insert("v".to_owned(), "w".to_owned());
    let mut trail: Vec<Observation> = Vec::new();
    let pattern = "|= \"${v}\" | regexp \"n=(?P<n>[0-9]+)\"";
    let query = plan_query(pattern, 1_500, &at(10), "{}", 500, &captures).unwrap();
    assert_eq!(query.text, "{} |= \"w\" | regexp \"n=(?P<n>[0-9]+)\"");
    assert_eq!(query.end, Timestamp::new(11, 500_000_000).unwrap());
    assert_eq!(query.deadline, at(12));

    let reply = Err(LokiError::BadResponse);
    let note =
        take_answer(&mut nodes, 1, at(10), &query, at(99), reply, &mut captures, &mut trail);
    assert!(matches!(note, Note::Retry) && trail.is_empty());
    assert_eq!(since(&nodes[1]), Some(at(10)));

    let note =
        take_answer(&mut nodes, 1, at(10), &query, at(12), Ok(None), &mut captures, &mut trail);
    assert!(matches!(note, Note::Waiting) && trail.is_empty());
    assert_eq!(since(&nodes[1]), Some(at(10)));

    let entry = LogEntry { timestamp: at(11), line: "w n=42".to_owned() };
    let reply = Ok(Some(entry));
    let note =
        take_answer(&mut nodes, 1, at(10), &query, at(12), reply, &mut captures, &mut trail);
    assert!(matches!(note, Note::Seen));
    assert!(matches!(&nodes[1].state,
        NodeState::Observed { at: t, line: Some(l) } if *t == at(11) && l == "w n=42"));
    assert_eq!(captures.get(&"n".to_owned()).as_deref(), Some("42"));
    assert_eq!(trail.len(), 1);
    assert_eq!(trail[0].log_line.as_deref(), Some("w n=42"));

    nodes[3].state = NodeState::Expecting { at: at(10) };
    let late = Timestamp::new(12, 1).unwrap();
    let note = take_answer(&mut nodes, 3, at(10), &query, late, Ok(None), &mut captures, &mut trail);
    assert!(matches!(note, Note::TimedOut { critical: false }));
    assert!(matches!(nodes[3].state, NodeState::Failed { expected_at } if expected_at == at(10)));
    assert_eq!(trail[1].kind, ObservationKind::Failed);
    assert_eq!(trail[1].timestamp, late);
}

#[test]
fn queries_that_leave_the_time_line() {
    let captures = CaptureStore::new();
    assert!(plan_query("p", 1 << 63, &at(0), "q", 0, &captures).is_none());
    assert!(plan_query("p", 0, &at(0), "q", i64::MAX as u64, &captures).is_none());
    assert!(plan_query("p", 0, &at(0), "q", 0, &captures).is_some());
}

#[test]
fn reference_times_at_the_end_of_the_time_line() {
    let last = Timestamp::new(MAX_SECS, 999_999_999).unwrap();
    let mut nodes = sample();
    nodes[1].state = NodeState::Observed { at: last, line: None };
    assert!(has_reference_times(&nodes));
    nodes[0].state = NodeState::Expecting { at: at(1) };
    assert!(!has_reference_times(&nodes));
    nodes[5].state = lost(1);
    assert!(has_reference_times(&nodes));
    nodes[5].state = NodeState::Pending;
    nodes[0].state = lost(1);
    assert!(has_reference_times(&nodes));
    nodes[0].state = NodeState::Expecting { at: at(1) };
    nodes[1].state = seen(2);
    nodes[3].state = NodeState::Observed { at: last, line: None };
    assert!(has_reference_times(&nodes));
}
