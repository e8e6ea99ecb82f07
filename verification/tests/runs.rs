//! Whole runs, against answers that the tests make up.

use francis::hypothesis::{
    default_ingestion_slack, default_poll_interval, GroupPrediction, LokiSource, PredictionDef,
    RunConfig, UnitPrediction,
};
use francis::loki::{LogEntry, LokiError};
use francis::observation::{Observation, RunResult};
use francis::polling::{Note, Query};
use francis::runner::{Runner, Step};
use francis::time::{Timestamp, MAX_SECS};

const NOON: i64 = 1_704_110_400;

fn noon(millis: i64) -> Timestamp {
    Timestamp::new(NOON, 0).unwrap().plus_millis(millis).unwrap()
}

fn unit(binding: &str, pattern: &str, after: Option<&str>, timeout_ms: u64) -> PredictionDef {
    PredictionDef::Unit(UnitPrediction {
        binding: Some(binding.to_owned()),
        pattern: pattern.to_owned(),
        after: after.map(str::to_owned),
        timeout_ms,
    })
}

fn group(binding: &str, after: Option<&str>, predictions: Vec<PredictionDef>) -> GroupPrediction {
    GroupPrediction {
        binding: Some(binding.to_owned()),
        after: after.map(str::to_owned),
        predictions,
    }
}

fn config(hypothesis: PredictionDef) -> RunConfig {
    RunConfig {
        source: LokiSource {
            url: "http://localhost:3100".to_owned(),
            base_query: "{service_name=\"my-service\"}".to_owned(),
        },
        poll_interval_ms: default_poll_interval(),
        ingestion_slack_ms: default_ingestion_slack(),
        hypothesis,
    }
}

type Reply = Result<Option<LogEntry>, LokiError>;

fn found(millis: i64, line: &str) -> Reply {
    Ok(Some(LogEntry { timestamp: noon(millis), line: line.to_owned() }))
}

/// The queries of one poll, by prediction, and where it led.
struct Poll {
    asked: Vec<(String, Query)>,
    notes: Vec<Note>,
    end: End,
}

enum End {
    Rest(Runner),
    Done(RunResult),
    Beyond,
}

fn copy(query: &Query) -> Query {
    Query {
        pattern: query.pattern.clone(),
        text: query.text.clone(),
        start: query.start,
        end: query.end,
        deadline: query.deadline,
    }
}

/// Polls once at the given time, with `reply` answering every query.
fn poll(runner: Runner, now: Timestamp, reply: &dyn Fn(&str) -> Reply) -> Poll {
    let mut asked = Vec::new();
    let mut notes = Vec::new();
    let mut step = runner.wake(now);
    loop {
        match step {
            Step::Ask(asking) => {
                let name = asking.prediction();
                asked.push((name.clone(), copy(asking.query())));
                let (note, next) = asking.answer(reply(&name));
                notes.push(note);
                step = next;
            }
            Step::Rest(runner) => return Poll { asked, notes, end: End::Rest(runner) },
            Step::Done(result) => return Poll { asked, notes, end: End::Done(result) },
            Step::Beyond => return Poll { asked, notes, end: End::Beyond },
        }
    }
}

fn rest(poll: Poll) -> Runner {
    match poll.end {
        End::Rest(runner) => runner,
        _ => panic!("the run is over"),
    }
}

fn done(poll: Poll) -> RunResult {
    match poll.end {
        End::Done(result) => result,
        _ => panic!("the run goes on"),
    }
}

fn names(poll: &Poll) -> Vec<&str> {
    poll.asked.iter().map(|(name, _)| name.as_str()).collect()
}

fn observations(result: &RunResult) -> &Vec<Observation> {
    match result {
        RunResult::Pass(audit) => &audit.observations,
        RunResult::Fail(report) => &report.audit.observations,
    }
}

/// Trail entries without their times: what happened, to which prediction.
fn events(result: &RunResult) -> Vec<String> {
    observations(result).iter().map(|o| format!("{} {}", o.kind.label(), o.prediction)).collect()
}

/// The example of a server that starts and then is ready or reports an error.
fn startup() -> PredictionDef {
    PredictionDef::All(group(
        "root",
        None,
        vec![
            unit("started", "|= \"server started\"", None, 60_000),
            PredictionDef::Any(group(
                "outcome",
                Some("started"),
                vec![
                    unit("ready", "|= \"ready\"", None, 30_000),
                    unit("error", "|= \"startup error\"", None, 30_000),
                ],
            )),
        ],
    ))
}

#[test]
fn a_run_that_passes() {
    let runner = Runner::new(&config(startup()), noon(0));
    assert_eq!(runner.poll_interval_ms(), 500);

    let first = poll(runner, noon(2_000), &|_| found(1_234, "server started"));
    assert_eq!(names(&first), vec!["started"]);
    let (_, query) = &first.asked[0];
    assert_eq!(query.text, "{service_name=\"my-service\"} |= \"server started\"");
    assert_eq!(query.pattern, "|= \"server started\"");
    assert_eq!(query.start, noon(0));
    assert_eq!(query.end, noon(60_000));
    assert_eq!(query.deadline, noon(65_000));
    assert!(matches!(first.notes[0], Note::Seen));

    let second = poll(rest(first), noon(2_500), &|name| {
        if name == "error" {
            found(2_000, "startup error: disk")
        } else {
            Ok(None)
        }
    });
    assert_eq!(names(&second), vec!["ready", "error"]);
    for (_, query) in &second.asked {
        assert_eq!(query.start, noon(1_234).next().unwrap());
        assert_eq!(query.end, noon(31_234).next().unwrap());
        assert_eq!(query.deadline, noon(36_234).next().unwrap());
    }
    assert!(matches!(second.notes[0], Note::Waiting));

    let result = done(second);
    assert!(matches!(result, RunResult::Pass(_)));
    assert_eq!(
        events(&result),
        vec![
            "Expecting root",
            "Expecting started",
            "Observed started",
            "Expecting outcome",
            "Expecting ready",
            "Expecting error",
            "Observed error",
            "Observed outcome",
            "Observed root",
        ]
    );
    let trail = observations(&result);
    assert_eq!(trail[0].timestamp, noon(0));
    assert_eq!(trail[2].timestamp, noon(1_234));
    assert_eq!(trail[2].log_line.as_deref(), Some("server started"));
    assert_eq!(trail[3].timestamp, noon(1_234).next().unwrap());
    assert_eq!(trail[6].log_line.as_deref(), Some("startup error: disk"));
    assert_eq!(trail[7].timestamp, noon(2_000));
    assert_eq!(trail[7].log_line, None);
    assert_eq!(trail[8].timestamp, noon(2_000));
    assert_eq!(result.exit_code(), 0);
}

#[test]
fn a_run_that_fails() {
    let runner = Runner::new(&config(startup()), noon(0));
    let at_deadline = poll(runner, noon(65_000), &|_| Ok(None));
    assert!(matches!(at_deadline.notes[0], Note::Waiting));

    let late = poll(rest(at_deadline), noon(65_001), &|_| Ok(None));
    assert!(matches!(late.notes[0], Note::TimedOut { critical: true }));
    let result = done(late);
    assert_eq!(
        events(&result),
        vec!["Expecting root", "Expecting started", "FAILED started", "FAILED root"]
    );
    assert_eq!(observations(&result)[2].timestamp, noon(65_001));
    match &result {
        RunResult::Fail(report) => {
            assert_eq!(report.failed_prediction, "started");
            assert_eq!(report.pattern, "|= \"server started\"");
            assert_eq!(report.search_start, noon(0));
            assert_eq!(report.search_end, noon(60_000));
        }
        RunResult::Pass(_) => panic!("passed"),
    }
    assert_eq!(result.exit_code(), 1);
}

#[test]
fn alternatives_that_time_out() {
    let hypothesis = PredictionDef::Any(group(
        "root",
        None,
        vec![unit("a", "|= \"a\"", None, 1_000), unit("b", "|= \"b\"", None, 2_000)],
    ));
    let runner = Runner::new(&config(hypothesis), noon(0));
    let first = poll(runner, noon(6_500), &|_| Ok(None));
    assert!(matches!(first.notes[0], Note::TimedOut { critical: false }));
    assert!(matches!(first.notes[1], Note::Waiting));
    let second = poll(rest(first), noon(7_001), &|_| Ok(None));
    assert_eq!(names(&second), vec!["b"]);
    assert!(matches!(second.notes[0], Note::TimedOut { critical: true }));
    let result = done(second);
    assert_eq!(
        events(&result),
        vec![
            "Expecting root",
            "Expecting a",
            "Expecting b",
            "FAILED a",
            "FAILED b",
            "FAILED root",
        ]
    );
    match &result {
        RunResult::Fail(report) => assert_eq!(report.failed_prediction, "a"),
        RunResult::Pass(_) => panic!("passed"),
    }
}

#[test]
fn one_alternative_is_enough() {
    let hypothesis = PredictionDef::Any(group(
        "root",
        None,
        vec![unit("a", "|= \"a\"", None, 1_000), unit("b", "|= \"b\"", None, 1_000)],
    ));
    let runner = Runner::new(&config(hypothesis), noon(0));
    let only = poll(runner, noon(100), &|name| {
        if name == "a" {
            found(90, "line a")
        } else {
            found(10, "line b")
        }
    });
    let result = done(only);
    assert!(matches!(result, RunResult::Pass(_)));
    let trail = observations(&result);
    assert_eq!(trail.len(), 6);
    assert_eq!(trail[5].prediction, "root");
    assert_eq!(trail[5].timestamp, noon(90));
}

#[test]
fn an_all_group_is_observed_with_its_last_child() {
    let hypothesis = PredictionDef::All(group(
        "root",
        None,
        vec![
            unit("a", "|= \"a\"", None, 1_000),
            unit("b", "|= \"b\"", None, 1_000),
            unit("c", "|= \"c\"", None, 1_000),
        ],
    ));
    let runner = Runner::new(&config(hypothesis), noon(0));
    let only = poll(runner, noon(100), &|name| match name {
        "a" => found(20, "line a"),
        "b" => found(70, "line b"),
        _ => found(30, "line c"),
    });
    let result = done(only);
    let trail = observations(&result);
    assert_eq!(trail[7].prediction, "root");
    assert_eq!(trail[7].timestamp, noon(70));
}

#[test]
fn errors_decide_nothing() {
    let hypothesis = unit("a", "|= \"a\"", None, 1_000);
    let runner = Runner::new(&config(hypothesis), noon(0));
    let failed = poll(runner, noon(100_000), &|_| Err(LokiError::BadResponse));
    assert!(matches!(failed.notes[0], Note::Retry));
    let again = poll(rest(failed), noon(100_500), &|_| found(500, "line a"));
    let result = done(again);
    assert!(matches!(result, RunResult::Pass(_)));
    assert_eq!(events(&result), vec!["Expecting a", "Observed a"]);
}

#[test]
fn captures_reach_later_queries() {
    let hypothesis = PredictionDef::All(group(
        "root",
        None,
        vec![
            unit(
                "conn_accepted",
                "|= \"connection accepted\" | regexp \"conn_id=(?P<conn_id>[a-f0-9-]+)\"",
                None,
                120_000,
            ),
            unit(
                "first_request",
                "|= \"request received\" |= \"${conn_id}\"",
                Some("conn_accepted"),
                30_000,
            ),
        ],
    ));
    let runner = Runner::new(&config(hypothesis), noon(0));
    let first = poll(runner, noon(1_000), &|_| found(700, "connection accepted conn_id=ab-12"));
    assert_eq!(names(&first), vec!["conn_accepted"]);
    let second = poll(rest(first), noon(1_500), &|_| found(900, "request received ab-12"));
    assert_eq!(names(&second), vec!["first_request"]);
    assert_eq!(
        second.asked[0].1.text,
        "{service_name=\"my-service\"} |= \"request received\" |= \"ab-12\""
    );
    assert!(matches!(done(second), RunResult::Pass(_)));
}

#[test]
fn captures_are_used_within_the_same_poll() {
    let hypothesis = PredictionDef::All(group(
        "root",
        None,
        vec![
            unit("a", "| regexp \"(?P<n>[0-9]+)\"", None, 1_000),
            unit("b", "|= \"${n}\"", None, 1_000),
        ],
    ));
    let runner = Runner::new(&config(hypothesis), noon(0));
    let only = poll(runner, noon(10), &|name| {
        if name == "a" {
            found(5, "port 8080 open")
        } else {
            Ok(None)
        }
    });
    assert_eq!(only.asked[1].1.pattern, "|= \"8080\"");
}

#[test]
fn nested_groups_are_staged_at_once() {
    let hypothesis = PredictionDef::All(group(
        "root",
        None,
        vec![PredictionDef::All(group(
            "outer",
            None,
            vec![PredictionDef::Any(group("inner", None, vec![unit("a", "|= \"a\"", None, 1_000)]))],
        ))],
    ));
    let runner = Runner::new(&config(hypothesis), noon(0));
    let only = poll(runner, noon(10), &|_| found(5, "line a"));
    assert_eq!(names(&only), vec!["a"]);
    assert_eq!(
        events(&done(only)),
        vec![
            "Expecting root",
            "Expecting outer",
            "Expecting inner",
            "Expecting a",
            "Observed a",
            "Observed inner",
            "Observed outer",
            "Observed root",
        ]
    );
}

#[test]
fn waiting_for_a_group() {
    let hypothesis = PredictionDef::All(group(
        "root",
        None,
        vec![
            PredictionDef::All(group(
                "boot",
                None,
                vec![unit("a", "|= \"a\"", None, 1_000), unit("b", "|= \"b\"", None, 1_000)],
            )),
            unit("c", "|= \"c\"", Some("boot"), 1_000),
        ],
    ));
    let runner = Runner::new(&config(hypothesis), noon(0));
    let first = poll(runner, noon(10), &|name| if name == "a" { found(3, "a") } else { Ok(None) });
    assert_eq!(names(&first), vec!["a", "b"]);
    let second = poll(rest(first), noon(20), &|_| found(8, "b"));
    assert_eq!(names(&second), vec!["b"]);
    let third = poll(rest(second), noon(30), &|_| found(9, "c"));
    assert_eq!(names(&third), vec!["c"]);
    assert_eq!(third.asked[0].1.start, noon(8).next().unwrap());
    assert!(matches!(done(third), RunResult::Pass(_)));
}

#[test]
fn predictions_without_a_binding_get_a_name() {
    let mut first = unit("x", "|= \"a\"", None, 1_000);
    if let PredictionDef::Unit(u) = &mut first {
        u.binding = None;
    }
    let hypothesis = PredictionDef::All(GroupPrediction {
        binding: None,
        after: None,
        predictions: vec![unit("named", "|= \"n\"", None, 1_000), first],
    });
    let runner = Runner::new(&config(hypothesis), noon(0));
    let only = poll(runner, noon(10), &|_| found(5, "line"));
    assert_eq!(names(&only), vec!["named", "_anon_2"]);
    assert_eq!(events(&done(only))[0], "Expecting _anon_1");
}

#[test]
fn what_waits_for_a_failed_prediction_is_never_asked_for() {
    let hypothesis = PredictionDef::Any(group(
        "root",
        None,
        vec![
            unit("a", "|= \"a\"", None, 1_000),
            unit("b", "|= \"b\"", Some("a"), 1_000),
            unit("c", "|= \"c\"", None, 60_000),
        ],
    ));
    let runner = Runner::new(&config(hypothesis), noon(0));
    let first = poll(runner, noon(20_000), &|_| Ok(None));
    assert_eq!(names(&first), vec!["a", "c"]);
    let second = poll(rest(first), noon(21_000), &|_| Ok(None));
    assert_eq!(names(&second), vec!["c"]);
}

#[test]
fn an_empty_choice_fails_at_once() {
    let hypothesis = PredictionDef::Any(group("root", None, vec![]));
    let runner = Runner::new(&config(hypothesis), noon(0));
    let only = poll(runner, noon(10), &|_| Ok(None));
    assert!(only.asked.is_empty());
    match done(only) {
        RunResult::Fail(report) => {
            assert_eq!(report.failed_prediction, "root");
            assert_eq!(report.pattern, "");
            assert_eq!(report.search_start, report.search_end);
            assert_eq!(report.audit.observations.len(), 2);
        }
        RunResult::Pass(_) => panic!("passed"),
    }
}

#[test]
fn windows_beyond_the_time_line() {
    let late = Timestamp::new(MAX_SECS, 0).unwrap();
    let runner = Runner::new(&config(unit("a", "|= \"a\"", None, 1_000)), late);
    assert!(matches!(poll(runner, noon(0), &|_| Ok(None)).end, End::Beyond));

    for timeout_ms in [1 << 63, u64::MAX] {
        let runner = Runner::new(&config(unit("a", "|= \"a\"", None, timeout_ms)), noon(0));
        assert!(matches!(poll(runner, noon(0), &|_| Ok(None)).end, End::Beyond));
    }

    let mut slow = config(unit("a", "|= \"a\"", None, 1_000));
    slow.ingestion_slack_ms = 1 << 63;
    let runner = Runner::new(&slow, noon(0));
    assert!(matches!(poll(runner, noon(0), &|_| Ok(None)).end, End::Beyond));

    let runner = Runner::new(&config(unit("a", "|= \"a\"", None, 1_000)), noon(0));
    let later = Timestamp::new(MAX_SECS, 0).unwrap();
    let result = done(poll(runner, later, &|_| Ok(None)));
    assert!(matches!(result, RunResult::Fail(_)));
}

/// A tree of groups and units, with the verdict that it deserves.
struct Sample {
    def: PredictionDef,
    satisfied: bool,
    found: Vec<String>,
}

fn random_tree(random: &mut dyn FnMut() -> u64, depth: u32, count: &mut usize) -> Sample {
    *count += 1;
    let name = format!("n{}", count);
    if depth == 0 || random() % 3 == 0 {
        let satisfied = random() % 2 == 0;
        let found = if satisfied { vec![name.clone()] } else { vec![] };
        return Sample { def: unit(&name, "|= \"x\"", None, 1_000), satisfied, found };
    }
    let is_all = random() % 2 == 0;
    let mut predictions = Vec::new();
    let mut found = Vec::new();
    let mut verdicts = Vec::new();
    for _ in 0..1 + random() % 3 {
        let child = random_tree(random, depth - 1, count);
        predictions.push(child.def);
        found.extend(child.found);
        verdicts.push(child.satisfied);
    }
    if is_all {
        Sample {
            def: PredictionDef::All(group(&name, None, predictions)),
            satisfied: verdicts.iter().all(|v| *v),
            found,
        }
    } else {
        Sample {
            def: PredictionDef::Any(group(&name, None, predictions)),
            satisfied: verdicts.iter().any(|v| *v),
            found,
        }
    }
}

#[test]
fn verdicts_follow_from_the_units() {
    let mut seed: u64 = 88_172_645_463_325_252;
    let mut random = move || {
        seed ^= seed << 13;
        seed ^= seed >> 7;
        seed ^= seed << 17;
        seed
    };
    for _ in 0..500 {
        let mut count: usize = 0;
        let sample = random_tree(&mut random, 4, &mut count);
        let found_names = sample.found;
        let runner = Runner::new(&config(sample.def), noon(0));
        let only = poll(runner, noon(10_000), &|name| {
            if found_names.iter().any(|f| f == name) {
                found(500, "x")
            } else {
                Ok(None)
            }
        });
        let result = done(only);
        assert_eq!(matches!(result, RunResult::Pass(_)), sample.satisfied);
        for name in &found_names {
            assert!(events(&result).contains(&format!("Observed {}", name)));
        }
        if let RunResult::Fail(report) = &result {
            assert!(events(&result).contains(&format!("FAILED {}", report.failed_prediction)));
            assert_eq!(report.search_end, noon(1_000));
        }
        assert_eq!(observations(&result).len(), 2 * count);
    }
}

/// The positions of the entries of a prediction: where its search begins, and
/// where it ends.
fn positions(trail: &Vec<Observation>, name: &str) -> (Vec<usize>, Vec<usize>) {
    let mut begins = Vec::new();
    let mut ends = Vec::new();
    for (i, entry) in trail.iter().enumerate() {
        if entry.prediction == name {
            if entry.kind.label() == "Expecting" {
                begins.push(i);
            } else {
                ends.push(i);
            }
        }
    }
    (begins, ends)
}

#[test]
fn trails_are_in_order() {
    let hypothesis = PredictionDef::All(group(
        "root",
        None,
        vec![
            unit("a", "|= \"a\"", None, 60_000),
            PredictionDef::Any(group(
                "choice",
                Some("a"),
                vec![unit("b", "|= \"b\"", None, 1_000), unit("c", "|= \"c\"", Some("a"), 60_000)],
            )),
            unit("d", "|= \"d\"", Some("choice"), 60_000),
        ],
    ));
    let runner = Runner::new(&config(hypothesis), noon(0));
    let mut step = poll(runner, noon(10), &|_| found(7, "a"));
    step = poll(rest(step), noon(20_000), &|_| Ok(None));
    step = poll(rest(step), noon(20_500), &|_| found(300, "c"));
    step = poll(rest(step), noon(21_000), &|_| found(900, "d"));
    let result = done(step);
    let trail = observations(&result);

    assert_eq!((trail[0].prediction.as_str(), trail[0].timestamp), ("root", noon(0)));
    for (name, parent, waits_for) in [
        ("root", None, None),
        ("a", Some("root"), None),
        ("choice", Some("root"), Some("a")),
        ("b", Some("choice"), None),
        ("c", Some("choice"), Some("a")),
        ("d", Some("root"), Some("choice")),
    ] {
        let (begins, ends) = positions(trail, name);
        assert_eq!((begins.len(), ends.len()), (1, 1), "{}", name);
        assert!(begins[0] < ends[0]);
        if let Some(parent) = parent {
            let (parent_begins, parent_ends) = positions(trail, parent);
            assert!(parent_begins[0] < begins[0] && begins[0] < parent_ends[0]);
        }
        if let Some(other) = waits_for {
            let (_, other_ends) = positions(trail, other);
            assert!(other_ends[0] < begins[0]);
            assert_eq!(trail[other_ends[0]].timestamp.next(), Some(trail[begins[0]].timestamp));
        }
    }
}

#[test]
fn a_line_at_the_last_instant() {
    let last = Timestamp::new(MAX_SECS, 999_999_999).unwrap();
    let at_the_end =
        |line: &str| -> Reply { Ok(Some(LogEntry { timestamp: last, line: line.to_owned() })) };

    let runner = Runner::new(&config(unit("a", "|= \"a\"", None, 1_000)), noon(0));
    let result = done(poll(runner, noon(10), &|_| at_the_end("a")));
    assert!(matches!(result, RunResult::Pass(_)));
    assert_eq!(observations(&result)[1].timestamp, last);

    let pair = |after: Option<&str>| {
        PredictionDef::All(group(
            "root",
            None,
            vec![unit("a", "|= \"a\"", None, 1_000), unit("b", "|= \"b\"", after, 1_000)],
        ))
    };
    let reply = |name: &str| if name == "a" { at_the_end("a") } else { Ok(None) };
    let runner = Runner::new(&config(pair(None)), noon(0));
    let runner = rest(poll(runner, noon(10), &reply));
    let result = done(poll(runner, noon(20), &|_| found(15, "b")));
    assert!(matches!(result, RunResult::Pass(_)));

    let runner = Runner::new(&config(pair(Some("a"))), noon(0));
    let runner = rest(poll(runner, noon(10), &reply));
    assert!(matches!(poll(runner, noon(20), &reply).end, End::Beyond));
}
