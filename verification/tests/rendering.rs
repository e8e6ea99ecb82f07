//! Audit trails and outcomes in text.

use francis::observation::{
    line_can_shorten, render_failure_head, shorten, Audit, FailureReport, Observation,
    ObservationKind, RunResult,
};
use francis::time::Timestamp;

fn noon(millis: i64) -> Timestamp {
    Timestamp::new(1_704_110_400, 0).unwrap().plus_millis(millis).unwrap()
}

fn entry(kind: ObservationKind, prediction: &str, millis: i64, line: Option<&str>) -> Observation {
    Observation {
        kind,
        prediction: prediction.to_owned(),
        timestamp: noon(millis),
        log_line: line.map(str::to_owned),
    }
}

fn trail() -> Vec<Observation> {
    vec![
        entry(ObservationKind::Expecting, "root", 0, None),
        entry(ObservationKind::Expecting, "started", 0, None),
        entry(
            ObservationKind::Observed,
            "started",
            1_234,
            Some("2024-01-01T12:00:01Z server started"),
        ),
    ]
}

#[test]
fn pass_in_text() {
    let result = RunResult::Pass(Audit { observations: trail() });
    assert!(result.is_printable());
    assert_eq!(
        result.render(),
        "✓ PASS — all predictions observed\n\
        \x20 [Expecting] root                     at 12:00:00.000Z\n\
        \x20 [Expecting] started                  at 12:00:00.000Z\n\
        \x20 [Observed ] started                  at 12:00:01.234Z  2024-01-01T12:00:01Z server started\n"
    );
    assert_eq!(result.exit_code(), 0);
}

#[test]
fn failure_in_text() {
    let mut observations = trail();
    observations.push(entry(ObservationKind::Failed, "ready", 40_000, None));
    let result = RunResult::Fail(FailureReport {
        failed_prediction: "ready".to_owned(),
        pattern: "|= \"ready\"".to_owned(),
        search_start: noon(1_234),
        search_end: noon(31_234),
        audit: Audit { observations },
    });
    assert!(result.is_printable());
    assert_eq!(
        result.render(),
        "✗ FAILED: ready\n\
        \x20 Pattern: |= \"ready\"\n\
        \x20 Window:  [2024-01-01T12:00:01.234Z, 2024-01-01T12:00:31.234Z]\n\
        \n\
        \x20 Audit trail:\n\
        \x20 [Expecting] root                     at 12:00:00.000Z\n\
        \x20 [Expecting] started                  at 12:00:00.000Z\n\
        \x20 [Observed ] started                  at 12:00:01.234Z  2024-01-01T12:00:01Z server started\n\
        \x20 [FAILED   ] ready                    at 12:00:40.000Z\n"
    );
    assert_eq!(result.exit_code(), 1);
    assert_eq!(
        render_failure_head("p", "q", "a", "b"),
        "✗ FAILED: p\n  Pattern: q\n  Window:  [a, b]\n\n  Audit trail:\n"
    );
}

#[test]
fn labels() {
    assert_eq!(ObservationKind::Expecting.label(), "Expecting");
    assert_eq!(ObservationKind::Observed.label(), "Observed");
    assert_eq!(ObservationKind::Failed.label(), "FAILED");
}

#[test]
fn long_names_are_not_cut() {
    let long = entry(ObservationKind::Observed, "a_name_of_more_than_twenty_four", 0, None);
    assert_eq!(long.render(), "  [Observed ] a_name_of_more_than_twenty_four at 12:00:00.000Z\n");
}

#[test]
fn long_lines_are_cut() {
    let fits = "x".repeat(120);
    assert!(line_can_shorten(&fits));
    assert_eq!(shorten(&fits), fits);
    let long = "x".repeat(121);
    assert!(line_can_shorten(&long));
    assert_eq!(shorten(&long), format!("{}...", fits));

    let wide = format!("{}\u{e9}tail", "x".repeat(119));
    assert!(!line_can_shorten(&wide));
    let even = format!("{}\u{e9}tail", "x".repeat(118));
    assert!(line_can_shorten(&even));
    assert_eq!(shorten(&even), format!("{}\u{e9}...", "x".repeat(118)));
    let exact = format!("{}\u{e9}", "x".repeat(119));
    assert!(!line_can_shorten(&exact));

    let audit = Audit {
        observations: vec![entry(ObservationKind::Observed, "a", 0, Some(&wide))],
    };
    assert!(!audit.is_printable());
}

#[test]
fn the_full_line_is_kept_in_the_trail() {
    let long = "y".repeat(200);
    let audit = Audit {
        observations: vec![entry(ObservationKind::Observed, "a", 0, Some(&long))],
    };
    assert!(audit.is_printable());
    assert_eq!(
        audit.render(),
        format!("  [Observed ] {:<24} at 12:00:00.000Z  {}...\n", "a", "y".repeat(120))
    );
    assert_eq!(audit.observations[0].log_line.as_deref(), Some(long.as_str()));
}
