//! Validation of hypotheses.

use francis::hypothesis::{GroupPrediction, PredictionDef, UnitPrediction};
use francis::names::NameSet;
use francis::validate::{check_captures, validate, ValidationError};

fn unit(
    binding: Option<&str>,
    pattern: &str,
    after: Option<&str>,
    timeout_ms: u64,
) -> PredictionDef {
    PredictionDef::Unit(UnitPrediction {
        binding: binding.map(str::to_owned),
        pattern: pattern.to_owned(),
        after: after.map(str::to_owned),
        timeout_ms,
    })
}

fn all(binding: Option<&str>, preds: Vec<PredictionDef>) -> PredictionDef {
    PredictionDef::All(GroupPrediction {
        binding: binding.map(str::to_owned),
        after: None,
        predictions: preds,
    })
}

fn any(binding: Option<&str>, preds: Vec<PredictionDef>) -> PredictionDef {
    PredictionDef::Any(GroupPrediction {
        binding: binding.map(str::to_owned),
        after: None,
        predictions: preds,
    })
}

#[test]
fn valid_hypothesis() {
    let theory = all(
        Some("root"),
        vec![
            unit(Some("a"), "|= \"hello\"", None, 5000),
            unit(Some("b"), "|= \"world\"", None, 5000),
            any(
                Some("branch"),
                vec![
                    unit(Some("c"), "|= \"left\"", None, 3000),
                    unit(Some("d"), "|= \"right\"", None, 3000),
                ],
            ),
        ],
    );
    assert!(validate(&theory).is_ok());
}

#[test]
fn duplicate_binding() {
    let theory = all(
        Some("root"),
        vec![
            unit(Some("a"), "|= \"x\"", None, 1000),
            unit(Some("a"), "|= \"y\"", None, 1000),
        ],
    );
    let errs = validate(&theory).unwrap_err();
    assert!(
        errs.iter()
            .any(|e| matches!(e, ValidationError::DuplicateBinding(b) if b == "a"))
    );
}

#[test]
fn unknown_reference() {
    let theory = all(
        Some("root"),
        vec![unit(Some("a"), "|= \"x\"", Some("nonexistent"), 1000)],
    );
    let errs = validate(&theory).unwrap_err();
    assert!(errs.iter().any(|e| matches!(e, ValidationError::UnknownReference { reference, .. } if reference == "nonexistent")));
}

#[test]
fn forward_reference() {
    let theory = all(
        Some("root"),
        vec![
            unit(Some("a"), "|= \"x\"", Some("b"), 1000),
            unit(Some("b"), "|= \"y\"", None, 1000),
        ],
    );
    let errs = validate(&theory).unwrap_err();
    assert!(errs.iter().any(|e| matches!(e, ValidationError::ForwardReference { prediction, reference } if prediction == "a" && reference == "b")));
}

#[test]
fn empty_group() {
    let theory = all(Some("root"), vec![any(Some("empty"), vec![])]);
    let errs = validate(&theory).unwrap_err();
    assert!(
        errs.iter()
            .any(|e| matches!(e, ValidationError::EmptyGroup(name) if name == "empty"))
    );
}

#[test]
fn root_group_has_after() {
    let theory = PredictionDef::All(GroupPrediction {
        binding: Some("root".to_owned()),
        after: Some("something".to_owned()),
        predictions: vec![unit(Some("a"), "|= \"x\"", None, 1000)],
    });
    let errs = validate(&theory).unwrap_err();
    assert!(
        errs.iter()
            .any(|e| matches!(e, ValidationError::RootHasAfter))
    );
}

#[test]
fn explicit_back_reference() {
    let theory = all(
        Some("root"),
        vec![
            unit(Some("a"), "|= \"x\"", None, 1000),
            unit(Some("b"), "|= \"y\"", None, 1000),
            unit(Some("c"), "|= \"z\"", Some("a"), 3000),
        ],
    );
    assert!(validate(&theory).is_ok());
}

// --- Phase 4: pattern validation ---

#[test]
fn invalid_regexp_pattern() {
    let theory = unit(
        Some("a"),
        "|= \"foo\" | regexp \"(?P<x>[unclosed)\"",
        None,
        1000,
    );
    let errs = validate(&theory).unwrap_err();
    assert!(errs.iter().any(
        |e| matches!(e, ValidationError::InvalidRegexp { prediction, .. } if prediction == "a")
    ));
}

#[test]
fn valid_regexp_pattern() {
    let theory = unit(
        Some("a"),
        "|= \"conn\" | regexp \"conn_id=(?P<conn_id>[a-f0-9]+)\"",
        None,
        1000,
    );
    assert!(validate(&theory).is_ok());
}

// --- Phase 5: capture scope validation ---

#[test]
fn capture_defined_before_use_ok() {
    let theory = all(
        Some("root"),
        vec![
            unit(
                Some("a"),
                "|= \"conn\" | regexp \"id=(?P<cid>\\\\w+)\"",
                None,
                1000,
            ),
            unit(Some("b"), "|= \"${cid}\"", Some("a"), 1000),
        ],
    );
    assert!(validate(&theory).is_ok());
}

#[test]
fn capture_used_before_defined_fails() {
    let theory = all(
        Some("root"),
        vec![
            unit(Some("a"), "|= \"${cid}\"", None, 1000),
            unit(
                Some("b"),
                "|= \"conn\" | regexp \"id=(?P<cid>\\\\w+)\"",
                Some("a"),
                1000,
            ),
        ],
    );
    let errs = validate(&theory).unwrap_err();
    assert!(errs.iter().any(|e| matches!(e, ValidationError::UndefinedCapture { prediction, capture } if prediction == "a" && capture == "cid")));
}

#[test]
fn partial_any_capture_used_after_fails() {
    // Branch A defines `cid`, branch B does not. Using ${cid} after Any should fail.
    let theory = all(
        Some("root"),
        vec![
            any(
                Some("gate"),
                vec![
                    unit(
                        Some("a"),
                        "|= \"conn\" | regexp \"id=(?P<cid>\\\\w+)\"",
                        None,
                        1000,
                    ),
                    unit(Some("b"), "|= \"other\"", None, 1000),
                ],
            ),
            unit(Some("c"), "|= \"${cid}\"", Some("gate"), 1000),
        ],
    );
    let errs = validate(&theory).unwrap_err();
    assert!(errs.iter().any(|e| matches!(e, ValidationError::UndefinedCapture { prediction, capture } if prediction == "c" && capture == "cid")));
}

#[test]
fn all_any_branches_define_capture_ok() {
    // Both branches of Any define `cid`, so it's guaranteed after.
    let theory = all(
        Some("root"),
        vec![
            any(
                Some("gate"),
                vec![
                    unit(
                        Some("a"),
                        "|= \"conn1\" | regexp \"id=(?P<cid>\\\\w+)\"",
                        None,
                        1000,
                    ),
                    unit(
                        Some("b"),
                        "|= \"conn2\" | regexp \"id=(?P<cid>\\\\w+)\"",
                        None,
                        1000,
                    ),
                ],
            ),
            unit(Some("c"), "|= \"${cid}\"", Some("gate"), 1000),
        ],
    );
    assert!(validate(&theory).is_ok());
}

fn after(pred: PredictionDef, name: &str) -> PredictionDef {
    match pred {
        PredictionDef::Unit(mut u) => {
            u.after = Some(name.to_owned());
            PredictionDef::Unit(u)
        }
        PredictionDef::All(mut g) => {
            g.after = Some(name.to_owned());
            PredictionDef::All(g)
        }
        PredictionDef::Any(mut g) => {
            g.after = Some(name.to_owned());
            PredictionDef::Any(g)
        }
    }
}

fn messages(theory: &PredictionDef) -> Vec<String> {
    match validate(theory) {
        Ok(()) => vec![],
        Err(errors) => errors.iter().map(|e| e.message()).collect(),
    }
}

#[test]
fn forward_references_without_a_binding() {
    let theory = all(
        Some("root"),
        vec![
            unit(None, "|= \"a\"", Some("later"), 1000),
            unit(Some("later"), "|= \"b\"", None, 1000),
            unit(None, "|= \"c\"", Some("later"), 1000),
            after(all(None, vec![unit(Some("inner"), "|= \"d\"", None, 1000)]), "inner"),
        ],
    );
    assert_eq!(
        messages(&theory),
        vec![
            "forward reference `later` in prediction `<anonymous>` (referenced prediction not yet observable)",
            "forward reference `inner` in prediction `<anonymous>` (referenced prediction not yet observable)",
        ]
    );
}

#[test]
fn waiting_for_itself_is_a_forward_reference() {
    let theory = all(Some("root"), vec![unit(Some("a"), "|= \"a\"", Some("a"), 1000)]);
    assert!(matches!(
        &validate(&theory).unwrap_err()[0],
        ValidationError::ForwardReference { prediction, reference }
            if prediction == "a" && reference == "a"
    ));
}

#[test]
fn all_errors_are_reported_in_order() {
    let theory = after(
        all(
            Some("root"),
            vec![
                unit(Some("a"), "|= \"${x}\" | regexp \"(\"", Some("nowhere"), 1000),
                unit(Some("a"), "| regexp \"(?P<x>[0-9]+)\"", None, 1000),
                any(None, vec![]),
                unit(Some("b"), "|= \"${x}\" |= \"${y}\"", Some("c"), 1000),
                unit(Some("c"), "|= \"c\"", Some("b"), 1000),
            ],
        ),
        "a",
    );
    let found = messages(&theory);
    let refused = regex::Regex::new("(").unwrap_err().to_string();
    assert_eq!(
        found,
        vec![
            "duplicate binding: `a`".to_owned(),
            "empty group prediction `<anonymous>` (All/Any must have >= 1 child)".to_owned(),
            "root prediction must not have `after` set".to_owned(),
            "forward reference `a` in prediction `root` (referenced prediction not yet observable)"
                .to_owned(),
            "unknown reference `nowhere` in prediction `a`".to_owned(),
            "forward reference `c` in prediction `b` (referenced prediction not yet observable)"
                .to_owned(),
            format!("invalid regexp in prediction `a`: {}", refused),
            "capture `${x}` used in prediction `a` but not guaranteed to be defined (not defined or defined in only some branches of an Any group)".to_owned(),
            "capture `${y}` used in prediction `b` but not guaranteed to be defined (not defined or defined in only some branches of an Any group)".to_owned(),
        ]
    );
}

#[test]
fn refused_expressions_are_reported() {
    let mut errors: Vec<ValidationError> = Vec::new();
    francis::validate::report_regexp("p", None, &mut errors);
    assert!(errors.is_empty());
    francis::validate::report_regexp("p", Some("why".to_owned()), &mut errors);
    assert_eq!(errors[0].message(), "invalid regexp in prediction `p`: why");
}

#[test]
fn branches_see_what_is_defined_before_the_choice() {
    let theory = all(
        Some("root"),
        vec![
            unit(Some("a"), "| regexp \"(?P<x>.)\"", None, 1000),
            any(
                Some("choice"),
                vec![
                    unit(Some("b"), "|= \"${x}\" | regexp \"(?P<y>.)(?P<z>.)\"", None, 1000),
                    all(
                        Some("c"),
                        vec![
                            unit(Some("d"), "| regexp \"(?P<y>.)\"", None, 1000),
                            unit(Some("e"), "|= \"${y}\"", None, 1000),
                        ],
                    ),
                ],
            ),
            unit(Some("f"), "|= \"${x}${y}${z}\"", None, 1000),
        ],
    );
    let errors = validate(&theory).unwrap_err();
    assert_eq!(errors.len(), 1);
    assert!(matches!(
        &errors[0],
        ValidationError::UndefinedCapture { prediction, capture } if prediction == "f" && capture == "z"
    ));
}

/// What is guaranteed among the given names, and the errors, behind a tree.
fn captures_behind(
    pred: &PredictionDef,
    known: &[&str],
    names: &[&str],
) -> (Vec<String>, Vec<String>) {
    let mut guaranteed = NameSet::new();
    for name in known {
        guaranteed.insert((*name).to_owned());
    }
    let mut errors: Vec<ValidationError> = Vec::new();
    check_captures(pred, &mut guaranteed, &mut errors);
    let behind = names
        .iter()
        .filter(|n| guaranteed.contains(&(**n).to_owned()))
        .map(|n| (*n).to_owned())
        .collect();
    (behind, errors.iter().map(|e| e.message()).collect())
}

#[test]
fn a_line_filter_defines_no_capture() {
    let theory = all(
        None,
        vec![
            unit(Some("a"), "|= \"(?P<x>v)\"", None, 1),
            unit(Some("b"), "|= \"${x}\"", Some("a"), 1),
        ],
    );
    let errors = validate(&theory).unwrap_err();
    assert_eq!(errors.len(), 1);
    assert!(matches!(
        &errors[0],
        ValidationError::UndefinedCapture { prediction, capture } if prediction == "b" && capture == "x"
    ));
    let (behind, errors) = captures_behind(&theory, &[], &["x"]);
    assert!(behind.is_empty());
    assert_eq!(errors.len(), 1);
}

#[test]
fn what_is_known_before_a_tree_stays_known() {
    let tree = all(
        Some("root"),
        vec![
            unit(Some("a"), "|= \"${p}${q}\" | regexp \"(?P<x>.)\"", None, 1),
            unit(Some("b"), "|= \"${x}${q}\"", None, 1),
        ],
    );
    let names = ["p", "q", "x"];
    let (behind, fewer) = captures_behind(&tree, &["p"], &names);
    assert_eq!(behind, vec!["p", "x"]);
    assert_eq!(fewer.len(), 2);
    let (behind, none) = captures_behind(&tree, &["p", "q"], &names);
    assert_eq!(behind, vec!["p", "q", "x"]);
    assert!(none.is_empty());
    let (behind, more) = captures_behind(&tree, &[], &names);
    assert_eq!(behind, vec!["x"]);
    assert_eq!(more.len(), 3);
    assert_eq!(more[1..], fewer[..]);
}

#[test]
fn branches_cannot_use_what_only_another_defines() {
    let branches = vec![
        unit(Some("a"), "| regexp \"(?P<x>.)(?P<y>.)\"", None, 1),
        unit(Some("b"), "|= \"${x}\" | regexp \"(?P<y>.)\"", None, 1),
    ];
    let (behind, errors) = captures_behind(&any(Some("g"), branches), &["k"], &["k", "x", "y"]);
    assert_eq!(behind, vec!["k", "y"]);
    assert_eq!(errors.len(), 1);
    let (behind, errors) = captures_behind(&any(Some("g"), vec![]), &["k"], &["k", "x"]);
    assert_eq!(behind, vec!["k"]);
    assert!(errors.is_empty());
}

#[test]
fn a_choice_is_stricter_than_a_conjunction() {
    let inner = || {
        vec![
            unit(Some("a"), "| regexp \"(?P<x>.)\"", Some("nowhere"), 1),
            unit(Some("b"), "|= \"${x}\"", None, 1),
        ]
    };
    let tail = || unit(Some("c"), "|= \"${x}\"", None, 1);
    let with_all = messages(&all(Some("root"), vec![all(Some("g"), inner()), tail()]));
    let with_any = messages(&all(Some("root"), vec![any(Some("g"), inner()), tail()]));
    assert_eq!(with_all, vec!["unknown reference `nowhere` in prediction `a`"]);
    assert_eq!(with_any.len(), 3);
    assert_eq!(with_any[0], with_all[0]);
    assert!(with_any[1..].iter().all(|m| m.starts_with("capture `${x}` used")));
}
