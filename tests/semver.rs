use zepter::semver::Semver;
use zepter::workflow::{Version, Workflow, WorkflowFile, WorkflowHelp, WorkflowStep};

#[test]
fn parser_semver_works() {
    assert_eq!(Semver::try_from("1").unwrap(), Semver::from((1, 0, 0)));

    assert_eq!(Semver::try_from("1.2").unwrap(), Semver::from((1, 2, 0)));

    assert_eq!(Semver::try_from("1.2.3").unwrap(), Semver::from((1, 2, 3)));
}

#[test]
fn semver_display_works() {
    assert_eq!(Semver::from((1, 2, 3)).to_string(), "1.2.3");
}

#[test]
fn semver_is_newer_or_equal_works() {
    assert!(Semver::from((1, 2, 3)).is_newer_or_equal(&Semver::from((1, 2, 3))));

    assert!(Semver::from((1, 2, 3)).is_newer_or_equal(&Semver::from((1, 2, 2))));
    assert!(Semver::from((1, 2, 3)).is_newer_or_equal(&Semver::from((1, 1, 3))));
    assert!(Semver::from((1, 2, 3)).is_newer_or_equal(&Semver::from((0, 2, 3))));

    assert!(!Semver::from((1, 2, 3)).is_newer_or_equal(&Semver::from((1, 2, 4))));
    assert!(!Semver::from((1, 2, 3)).is_newer_or_equal(&Semver::from((1, 3, 3))));
    assert!(!Semver::from((1, 2, 3)).is_newer_or_equal(&Semver::from((2, 2, 3))));
}

#[test]
fn semver_rejects_bad_parts() {
    assert!(Semver::try_from("").is_err());
    assert!(Semver::try_from("1.").is_err());
    assert!(Semver::try_from("256").is_err());
    assert!(Semver::try_from("a.b").is_err());
    assert_eq!(Semver::try_from("+7.0.255").unwrap(), Semver::from((7, 0, 255)));
    assert_eq!(Semver::try_from("1.2.3.4").unwrap(), Semver::from((1, 2, 3)));
}

#[test]
fn semver_display_of_large_parts() {
    assert_eq!(Semver::from((10, 0, 255)).to_string(), "10.0.255");
}

fn step(t: &[&str]) -> WorkflowStep {
    WorkflowStep(t.iter().map(|x| x.to_string()).collect())
}

fn file(workflows: Vec<(&str, Vec<WorkflowStep>)>) -> WorkflowFile {
    WorkflowFile {
        version: Version { format: Semver::from((1, 0, 0)), binary: Semver::from((1, 0, 0)) },
        workflows: workflows.into_iter().map(|(n, s)| (n.to_string(), Workflow(s))).collect(),
        help: Some(WorkflowHelp { text: "Help\n".to_string(), links: vec!["https://example.org".to_string()] }),
    }
}

#[test]
fn workflow_references_are_resolved() {
    let f = file(vec![
        ("check", vec![step(&["lint", "propagate-feature"]), step(&["format", "features"])]),
        ("default", vec![step(&["$check.0", "--fix"]), step(&["$check.1", "--fix"])]),
    ]);
    let f = f.into_resolved().unwrap();
    let d = f.workflow("default").unwrap();
    assert_eq!(d.0[0].0, vec!["lint", "propagate-feature", "--fix"]);
    assert_eq!(d.0[1].0, vec!["format", "features", "--fix"]);
    assert_eq!(f.fmt_help().unwrap(), "Help\n\nFor more information, see:\n  - https://example.org");
}

#[test]
fn workflow_self_reference_is_refused() {
    let f = file(vec![("loop", vec![step(&["$loop.0"])])]);
    assert!(f.into_resolved().is_err());
    let g = file(vec![("a", vec![step(&["$missing.0"])])]);
    assert!(g.into_resolved().is_err());
}

#[test]
fn workflow_version_check() {
    let f = file(vec![]);
    assert!(f.check_cfg_compatibility(Semver::from((1, 0, 0))).is_ok());
    assert!(f.check_cfg_compatibility(Semver::from((0, 9, 0))).is_err());
}

#[test]
fn resolve_once_replaces_the_first_reference() {
    let mut f = file(vec![("a", vec![step(&["x", "$b.0", "y"])]), ("b", vec![step(&["p", "q"])])]);
    assert_eq!(f.resolve_once(), Ok(true));
    assert_eq!(f.workflows[0].1 .0[0].0, vec!["x", "p", "q", "y"]);
    assert_eq!(f.resolve_once(), Ok(false));
    let mut bad = file(vec![("a", vec![step(&["$b.7"])]), ("b", vec![step(&["p"])])]);
    assert!(bad.resolve_once().is_err());
    let mut g = file(vec![]);
    g.help = Some(WorkflowHelp { text: "no break".to_string(), links: vec![] });
    assert_eq!(g.fmt_help().unwrap(), "");
}
