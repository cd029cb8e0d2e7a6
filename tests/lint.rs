use zepter::autofix::AutoFixer;
use zepter::features::{build_feature_dag, feature_edge_list};
use zepter::commands::{lift_plan, LiftPlanError, LiftToWorkspaceCmd, VersionError, VersionSelectorMode};
use zepter::cmd::CargoArgs;
use zepter::lint::{fix_entry, propagate_issues, Finding, MuteSetting, PropagateSettings};
use zepter::metadata::{Dependency, DependencyKind, Metadata, Package, RenamedPackage};

fn dep(name: &str, optional: bool) -> Dependency {
    Dependency {
        name: name.to_string(),
        rename: None,
        kind: DependencyKind::Normal,
        optional,
        uses_default_features: true,
        features: vec![],
        req: "^1".to_string(),
        path: None,
    }
}

fn pkg(name: &str, features: Vec<(&str, Vec<&str>)>, deps: Vec<Dependency>) -> Package {
    Package {
        name: name.to_string(),
        id: format!("{name} 0.1.0"),
        version: "0.1.0".to_string(),
        manifest_path: format!("/ws/{name}/Cargo.toml"),
        features: features
            .into_iter()
            .map(|(f, t)| (f.to_string(), t.into_iter().map(|x| x.to_string()).collect()))
            .collect(),
        dependencies: deps,
    }
}

fn meta(packages: Vec<Package>) -> Metadata {
    let members = packages.iter().map(|p| p.id.clone()).collect();
    Metadata { packages, workspace_members: members, resolve: None, workspace_root: "/ws".to_string() }
}

fn settings() -> PropagateSettings {
    PropagateSettings {
        left_side_feature_missing: MuteSetting::Fix,
        left_side_outside_workspace: MuteSetting::Fix,
        dep_kinds: vec![],
        ignore_missing_propagate: vec![],
    }
}

fn s1_meta(a_tokens: Vec<&str>, optional: bool) -> Metadata {
    meta(vec![
        pkg("A", vec![("runtime-benchmarks", a_tokens)], vec![dep("B", optional)]),
        pkg("B", vec![("runtime-benchmarks", vec![])], vec![]),
    ])
}

#[test]
fn propagate_missing_is_reported_and_fixed() {
    let m = s1_meta(vec![], false);
    let dag = build_feature_dag(&m, &m.packages);
    let f = "runtime-benchmarks".to_string();
    let issues = propagate_issues(&m, &dag, &settings(), &vec![], &f);
    assert_eq!(issues.len(), 1);
    assert_eq!(issues[0].package, 0);
    assert_eq!(issues[0].finding, Finding::PropagateMissing);
    assert_eq!(issues[0].dep.display_name(), "B");
    let entry = fix_entry(&issues[0].dep, &f, &vec![]);
    assert_eq!(entry, "B/runtime-benchmarks");

    let mut fixer = AutoFixer::from_raw("[features]\nruntime-benchmarks = []\n").unwrap();
    fixer.add_to_feature("runtime-benchmarks", &entry).unwrap();
    assert_eq!(fixer.to_string(), "[features]\nruntime-benchmarks = [\n\t\"B/runtime-benchmarks\"\n]\n");

    let fixed = s1_meta(vec!["B/runtime-benchmarks"], false);
    let dag = build_feature_dag(&fixed, &fixed.packages);
    assert!(propagate_issues(&fixed, &dag, &settings(), &vec![], &f).is_empty());
}

#[test]
fn optional_dependency_gets_question_mark() {
    let m = s1_meta(vec![], true);
    let dag = build_feature_dag(&m, &m.packages);
    let f = "runtime-benchmarks".to_string();
    let issues = propagate_issues(&m, &dag, &settings(), &vec![], &f);
    assert_eq!(issues.len(), 1);
    assert_eq!(fix_entry(&issues[0].dep, &f, &vec![]), "B?/runtime-benchmarks");
    let force = vec![("runtime-benchmarks".to_string(), "B".to_string())];
    assert_eq!(fix_entry(&issues[0].dep, &f, &force), "B/runtime-benchmarks");

    let fixed = s1_meta(vec!["B?/runtime-benchmarks"], true);
    let dag = build_feature_dag(&fixed, &fixed.packages);
    assert!(propagate_issues(&fixed, &dag, &settings(), &vec![], &f).is_empty());
}

#[test]
fn feature_missing_is_reported() {
    let m = meta(vec![
        pkg("A", vec![], vec![dep("B", false)]),
        pkg("B", vec![("std", vec![])], vec![]),
    ]);
    let dag = build_feature_dag(&m, &m.packages);
    let f = "std".to_string();
    let issues = propagate_issues(&m, &dag, &settings(), &vec![], &f);
    assert_eq!(issues.len(), 1);
    assert_eq!(issues[0].finding, Finding::FeatureMissing);
    let mut quiet = settings();
    quiet.left_side_feature_missing = MuteSetting::Ignore;
    assert!(propagate_issues(&m, &dag, &quiet, &vec![], &f).is_empty());
}

#[test]
fn feature_graph_is_deterministic() {
    let m = s1_meta(vec!["B/runtime-benchmarks", "std"], false);
    let a: Vec<String> = feature_edge_list(&m, &m.packages).iter().map(|(x, y)| format!("{} {}", x.to_string(), y.to_string())).collect();
    let b: Vec<String> = feature_edge_list(&m, &m.packages).iter().map(|(x, y)| format!("{} {}", x.to_string(), y.to_string())).collect();
    assert_eq!(a, b);
    assert_eq!(
        a,
        vec![
            "A 0.1.0/default B/default",
            "A 0.1.0/#entrypoint B 0.1.0/default",
            "A 0.1.0/runtime-benchmarks B 0.1.0/runtime-benchmarks",
            "A 0.1.0/runtime-benchmarks A 0.1.0/std",
        ]
    );
    let dag = build_feature_dag(&m, &m.packages);
    assert_eq!(dag.num_edges(), 4);
}

#[test]
fn renamed_display_name() {
    let r = RenamedPackage { pkg: 0, pkg_name: "log".into(), pkg_id: "log 1".into(), rename: Some("logger".into()), optional: false };
    assert_eq!(r.display_name(), "logger (renamed from log)");
    assert_eq!(r.name(), "logger");
    assert_eq!(r.original_name(), "log");
}

fn lift_cmd(mode: VersionSelectorMode) -> LiftToWorkspaceCmd {
    LiftToWorkspaceCmd {
        cargo_args: CargoArgs { manifest_path: None, workspace: true, offline: false, locked: false, all_features: false },
        dependencies: vec!["log".to_string()],
        fix: true,
        version_selector: mode,
        skip_package: None,
        source_location: None,
        exact_version: None,
        ignore_errors: false,
    }
}

fn log_users(reqs: &[&str]) -> Metadata {
    let pkgs = reqs
        .iter()
        .enumerate()
        .map(|(i, r)| {
            let mut d = dep("log", false);
            d.req = r.to_string();
            pkg(&format!("c{i}"), vec![], vec![d])
        })
        .collect();
    meta(pkgs)
}

#[test]
fn lift_version_selection() {
    let same = log_users(&["^0.4.20", "^0.4.20", "^0.4.20"]);
    let name = "log".to_string();
    assert_eq!(lift_cmd(VersionSelectorMode::Unambiguous).find_best_version(&same, &name), Ok("^0.4.20".to_string()));
    let mixed = log_users(&["^0.4.20", "^0.4.21", "^0.4.20"]);
    assert_eq!(
        lift_cmd(VersionSelectorMode::Unambiguous).find_best_version(&mixed, &name),
        Err(VersionError::Ambiguous { found: vec![("^0.4.20".to_string(), 2), ("^0.4.21".to_string(), 1)] })
    );
    assert_eq!(lift_cmd(VersionSelectorMode::Highest).find_best_version(&mixed, &name), Ok("0.4.21".to_string()));
    assert_eq!(lift_cmd(VersionSelectorMode::Unambiguous).select_dependencies(&mixed), Ok(vec!["log".to_string()]));
    let mut re = lift_cmd(VersionSelectorMode::Unambiguous);
    re.dependencies = vec!["regex:^lo".to_string()];
    assert_eq!(re.select_dependencies(&mixed), Ok(vec!["log".to_string()]));
}

#[test]
fn lift_rename_detection() {
    let name = "log".to_string();
    let cmd = lift_cmd(VersionSelectorMode::Unambiguous);
    let plain = log_users(&["^1", "^1"]);
    assert_eq!(cmd.detect_rename(&plain, &name), Ok(None));
    let mut aliased = log_users(&["^1", "^1"]);
    for p in aliased.packages.iter_mut() {
        p.dependencies[0].rename = Some("logger".to_string());
    }
    assert_eq!(cmd.detect_rename(&aliased, &name), Ok(Some("logger".to_string())));
    let mut mixed = log_users(&["^1", "^1"]);
    mixed.packages[0].dependencies[0].rename = Some("logger".to_string());
    assert!(matches!(cmd.detect_rename(&mixed, &name), Err(LiftPlanError::MixedAliases { .. })));
    assert_eq!(cmd.detect_source_location(&plain, &name), Ok(zepter::autofix::SourceLocationSelector::Remote));
}

#[test]
fn lift_plan_keeps_majority_default_features() {
    let mut m = log_users(&["^0.4.20", "^0.4.20", "^0.4.20"]);
    m.packages[2].dependencies[0].uses_default_features = false;
    let name = "log".to_string();
    let plan = lift_plan(&m, &name, &None, zepter::autofix::SourceLocationSelector::Remote, &vec![true, true, true]);
    assert!(!plan.workspace_default);
    let got: Vec<(usize, String, Option<bool>)> = plan.entries.iter().map(|(p, _, n, o)| (*p, n.clone(), *o)).collect();
    assert_eq!(got, vec![(0, "log".to_string(), Some(true)), (1, "log".to_string(), Some(true)), (2, "log".to_string(), None)]);
    assert_eq!(plan.local, None);
    let skipped = lift_plan(&m, &name, &Some("c1".to_string()), zepter::autofix::SourceLocationSelector::Remote, &vec![true, true, false]);
    assert!(skipped.workspace_default);
    assert_eq!(skipped.entries.len(), 1);
}

#[test]
fn lift_plan_makes_local_path_relative() {
    let mut m = log_users(&["^1"]);
    m.packages[0].dependencies[0].path = Some("/ws/crates/log".to_string());
    let plan = lift_plan(&m, &"log".to_string(), &None, zepter::autofix::SourceLocationSelector::Local, &vec![true]);
    assert_eq!(plan.local, Some("crates/log".to_string()));
}

#[test]
fn never_enables_reports_weak_and_own_entries() {
    let m = meta(vec![
        pkg("A", vec![("default", vec!["B?/std"])], vec![dep("B", true)]),
        pkg("B", vec![("std", vec![])], vec![]),
        pkg("C", vec![("default", vec!["std"]), ("std", vec![])], vec![]),
    ]);
    let r = zepter::lint::never_enables(&m, &"default".to_string(), &"std".to_string());
    assert_eq!(r.len(), 2);
    assert_eq!(r[0].0, 0);
    assert_eq!(r[0].1.name(), "B");
    assert_eq!(r[1].0, 2);
    assert_eq!(r[1].1.name(), "C");
}

#[test]
fn only_enables_lists_the_other_features() {
    let m = meta(vec![
        pkg("A", vec![("default", vec!["B/std"]), ("extra", vec!["B/std"])], vec![dep("B", false)]),
        pkg("B", vec![("std", vec![])], vec![]),
    ]);
    let r = zepter::lint::only_enables(&m, &"default".to_string(), &"std".to_string());
    assert_eq!(r, vec![("A".to_string(), "extra".to_string(), "B".to_string())]);
}

#[test]
fn duplicate_deps_finds_twin_records() {
    let mut dev = dep("B", false);
    dev.kind = DependencyKind::Development;
    let m = meta(vec![
        pkg("A", vec![], vec![dep("B", false), dev]),
        pkg("B", vec![], vec![]),
    ]);
    assert_eq!(zepter::lint::duplicate_deps(&m), vec![("A".to_string(), "B".to_string())]);
    let single = meta(vec![pkg("A", vec![], vec![dep("B", false)]), pkg("B", vec![], vec![])]);
    assert!(zepter::lint::duplicate_deps(&single).is_empty());
}

#[test]
fn escapes_and_paths_are_normalised() {
    assert_eq!(zepter::commands::unescape("a\\nb\\tc\\x"), "a\nb\tc\\x");
    assert_eq!(zepter::autofix::sanitize_path("././a/b//"), "a/b");
    assert!(zepter::cmd::check_for_locked_error("error: the lock file needs to be updated but --locked was passed to prevent this"));
    assert!(!zepter::cmd::check_for_locked_error("error: something else"));
}

#[test]
fn crate_feature_pairs_are_split() {
    let ok = zepter::commands::parse_crate_feature_pairs(&vec![("a/f".to_string(), "b/g/h".to_string())]).unwrap();
    assert_eq!(ok[0].0 .0, "a");
    assert_eq!(ok[0].0 .1, "f");
    assert_eq!(ok[0].1 .0, "b");
    assert_eq!(ok[0].1 .1, "g/h");
    assert!(zepter::commands::parse_crate_feature_pairs(&vec![("a".to_string(), "b/g".to_string())]).is_err());
}

#[test]
fn propagate_fix_gating_follows_the_settings() {
    let mut cmd = zepter::commands::PropagateFeatureCmd {
        cargo_args: CargoArgs { manifest_path: None, workspace: true, offline: false, locked: false, all_features: false },
        features: vec!["std".to_string()],
        packages: vec![],
        feature_enables_dep: None,
        left_side_feature_missing: MuteSetting::Fix,
        ignore_missing_propagate: None,
        left_side_outside_workspace: MuteSetting::Report,
        dep_kinds: Some(vec![("dev".to_string(), "ignore".to_string())]),
        show_version: false,
        show_path: false,
        fixer_args: zepter::autofix::AutoFixerArgs { enable: true },
        modify_paths: vec![],
        fix_dependency: Some("B".to_string()),
        fix_package: None,
    };
    let a = "A".to_string();
    assert!(cmd.fixes_missing_feature(&a, true));
    assert!(!cmd.fixes_missing_feature(&a, false));
    assert!(cmd.fixes_propagation(&a, &"B".to_string()));
    assert!(!cmd.fixes_propagation(&a, &"C".to_string()));
    let kinds = cmd.parse_dep_kinds().unwrap();
    assert_eq!(kinds, vec![(DependencyKind::Development, zepter::lint::IgnoreSetting::Ignore)]);
    cmd.fix_package = Some("Z".to_string());
    assert!(!cmd.fixes_package(&a));
    cmd.dep_kinds = Some(vec![("weird".to_string(), "check".to_string())]);
    assert!(cmd.parse_dep_kinds().is_err());
}

#[test]
fn ambiguous_versions_are_ranked_by_use() {
    let name = "log".to_string();
    let mixed = log_users(&["^1", "^2", "^3", "^2", "^3", "^3", "^1"]);
    assert_eq!(
        lift_cmd(VersionSelectorMode::Unambiguous).find_best_version(&mixed, &name),
        Err(VersionError::Ambiguous {
            found: vec![("^3".to_string(), 3), ("^2".to_string(), 2), ("^1".to_string(), 2)]
        })
    );
}

#[test]
fn write_scope_compares_whole_components() {
    let root = "/ws".to_string();
    assert!(zepter::autofix::is_under(&"/ws/a/Cargo.toml".to_string(), &root));
    assert!(zepter::autofix::is_under(&"/ws".to_string(), &root));
    assert!(!zepter::autofix::is_under(&"/ws2/Cargo.toml".to_string(), &root));
    assert!(zepter::autofix::is_under(&"/x/Cargo.toml".to_string(), &"/".to_string()));
    let extra = vec!["/other".to_string()];
    assert!(zepter::autofix::may_write(&"/other/b/Cargo.toml".to_string(), &root, &extra));
    assert!(!zepter::autofix::may_write(&"/elsewhere/Cargo.toml".to_string(), &root, &extra));
}
