use zepter::autofix::{AutoFixer, SourceLocationSelector};
use zepter::metadata::DependencyKind;
use zepter::editor::{
    canonicalize_feature, dedub_feature, format_feature, format_pre_and_suffix, sort_feature, EditError, Mode,
};

const S3: &str = "[features]\nruntime-benchmarks = [\n    # comment\n    \"sp-runtime/runtime-benchmarks\"\n]\n";

#[test]
fn crate_feature_works_without_section_exists() {
    let before = r#""#;
    let after = r#"[features]
std = [
	"AAA",
	"BBB",
	"CCC"
]
"#;
    let mut fixer = AutoFixer::from_raw(before).unwrap();
    fixer.add_to_feature("std", "AAA").unwrap();
    fixer.add_to_feature("std", "BBB").unwrap();
    fixer.add_to_feature("std", "CCC").unwrap();
    assert_eq!(fixer.to_string(), after);
}

#[test]
fn add_to_feature_keeps_comments() {
    let mut fixer = AutoFixer::from_raw(S3).unwrap();
    fixer.add_to_feature("runtime-benchmarks", "frame-support/runtime-benchmarks").unwrap();
    assert_eq!(
        fixer.to_string(),
        "[features]\nruntime-benchmarks = [\n    # comment\n\t\"sp-runtime/runtime-benchmarks\",\n\t\"frame-support/runtime-benchmarks\"\n]\n"
    );
}

#[test]
fn unmodified_manifest_round_trips() {
    let raw = "[package]\nname = \"x\" # the name\n\n[features]\nstd = [ 'a',\n  \"b\" ]\n";
    let fixer = AutoFixer::from_raw(raw).unwrap();
    assert_eq!(fixer.to_string(), raw);
    assert!(!fixer.modified());
}

#[test]
fn dedup_removes_plain_duplicates() {
    let fixer = AutoFixer::from_raw("[features]\ndefault = [\"A\", \"A\", \"B\"]\n").unwrap();
    let mut f = fixer.get_feature("default").unwrap();
    dedub_feature("krate", "default", &mut f).unwrap();
    let values: Vec<String> = f.entries.iter().map(|e| e.value.clone()).collect();
    assert_eq!(values, vec!["A", "B"]);
}

#[test]
fn dedup_refuses_to_lose_comments() {
    let fixer = AutoFixer::from_raw("[features]\ndefault = [\"A\", \"A\" # comment\n]\n").unwrap();
    let mut f = fixer.get_feature("default").unwrap();
    let r = dedub_feature("krate", "default", &mut f);
    assert!(matches!(r, Err(EditError::CommentWouldBeLost { .. })));
    assert_eq!(f.entries.len(), 2);
}

#[test]
fn dedup_refuses_unsorted_and_conflicting() {
    let fixer = AutoFixer::from_raw("[features]\ndefault = [\"std\", \"A\"]\nother = [\"A\", \"A?\"]\n").unwrap();
    let mut f = fixer.get_feature("default").unwrap();
    assert!(matches!(dedub_feature("k", "default", &mut f), Err(EditError::NotSorted { .. })));
    let mut g = fixer.get_feature("other").unwrap();
    assert!(matches!(dedub_feature("k", "other", &mut g), Err(EditError::ConflictingOptional { .. })));
}

#[test]
fn sorting_twice_changes_nothing() {
    let fixer = AutoFixer::from_raw("[features]\ndefault = [\"b\", \"a\" # first a\n, \"c\", \"a\"]\n").unwrap();
    let mut f = fixer.get_feature("default").unwrap();
    sort_feature(&mut f);
    let once: Vec<(String, String)> = f.entries.iter().map(|e| (e.value.clone(), e.suffix.clone())).collect();
    sort_feature(&mut f);
    let twice: Vec<(String, String)> = f.entries.iter().map(|e| (e.value.clone(), e.suffix.clone())).collect();
    assert_eq!(once, twice);
    assert_eq!(once[0], ("a".to_string(), " # first a\n".to_string()));
    assert_eq!(once[1].0, "a");
    assert_eq!(once[2].0, "b");
}

#[test]
fn canonicalize_is_idempotent() {
    let modes = vec![("std".to_string(), vec![Mode::Canonicalize]), ("short".to_string(), vec![Mode::Canonicalize])];
    let mut fixer = AutoFixer::from_raw("[features]\nstd = [\n  \"b\",\n  # why\n  \"a\",\n]\nshort = [\"x\",\"y\"]\n").unwrap();
    fixer.canonicalize_features("k", &modes, 80).unwrap();
    let once = fixer.to_string();
    assert_eq!(once, "[features]\nstd = [\n\t\"b\",\n\t# why\n\t\"a\",\n]\nshort = [ \"x\", \"y\" ]\n");
    let mut again = AutoFixer::from_raw(&once).unwrap();
    again.canonicalize_features("k", &modes, 80).unwrap();
    assert_eq!(again.to_string(), once);
    assert!(!again.modified());
}

#[test]
fn format_feature_picks_layout_by_width() {
    let fixer = AutoFixer::from_raw("[features]\nstd = [\"a\",\n \"b\"]\n").unwrap();
    let mut f = fixer.get_feature("std").unwrap();
    format_feature("std", &mut f, 80).unwrap();
    assert_eq!(zepter::editor::render(&f), " [ \"a\", \"b\" ]");
    let mut g = fixer.get_feature("std").unwrap();
    format_feature("std", &mut g, 10).unwrap();
    assert_eq!(zepter::editor::render(&g), "[\n\t\"a\",\n\t\"b\",\n]");
}

#[test]
fn pre_and_suffix_lines_are_normalised() {
    assert_eq!(format_pre_and_suffix("  \n   # a  \n  # b"), "\n\t# a\n# b");
    assert_eq!(format_pre_and_suffix(""), "");
}

#[test]
fn adding_twice_then_dedup_leaves_one() {
    let mut fixer = AutoFixer::from_raw("[features]\nstd = [\"a\"]\n").unwrap();
    fixer.add_to_feature("std", "x").unwrap();
    fixer.add_to_feature("std", "x").unwrap();
    let mut f = fixer.get_feature("std").unwrap();
    dedub_feature("k", "std", &mut f).unwrap();
    let xs = f.entries.iter().filter(|e| e.value == "x").count();
    assert_eq!(xs, 1);
}

#[test]
fn remove_feature_strips_prefixed_entries() {
    let mut fixer = AutoFixer::from_raw("[features]\nstd = [\"dev/std\", \"dev?/std\", \"other/std\"]\n").unwrap();
    fixer.remove_feature("dev/");
    fixer.remove_feature("dev?/");
    let f = fixer.get_feature("std").unwrap();
    let values: Vec<String> = f.entries.iter().map(|e| e.value.clone()).collect();
    assert_eq!(values, vec!["other/std"]);
    assert!(fixer.modified());
}

#[test]
fn lift_dependency_rewrites_entry() {
    let mut fixer = AutoFixer::from_raw("[dependencies]\nlog = \"321\"\n").unwrap();
    fixer.lift_dependency("log", DependencyKind::Normal, Some(false), SourceLocationSelector::Remote).unwrap();
    assert_eq!(fixer.to_string(), "[dependencies]\nlog = { workspace = true, default-features = false }\n");
    let mut g = AutoFixer::from_raw("[dependencies]\nlog = { git = \"x\" }\n").unwrap();
    assert!(g.lift_dependency("log", DependencyKind::Normal, None, SourceLocationSelector::Remote).is_err());
}

#[test]
fn workspace_dependency_is_added() {
    let mut fixer = AutoFixer::from_raw("[workspace]").unwrap();
    fixer.add_workspace_dep_inner("log", None, "^0.4.20", false, None).unwrap();
    assert_eq!(fixer.to_string(), "[workspace]\n\n[workspace.dependencies]\nlog = { version = \"0.4.20\", default-features = false }\n");
    let mut none = AutoFixer::from_raw("").unwrap();
    assert!(none.add_workspace_dep_inner("log", None, "^0.4.20", false, None).is_err());
    let mut clash = AutoFixer::from_raw("[workspace]\n\n[workspace.dependencies]\nlog = { version = \"0.4.21\" }\n").unwrap();
    assert!(clash.add_workspace_dep_inner("log", None, "^0.4.20", true, None).is_err());
}

#[test]
fn lift_keeps_majority_default_features() {
    let mut a = AutoFixer::from_raw("[dependencies]\nlog = \"0.4.20\"\n").unwrap();
    a.lift_dependency("log", DependencyKind::Normal, Some(true), SourceLocationSelector::Remote).unwrap();
    assert_eq!(a.to_string(), "[dependencies]\nlog = { workspace = true, default-features = true }\n");
    let mut b = AutoFixer::from_raw("[dependencies]\nlog = { version = \"0.4.20\", default-features = false }\n").unwrap();
    b.lift_dependency("log", DependencyKind::Normal, None, SourceLocationSelector::Remote).unwrap();
    assert!(b.to_string().contains("workspace = true"));
    assert!(!b.to_string().contains("default-features"));
    assert!(!b.to_string().contains("version"));
}

#[test]
fn dedup_refuses_comment_on_first_duplicate() {
    let fixer = AutoFixer::from_raw("[features]\ndefault = [\n\t# Hey\n\t\"A\",\n\t\"A\",\n]\n").unwrap();
    let mut f = fixer.get_feature("default").unwrap();
    assert!(matches!(dedub_feature("k", "default", &mut f), Err(EditError::CommentWouldBeLost { .. })));
}

#[test]
fn add_feature_creates_entry_once() {
    let mut fixer = AutoFixer::from_raw("[package]\nname = \"a\"\n").unwrap();
    fixer.add_feature("std").unwrap();
    fixer.add_feature("std").unwrap();
    assert_eq!(fixer.to_string(), "[package]\nname = \"a\"\n\n[features]\nstd = []\n");
    assert!(fixer.modified());
}
