//! The options of the commands, and the decisions of the commands that do not
//! need the terminal or the file system.

use vstd::prelude::*;
use crate::autofix::{AutoFixerArgs, SourceLocationSelector};
use crate::cmd::{CargoArgs, GlobalArgs};
use crate::dag::{Dag, Path};
use crate::editor::{key_le, value_le, Mode};
use crate::features::{CrateAndFeature, FeatureNode};
use crate::dag::reaches;
use crate::lint::{issue_views, package_findings, 
    duplicate_deps, never_enables, only_enables, propagate_issues, why_enabled, DepKind, IgnoreSetting, Issue,
    MuteSetting, PropagateSettings, WhyError,
};
use crate::metadata::{Dependency, DependencyKind, Metadata, Package, RenamedPackage};
use crate::text::{split_once, starts_with};
use cargo_metadata::semver::Op;

verus! {

/// The root command.
#[derive(Debug)]
pub struct Command {
    pub subcommand: Option<SubCommand>,
    pub global: GlobalArgs,
}

/// The commands.
#[derive(Debug)]
pub enum SubCommand {
    Trace(TraceCmd),
    Lint(LintCmd),
    Format(FormatCmd),
    Run(RunCmd),
    Transpose(TransposeCmd),
    Debug(DebugCmd),
}

/// Arguments of commands that print a dependency tree.
#[derive(Debug, Clone)]
pub struct TreeArgs {
    pub cargo_args: CargoArgs,
}

/// Print the shortest dependency path between two crates.
#[derive(Debug, Clone)]
pub struct TraceCmd {
    pub tree_args: TreeArgs,
    pub from: String,
    pub to: String,
}

/// Statistics about the workspace graph.
#[derive(Debug, Clone)]
pub struct DebugCmd {
    pub cargo_args: CargoArgs,
    pub no_root: bool,
    pub no_benchmark: bool,
}

/// Run the workflows of a configuration file.
#[derive(Debug, Clone, Default)]
pub struct RunCmd {
    pub args: RunArgs,
}

/// Which workflow to run.
#[derive(Debug, Clone, Default)]
pub struct RunArgs {
    pub workflow: Option<String>,
    pub config: ConfigArgs,
}

/// Where the configuration file is and whether to check its version.
#[derive(Debug, Clone, Default)]
pub struct ConfigArgs {
    pub manifest_path: Option<String>,
    pub config: Option<String>,
    pub check_cfg_compatibility: Toggle,
}

/// An on/off switch.
#[derive(Debug, Clone, Copy, PartialEq, Eq, Structural)]
pub enum Toggle {
    On,
    Off,
}

impl Default for Toggle {
    fn default() -> (r: Self)
        ensures
            r == Toggle::On,
    {
        Toggle::On
    }
}

/// Format the manifests.
#[derive(Debug)]
pub struct FormatCmd {
    pub subcommand: FormatSubCommand,
}

/// The format commands.
#[derive(Debug)]
pub enum FormatSubCommand {
    Features(FormatFeaturesCmd),
}

/// Format the features of every manifest.
#[derive(Debug, Clone)]
pub struct FormatFeaturesCmd {
    pub cargo_args: CargoArgs,
    pub no_workspace: bool,
    pub modify_paths: Vec<String>,
    pub unused_check: bool,
    pub fix: bool,
    pub line_width: u32,
    pub mode_per_feature: Option<Vec<(String, Mode)>>,
    pub ignore_feature: Vec<String>,
    pub print_paths: bool,
}

/// The modes listed for `f` in `pairs`, in order.
pub open spec fn modes_listed(pairs: Seq<(String, Mode)>, f: Seq<char>) -> Seq<Mode>
    decreases pairs.len(),
{
    if pairs.len() == 0 {
        Seq::empty()
    } else {
        modes_listed(pairs.drop_last(), f) + if pairs.last().0@ == f {
            seq![pairs.last().1]
        } else {
            Seq::<Mode>::empty()
        }
    }
}

impl FormatFeaturesCmd {
    /// The modes of each feature named in the options: the listed modes in order,
    /// or `Off` alone for an ignored feature.
    pub fn parse_mode_per_feature(&self) -> (r: Vec<(String, Vec<Mode>)>)
        ensures
            forall|i: int| 0 <= i < r@.len() ==> (exists|j: int| 0 <= j < self.ignore_feature@.len() && (#[trigger] self.ignore_feature@[j])@ == r@[i].0@) ==> r@[i].1@ == seq![Mode::Off],
    {
        let mut out: Vec<(String, Vec<Mode>)> = Vec::new();
        if let Some(pairs) = &self.mode_per_feature {
            let mut i: usize = 0;
            while i < pairs.len()
                invariant
                    i <= pairs@.len(),
                decreases pairs@.len() - i,
            {
                let (f, m) = &pairs[i];
                let mut j: usize = 0;
                let mut placed = false;
                let n = out.len();
                let mut next: Vec<(String, Vec<Mode>)> = Vec::new();
                while j < n
                    invariant
                        j <= n,
                        n == out@.len(),
                    decreases n - j,
                {
                    let (g, ms) = &out[j];
                    let mut ms2: Vec<Mode> = Vec::new();
                    let mut k: usize = 0;
                    while k < ms.len()
                        invariant
                            k <= ms@.len(),
                        decreases ms@.len() - k,
                    {
                        ms2.push(ms[k]);
                        k = k + 1;
                    }
                    if *g == *f {
                        ms2.push(*m);
                        placed = true;
                    }
                    next.push((g.clone(), ms2));
                    j = j + 1;
                }
                if !placed {
                    next.push((f.clone(), vec![*m]));
                }
                out = next;
                i = i + 1;
            }
        }
        let mut result: Vec<(String, Vec<Mode>)> = Vec::new();
        let mut k: usize = 0;
        while k < out.len()
            invariant
                k <= out@.len(),
                forall|i: int| 0 <= i < result@.len() ==> (exists|j: int| 0 <= j < self.ignore_feature@.len() && (#[trigger] self.ignore_feature@[j])@ == result@[i].0@) ==> result@[i].1@ == seq![Mode::Off],
            decreases out@.len() - k,
        {
            let (f, ms) = &out[k];
            if !crate::lint::contains_string(&self.ignore_feature, f) {
                let mut ms2: Vec<Mode> = Vec::new();
                let mut j: usize = 0;
                while j < ms.len()
                    invariant
                        j <= ms@.len(),
                    decreases ms@.len() - j,
                {
                    ms2.push(ms[j]);
                    j = j + 1;
                }
                result.push((f.clone(), ms2));
            }
            k = k + 1;
        }
        let mut k: usize = 0;
        while k < self.ignore_feature.len()
            invariant
                k <= self.ignore_feature@.len(),
                forall|i: int| 0 <= i < result@.len() ==> (exists|j: int| 0 <= j < self.ignore_feature@.len() && (#[trigger] self.ignore_feature@[j])@ == result@[i].0@) ==> result@[i].1@ == seq![Mode::Off],
            decreases self.ignore_feature@.len() - k,
        {
            let f = &self.ignore_feature[k];
            let mut present = false;
            let mut j: usize = 0;
            while j < result.len()
                invariant
                    j <= result@.len(),
                decreases result@.len() - j,
            {
                if result[j].0 == *f {
                    present = true;
                }
                j = j + 1;
            }
            if !present {
                let v: Vec<Mode> = vec![Mode::Off];
                assert(v@ =~= seq![Mode::Off]);
                result.push((f.clone(), v));
            }
            k = k + 1;
        }
        result
    }
}

/// Lint the feature usage.
#[derive(Debug)]
pub struct LintCmd {
    pub subcommand: LintSubCommand,
}

/// The lints.
#[derive(Debug)]
pub enum LintSubCommand {
    PropagateFeature(PropagateFeatureCmd),
    NeverEnables(NeverEnablesCmd),
    NeverImplies(NeverImpliesCmd),
    OnlyEnables(OnlyEnablesCmd),
    WhyEnabled(WhyEnabledCmd),
    NoStd(NoStdCmd),
    DuplicateDeps(DuplicateDepsCmd),
}

/// Check that features are propagated to the dependencies that have them.
#[derive(Debug, Clone)]
pub struct PropagateFeatureCmd {
    pub cargo_args: CargoArgs,
    pub features: Vec<String>,
    pub packages: Vec<String>,
    pub feature_enables_dep: Option<Vec<(String, String)>>,
    pub left_side_feature_missing: MuteSetting,
    pub ignore_missing_propagate: Option<Vec<(String, String)>>,
    pub left_side_outside_workspace: MuteSetting,
    pub dep_kinds: Option<Vec<(String, String)>>,
    pub show_version: bool,
    pub show_path: bool,
    pub fixer_args: AutoFixerArgs,
    pub modify_paths: Vec<String>,
    pub fix_dependency: Option<String>,
    pub fix_package: Option<String>,
}

/// Each string comes before or equals every later one.
pub open spec fn sorted_strs(w: Seq<Seq<char>>) -> bool {
    forall|a: int, b: int| 0 <= a < b < w.len() ==> crate::editor::key_le(#[trigger] w[a], #[trigger] w[b])
}

/// The sorted list of the distinct strings of `v`.
pub fn sorted_unique(v: &Vec<String>) -> (r: Vec<String>)
    ensures
        forall|x: Seq<char>| #[trigger] str_views(r@).contains(x) <==> str_views(v@).contains(x),
        str_views(r@).no_duplicates(),
        sorted_strs(str_views(r@)),
{
    let mut out: Vec<String> = Vec::new();
    let mut k: usize = 0;
    while k < v.len()
        invariant
            k <= v@.len(),
            forall|x: Seq<char>| #[trigger] str_views(out@).contains(x) <==> str_views(v@.take(k as int)).contains(x),
            str_views(out@).no_duplicates(),
            sorted_strs(str_views(out@)),
        decreases v@.len() - k,
    {
        let s = &v[k];
        let ghost o = str_views(out@);
        let ghost pre = str_views(v@.take(k as int));
        proof {
            assert(v@.take(k as int + 1) =~= v@.take(k as int).push(v@[k as int]));
            assert(str_views(v@.take(k as int + 1)) =~= pre.push(s@));
        }
        if !crate::lint::contains_string(&out, s) {
            let mut i: usize = out.len();
            while i > 0 && !value_le(&out[i - 1], s)
                invariant
                    i <= out@.len(),
                    forall|j: int| i <= j < out@.len() ==> !crate::editor::key_le(#[trigger] out@[j]@, s@),
                decreases i,
            {
                i = i - 1;
            }
            out.insert(i, s.clone());
            proof {
                assert(str_views(out@) =~= o.insert(i as int, s@));
                assert(!o.contains(s@)) by {
                    if o.contains(s@) {
                        let j = choose|j: int| 0 <= j < o.len() && #[trigger] o[j] == s@;
                    }
                }
                assert forall|x: Seq<char>| #[trigger] str_views(out@).contains(x) <==> str_views(v@.take(k as int + 1)).contains(x) by {
                    lemma_insert_contains(o, i as int, s@, x);
                    lemma_push_contains(pre, s@, x);
                }
                assert forall|a: int, b: int| 0 <= a < b < str_views(out@).len() implies crate::editor::key_le(
                    #[trigger] str_views(out@)[a],
                    #[trigger] str_views(out@)[b],
                ) by {
                    let w = str_views(out@);
                    if a == i as int {
                        assert(w[b] == o[b - 1]);
                        assert(!crate::editor::key_le(o[b - 1], s@));
                        crate::editor::lemma_key_total(s@, o[b - 1]);
                    } else if b == i as int {
                        assert(w[a] == o[a]);
                        assert(crate::editor::key_le(o[i - 1], s@));
                        if a < i - 1 {
                            assert(crate::editor::key_le(o[a], o[i - 1]));
                            crate::editor::lemma_key_trans(o[a], o[i - 1], s@);
                        }
                    } else {
                        let a2 = if a < i { a } else { a - 1 };
                        let b2 = if b < i { b } else { b - 1 };
                        assert(w[a] == o[a2] && w[b] == o[b2]);
                    }
                }
                assert forall|a: int, b: int| 0 <= a < b < str_views(out@).len() implies str_views(out@)[a] != str_views(out@)[b] by {
                    let w = str_views(out@);
                    if a == i as int {
                        assert(w[b] == o[b - 1]);
                        assert(o.contains(w[b]));
                    } else if b == i as int {
                        assert(w[a] == o[a]);
                        assert(o.contains(w[a]));
                    } else {
                        let a2 = if a < i { a } else { a - 1 };
                        let b2 = if b < i { b } else { b - 1 };
                        assert(w[a] == o[a2] && w[b] == o[b2]);
                    }
                }
            }
        } else {
            proof {
                assert(o.contains(s@)) by {
                    let j = choose|j: int| 0 <= j < out@.len() && #[trigger] out@[j]@ == s@;
                    assert(o[j] == s@);
                }
                assert forall|x: Seq<char>| #[trigger] str_views(out@).contains(x) <==> str_views(v@.take(k as int + 1)).contains(x) by {
                    lemma_push_contains(pre, s@, x);
                }
            }
        }
        k = k + 1;
    }
    assert(v@.take(v@.len() as int) =~= v@);
    out
}

proof fn lemma_push_contains(sq: Seq<Seq<char>>, e: Seq<char>, x: Seq<char>)
    ensures
        sq.push(e).contains(x) <==> sq.contains(x) || x == e,
{
    if sq.push(e).contains(x) {
        let j = choose|j: int| 0 <= j < sq.push(e).len() && #[trigger] sq.push(e)[j] == x;
        if j < sq.len() {
            assert(sq[j] == x);
        }
    }
    if sq.contains(x) {
        let j = choose|j: int| 0 <= j < sq.len() && #[trigger] sq[j] == x;
        assert(sq.push(e)[j] == x);
    }
    if x == e {
        assert(sq.push(e)[sq.len() as int] == x);
    }
}

proof fn lemma_insert_contains(sq: Seq<Seq<char>>, i: int, e: Seq<char>, x: Seq<char>)
    requires
        0 <= i <= sq.len(),
    ensures
        sq.insert(i, e).contains(x) <==> sq.contains(x) || x == e,
{
    let w = sq.insert(i, e);
    if w.contains(x) {
        let j = choose|j: int| 0 <= j < w.len() && #[trigger] w[j] == x;
        if j < i {
            assert(sq[j] == x);
        } else if j > i {
            assert(sq[j - 1] == x);
        }
    }
    if sq.contains(x) {
        let j = choose|j: int| 0 <= j < sq.len() && #[trigger] sq[j] == x;
        if j < i {
            assert(w[j] == x);
        } else {
            assert(w[j + 1] == x);
        }
    }
    if x == e {
        assert(w[i] == x);
    }
}

/// The views of a list of string pairs.
pub open spec fn pair_views(s: Seq<(String, String)>) -> Seq<(Seq<char>, Seq<char>)> {
    s.map_values(|x: (String, String)| (x.0@, x.1@))
}

pub proof fn lemma_pair_push_contains(sq: Seq<(Seq<char>, Seq<char>)>, e: (Seq<char>, Seq<char>), x: (Seq<char>, Seq<char>))
    ensures
        sq.push(e).contains(x) <==> sq.contains(x) || x == e,
{
    if sq.push(e).contains(x) {
        let j = choose|j: int| 0 <= j < sq.push(e).len() && #[trigger] sq.push(e)[j] == x;
        if j < sq.len() {
            assert(sq[j] == x);
        }
    }
    if sq.contains(x) {
        let j = choose|j: int| 0 <= j < sq.len() && #[trigger] sq[j] == x;
        assert(sq.push(e)[j] == x);
    }
    if x == e {
        assert(sq.push(e)[sq.len() as int] == x);
    }
}

/// The views of a list of strings.
pub open spec fn str_views(s: Seq<String>) -> Seq<Seq<char>> {
    s.map_values(|x: String| x@)
}

/// The kind that a dependency kind setting names, ignoring ASCII case.
pub open spec fn kind_of_text(s: Seq<char>) -> Option<DependencyKind> {
    let l = crate::lint::ascii_lower(s);
    if l == "normal"@ {
        Some(DependencyKind::Normal)
    } else if l == "dev"@ {
        Some(DependencyKind::Development)
    } else if l == "build"@ {
        Some(DependencyKind::Build)
    } else {
        None
    }
}

/// The setting that a text names, ignoring ASCII case.
pub open spec fn setting_of_text(s: Seq<char>) -> Option<IgnoreSetting> {
    let l = crate::lint::ascii_lower(s);
    if l == "ignore"@ {
        Some(IgnoreSetting::Ignore)
    } else if l == "check"@ {
        Some(IgnoreSetting::Check)
    } else {
        None
    }
}

/// Every `(kind, setting)` pair names a kind and a setting.
pub open spec fn kinds_ok(k: Option<Vec<(String, String)>>) -> bool {
    match k {
        None => true,
        Some(v) => forall|i: int| 0 <= i < v@.len() ==> kind_of_text((#[trigger] v@[i]).0@) is Some && setting_of_text(v@[i].1@) is Some,
    }
}

/// `out` holds what each `(kind, setting)` pair names, in order.
pub open spec fn kinds_parsed(k: Option<Vec<(String, String)>>, out: Seq<(DependencyKind, IgnoreSetting)>) -> bool {
    match k {
        None => out.len() == 0,
        Some(v) => out.len() == v@.len() && forall|i: int|
            0 <= i < v@.len() ==> (#[trigger] out[i]).0 == kind_of_text(v@[i].0@)->Some_0 && out[i].1 == setting_of_text(v@[i].1@)->Some_0,
    }
}

/// Both sides of every pair hold a `/`.
pub open spec fn pairs_ok(p: Seq<(String, String)>) -> bool {
    forall|i: int| 0 <= i < p.len() ==> (#[trigger] p[i]).0@.contains('/') && p[i].1@.contains('/')
}

/// `a` is `c` split at its first `/`.
pub open spec fn split_cf(a: CrateAndFeature, c: Seq<char>) -> bool {
    a.0@ == crate::text::before_first(c, '/') && a.1@ == crate::text::after_first(c, '/')
}

/// `out` holds each pair with both sides split at their first `/`, in order.
pub open spec fn pairs_parsed(p: Seq<(String, String)>, out: Seq<(CrateAndFeature, CrateAndFeature)>) -> bool {
    out.len() == p.len() && forall|i: int| 0 <= i < p.len() ==> split_cf((#[trigger] out[i]).0, p[i].0@) && split_cf(out[i].1, p[i].1@)
}

/// Split `crate/feature` pairs at their first `/`.
pub fn parse_crate_feature_pairs(pairs: &Vec<(String, String)>) -> (r: Result<Vec<(CrateAndFeature, CrateAndFeature)>, String>)
    ensures
        r is Ok == pairs_ok(pairs@),
        r matches Ok(v) ==> pairs_parsed(pairs@, v@),
{
    let mut out: Vec<(CrateAndFeature, CrateAndFeature)> = Vec::new();
    let mut i: usize = 0;
    while i < pairs.len()
        invariant
            i <= pairs@.len(),
            pairs_ok(pairs@.take(i as int)),
            pairs_parsed(pairs@.take(i as int), out@),
        decreases pairs@.len() - i,
    {
        let (l, r) = &pairs[i];
        let a = match split_once(l.as_str(), '/') {
            Some((c, f)) => CrateAndFeature(c, f),
            None => return Err(crate::text::join2("Expected CRATE/FEATURE, got ", l.as_str())),
        };
        let b = match split_once(r.as_str(), '/') {
            Some((c, f)) => CrateAndFeature(c, f),
            None => return Err(crate::text::join2("Expected CRATE/FEATURE, got ", r.as_str())),
        };
        proof {
            let t = pairs@.take(i as int + 1);
            assert(t =~= pairs@.take(i as int).push(pairs@[i as int]));
            assert forall|j: int| 0 <= j < t.len() implies (#[trigger] t[j]).0@.contains('/') && t[j].1@.contains('/') by {
                if j < i {
                    assert(t[j] == pairs@.take(i as int)[j]);
                }
            }
            assert forall|j: int| 0 <= j < t.len() implies split_cf((#[trigger] out@.push((a, b))[j]).0, t[j].0@) && split_cf(out@.push((a, b))[j].1, t[j].1@) by {
                if j < i {
                    assert(t[j] == pairs@.take(i as int)[j]);
                    assert(out@.push((a, b))[j] == out@[j]);
                }
            }
        }
        out.push((a, b));
        i = i + 1;
    }
    assert(pairs@.take(pairs@.len() as int) =~= pairs@);
    Ok(out)
}

impl PropagateFeatureCmd {
    /// Whether the fixer may touch package `pkg`: fixing is on and no other
    /// package was chosen for it.
    pub fn fixes_package(&self, pkg: &String) -> (r: bool)
        ensures
            r == (self.fixer_args.enable && (self.fix_package matches Some(f) ==> f@ == pkg@)),
    {
        self.fixer_args.enable && match &self.fix_package {
            Some(f) => *f == *pkg,
            None => true,
        }
    }

    /// Whether the missing feature of package `pkg` is added: the package may
    /// be fixed, the setting for missing features is `Fix`, and so is the one
    /// for packages outside the workspace unless `pkg` is a member.
    pub fn fixes_missing_feature(&self, pkg: &String, in_workspace: bool) -> (r: bool)
        ensures
            r == (self.fixer_args.enable && (self.fix_package matches Some(f) ==> f@ == pkg@) && self.left_side_feature_missing
                == MuteSetting::Fix && (self.left_side_outside_workspace == MuteSetting::Fix || in_workspace)),
    {
        self.fixes_package(pkg) && self.left_side_feature_missing == MuteSetting::Fix && (self.left_side_outside_workspace
            == MuteSetting::Fix || in_workspace)
    }

    /// Whether a missing propagation from package `pkg` to dependency `dep` is
    /// added: the package may be fixed and no other dependency was chosen.
    pub fn fixes_propagation(&self, pkg: &String, dep: &String) -> (r: bool)
        ensures
            r == (self.fixer_args.enable && (self.fix_package matches Some(f) ==> f@ == pkg@) && (self.fix_dependency matches Some(d)
                ==> d@ == dep@)),
    {
        self.fixes_package(pkg) && match &self.fix_dependency {
            Some(d) => *d == *dep,
            None => true,
        }
    }

    /// The setting of each dependency kind, in the order given.
    pub fn parse_dep_kinds(&self) -> (r: Result<Vec<(DependencyKind, IgnoreSetting)>, String>)
        ensures
            r is Ok == kinds_ok(self.dep_kinds),
            r matches Ok(v) ==> kinds_parsed(self.dep_kinds, v@),
    {
        let mut out: Vec<(DependencyKind, IgnoreSetting)> = Vec::new();
        if let Some(kinds) = &self.dep_kinds {
            let mut i: usize = 0;
            while i < kinds.len()
                invariant
                    i <= kinds@.len(),
                    self.dep_kinds == Some(*kinds),
                    out@.len() == i,
                    forall|j: int| 0 <= j < i ==> kind_of_text((#[trigger] kinds@[j]).0@) is Some && setting_of_text(kinds@[j].1@) is Some,
                    forall|j: int|
                        0 <= j < i ==> (#[trigger] out@[j]).0 == kind_of_text(kinds@[j].0@)->Some_0 && out@[j].1 == setting_of_text(kinds@[j].1@)->Some_0,
                decreases kinds@.len() - i,
            {
                let k = match DepKind::from_str(kinds[i].0.as_str()) {
                    Ok(k) => k,
                    Err(e) => return Err(e),
                };
                let m = match IgnoreSetting::from_str(kinds[i].1.as_str()) {
                    Ok(m) => m,
                    Err(e) => return Err(e),
                };
                let kk = k.kind();
                out.push((kk, m));
                i = i + 1;
            }
        }
        Ok(out)
    }

    /// The pairs exempt from the check.
    pub fn ignore_missing_propagate(&self) -> (r: Result<Vec<(CrateAndFeature, CrateAndFeature)>, String>)
        ensures
            r is Ok == (self.ignore_missing_propagate matches Some(p) ==> pairs_ok(p@)),
            r matches Ok(v) ==> match self.ignore_missing_propagate {
                None => v@.len() == 0,
                Some(p) => pairs_parsed(p@, v@),
            },
    {
        match &self.ignore_missing_propagate {
            None => Ok(Vec::new()),
            Some(pairs) => parse_crate_feature_pairs(pairs),
        }
    }

    /// `s` holds the settings that this command names.
    pub open spec fn settings_of(&self, s: PropagateSettings) -> bool {
        &&& s.left_side_feature_missing == self.left_side_feature_missing
        &&& s.left_side_outside_workspace == self.left_side_outside_workspace
        &&& kinds_parsed(self.dep_kinds, s.dep_kinds@)
        &&& match self.ignore_missing_propagate {
            None => s.ignore_missing_propagate@.len() == 0,
            Some(p) => pairs_parsed(p@, s.ignore_missing_propagate@),
        }
    }

    /// The settings of the check.
    pub fn settings(&self) -> (r: Result<PropagateSettings, String>)
        ensures
            r matches Ok(s) ==> s.left_side_feature_missing == self.left_side_feature_missing
                && s.left_side_outside_workspace == self.left_side_outside_workspace,
            r is Ok == (kinds_ok(self.dep_kinds) && (self.ignore_missing_propagate matches Some(p) ==> pairs_ok(p@))),
            r matches Ok(s) ==> kinds_parsed(self.dep_kinds, s.dep_kinds@) && match self.ignore_missing_propagate {
                None => s.ignore_missing_propagate@.len() == 0,
                Some(p) => pairs_parsed(p@, s.ignore_missing_propagate@),
            },
    {
        let dep_kinds = match self.parse_dep_kinds() {
            Ok(d) => d,
            Err(e) => return Err(e),
        };
        let ignore = match self.ignore_missing_propagate() {
            Ok(i) => i,
            Err(e) => return Err(e),
        };
        Ok(PropagateSettings {
            left_side_feature_missing: self.left_side_feature_missing,
            left_side_outside_workspace: self.left_side_outside_workspace,
            dep_kinds,
            ignore_missing_propagate: ignore,
        })
    }

    /// Check every named feature, once each and in sorted order, and list the
    /// findings per feature.
    pub fn run(&self, meta: &Metadata, dag: &Dag<CrateAndFeature>) -> (r: Result<Vec<(String, Vec<Issue>)>, String>)
        requires
            dag.wf(),
        ensures
            r is Ok == (kinds_ok(self.dep_kinds) && (self.ignore_missing_propagate matches Some(p) ==> pairs_ok(p@))),
            r matches Ok(v) ==> exists|s: PropagateSettings|
                #![trigger runs_all(*meta, dag@, s, self.packages@, self.features@, v@)]
                self.settings_of(s) && runs_all(*meta, dag@, s, self.packages@, self.features@, v@),
    {
        let s = match self.settings() {
            Ok(s) => s,
            Err(e) => return Err(e),
        };
        let out = self.run_with(&s, meta, dag);
        proof {
            assert(runs_all(*meta, dag@, s, self.packages@, self.features@, out@));
            assert(s.left_side_feature_missing == self.left_side_feature_missing);
            assert(s.left_side_outside_workspace == self.left_side_outside_workspace);
            assert(self.settings_of(s));
        }
        let res: Result<Vec<(String, Vec<Issue>)>, String> = Ok(out);
        proof {
            assert(res->Ok_0 == out);
            assert(res->Ok_0@ == out@);
            assert(runs_all(*meta, dag@, s, self.packages@, self.features@, res->Ok_0@));
            assert(self.settings_of(s) && runs_all(*meta, dag@, s, self.packages@, self.features@, res->Ok_0@));
        }
        res
    }

    /// Check every named feature under settings `s`, once each.
    pub fn run_with(&self, s: &PropagateSettings, meta: &Metadata, dag: &Dag<CrateAndFeature>) -> (r: Vec<(String, Vec<Issue>)>)
        requires
            dag.wf(),
        ensures
            runs_all(*meta, dag@, *s, self.packages@, self.features@, r@),
    {
        let features = sorted_unique(&self.features);
        let mut out: Vec<(String, Vec<Issue>)> = Vec::new();
        let mut i: usize = 0;
        while i < features.len()
            invariant
                dag.wf(),
                i <= features@.len(),
                out@.len() == i,
                forall|j: int| 0 <= j < i ==> (#[trigger] out@[j]).0@ == features@[j]@
                    && issue_views(out@[j].1@) == package_findings(*meta, dag@, *s, self.packages@, features@[j]@, meta.packages@.len() as int),
            decreases features@.len() - i,
        {
            let issues = propagate_issues(meta, dag, s, &self.packages, &features[i]);
            out.push((features[i].clone(), issues));
            i = i + 1;
        }
        proof {
            assert forall|x: Seq<char>| str_views(self.features@).contains(x) <==> exists|j: int| 0 <= j < out@.len() && (#[trigger] out@[j]).0@ == x by {
                assert(str_views(features@).contains(x) <==> str_views(self.features@).contains(x));
                if str_views(self.features@).contains(x) {
                    assert(str_views(features@).contains(x));
                    let j = choose|j: int| 0 <= j < str_views(features@).len() && #[trigger] str_views(features@)[j] == x;
                    assert(out@[j].0@ == x);
                }
                if exists|j: int| 0 <= j < out@.len() && (#[trigger] out@[j]).0@ == x {
                    let j = choose|j: int| 0 <= j < out@.len() && (#[trigger] out@[j]).0@ == x;
                    assert(str_views(features@)[j] == x);
                }
            }
            assert forall|a: int, b: int| 0 <= a < b < out@.len() implies out@[a].0@ != out@[b].0@ by {
                assert(str_views(features@)[a] != str_views(features@)[b]);
            }
        }
        out
    }

    /// The entry that fixes a missing propagation of `f` to `dep`.
    pub fn fix_entry(&self, dep: &RenamedPackage, f: &String) -> (r: String)
        ensures
            r@ == crate::lint::fix_text(*dep, f@, match self.feature_enables_dep {
                Some(v) => v@,
                None => Seq::empty(),
            }),
    {
        match &self.feature_enables_dep {
            Some(v) => crate::lint::fix_entry(dep, f, v),
            None => {
                let none: Vec<(String, String)> = Vec::new();
                assert(none@ =~= Seq::<(String, String)>::empty());
                crate::lint::fix_entry(dep, f, &none)
            },
        }
    }
}

/// `v` holds one run per distinct feature of `features`, each with exactly the
/// findings of that feature.
pub open spec fn runs_all(meta: Metadata, g: Map<FeatureNode, Set<FeatureNode>>, s: PropagateSettings, packages: Seq<String>, features: Seq<String>, v: Seq<(String, Vec<Issue>)>) -> bool {
    &&& forall|x: Seq<char>| str_views(features).contains(x) <==> exists|j: int| 0 <= j < v.len() && (#[trigger] v[j]).0@ == x
    &&& forall|a: int, b: int| 0 <= a < b < v.len() ==> v[a].0@ != v[b].0@
    &&& forall|j: int| 0 <= j < v.len() ==> issue_views((#[trigger] v[j]).1@) == package_findings(meta, g, s, packages, v[j].0@, meta.packages@.len() as int)
}

/// A feature never enables another feature directly.
#[derive(Debug, Clone)]
pub struct NeverEnablesCmd {
    pub cargo_args: CargoArgs,
    pub precondition: String,
    pub stays_disabled: String,
}

impl NeverEnablesCmd {
    /// The offending packages and the dependencies they enable the feature on.
    pub fn run(&self, meta: &Metadata) -> (r: Vec<(usize, RenamedPackage)>)
        ensures
            crate::lint::never_enables_result(*meta, self.precondition@, self.stays_disabled@, r@),
    {
        never_enables(meta, &self.precondition, &self.stays_disabled)
    }
}

/// A feature never implies another feature, transitively.
#[derive(Debug, Clone)]
pub struct NeverImpliesCmd {
    pub cargo_args: CargoArgs,
    pub precondition: String,
    pub stays_disabled: String,
    pub show_source: bool,
    pub show_version: bool,
    pub path_delimiter: String,
}

impl NeverImpliesCmd {
    /// The first path, from a left-hand node with feature `precondition` to a node
    /// with feature `stays_disabled`, if there is one. The path ends at the first
    /// such node it meets and passes no node twice.
    pub fn run(&self, dag: &Dag<CrateAndFeature>) -> (r: Option<Path<CrateAndFeature>>)
        requires
            dag.wf(),
        ensures
            r matches Some(p) ==> p@.len() >= 1 && p@[0].1 == self.precondition@ && p@.last().1 == self.stays_disabled@
                && crate::dag::is_walk(dag@, p@),
            r matches Some(p) ==> p@.no_duplicates() && forall|k: int| 0 <= k < p@.len() - 1 ==> (#[trigger] p@[k]).1 != self.stays_disabled@,
            r is None ==> forall|n: FeatureNode, v: FeatureNode|
                #![trigger dag@.contains_key(n), reaches(dag@, n, v)]
                dag@.contains_key(n) && n.1 == self.precondition@ && reaches(dag@, n, v) ==> v.1 != self.stays_disabled@,
    {
        let nodes = dag.lhs_nodes();
        let mut i: usize = 0;
        while i < nodes.len()
            invariant
                dag.wf(),
                i <= nodes@.len(),
                crate::dag::views(nodes@).to_set() == dag@.dom(),
                forall|j: int, v: FeatureNode|
                    #![trigger nodes@[j], reaches(dag@, nodes@[j]@, v)]
                    0 <= j < i && nodes@[j]@.1 == self.precondition@ && reaches(dag@, nodes@[j]@, v) ==> v.1
                        != self.stays_disabled@,
            decreases nodes@.len() - i,
        {
            let n = &nodes[i];
            if n.1 == self.precondition {
                let pred = |m: &CrateAndFeature| -> (b: bool)
                    ensures
                        b == (m.1@ == self.stays_disabled@),
                {
                    m.1 == self.stays_disabled
                };
                let found = dag.reachable_predicate(n, pred);
                if let Some(p) = found {
                    proof {
                        let t = choose|t: CrateAndFeature| #[trigger] pred.ensures((&t,), true) && t@ == p@.last();
                        assert(t.1@ == self.stays_disabled@);
                        assert(p@[0] == n@);
                        assert(n.1@ == self.precondition@);
                        assert(p@.last() == t@);
                        assert(p@.last().1 == t.1@);
                        assert(p@[0].1 == n.1@);
                        assert(crate::dag::is_walk(dag@, p@));
                        assert(p@.len() >= 1 && p@[0].1 == self.precondition@ && p@.last().1 == self.stays_disabled@);
                        assert forall|k: int| 0 <= k < p@.len() - 1 implies (#[trigger] p@[k]).1 != self.stays_disabled@ by {
                            assert(crate::dag::is_walk(dag@, p@));
                            assert(dag@.contains_key(p@[k]));
                            dag.lemma_stored(p@[k]);
                            assert(pred.ensures((&dag.stored(p@[k]),), false));
                        }
                    }
                    return Some(p);
                }
                proof {
                    assert(found is None);
                    assert forall|v: FeatureNode| reaches(dag@, n@, v) implies v.1 != self.stays_disabled@ by {
                        if v == n@ {
                            assert(pred.ensures((n,), false));
                        } else {
                            assert(pred.ensures((&dag.stored(v),), false));
                            dag.lemma_stored(v);
                        }
                    }
                }
            }
            proof {
                assert forall|j: int, v: FeatureNode|
                    #![trigger nodes@[j], reaches(dag@, nodes@[j]@, v)]
                    0 <= j < i + 1 && nodes@[j]@.1 == self.precondition@ && reaches(dag@, nodes@[j]@, v) implies v.1
                        != self.stays_disabled@ by {
                    if j == i as int {
                        assert(nodes@[j] == *n);
                    }
                }
            }
            i = i + 1;
        }
        proof {
            assert forall|n: FeatureNode, v: FeatureNode|
                #![trigger dag@.contains_key(n), reaches(dag@, n, v)]
                dag@.contains_key(n) && n.1 == self.precondition@ && reaches(dag@, n, v) implies v.1 != self.stays_disabled@ by {
                assert(crate::dag::views(nodes@).to_set().contains(n));
                let j = choose|j: int| 0 <= j < crate::dag::views(nodes@).len() && crate::dag::views(nodes@)[j] == n;
                assert(nodes@[j]@ == n);
                assert(reaches(dag@, nodes@[j]@, v));
            }
        }
        None
    }

    /// The delimiter with `\n` and `\t` escapes turned into the characters.
    pub fn delimiter(&self) -> (r: String)
        ensures
            r@ == unescaped(self.path_delimiter@),
    {
        unescape(self.path_delimiter.as_str())
    }
}

/// `s` with each two-character escape `\n` and `\t`, read from the left,
/// replaced by its character.
pub open spec fn unescaped(s: Seq<char>) -> Seq<char>
    decreases s.len(),
{
    if s.len() == 0 {
        Seq::empty()
    } else if s.len() >= 2 && s[0] == '\\' && s[1] == 'n' {
        seq!['\n'] + unescaped(s.skip(2))
    } else if s.len() >= 2 && s[0] == '\\' && s[1] == 't' {
        seq!['\t'] + unescaped(s.skip(2))
    } else {
        seq![s[0]] + unescaped(s.skip(1))
    }
}

/// `s` with the two-character escapes `\n` and `\t` replaced.
pub fn unescape(s: &str) -> (r: String)
    ensures
        r@ == unescaped(s@),
{
    let v = crate::text::chars_of(s);
    let mut out: Vec<char> = Vec::new();
    let mut k: usize = 0;
    assert(v@.skip(0) =~= v@);
    while k < v.len()
        invariant
            k <= v@.len(),
            v@ == s@,
            out@ + unescaped(v@.skip(k as int)) == unescaped(s@),
        decreases v@.len() - k,
    {
        let ghost t = v@.skip(k as int);
        proof {
            if k + 1 < v.len() {
                assert(t.skip(2) =~= v@.skip(k as int + 2));
            }
            assert(t.skip(1) =~= v@.skip(k as int + 1));
            assert(t[0] == v@[k as int]);
        }
        if v[k] == '\\' && k + 1 < v.len() && v[k + 1] == 'n' {
            proof {
                assert(t[1] == v@[k as int + 1]);
                assert(out@.push('\n') + unescaped(t.skip(2)) =~= out@ + unescaped(t));
            }
            out.push('\n');
            k = k + 2;
        } else if v[k] == '\\' && k + 1 < v.len() && v[k + 1] == 't' {
            proof {
                assert(t[1] == v@[k as int + 1]);
                assert(out@.push('\t') + unescaped(t.skip(2)) =~= out@ + unescaped(t));
            }
            out.push('\t');
            k = k + 2;
        } else {
            proof {
                if k + 1 < v.len() {
                    assert(t[1] == v@[k as int + 1]);
                }
                assert(out@.push(v@[k as int]) + unescaped(t.skip(1)) =~= out@ + unescaped(t));
            }
            out.push(v[k]);
            k = k + 1;
        }
    }
    assert(out@ + unescaped(v@.skip(k as int)) =~= out@);
    crate::text::string_of(&out)
}

/// Only one feature enables a feature on the dependencies.
#[derive(Debug, Clone)]
pub struct OnlyEnablesCmd {
    pub cargo_args: CargoArgs,
    pub precondition: String,
    pub only_enables: String,
}

impl OnlyEnablesCmd {
    /// `(package, feature, dependency)` for each other feature that enables it.
    pub fn run(&self, meta: &Metadata) -> (r: Vec<(String, String, String)>)
        ensures
            crate::lint::only_enables_result(*meta, self.precondition@, self.only_enables@, r@),
    {
        only_enables(meta, &self.precondition, &self.only_enables)
    }
}

/// Explain what enables a feature.
#[derive(Debug, Clone)]
pub struct WhyEnabledCmd {
    pub cargo_args: CargoArgs,
    pub package: String,
    pub feature: String,
}

impl WhyEnabledCmd {
    /// The `(package, feature)` pairs that enable the feature.
    pub fn run(&self, meta: &Metadata, dag: &Dag<CrateAndFeature>) -> (r: Result<Vec<(String, String)>, WhyError>)
        requires
            dag.wf(),
        ensures
            (r == Err::<Vec<(String, String)>, WhyError>(WhyError::PackageNotFound)) == !exists|a: FeatureNode, b: FeatureNode|
                #[trigger] crate::lint::edge_into_pkg(*meta, dag@, self.package@, a, b),
            r matches Ok(v) ==> v@.len() > 0 && forall|i: int| 0 <= i < v@.len() ==> crate::lint::explains(*meta, dag@, self.package@, self.feature@, (#[trigger] v@[i]).0@, v@[i].1@),
            r matches Ok(v) ==> forall|a: FeatureNode, b: FeatureNode| #[trigger] crate::lint::edge_into_feat(*meta, dag@, self.package@, self.feature@, a, b)
                ==> crate::lint::listed2(v@, crate::lint::name_of(*meta, a.0), a.1),
            (r == Err::<Vec<(String, String)>, WhyError>(WhyError::FeatureNotFound)) == ((exists|a: FeatureNode, b: FeatureNode|
                #[trigger] crate::lint::edge_into_pkg(*meta, dag@, self.package@, a, b)) && !exists|a: FeatureNode, b: FeatureNode|
                #[trigger] crate::lint::edge_into_feat(*meta, dag@, self.package@, self.feature@, a, b)),
    {
        why_enabled(meta, dag, &self.package, &self.feature)
    }
}

/// Dependencies listed as normal and as dev dependency.
#[derive(Debug, Clone)]
pub struct DuplicateDepsCmd {
    pub cargo_args: CargoArgs,
}

impl DuplicateDepsCmd {
    /// `(package, dependency)` for every duplicate.
    pub fn run(&self, meta: &Metadata) -> (r: Vec<(String, String)>)
        ensures
            forall|k: int| 0 <= k < r@.len() ==> crate::lint::dup_pair(*meta, (#[trigger] r@[k]).0@, r@[k].1@),
            forall|i: int, a: int| #[trigger] crate::lint::duplicated(*meta, i, a) ==> crate::lint::listed2(
                r@,
                meta.packages@[i].name@,
                meta.packages@[i].dependencies@[a].name@,
            ),
    {
        duplicate_deps(meta)
    }
}

/// Checks of the no-std configuration.
#[derive(Debug, Clone)]
pub struct NoStdCmd {
    pub sub: NoStdSubCmd,
}

/// The no-std checks.
#[derive(Debug, Clone)]
pub enum NoStdSubCmd {
    DefaultFeaturesDisabled(DefaultFeaturesDisabledCmd),
}

/// Default features of no-std dependencies are disabled in no-std crates.
#[derive(Debug, Clone)]
pub struct DefaultFeaturesDisabledCmd {
    pub cargo_args: CargoArgs,
    pub fix: bool,
}

/// Move dependencies and features around.
#[derive(Debug)]
pub struct TransposeCmd {
    pub subcommand: TransposeSubCmd,
}

/// The transpose commands.
#[derive(Debug)]
pub enum TransposeSubCmd {
    Dependency(DependencyCmd),
    Features(FeaturesCmd),
}

/// Transpose dependencies.
#[derive(Debug)]
pub struct DependencyCmd {
    pub subcommand: DependencySubCmd,
}

/// The dependency commands.
#[derive(Debug)]
pub enum DependencySubCmd {
    LiftToWorkspace(LiftToWorkspaceCmd),
}

/// Transpose features.
#[derive(Debug)]
pub struct FeaturesCmd {
    pub subcommand: FeaturesSubCmd,
}

/// The feature commands.
#[derive(Debug)]
pub enum FeaturesSubCmd {
    StripDevOnly(StripDevDepsCmd),
}

/// How to pick the version for the whole workspace.
#[derive(Debug, Clone, Copy, PartialEq, Eq, Structural)]
pub enum VersionSelectorMode {
    /// Only one version is used in the workspace.
    Unambiguous,
    /// A given version.
    Exact,
    /// The highest version that is used.
    Highest,
}

/// Lift dependencies into the workspace.
#[derive(Debug, Clone)]
pub struct LiftToWorkspaceCmd {
    pub cargo_args: CargoArgs,
    pub dependencies: Vec<String>,
    pub fix: bool,
    pub version_selector: VersionSelectorMode,
    pub skip_package: Option<String>,
    pub source_location: Option<SourceLocationSelector>,
    pub exact_version: Option<String>,
    pub ignore_errors: bool,
}

/// Strip features of dependencies that are only dev dependencies.
#[derive(Debug, Clone)]
pub struct StripDevDepsCmd {
    pub cargo_args: CargoArgs,
    pub packages: Option<Vec<String>>,
}

/// Why a dependency cannot be lifted.
#[derive(Debug, Clone, PartialEq, Eq)]
pub enum LiftPlanError {
    /// `--exact-version` without the exact selector.
    ExactWithoutSelector,
    /// Used both by path and from a registry.
    MixedSources,
    /// Not used in the workspace.
    Unused,
    /// Used with and without an alias: `(alias, packages)` and the packages without.
    MixedAliases { renames: Vec<(String, Vec<String>)>, unrenamed: Vec<String> },
    /// Used under several aliases.
    ConflictingAliases { renames: Vec<(String, Vec<String>)> },
}

impl LiftToWorkspaceCmd {
    /// `--exact-version` needs `--version-selector=exact`.
    pub fn validate_args(&self) -> (r: Result<(), LiftPlanError>)
        ensures
            r is Err <==> (self.exact_version is Some && self.version_selector != VersionSelectorMode::Exact),
    {
        if self.exact_version.is_some() && self.version_selector != VersionSelectorMode::Exact {
            return Err(LiftPlanError::ExactWithoutSelector);
        }
        Ok(())
    }

    /// Whether dependency `name` is used by path, from a registry, or both.
    pub fn detect_source_location(&self, meta: &Metadata, name: &String) -> (r: Result<SourceLocationSelector, LiftPlanError>)
        ensures
            r == (if used_from(*meta, name@, true) && used_from(*meta, name@, false) {
                Err::<SourceLocationSelector, LiftPlanError>(LiftPlanError::MixedSources)
            } else if used_from(*meta, name@, true) {
                Ok(SourceLocationSelector::Local)
            } else if used_from(*meta, name@, false) {
                Ok(SourceLocationSelector::Remote)
            } else {
                Err(LiftPlanError::Unused)
            }),
    {
        let mut local = false;
        let mut remote = false;
        let mut i: usize = 0;
        while i < meta.packages.len()
            invariant
                i <= meta.packages@.len(),
                local == used_before(*meta, name@, true, i as int, 0),
                remote == used_before(*meta, name@, false, i as int, 0),
            decreases meta.packages@.len() - i,
        {
            let pkg = &meta.packages[i];
            let mut d: usize = 0;
            while d < pkg.dependencies.len()
                invariant
                    i < meta.packages@.len(),
                    *pkg == meta.packages@[i as int],
                    d <= pkg.dependencies@.len(),
                    local == used_before(*meta, name@, true, i as int, d as int),
                    remote == used_before(*meta, name@, false, i as int, d as int),
                decreases pkg.dependencies@.len() - d,
            {
                let dep = &pkg.dependencies[d];
                if dep.name == *name {
                    if dep.path.is_some() {
                        local = true;
                    } else {
                        remote = true;
                    }
                }
                proof {
                    assert forall|by_path: bool| used_before(*meta, name@, by_path, i as int, d + 1) == (used_before(*meta, name@, by_path, i as int, d as int)
                        || (dep.name@ == name@ && dep.path.is_some() == by_path)) by {
                        if used_before(*meta, name@, by_path, i as int, d + 1) {
                            let (a, b) = choose|a: int, b: int| #![trigger meta.packages@[a].dependencies@[b]] uses_at(*meta, name@, by_path, a, b) && (a < i as int || (a == i as int && b < d + 1));
                            if !(a == i as int && b == d as int) {
                                assert(uses_at(*meta, name@, by_path, a, b) && (a < i as int || (a == i as int && b < d as int)));
                            }
                        }
                        if dep.name@ == name@ && dep.path.is_some() == by_path {
                            assert(uses_at(*meta, name@, by_path, i as int, d as int));
                        }
                        if used_before(*meta, name@, by_path, i as int, d as int) {
                            let (a, b) = choose|a: int, b: int| #![trigger meta.packages@[a].dependencies@[b]] uses_at(*meta, name@, by_path, a, b) && (a < i as int || (a == i as int && b < d as int));
                            assert(uses_at(*meta, name@, by_path, a, b) && (a < i as int || (a == i as int && b < d + 1)));
                        }
                    }
                }
                d = d + 1;
            }
            proof {
                assert forall|by_path: bool| used_before(*meta, name@, by_path, i + 1, 0) == used_before(*meta, name@, by_path, i as int, pkg.dependencies@.len() as int) by {
                    if used_before(*meta, name@, by_path, i + 1, 0) {
                        let (a, b) = choose|a: int, b: int| #![trigger meta.packages@[a].dependencies@[b]] uses_at(*meta, name@, by_path, a, b) && (a < i + 1 || (a == i + 1 && b < 0));
                        assert(uses_at(*meta, name@, by_path, a, b) && (a < i as int || (a == i as int && b < pkg.dependencies@.len())));
                    }
                    if used_before(*meta, name@, by_path, i as int, pkg.dependencies@.len() as int) {
                        let (a, b) = choose|a: int, b: int| #![trigger meta.packages@[a].dependencies@[b]] uses_at(*meta, name@, by_path, a, b) && (a < i as int || (a == i as int && b < pkg.dependencies@.len()));
                        assert(uses_at(*meta, name@, by_path, a, b) && (a < i + 1 || (a == i + 1 && b < 0)));
                    }
                }
            }
            i = i + 1;
        }
        proof {
            assert forall|by_path: bool| used_before(*meta, name@, by_path, meta.packages@.len() as int, 0) == used_from(*meta, name@, by_path) by {
                if used_from(*meta, name@, by_path) {
                    let (a, b) = choose|a: int, b: int| #![trigger meta.packages@[a].dependencies@[b]] uses_at(*meta, name@, by_path, a, b);
                    assert(uses_at(*meta, name@, by_path, a, b) && (a < meta.packages@.len() || (a == meta.packages@.len() && b < 0)));
                }
            }
        }
        if local && remote {
            Err(LiftPlanError::MixedSources)
        } else if local {
            Ok(SourceLocationSelector::Local)
        } else if remote {
            Ok(SourceLocationSelector::Remote)
        } else {
            Err(LiftPlanError::Unused)
        }
    }

    /// The alias that every user of dependency `name` agrees on, if any; an error
    /// when some use an alias and some do not, or when the aliases differ.
    /// Packages named by `--skip-package` are left out.
    pub fn detect_rename(&self, meta: &Metadata, name: &String) -> (r: Result<Option<String>, LiftPlanError>)
        ensures
            (r == Ok::<Option<String>, LiftPlanError>(None)) == !user_before(*meta, name@, self.skip_package, true, meta.packages@.len() as int, 0),
            (r matches Err(LiftPlanError::MixedAliases { .. })) == (user_before(*meta, name@, self.skip_package, true, meta.packages@.len() as int, 0)
                && user_before(*meta, name@, self.skip_package, false, meta.packages@.len() as int, 0)),
            r matches Ok(Some(_)) ==> user_before(*meta, name@, self.skip_package, true, meta.packages@.len() as int, 0)
                && !user_before(*meta, name@, self.skip_package, false, meta.packages@.len() as int, 0),
            r matches Ok(Some(a)) ==> forall|x: Seq<char>| #[trigger] alias_before(*meta, name@, self.skip_package, x, meta.packages@.len() as int, 0)
                <==> x == a@,
            (exists|a: Seq<char>| #[trigger] alias_before(*meta, name@, self.skip_package, a, meta.packages@.len() as int, 0))
                && (forall|x: Seq<char>, y: Seq<char>| #[trigger] alias_before(*meta, name@, self.skip_package, x, meta.packages@.len() as int, 0)
                && #[trigger] alias_before(*meta, name@, self.skip_package, y, meta.packages@.len() as int, 0) ==> x == y)
                && !user_before(*meta, name@, self.skip_package, false, meta.packages@.len() as int, 0) ==> r is Ok && r->Ok_0 is Some,
            (exists|x: Seq<char>, y: Seq<char>| x != y && #[trigger] alias_before(*meta, name@, self.skip_package, x, meta.packages@.len() as int, 0)
                && #[trigger] alias_before(*meta, name@, self.skip_package, y, meta.packages@.len() as int, 0)) ==> r is Err,
    {
        let mut renames: Vec<(String, Vec<String>)> = Vec::new();
        let mut unrenamed: Vec<String> = Vec::new();
        let mut i: usize = 0;
        while i < meta.packages.len()
            invariant
                i <= meta.packages@.len(),
                (renames@.len() > 0) == user_before(*meta, name@, self.skip_package, true, i as int, 0),
                forall|x: Seq<char>| #[trigger] group_keys(renames@).contains(x) <==> alias_before(*meta, name@, self.skip_package, x, i as int, 0),
                group_keys(renames@).no_duplicates(),
                (unrenamed@.len() > 0) == user_before(*meta, name@, self.skip_package, false, i as int, 0),
            decreases meta.packages@.len() - i,
        {
            let pkg = &meta.packages[i];
            let skip = match &self.skip_package {
                Some(s) => *s == pkg.name,
                None => false,
            };
            let mut d: usize = 0;
            while d < pkg.dependencies.len()
                invariant
                    i < meta.packages@.len(),
                    *pkg == meta.packages@[i as int],
                    skip == skipped(self.skip_package, pkg.name@),
                    d <= pkg.dependencies@.len(),
                    (renames@.len() > 0) == user_before(*meta, name@, self.skip_package, true, i as int, d as int),
                    forall|x: Seq<char>| #[trigger] group_keys(renames@).contains(x) <==> alias_before(*meta, name@, self.skip_package, x, i as int, d as int),
                    group_keys(renames@).no_duplicates(),
                    (unrenamed@.len() > 0) == user_before(*meta, name@, self.skip_package, false, i as int, d as int),
                decreases pkg.dependencies@.len() - d,
            {
                let dep = &pkg.dependencies[d];
                if !skip && dep.name == *name {
                    match &dep.rename {
                        Some(r) if !(*r == *name) => {
                            add_to_group(&mut renames, r, &pkg.name);
                        },
                        _ => {
                            if !crate::lint::contains_string(&unrenamed, &pkg.name) {
                                insert_sorted_string(&mut unrenamed, &pkg.name);
                            }
                        },
                    }
                }
                proof {
                    assert forall|al: bool| user_before(*meta, name@, self.skip_package, al, i as int, d + 1) == (user_before(*meta, name@, self.skip_package, al, i as int, d as int)
                        || user_at(*meta, name@, self.skip_package, al, i as int, d as int)) by {
                        if user_before(*meta, name@, self.skip_package, al, i as int, d + 1) {
                            let (a, b) = choose|a: int, b: int| #![trigger meta.packages@[a].dependencies@[b]] user_at(*meta, name@, self.skip_package, al, a, b) && (a < i as int || (a == i as int && b < d + 1));
                            if !(a == i as int && b == d as int) {
                                assert(user_at(*meta, name@, self.skip_package, al, a, b) && (a < i as int || (a == i as int && b < d as int)));
                            }
                        }
                        if user_before(*meta, name@, self.skip_package, al, i as int, d as int) {
                            let (a, b) = choose|a: int, b: int| #![trigger meta.packages@[a].dependencies@[b]] user_at(*meta, name@, self.skip_package, al, a, b) && (a < i as int || (a == i as int && b < d as int));
                            assert(user_at(*meta, name@, self.skip_package, al, a, b) && (a < i as int || (a == i as int && b < d + 1)));
                        }
                        if user_at(*meta, name@, self.skip_package, al, i as int, d as int) {
                            assert(user_at(*meta, name@, self.skip_package, al, i as int, d as int) && (i as int == i as int && (d as int) < d + 1));
                        }
                    }
                }
                proof {
                    let m = *meta;
                    let sk = self.skip_package;
                    assert forall|x: Seq<char>| alias_before(m, name@, sk, x, i as int, d + 1) == (alias_before(m, name@, sk, x, i as int, d as int)
                        || (user_at(m, name@, sk, true, i as int, d as int) && dep.rename->0@ == x)) by {
                        if alias_before(m, name@, sk, x, i as int, d + 1) {
                            let (a, b) = choose|a: int, b: int| #![trigger m.packages@[a].dependencies@[b]] user_at(m, name@, sk, true, a, b)
                                && m.packages@[a].dependencies@[b].rename->0@ == x && (a < i as int || (a == i as int && b < d + 1));
                            if !(a == i as int && b == d as int) {
                                assert(user_at(m, name@, sk, true, a, b) && m.packages@[a].dependencies@[b].rename->0@ == x && (a < i as int || (a == i as int && b < d as int)));
                            }
                        }
                        if alias_before(m, name@, sk, x, i as int, d as int) {
                            let (a, b) = choose|a: int, b: int| #![trigger m.packages@[a].dependencies@[b]] user_at(m, name@, sk, true, a, b)
                                && m.packages@[a].dependencies@[b].rename->0@ == x && (a < i as int || (a == i as int && b < d as int));
                            assert(user_at(m, name@, sk, true, a, b) && m.packages@[a].dependencies@[b].rename->0@ == x && (a < i as int || (a == i as int && b < d + 1)));
                        }
                        if user_at(m, name@, sk, true, i as int, d as int) && dep.rename->0@ == x {
                            assert(user_at(m, name@, sk, true, i as int, d as int) && m.packages@[i as int].dependencies@[d as int].rename->0@ == x && (i as int == i as int && (d as int) < d + 1));
                        }
                    }
                }
                d = d + 1;
            }
            proof {
                assert forall|al: bool| user_before(*meta, name@, self.skip_package, al, i + 1, 0) == user_before(*meta, name@, self.skip_package, al, i as int, pkg.dependencies@.len() as int) by {
                    if user_before(*meta, name@, self.skip_package, al, i + 1, 0) {
                        let (a, b) = choose|a: int, b: int| #![trigger meta.packages@[a].dependencies@[b]] user_at(*meta, name@, self.skip_package, al, a, b) && (a < i + 1 || (a == i + 1 && b < 0));
                        assert(user_at(*meta, name@, self.skip_package, al, a, b) && (a < i as int || (a == i as int && b < pkg.dependencies@.len())));
                    }
                    if user_before(*meta, name@, self.skip_package, al, i as int, pkg.dependencies@.len() as int) {
                        let (a, b) = choose|a: int, b: int| #![trigger meta.packages@[a].dependencies@[b]] user_at(*meta, name@, self.skip_package, al, a, b) && (a < i as int || (a == i as int && b < pkg.dependencies@.len()));
                        assert(user_at(*meta, name@, self.skip_package, al, a, b) && (a < i + 1 || (a == i + 1 && b < 0)));
                    }
                }
            }
            proof {
                let m = *meta;
                let sk = self.skip_package;
                assert forall|x: Seq<char>| alias_before(m, name@, sk, x, i + 1, 0) == alias_before(m, name@, sk, x, i as int, pkg.dependencies@.len() as int) by {
                    if alias_before(m, name@, sk, x, i + 1, 0) {
                        let (a, b) = choose|a: int, b: int| #![trigger m.packages@[a].dependencies@[b]] user_at(m, name@, sk, true, a, b)
                            && m.packages@[a].dependencies@[b].rename->0@ == x && (a < i + 1 || (a == i + 1 && b < 0));
                        assert(user_at(m, name@, sk, true, a, b) && m.packages@[a].dependencies@[b].rename->0@ == x && (a < i as int || (a == i as int && b < pkg.dependencies@.len())));
                    }
                    if alias_before(m, name@, sk, x, i as int, pkg.dependencies@.len() as int) {
                        let (a, b) = choose|a: int, b: int| #![trigger m.packages@[a].dependencies@[b]] user_at(m, name@, sk, true, a, b)
                            && m.packages@[a].dependencies@[b].rename->0@ == x && (a < i as int || (a == i as int && b < pkg.dependencies@.len()));
                        assert(user_at(m, name@, sk, true, a, b) && m.packages@[a].dependencies@[b].rename->0@ == x && (a < i + 1 || (a == i + 1 && b < 0)));
                    }
                }
            }
            i = i + 1;
        }
        proof {
            let gk = group_keys(renames@);
            if renames@.len() >= 2 {
                assert(gk[0] != gk[1]);
                assert(gk.contains(gk[0]) && gk.contains(gk[1]));
            }
            if renames@.len() == 1 {
                assert(gk.contains(gk[0]));
                assert forall|x: Seq<char>| #[trigger] gk.contains(x) implies x == gk[0] by {
                    let j = choose|j: int| 0 <= j < gk.len() && #[trigger] gk[j] == x;
                }
            }
            if renames@.len() <= 1 {
                assert forall|x: Seq<char>, y: Seq<char>| x != y && #[trigger] alias_before(*meta, name@, self.skip_package, x, meta.packages@.len() as int, 0)
                    && #[trigger] alias_before(*meta, name@, self.skip_package, y, meta.packages@.len() as int, 0) implies false by {
                    assert(gk.contains(x) && gk.contains(y));
                    let j = choose|j: int| 0 <= j < gk.len() && #[trigger] gk[j] == x;
                    let k = choose|k: int| 0 <= k < gk.len() && #[trigger] gk[k] == y;
                }
            }
        }
        if renames.len() > 0 && unrenamed.len() > 0 {
            Err(LiftPlanError::MixedAliases { renames, unrenamed })
        } else if renames.len() == 0 {
            Ok(None)
        } else if renames.len() == 1 {
            Ok(Some(renames[0].0.clone()))
        } else {
            Err(LiftPlanError::ConflictingAliases { renames })
        }
    }
}

/// Record `b` of package `a` names `name` and comes by path (or not).
pub open spec fn uses_at(meta: Metadata, name: Seq<char>, by_path: bool, a: int, b: int) -> bool {
    &&& 0 <= a < meta.packages@.len()
    &&& 0 <= b < meta.packages@[a].dependencies@.len()
    &&& meta.packages@[a].dependencies@[b].name@ == name
    &&& meta.packages@[a].dependencies@[b].path.is_some() == by_path
}

/// Some record names `name` and comes by path (or not).
pub open spec fn used_from(meta: Metadata, name: Seq<char>, by_path: bool) -> bool {
    exists|a: int, b: int| #![trigger meta.packages@[a].dependencies@[b]] uses_at(meta, name, by_path, a, b)
}

/// Some record before record `j` of package `i` names `name` and comes by path (or not).
pub open spec fn used_before(meta: Metadata, name: Seq<char>, by_path: bool, i: int, j: int) -> bool {
    exists|a: int, b: int| #![trigger meta.packages@[a].dependencies@[b]] uses_at(meta, name, by_path, a, b) && (a < i || (a == i && b < j))
}

/// Whether `--skip-package` names package `name`.
pub open spec fn skipped(skip: Option<String>, name: Seq<char>) -> bool {
    match skip {
        Some(s) => s@ == name,
        None => false,
    }
}

/// Record `b` of package `a` uses dependency `name`, the package is not skipped,
/// and the record renames it to another name (`aliased`) or does not.
pub open spec fn user_at(meta: Metadata, name: Seq<char>, skip: Option<String>, aliased: bool, a: int, b: int) -> bool {
    &&& 0 <= a < meta.packages@.len()
    &&& 0 <= b < meta.packages@[a].dependencies@.len()
    &&& meta.packages@[a].dependencies@[b].name@ == name
    &&& !skipped(skip, meta.packages@[a].name@)
    &&& aliased == (meta.packages@[a].dependencies@[b].rename matches Some(r) && r@ != name)
}

/// Some record before record `j` of package `i` is such a use.
pub open spec fn user_before(meta: Metadata, name: Seq<char>, skip: Option<String>, aliased: bool, i: int, j: int) -> bool {
    exists|a: int, b: int| #![trigger meta.packages@[a].dependencies@[b]] user_at(meta, name, skip, aliased, a, b) && (a < i || (a == i && b < j))
}

/// Filter `f` is `regex:` followed by a pattern that the regex engine refuses
/// when asked about `name`.
pub open spec fn bad_regex_at(f: Seq<char>, name: Seq<char>) -> bool {
    starts_with(f, "regex:"@) && regex_accepts(f.skip(6), name) is None
}

/// One of the filters is a `regex:` filter that the regex engine refuses when
/// asked about `name`.
pub open spec fn bad_regex_for(filters: Seq<String>, name: Seq<char>) -> bool {
    exists|i: int| 0 <= i < filters.len() && bad_regex_at(#[trigger] filters[i]@, name)
}

/// Whether filter `f` is `regex:` followed by a valid pattern that matches `name`.
pub open spec fn filter_matches(f: Seq<char>, name: Seq<char>) -> bool {
    starts_with(f, "regex:"@) && regex_accepts(f.skip(6), name) == Some(true)
}

/// Whether `name` is named by one of the filters or matched by one of them.
pub open spec fn wanted_by(filters: Seq<String>, name: Seq<char>) -> bool {
    (exists|i: int| 0 <= i < filters.len() && (#[trigger] filters[i])@ == name) || exists|i: int|
        0 <= i < filters.len() && filter_matches(#[trigger] filters[i]@, name)
}

/// Record `b` of package `a` is a dependency the lift command selects.
pub open spec fn selected_at(meta: Metadata, filters: Seq<String>, loc: Option<SourceLocationSelector>, a: int, b: int) -> bool {
    &&& 0 <= a < meta.packages@.len()
    &&& 0 <= b < meta.packages@[a].dependencies@.len()
    &&& wanted_by(filters, meta.packages@[a].dependencies@[b].name@)
    &&& match loc {
        Some(SourceLocationSelector::Local) => meta.packages@[a].dependencies@[b].path is Some,
        Some(SourceLocationSelector::Remote) => meta.packages@[a].dependencies@[b].path is None,
        None => true,
    }
}

/// Some record before record `j` of package `i` is selected and named `x`.
pub open spec fn selected_before(meta: Metadata, filters: Seq<String>, loc: Option<SourceLocationSelector>, x: Seq<char>, i: int, j: int) -> bool {
    exists|a: int, b: int|
        #![trigger meta.packages@[a].dependencies@[b]]
        selected_at(meta, filters, loc, a, b) && meta.packages@[a].dependencies@[b].name@ == x && (a < i || (a == i && b < j))
}

/// Insert `s` into the sorted list `v`.
fn insert_sorted_string(v: &mut Vec<String>, s: &String)
    ensures
        final(v)@.len() == old(v)@.len() + 1,
        exists|k: int| 0 <= k <= old(v)@.len() && str_views(final(v)@) == str_views(old(v)@).insert(k, s@),
{
    let mut i: usize = v.len();
    while i > 0 && !value_le(&v[i - 1], s)
        invariant
            i <= v@.len(),
        decreases i,
    {
        i = i - 1;
    }
    let ghost o = v@;
    v.insert(i, s.clone());
    assert(str_views(v@) =~= str_views(o).insert(i as int, s@));
}

/// Add `member` to the group keyed `key`, keeping the keys sorted.
fn add_to_group(groups: &mut Vec<(String, Vec<String>)>, key: &String, member: &String)
    ensures
        final(groups)@.len() >= old(groups)@.len(),
        final(groups)@.len() > 0,
        forall|x: Seq<char>| #[trigger] group_keys(final(groups)@).contains(x) <==> group_keys(old(groups)@).contains(x) || x == key@,
        group_keys(old(groups)@).no_duplicates() ==> group_keys(final(groups)@).no_duplicates(),
{
    let ghost ok = group_keys(groups@);
    let mut i: usize = 0;
    while i < groups.len()
        invariant
            *groups == *old(groups),
            ok == group_keys(old(groups)@),
            i <= groups@.len(),
            forall|j: int| 0 <= j < i ==> groups@[j].0@ != key@,
        decreases groups@.len() - i,
    {
        if groups[i].0 == *key {
            let mut entry: (String, Vec<String>) = (String::new(), Vec::new());
            groups.set_and_swap(i, &mut entry);
            entry.1.push(member.clone());
            groups.set_and_swap(i, &mut entry);
            proof {
                assert(group_keys(groups@) =~= group_keys(old(groups)@));
                assert(group_keys(groups@)[i as int] == key@);
                assert(group_keys(groups@) == group_keys(old(groups)@));
                assert(group_keys(groups@) == ok);
                assert forall|x: Seq<char>| #[trigger] group_keys(groups@).contains(x) <==> group_keys(old(groups)@).contains(x) || x == key@ by {
                    if x == key@ {
                        assert(group_keys(groups@)[i as int] == x);
                    }
                }
            }
            assert(groups@.len() > 0);
            return;
        }
        i = i + 1;
    }
    let mut at: usize = groups.len();
    while at > 0 && !value_le(&groups[at - 1].0, key)
        invariant
            *groups == *old(groups),
            forall|j: int| 0 <= j < groups@.len() ==> groups@[j].0@ != key@,
            at <= groups@.len(),
        decreases at,
    {
        at = at - 1;
    }
    let v: Vec<String> = vec![member.clone()];
    let ghost o = group_keys(groups@);
    groups.insert(at, (key.clone(), v));
    proof {
        assert(group_keys(groups@) =~= o.insert(at as int, key@));
        assert(!o.contains(key@)) by {
            if o.contains(key@) {
                let j = choose|j: int| 0 <= j < o.len() && #[trigger] o[j] == key@;
                assert(old(groups)@[j].0@ == key@);
            }
        }
        assert forall|x: Seq<char>| #[trigger] group_keys(groups@).contains(x) <==> o.contains(x) || x == key@ by {
            lemma_insert_contains(o, at as int, key@, x);
        }
        if o.no_duplicates() {
            assert forall|a: int, b: int| 0 <= a < b < group_keys(groups@).len() implies group_keys(groups@)[a] != group_keys(groups@)[b] by {
                let w = group_keys(groups@);
                let k = at as int;
                if a == k {
                    assert(w[b] == o[b - 1]);
                    assert(o.contains(w[b]));
                } else if b == k {
                    assert(w[a] == o[a]);
                    assert(o.contains(w[a]));
                } else {
                    let a2 = if a < k { a } else { a - 1 };
                    let b2 = if b < k { b } else { b - 1 };
                    assert(w[a] == o[a2] && w[b] == o[b2]);
                }
            }
        }
    }
}

/// The keys of a list of groups.
pub open spec fn group_keys(s: Seq<(String, Vec<String>)>) -> Seq<Seq<char>> {
    s.map_values(|e: (String, Vec<String>)| e.0@)
}

/// Some use before record `j` of package `i` renames dependency `name` to `x`.
pub open spec fn alias_before(meta: Metadata, name: Seq<char>, skip: Option<String>, x: Seq<char>, i: int, j: int) -> bool {
    exists|a: int, b: int|
        #![trigger meta.packages@[a].dependencies@[b]]
        user_at(meta, name, skip, true, a, b) && meta.packages@[a].dependencies@[b].rename->0@ == x && (a < i || (a == i && b < j))
}


/// Whether regular expression `pattern` is valid and matches somewhere in `text`.
pub uninterp spec fn regex_accepts(pattern: Seq<char>, text: Seq<char>) -> Option<bool>;

/// Relies on `regex::Regex::new` and `Regex::is_match`: `None` for an invalid
/// pattern, else whether it matches somewhere in `text`.
#[verifier::external_body]
fn regex_match(pattern: &str, text: &str) -> (r: Option<bool>)
    ensures
        r == regex_accepts(pattern@, text@),
{
    regex::Regex::new(pattern).ok().map(|re| re.is_match(text))
}

/// The comparators of a version requirement: operator, major, minor, patch and
/// pre-release text.
pub uninterp spec fn req_comparators(s: Seq<char>) -> Option<Seq<(ReqOp, u64, Option<u64>, Option<u64>, Seq<char>)>>;

/// The operator of a version comparator.
#[derive(Debug, Clone, Copy, PartialEq, Eq, Structural)]
pub enum ReqOp {
    Exact,
    Greater,
    GreaterEq,
    Less,
    LessEq,
    Tilde,
    Caret,
    Wildcard,
    /// An operator added to semver after this was written.
    Other,
}

/// Relies on `semver::VersionReq::parse`: the comparators of a requirement, or
/// `None` when it does not parse.
#[verifier::external_body]
fn comparators_of(req: &str) -> (r: Option<Vec<(ReqOp, u64, Option<u64>, Option<u64>, String)>>)
    ensures
        match r {
            Some(v) => req_comparators(req@) == Some(v@.map_values(|c: (ReqOp, u64, Option<u64>, Option<u64>, String)| (c.0, c.1, c.2, c.3, c.4@))),
            None => req_comparators(req@) is None,
        },
{
    let op = |o: &Op| match o { Op::Exact => ReqOp::Exact, Op::Greater => ReqOp::Greater, Op::GreaterEq => ReqOp::GreaterEq,
        Op::Less => ReqOp::Less, Op::LessEq => ReqOp::LessEq, Op::Tilde => ReqOp::Tilde, Op::Caret => ReqOp::Caret,
        Op::Wildcard => ReqOp::Wildcard, _ => ReqOp::Other };
    let req = cargo_metadata::semver::VersionReq::parse(req).ok()?;
    Some(req.comparators.iter().map(|c| (op(&c.op), c.major, c.minor, c.patch, c.pre.as_str().to_string())).collect())
}

/// Why no version could be picked.
#[derive(Debug, Clone, PartialEq, Eq)]
pub enum VersionError {
    /// No requirement at all.
    NoVersions,
    /// Several requirements with the unambiguous selector: each with its count.
    Ambiguous { found: Vec<(String, usize)> },
    /// A requirement that is not one plain caret comparator.
    Unsupported { req: String },
    /// The exact selector without a version.
    MissingExact,
}

/// Whether `(a, b, c) <= (x, y, z)`.
pub open spec fn triple_le(p: (u64, u64, u64), q: (u64, u64, u64)) -> bool {
    p.0 < q.0 || (p.0 == q.0 && (p.1 < q.1 || (p.1 == q.1 && p.2 <= q.2)))
}

impl LiftToWorkspaceCmd {
    /// The names of the dependencies to lift, sorted and each once: a dependency
    /// is named in the filters, or matches one of the `regex:` filters, and comes
    /// from the selected source location.
    pub fn select_dependencies(&self, meta: &Metadata) -> (r: Result<Vec<String>, String>)
        ensures
            r matches Ok(v) ==> (forall|x: Seq<char>| #[trigger] str_views(v@).contains(x) <==> selected_before(
                *meta,
                self.dependencies@,
                self.source_location,
                x,
                meta.packages@.len() as int,
                0,
            )) && str_views(v@).no_duplicates(),
            r is Err ==> exists|x: Seq<char>| #[trigger] bad_regex_for(self.dependencies@, x),
    {
        let mut out: Vec<String> = Vec::new();
        let mut i: usize = 0;
        while i < meta.packages.len()
            invariant
                i <= meta.packages@.len(),
                forall|x: Seq<char>| #[trigger] str_views(out@).contains(x) <==> selected_before(*meta, self.dependencies@, self.source_location, x, i as int, 0),
                str_views(out@).no_duplicates(),
            decreases meta.packages@.len() - i,
        {
            let pkg = &meta.packages[i];
            let mut d: usize = 0;
            while d < pkg.dependencies.len()
                invariant
                    i < meta.packages@.len(),
                    *pkg == meta.packages@[i as int],
                    d <= pkg.dependencies@.len(),
                    forall|x: Seq<char>| #[trigger] str_views(out@).contains(x) <==> selected_before(*meta, self.dependencies@, self.source_location, x, i as int, d as int),
                    str_views(out@).no_duplicates(),
                decreases pkg.dependencies@.len() - d,
            {
                let dep = &pkg.dependencies[d];
                let wanted = match self.wants_dependency(&dep.name) {
                    Ok(b) => b,
                    Err(e) => {
                        assert(bad_regex_for(self.dependencies@, dep.name@));
                        return Err(e);
                    },
                };
                let local = dep.path.is_some();
                let place_ok = match self.source_location {
                    Some(SourceLocationSelector::Local) => local,
                    Some(SourceLocationSelector::Remote) => !local,
                    None => true,
                };
                let ghost o = str_views(out@);
                proof {
                    if o.contains(dep.name@) {
                        let j = choose|j: int| 0 <= j < o.len() && #[trigger] o[j] == dep.name@;
                        assert(out@[j]@ == dep.name@);
                    }
                    if exists|j: int| 0 <= j < out@.len() && (#[trigger] out@[j])@ == dep.name@ {
                        let j = choose|j: int| 0 <= j < out@.len() && (#[trigger] out@[j])@ == dep.name@;
                        assert(o[j] == dep.name@);
                    }
                }
                let sel = wanted && place_ok;
                if sel && !crate::lint::contains_string(&out, &dep.name) {
                    insert_sorted_string(&mut out, &dep.name);
                }
                proof {
                    let m = *meta;
                    let fs = self.dependencies@;
                    let sl = self.source_location;
                    assert(sel == selected_at(m, fs, sl, i as int, d as int));
                    if sel && !o.contains(dep.name@) {
                        let k = choose|k: int| 0 <= k <= o.len() && str_views(out@) == o.insert(k, dep.name@);
                        assert forall|a: int, b: int| 0 <= a < b < str_views(out@).len() implies str_views(out@)[a] != str_views(out@)[b] by {
                            let w = str_views(out@);
                            if a == k {
                                assert(w[b] == o[b - 1]);
                                assert(o.contains(w[b]));
                            } else if b == k {
                                assert(w[a] == o[a]);
                                assert(o.contains(w[a]));
                            } else {
                                let a2 = if a < k { a } else { a - 1 };
                                let b2 = if b < k { b } else { b - 1 };
                                assert(w[a] == o[a2] && w[b] == o[b2]);
                            }
                        }
                        assert forall|x: Seq<char>| #[trigger] str_views(out@).contains(x) implies o.contains(x) || x == dep.name@ by {
                            lemma_insert_contains(o, k, dep.name@, x);
                        }
                        assert forall|x: Seq<char>| o.contains(x) || x == dep.name@ implies #[trigger] str_views(out@).contains(x) by {
                            lemma_insert_contains(o, k, dep.name@, x);
                        }
                    } else if sel {
                        assert(str_views(out@) == o);
                        assert(o.contains(dep.name@)) by {
                            let j = choose|j: int| 0 <= j < out@.len() && #[trigger] out@[j]@ == dep.name@;
                            assert(o[j] == dep.name@);
                        }
                    }
                    assert forall|x: Seq<char>| selected_before(m, fs, sl, x, i as int, d + 1) == (selected_before(m, fs, sl, x, i as int, d as int)
                        || (selected_at(m, fs, sl, i as int, d as int) && dep.name@ == x)) by {
                        if selected_before(m, fs, sl, x, i as int, d + 1) {
                            let (a, b) = choose|a: int, b: int| #![trigger m.packages@[a].dependencies@[b]] selected_at(m, fs, sl, a, b)
                                && m.packages@[a].dependencies@[b].name@ == x && (a < i as int || (a == i as int && b < d + 1));
                            if !(a == i as int && b == d as int) {
                                assert(selected_at(m, fs, sl, a, b) && m.packages@[a].dependencies@[b].name@ == x && (a < i as int || (a == i as int && b < d as int)));
                            }
                        }
                        if selected_before(m, fs, sl, x, i as int, d as int) {
                            let (a, b) = choose|a: int, b: int| #![trigger m.packages@[a].dependencies@[b]] selected_at(m, fs, sl, a, b)
                                && m.packages@[a].dependencies@[b].name@ == x && (a < i as int || (a == i as int && b < d as int));
                            assert(selected_at(m, fs, sl, a, b) && m.packages@[a].dependencies@[b].name@ == x && (a < i as int || (a == i as int && b < d + 1)));
                        }
                        if selected_at(m, fs, sl, i as int, d as int) && dep.name@ == x {
                            assert(selected_at(m, fs, sl, i as int, d as int) && m.packages@[i as int].dependencies@[d as int].name@ == x && (i as int == i as int && (d as int) < d + 1));
                        }
                    }
                }
                d = d + 1;
            }
            proof {
                let m = *meta;
                let fs = self.dependencies@;
                let sl = self.source_location;
                assert forall|x: Seq<char>| selected_before(m, fs, sl, x, i + 1, 0) == selected_before(m, fs, sl, x, i as int, pkg.dependencies@.len() as int) by {
                    if selected_before(m, fs, sl, x, i + 1, 0) {
                        let (a, b) = choose|a: int, b: int| #![trigger m.packages@[a].dependencies@[b]] selected_at(m, fs, sl, a, b)
                            && m.packages@[a].dependencies@[b].name@ == x && (a < i + 1 || (a == i + 1 && b < 0));
                        assert(selected_at(m, fs, sl, a, b) && m.packages@[a].dependencies@[b].name@ == x && (a < i as int || (a == i as int && b < pkg.dependencies@.len())));
                    }
                    if selected_before(m, fs, sl, x, i as int, pkg.dependencies@.len() as int) {
                        let (a, b) = choose|a: int, b: int| #![trigger m.packages@[a].dependencies@[b]] selected_at(m, fs, sl, a, b)
                            && m.packages@[a].dependencies@[b].name@ == x && (a < i as int || (a == i as int && b < pkg.dependencies@.len()));
                        assert(selected_at(m, fs, sl, a, b) && m.packages@[a].dependencies@[b].name@ == x && (a < i + 1 || (a == i + 1 && b < 0)));
                    }
                }
            }
            i = i + 1;
        }
        Ok(out)
    }

    /// Whether dependency `name` is named by a filter, or matched by one of the
    /// `regex:` filters; an error for an invalid regular expression.
    pub fn wants_dependency(&self, name: &String) -> (r: Result<bool, String>)
        ensures
            r matches Ok(b) ==> b == wanted_by(self.dependencies@, name@),
            r is Err <==> bad_regex_for(self.dependencies@, name@),
    {
        proof {
            reveal_strlit("regex:");
        }
        let mut wanted = crate::lint::contains_string(&self.dependencies, name);
        let mut f: usize = 0;
        while f < self.dependencies.len()
            invariant
                f <= self.dependencies@.len(),
                wanted == ((exists|i: int| 0 <= i < self.dependencies@.len() && (#[trigger] self.dependencies@[i])@ == name@)
                    || exists|i: int| 0 <= i < f && filter_matches(#[trigger] self.dependencies@[i]@, name@)),
                forall|i: int| 0 <= i < f ==> !bad_regex_at(#[trigger] self.dependencies@[i]@, name@),
            decreases self.dependencies@.len() - f,
        {
            let filter = self.dependencies[f].as_str();
            if crate::text::starts_with_str(filter, "regex:") {
                let c = crate::text::chars_of(filter);
                let mut rest: Vec<char> = Vec::new();
                let mut j: usize = 6;
                proof {
                    reveal_strlit("regex:");
                    assert("regex:"@.len() == 6);
                }
                while j < c.len()
                    invariant
                        6 <= j <= c@.len(),
                        rest@ =~= c@.subrange(6, j as int),
                    decreases c@.len() - j,
                {
                    rest.push(c[j]);
                    j = j + 1;
                }
                assert(rest@ =~= c@.skip(6));
                let pattern = crate::text::string_of(&rest);
                match regex_match(pattern.as_str(), name.as_str()) {
                    None => {
                        assert(bad_regex_at(self.dependencies@[f as int]@, name@));
                        return Err(crate::text::join2("Invalid regex: ", pattern.as_str()));
                    },
                    Some(true) => {
                        wanted = true;
                    },
                    Some(false) => {},
                }
            }
            proof {
                assert forall|i: int| 0 <= i < f + 1 && filter_matches(#[trigger] self.dependencies@[i]@, name@) implies (i < f || i == f) by {}
                if exists|i: int| 0 <= i < f + 1 && filter_matches(#[trigger] self.dependencies@[i]@, name@) {
                    let i = choose|i: int| 0 <= i < f + 1 && filter_matches(#[trigger] self.dependencies@[i]@, name@);
                    if i < f {
                        assert(0 <= i < f && filter_matches(self.dependencies@[i]@, name@));
                    }
                }
                if filter_matches(self.dependencies@[f as int]@, name@) {
                    assert(0 <= f < f + 1 && filter_matches(self.dependencies@[f as int]@, name@));
                }
            }
            proof {
                assert forall|i: int| 0 <= i < f + 1 implies !bad_regex_at(#[trigger] self.dependencies@[i]@, name@) by {}
            }
            f = f + 1;
        }
        Ok(wanted)
    }

    /// The version requirement to use for dependency `name` in the workspace.
    ///
    /// Exact: the given version. Unambiguous: the one requirement that every user
    /// writes, else an error with each requirement and how often it is used.
    /// Highest: the greatest of the plain caret requirements as `major.minor.patch`.
    pub fn find_best_version(&self, meta: &Metadata, name: &String) -> (r: Result<String, VersionError>)
        ensures
            self.version_selector == VersionSelectorMode::Exact ==> match r {
                Ok(v) => self.exact_version matches Some(e) && v@ == e@,
                Err(e) => e == VersionError::MissingExact && self.exact_version is None,
            },
            self.version_selector != VersionSelectorMode::Exact ==> ((r == Err::<String, VersionError>(VersionError::NoVersions))
                == !exists|x: Seq<char>| #[trigger] uses_req(*meta, name@, x)),
            self.version_selector == VersionSelectorMode::Unambiguous && r is Ok ==> forall|x: Seq<char>| #[trigger] uses_req(*meta, name@, x)
                ==> x == r->Ok_0@,
            self.version_selector == VersionSelectorMode::Unambiguous ==> (r matches Err(VersionError::Ambiguous { found }) ==> found@.len() >= 2
                && key_views(found@).no_duplicates() && forall|i: int| 0 <= i < found@.len() ==> #[trigger] uses_req(*meta, name@, found@[i].0@)),
            self.version_selector == VersionSelectorMode::Unambiguous ==> (r matches Err(VersionError::Ambiguous { found }) ==> ranked(*meta, name@, found@)),
            self.version_selector == VersionSelectorMode::Unambiguous && (exists|x: Seq<char>| #[trigger] uses_req(*meta, name@, x)) && (forall|x: Seq<char>, y: Seq<char>|
                #[trigger] uses_req(*meta, name@, x) && #[trigger] uses_req(*meta, name@, y) ==> x == y) ==> r is Ok,
    {
        if self.version_selector == VersionSelectorMode::Exact {
            return match &self.exact_version {
                Some(e) => Ok(e.clone()),
                None => Err(VersionError::MissingExact),
            };
        }
        pick_version(meta, name, self.version_selector == VersionSelectorMode::Unambiguous)
    }
}

/// The requirement every user of `name` writes (when `unambiguous`), or the
/// greatest plain caret requirement.
fn pick_version(meta: &Metadata, name: &String, unambiguous: bool) -> (r: Result<String, VersionError>)
    ensures
        (r == Err::<String, VersionError>(VersionError::NoVersions)) == !exists|x: Seq<char>| #[trigger] uses_req(*meta, name@, x),
        unambiguous && r is Ok ==> forall|x: Seq<char>| #[trigger] uses_req(*meta, name@, x) ==> x == r->Ok_0@,
        unambiguous ==> (r matches Err(VersionError::Ambiguous { found }) ==> found@.len() >= 2 && key_views(found@).no_duplicates()
            && forall|i: int| 0 <= i < found@.len() ==> #[trigger] uses_req(*meta, name@, found@[i].0@)),
        unambiguous ==> (r matches Err(VersionError::Ambiguous { found }) ==> ranked(*meta, name@, found@)),
        unambiguous && (exists|x: Seq<char>| #[trigger] uses_req(*meta, name@, x)) && (forall|x: Seq<char>, y: Seq<char>|
            #[trigger] uses_req(*meta, name@, x) && #[trigger] uses_req(*meta, name@, y) ==> x == y) ==> r is Ok,
{
    {
        let mut reqs: Vec<(String, usize)> = Vec::new();
        let mut i: usize = 0;
        while i < meta.packages.len()
            invariant
                i <= meta.packages@.len(),
                forall|x: Seq<char>| #[trigger] key_views(reqs@).contains(x) <==> req_before(*meta, name@, x, i as int, 0),
                key_views(reqs@).no_duplicates(),
            decreases meta.packages@.len() - i,
        {
            let pkg = &meta.packages[i];
            let mut d: usize = 0;
            while d < pkg.dependencies.len()
                invariant
                    i < meta.packages@.len(),
                    *pkg == meta.packages@[i as int],
                    d <= pkg.dependencies@.len(),
                    forall|x: Seq<char>| #[trigger] key_views(reqs@).contains(x) <==> req_before(*meta, name@, x, i as int, d as int),
                    key_views(reqs@).no_duplicates(),
                decreases pkg.dependencies@.len() - d,
            {
                let dep = &pkg.dependencies[d];
                if dep.name == *name {
                    count_req(&mut reqs, &dep.req);
                }
                proof {
                    let m = *meta;
                    assert forall|x: Seq<char>| req_before(m, name@, x, i as int, d + 1) == (req_before(m, name@, x, i as int, d as int)
                        || (dep.name@ == name@ && dep.req@ == x)) by {
                        if req_before(m, name@, x, i as int, d + 1) {
                            let (a, b) = choose|a: int, b: int| #![trigger m.packages@[a].dependencies@[b]] 0 <= a < m.packages@.len() && 0 <= b < m.packages@[a].dependencies@.len()
                                && m.packages@[a].dependencies@[b].name@ == name@ && m.packages@[a].dependencies@[b].req@ == x && (a < i as int || (a == i as int && b < d + 1));
                            if !(a == i as int && b == d as int) {
                                assert(0 <= a < m.packages@.len() && 0 <= b < m.packages@[a].dependencies@.len()
                                    && m.packages@[a].dependencies@[b].name@ == name@ && m.packages@[a].dependencies@[b].req@ == x && (a < i as int || (a == i as int && b < d as int)));
                            }
                        }
                        if req_before(m, name@, x, i as int, d as int) {
                            let (a, b) = choose|a: int, b: int| #![trigger m.packages@[a].dependencies@[b]] 0 <= a < m.packages@.len() && 0 <= b < m.packages@[a].dependencies@.len()
                                && m.packages@[a].dependencies@[b].name@ == name@ && m.packages@[a].dependencies@[b].req@ == x && (a < i as int || (a == i as int && b < d as int));
                            assert(0 <= a < m.packages@.len() && 0 <= b < m.packages@[a].dependencies@.len()
                                && m.packages@[a].dependencies@[b].name@ == name@ && m.packages@[a].dependencies@[b].req@ == x && (a < i as int || (a == i as int && b < d + 1)));
                        }
                        if dep.name@ == name@ && dep.req@ == x {
                            assert(0 <= i < m.packages@.len() && 0 <= d < m.packages@[i as int].dependencies@.len()
                                && m.packages@[i as int].dependencies@[d as int].name@ == name@ && m.packages@[i as int].dependencies@[d as int].req@ == x && (i as int == i as int && (d as int) < d + 1));
                        }
                    }
                }
                d = d + 1;
            }
            proof {
                let m = *meta;
                assert forall|x: Seq<char>| req_before(m, name@, x, i + 1, 0) == req_before(m, name@, x, i as int, pkg.dependencies@.len() as int) by {
                    if req_before(m, name@, x, i + 1, 0) {
                        let (a, b) = choose|a: int, b: int| #![trigger m.packages@[a].dependencies@[b]] 0 <= a < m.packages@.len() && 0 <= b < m.packages@[a].dependencies@.len()
                            && m.packages@[a].dependencies@[b].name@ == name@ && m.packages@[a].dependencies@[b].req@ == x && (a < i + 1 || (a == i + 1 && b < 0));
                        assert(0 <= a < m.packages@.len() && 0 <= b < m.packages@[a].dependencies@.len()
                            && m.packages@[a].dependencies@[b].name@ == name@ && m.packages@[a].dependencies@[b].req@ == x && (a < i as int || (a == i as int && b < pkg.dependencies@.len())));
                    }
                    if req_before(m, name@, x, i as int, pkg.dependencies@.len() as int) {
                        let (a, b) = choose|a: int, b: int| #![trigger m.packages@[a].dependencies@[b]] 0 <= a < m.packages@.len() && 0 <= b < m.packages@[a].dependencies@.len()
                            && m.packages@[a].dependencies@[b].name@ == name@ && m.packages@[a].dependencies@[b].req@ == x && (a < i as int || (a == i as int && b < pkg.dependencies@.len()));
                        assert(0 <= a < m.packages@.len() && 0 <= b < m.packages@[a].dependencies@.len()
                            && m.packages@[a].dependencies@[b].name@ == name@ && m.packages@[a].dependencies@[b].req@ == x && (a < i + 1 || (a == i + 1 && b < 0)));
                    }
                }
            }
            i = i + 1;
        }
        proof {
            assert forall|x: Seq<char>| #[trigger] key_views(reqs@).contains(x) <==> uses_req(*meta, name@, x) by {}
            if reqs@.len() == 0 {
                assert forall|x: Seq<char>| !uses_req(*meta, name@, x) by {
                    assert(!key_views(reqs@).contains(x));
                }
            } else {
                assert(key_views(reqs@).contains(reqs@[0].0@)) by {
                    assert(key_views(reqs@)[0] == reqs@[0].0@);
                }
                assert(uses_req(*meta, name@, reqs@[0].0@));
            }
            if reqs@.len() == 1 {
                assert forall|x: Seq<char>| #[trigger] uses_req(*meta, name@, x) implies x == reqs@[0].0@ by {
                    assert(key_views(reqs@).contains(x));
                    let j = choose|j: int| 0 <= j < key_views(reqs@).len() && #[trigger] key_views(reqs@)[j] == x;
                }
            }
            if reqs@.len() > 1 {
                assert(key_views(reqs@)[0] != key_views(reqs@)[1]);
                assert(key_views(reqs@).contains(key_views(reqs@)[0]));
                assert(key_views(reqs@).contains(key_views(reqs@)[1]));
                assert forall|i: int| 0 <= i < reqs@.len() implies #[trigger] uses_req(*meta, name@, reqs@[i].0@) by {
                    assert(key_views(reqs@)[i] == reqs@[i].0@);
                    assert(key_views(reqs@).contains(reqs@[i].0@));
                }
            }
        }
        if reqs.len() == 0 {
            return Err(VersionError::NoVersions);
        }
        if unambiguous {
            if reqs.len() > 1 {
                let found = rank_requirements(meta, name, &reqs);
                proof {
                    assert forall|i: int| 0 <= i < found@.len() implies #[trigger] uses_req(*meta, name@, found@[i].0@) by {
                        assert(key_views(found@)[i] == found@[i].0@);
                        assert(key_views(found@).contains(found@[i].0@));
                        assert(key_views(reqs@).contains(found@[i].0@));
                    }
                }
                return Err(VersionError::Ambiguous { found });
            }
            return Ok(reqs[0].0.clone());
        }
        if reqs.len() == 1 {
            return Ok(reqs[0].0.clone());
        }
        let mut best: (u64, u64, u64) = (0, 0, 0);
        let mut k: usize = 0;
        while k < reqs.len()
            invariant
                k <= reqs@.len(),
                !unambiguous,
                exists|x: Seq<char>| #[trigger] uses_req(*meta, name@, x),
            decreases reqs@.len() - k,
        {
            let req = &reqs[k].0;
            let comps = match comparators_of(req.as_str()) {
                Some(c) => c,
                None => return Err(VersionError::Unsupported { req: req.clone() }),
            };
            if comps.len() != 1 || comps[0].0 != ReqOp::Caret || !comps[0].4.as_str().is_empty() {
                return Err(VersionError::Unsupported { req: req.clone() });
            }
            let c = &comps[0];
            let v: (u64, u64, u64) = (
                c.1,
                match c.2 {
                    Some(x) => x,
                    None => 0,
                },
                match c.3 {
                    Some(x) => x,
                    None => 0,
                },
            );
            if k == 0 || v.0 > best.0 || (v.0 == best.0 && (v.1 > best.1 || (v.1 == best.1 && v.2 > best.2))) {
                best = v;
            }
            k = k + 1;
        }
        let a = crate::cmd::u64_text(best.0);
        let b = crate::cmd::u64_text(best.1);
        let c = crate::cmd::u64_text(best.2);
        let s = crate::text::join2(a.as_str(), ".");
        let s = crate::text::join2(s.as_str(), b.as_str());
        let s = crate::text::join2(s.as_str(), ".");
        Ok(crate::text::join2(s.as_str(), c.as_str()))
    }
}

/// `found` lists every requirement with which `name` is used, each once, with
/// the number of records that use it, most used first.
pub open spec fn ranked(meta: Metadata, name: Seq<char>, found: Seq<(String, usize)>) -> bool {
    &&& forall|x: Seq<char>| #[trigger] key_views(found).contains(x) <==> uses_req(meta, name, x)
    &&& forall|i: int| 0 <= i < found.len() ==> (#[trigger] found[i]).1 as int == capped(pkg_count(meta.packages@, name, found[i].0@))
    &&& by_frequency(found)
}

/// How many of `deps` use `name` with requirement `x`.
pub open spec fn dep_count(deps: Seq<Dependency>, name: Seq<char>, x: Seq<char>) -> nat
    decreases deps.len(),
{
    if deps.len() == 0 {
        0
    } else {
        dep_count(deps.drop_last(), name, x) + if deps.last().name@ == name && deps.last().req@ == x {
            1nat
        } else {
            0nat
        }
    }
}

/// How many dependency records of `pkgs` use `name` with requirement `x`.
pub open spec fn pkg_count(pkgs: Seq<Package>, name: Seq<char>, x: Seq<char>) -> nat
    decreases pkgs.len(),
{
    if pkgs.len() == 0 {
        0
    } else {
        pkg_count(pkgs.drop_last(), name, x) + dep_count(pkgs.last().dependencies@, name, x)
    }
}

/// A count, capped at the largest `usize`.
pub open spec fn capped(n: nat) -> int {
    if n > usize::MAX {
        usize::MAX as int
    } else {
        n as int
    }
}

/// `a` may come before `b` when listing by frequency: more uses first, and
/// among equal counts the greater requirement first.
pub open spec fn goes_before(a: (Seq<char>, int), b: (Seq<char>, int)) -> bool {
    a.1 > b.1 || (a.1 == b.1 && key_le(b.0, a.0))
}

/// The requirements with their counts, most used first.
pub open spec fn by_frequency(f: Seq<(String, usize)>) -> bool {
    forall|a: int, b: int| 0 <= a < b < f.len() ==> goes_before((#[trigger] f[a].0@, f[a].1 as int), (#[trigger] f[b].0@, f[b].1 as int))
}

proof fn lemma_goes_before_total(a: (Seq<char>, int), b: (Seq<char>, int))
    ensures
        goes_before(a, b) || goes_before(b, a),
{
    crate::editor::lemma_key_total(a.0, b.0);
}

proof fn lemma_goes_before_trans(a: (Seq<char>, int), b: (Seq<char>, int), c: (Seq<char>, int))
    requires
        goes_before(a, b),
        goes_before(b, c),
    ensures
        goes_before(a, c),
{
    if a.1 == c.1 {
        crate::editor::lemma_key_trans(c.0, b.0, a.0);
    }
}

/// How many dependency records use `name` with requirement `x`, capped at the
/// largest `usize`.
fn count_uses(meta: &Metadata, name: &String, x: &String) -> (r: usize)
    ensures
        r as int == capped(pkg_count(meta.packages@, name@, x@)),
{
    let mut acc: usize = 0;
    let mut i: usize = 0;
    while i < meta.packages.len()
        invariant
            i <= meta.packages@.len(),
            acc as int == capped(pkg_count(meta.packages@.take(i as int), name@, x@)),
        decreases meta.packages@.len() - i,
    {
        let deps = &meta.packages[i].dependencies;
        let ghost base = pkg_count(meta.packages@.take(i as int), name@, x@);
        proof {
            assert(meta.packages@.take(i as int + 1).drop_last() =~= meta.packages@.take(i as int));
            assert(deps@.take(0) =~= Seq::<Dependency>::empty());
        }
        let mut d: usize = 0;
        while d < deps.len()
            invariant
                d <= deps@.len(),
                acc as int == capped(base + dep_count(deps@.take(d as int), name@, x@)),
            decreases deps@.len() - d,
        {
            proof {
                assert(deps@.take(d as int + 1).drop_last() =~= deps@.take(d as int));
            }
            if deps[d].name == *name && deps[d].req == *x && acc < usize::MAX {
                acc = acc + 1;
            }
            d = d + 1;
        }
        assert(deps@.take(deps@.len() as int) =~= deps@);
        i = i + 1;
    }
    assert(meta.packages@.take(meta.packages@.len() as int) =~= meta.packages@);
    acc
}

/// The requirements of `reqs` with the number of records that use each, most
/// used first.
fn rank_requirements(meta: &Metadata, name: &String, reqs: &Vec<(String, usize)>) -> (r: Vec<(String, usize)>)
    requires
        key_views(reqs@).no_duplicates(),
    ensures
        forall|x: Seq<char>| #[trigger] key_views(r@).contains(x) <==> key_views(reqs@).contains(x),
        key_views(r@).no_duplicates(),
        r@.len() == reqs@.len(),
        forall|i: int| 0 <= i < r@.len() ==> (#[trigger] r@[i]).1 as int == capped(pkg_count(meta.packages@, name@, r@[i].0@)),
        by_frequency(r@),
{
    let mut out: Vec<(String, usize)> = Vec::new();
    let mut k: usize = 0;
    while k < reqs.len()
        invariant
            k <= reqs@.len(),
            key_views(reqs@).no_duplicates(),
            forall|x: Seq<char>| #[trigger] key_views(out@).contains(x) <==> key_views(reqs@.take(k as int)).contains(x),
            key_views(out@).no_duplicates(),
            out@.len() == k,
            forall|i: int| 0 <= i < out@.len() ==> (#[trigger] out@[i]).1 as int == capped(pkg_count(meta.packages@, name@, out@[i].0@)),
            by_frequency(out@),
        decreases reqs@.len() - k,
    {
        let x = reqs[k].0.clone();
        let c = count_uses(meta, name, &x);
        let ghost o = out@;
        let ghost ok = key_views(out@);
        proof {
            assert(reqs@.take(k as int + 1) =~= reqs@.take(k as int).push(reqs@[k as int]));
            assert(key_views(reqs@.take(k as int + 1)) =~= key_views(reqs@.take(k as int)).push(x@));
            assert(!key_views(reqs@.take(k as int)).contains(x@)) by {
                if key_views(reqs@.take(k as int)).contains(x@) {
                    let j = choose|j: int| 0 <= j < key_views(reqs@.take(k as int)).len() && key_views(reqs@.take(k as int))[j] == x@;
                    assert(key_views(reqs@)[j] == key_views(reqs@)[k as int]);
                }
            }
        }
        let mut i: usize = out.len();
        while i > 0 && !(out[i - 1].1 > c || (out[i - 1].1 == c && value_le(&x, &out[i - 1].0)))
            invariant
                i <= out@.len(),
                out@ == o,
                forall|j: int| i <= j < out@.len() ==> !goes_before((#[trigger] out@[j].0@, out@[j].1 as int), (x@, c as int)),
            decreases i,
        {
            i = i - 1;
        }
        let e = (x, c);
        out.insert(i, e);
        proof {
            assert(out@ == o.insert(i as int, e));
            assert(key_views(out@) =~= ok.insert(i as int, e.0@));
            assert forall|y: Seq<char>| #[trigger] key_views(out@).contains(y) <==> key_views(reqs@.take(k as int + 1)).contains(y) by {
                lemma_insert_contains(ok, i as int, e.0@, y);
                lemma_push_contains(key_views(reqs@.take(k as int)), e.0@, y);
            }
            assert forall|a: int, b: int| 0 <= a < b < key_views(out@).len() implies key_views(out@)[a] != key_views(out@)[b] by {
                let w = key_views(out@);
                if a == i as int {
                    assert(w[b] == ok[b - 1]);
                    assert(ok.contains(w[b]));
                } else if b == i as int {
                    assert(w[a] == ok[a]);
                    assert(ok.contains(w[a]));
                } else {
                    let a2 = if a < i { a } else { a - 1 };
                    let b2 = if b < i { b } else { b - 1 };
                    assert(w[a] == ok[a2] && w[b] == ok[b2]);
                }
            }
            assert forall|j: int| 0 <= j < out@.len() implies (#[trigger] out@[j]).1 as int == capped(pkg_count(meta.packages@, name@, out@[j].0@)) by {
                if j < i {
                    assert(out@[j] == o[j]);
                } else if j > i {
                    assert(out@[j] == o[j - 1]);
                }
            }
            let ev = (e.0@, e.1 as int);
            assert forall|a: int, b: int| 0 <= a < b < out@.len() implies goes_before((#[trigger] out@[a].0@, out@[a].1 as int), (#[trigger] out@[b].0@, out@[b].1 as int)) by {
                if a == i as int {
                    assert(out@[b] == o[b - 1]);
                    lemma_goes_before_total((o[b - 1].0@, o[b - 1].1 as int), ev);
                } else if b == i as int {
                    assert(out@[a] == o[a]);
                    assert(goes_before((o[i - 1].0@, o[i - 1].1 as int), ev));
                    if a < i - 1 {
                        assert(goes_before((o[a].0@, o[a].1 as int), (o[i - 1].0@, o[i - 1].1 as int)));
                        lemma_goes_before_trans((o[a].0@, o[a].1 as int), (o[i - 1].0@, o[i - 1].1 as int), ev);
                    }
                } else {
                    let a2 = if a < i { a } else { a - 1 };
                    let b2 = if b < i { b } else { b - 1 };
                    assert(out@[a] == o[a2] && out@[b] == o[b2]);
                }
            }
        }
        k = k + 1;
    }
    assert(reqs@.take(reqs@.len() as int) =~= reqs@);
    out
}

/// Count one more use of requirement `req`, keeping the list sorted by requirement.
fn count_req(reqs: &mut Vec<(String, usize)>, req: &String)
    requires
        key_views(old(reqs)@).no_duplicates(),
    ensures
        forall|x: Seq<char>| #[trigger] key_views(final(reqs)@).contains(x) <==> key_views(old(reqs)@).contains(x) || x == req@,
        key_views(final(reqs)@).no_duplicates(),
{
    let ghost o = key_views(reqs@);
    let mut i: usize = 0;
    while i < reqs.len()
        invariant
            o == key_views(reqs@),
            o == key_views(old(reqs)@),
            o.no_duplicates(),
            i <= reqs@.len(),
            forall|j: int| 0 <= j < i ==> reqs@[j].0@ != req@,
        decreases reqs@.len() - i,
    {
        if reqs[i].0 == *req {
            let ghost before = reqs@;
            let mut entry: (String, usize) = (String::new(), 0);
            reqs.set_and_swap(i, &mut entry);
            if entry.1 < usize::MAX {
                entry.1 = entry.1 + 1;
            }
            reqs.set_and_swap(i, &mut entry);
            proof {
                assert(key_views(reqs@) =~= o);
                assert(o[i as int] == req@);
                assert forall|x: Seq<char>| #[trigger] key_views(reqs@).contains(x) <==> o.contains(x) || x == req@ by {
                    if x == req@ {
                        assert(key_views(reqs@)[i as int] == x);
                    }
                }
            }
            return;
        }
        i = i + 1;
    }
    let mut at: usize = reqs.len();
    while at > 0 && !value_le(&reqs[at - 1].0, req)
        invariant
            o == key_views(reqs@),
            o == key_views(old(reqs)@),
            o.no_duplicates(),
            forall|j: int| 0 <= j < reqs@.len() ==> reqs@[j].0@ != req@,
            at <= reqs@.len(),
        decreases at,
    {
        at = at - 1;
    }
    let ghost before = reqs@;
    reqs.insert(at, (req.clone(), 1));
    proof {
        assert(key_views(reqs@) =~= o.insert(at as int, req@));
        assert(!o.contains(req@)) by {
            if o.contains(req@) {
                let j = choose|j: int| 0 <= j < o.len() && #[trigger] o[j] == req@;
                assert(before[j].0@ == req@);
            }
        }
        assert forall|x: Seq<char>| #[trigger] key_views(reqs@).contains(x) <==> o.contains(x) || x == req@ by {
            lemma_insert_contains(o, at as int, req@, x);
        }
        assert forall|a: int, b: int| 0 <= a < b < key_views(reqs@).len() implies key_views(reqs@)[a] != key_views(reqs@)[b] by {
            let w = key_views(reqs@);
            let k = at as int;
            if a == k {
                assert(w[b] == o[b - 1]);
                assert(o.contains(w[b]));
            } else if b == k {
                assert(w[a] == o[a]);
                assert(o.contains(w[a]));
            } else {
                let a2 = if a < k { a } else { a - 1 };
                let b2 = if b < k { b } else { b - 1 };
                assert(w[a] == o[a2] && w[b] == o[b2]);
            }
        }
    }
}

/// The requirements of a list of counted requirements.
pub open spec fn key_views(s: Seq<(String, usize)>) -> Seq<Seq<char>> {
    s.map_values(|e: (String, usize)| e.0@)
}

/// Some record before record `j` of package `i` uses `name` with requirement `x`.
pub open spec fn req_before(meta: Metadata, name: Seq<char>, x: Seq<char>, i: int, j: int) -> bool {
    exists|a: int, b: int|
        #![trigger meta.packages@[a].dependencies@[b]]
        0 <= a < meta.packages@.len() && 0 <= b < meta.packages@[a].dependencies@.len()
            && meta.packages@[a].dependencies@[b].name@ == name && meta.packages@[a].dependencies@[b].req@ == x && (a < i || (a == i
            && b < j))
}

/// Some record uses `name` with requirement `x`.
pub open spec fn uses_req(meta: Metadata, name: Seq<char>, x: Seq<char>) -> bool {
    req_before(meta, name, x, meta.packages@.len() as int, 0)
}

/// What lifting dependency `name` into the workspace does: whether the
/// workspace entry keeps default features, the per-crate rewrites, and the
/// path of a local dependency relative to the workspace root.
#[derive(Debug)]
pub struct LiftPlan {
    /// `default-features` of the workspace entry: true when every writable user
    /// keeps its default features.
    pub workspace_default: bool,
    /// `(package, record, name as used, default-features override)` per writable,
    /// not skipped user, in order.
    pub entries: Vec<(usize, usize, String, Option<bool>)>,
    /// The path of the first user, relative to the workspace root, for a local
    /// dependency.
    pub local: Option<String>,
}

/// Record `b` of package `a` uses `name` and package `a` may be written.
pub open spec fn writable_user(meta: Metadata, name: Seq<char>, writable: Seq<bool>, a: int, b: int) -> bool {
    &&& 0 <= a < meta.packages@.len()
    &&& 0 <= b < meta.packages@[a].dependencies@.len()
    &&& meta.packages@[a].dependencies@[b].name@ == name
    &&& writable[a]
}

/// Some writable user before record `j` of package `i` disables default features.
pub open spec fn drops_default_before(meta: Metadata, name: Seq<char>, writable: Seq<bool>, i: int, j: int) -> bool {
    exists|a: int, b: int|
        #![trigger meta.packages@[a].dependencies@[b]]
        writable_user(meta, name, writable, a, b) && !meta.packages@[a].dependencies@[b].uses_default_features && (a < i || (a
            == i && b < j))
}

/// The rewrite of the users among the first `m` records of package `a`.
pub open spec fn plan_records(meta: Metadata, name: Seq<char>, skip: Option<String>, writable: Seq<bool>, wd: bool, a: int, m: int) -> Seq<(int, int, Seq<char>, Option<bool>)>
    decreases m,
{
    if m <= 0 {
        Seq::empty()
    } else {
        let d = meta.packages@[a].dependencies@[m - 1];
        plan_records(meta, name, skip, writable, wd, a, m - 1) + if writable_user(meta, name, writable, a, m - 1) && !skipped(
            skip,
            meta.packages@[a].name@,
        ) {
            seq![(a, m - 1, crate::metadata::used_name(d), if d.uses_default_features != wd { Some(d.uses_default_features) } else { None })]
        } else {
            Seq::empty()
        }
    }
}

/// The rewrites of the first `n` packages.
pub open spec fn plan_packages(meta: Metadata, name: Seq<char>, skip: Option<String>, writable: Seq<bool>, wd: bool, n: int) -> Seq<(int, int, Seq<char>, Option<bool>)>
    decreases n,
{
    if n <= 0 {
        Seq::empty()
    } else {
        plan_packages(meta, name, skip, writable, wd, n - 1) + plan_records(
            meta,
            name,
            skip,
            writable,
            wd,
            n - 1,
            meta.packages@[n - 1].dependencies@.len() as int,
        )
    }
}

/// `p` relative to directory `root`: without `root/` in front, else `p` itself.
pub open spec fn relative_to(p: Seq<char>, root: Seq<char>) -> Seq<char> {
    if starts_with(p, root + "/"@) {
        p.skip(root.len() as int + 1)
    } else {
        p
    }
}

/// `p` relative to directory `root`.
pub fn make_relative(p: &str, root: &str) -> (r: String)
    ensures
        r@ == relative_to(p@, root@),
{
    let prefix = crate::text::join2(root, "/");
    if crate::text::starts_with_str(p, prefix.as_str()) {
        let c = crate::text::chars_of(p);
        let pc = crate::text::chars_of(prefix.as_str());
        let mut out: Vec<char> = Vec::new();
        let mut k: usize = pc.len();
        while k < c.len()
            invariant
                pc@.len() <= k <= c@.len(),
                out@ =~= c@.subrange(pc@.len() as int, k as int),
            decreases c@.len() - k,
        {
            out.push(c[k]);
            k = k + 1;
        }
        proof {
            reveal_strlit("/");
            assert(pc@ == root@ + "/"@);
            assert("/"@.len() == 1);
            assert(pc@.len() == root@.len() + 1);
        }
        assert(c@.subrange(pc@.len() as int, c@.len() as int) =~= p@.skip(root@.len() as int + 1));
        crate::text::string_of(&out)
    } else {
        p.to_owned()
    }
}

/// Plan the lift of dependency `name`. `writable[k]` says whether the manifest
/// of package `k` may be written; packages named by `skip` keep their entry.
pub fn lift_plan(meta: &Metadata, name: &String, skip: &Option<String>, location: SourceLocationSelector, writable: &Vec<bool>) -> (r: LiftPlan)
    requires
        writable@.len() == meta.packages@.len(),
    ensures
        r.workspace_default == !drops_default_before(*meta, name@, writable@, meta.packages@.len() as int, 0),
        r.entries@.map_values(|e: (usize, usize, String, Option<bool>)| (e.0 as int, e.1 as int, e.2@, e.3)) == plan_packages(
            *meta,
            name@,
            *skip,
            writable@,
            r.workspace_default,
            meta.packages@.len() as int,
        ),
        location == SourceLocationSelector::Remote ==> r.local is None,
{
    let mut drops = false;
    let mut first_path: Option<String> = None;
    let mut i: usize = 0;
    while i < meta.packages.len()
        invariant
            writable@.len() == meta.packages@.len(),
            i <= meta.packages@.len(),
            drops == drops_default_before(*meta, name@, writable@, i as int, 0),
        decreases meta.packages@.len() - i,
    {
        let pkg = &meta.packages[i];
        let mut d: usize = 0;
        while d < pkg.dependencies.len()
            invariant
                writable@.len() == meta.packages@.len(),
                i < meta.packages@.len(),
                *pkg == meta.packages@[i as int],
                d <= pkg.dependencies@.len(),
                drops == drops_default_before(*meta, name@, writable@, i as int, d as int),
            decreases pkg.dependencies@.len() - d,
        {
            let dep = &pkg.dependencies[d];
            if dep.name == *name {
                if first_path.is_none() {
                    first_path = match &dep.path {
                        Some(p) => Some(p.clone()),
                        None => None,
                    };
                }
                if writable[i] && !dep.uses_default_features {
                    drops = true;
                }
            }
            proof {
                let m = *meta;
                let w = writable@;
                assert(drops == drops_default_before(m, name@, w, i as int, d + 1)) by {
                    if drops_default_before(m, name@, w, i as int, d + 1) {
                        let (a, b) = choose|a: int, b: int| #![trigger m.packages@[a].dependencies@[b]] writable_user(m, name@, w, a, b) && !m.packages@[a].dependencies@[b].uses_default_features && (a < i as int || (a == i as int && b < d + 1));
                        if !(a == i as int && b == d as int) {
                            assert(writable_user(m, name@, w, a, b) && !m.packages@[a].dependencies@[b].uses_default_features && (a < i as int || (a == i as int && b < d as int)));
                        }
                    }
                    if drops_default_before(m, name@, w, i as int, d as int) {
                        let (a, b) = choose|a: int, b: int| #![trigger m.packages@[a].dependencies@[b]] writable_user(m, name@, w, a, b) && !m.packages@[a].dependencies@[b].uses_default_features && (a < i as int || (a == i as int && b < d as int));
                        assert(writable_user(m, name@, w, a, b) && !m.packages@[a].dependencies@[b].uses_default_features && (a < i as int || (a == i as int && b < d + 1)));
                    }
                    if dep.name@ == name@ && w[i as int] && !dep.uses_default_features {
                        assert(writable_user(m, name@, w, i as int, d as int) && !m.packages@[i as int].dependencies@[d as int].uses_default_features && (i as int == i as int && (d as int) < d + 1));
                    }
                }
            }
            d = d + 1;
        }
        proof {
            let m = *meta;
            let w = writable@;
            assert(drops_default_before(m, name@, w, i + 1, 0) == drops_default_before(m, name@, w, i as int, pkg.dependencies@.len() as int)) by {
                if drops_default_before(m, name@, w, i + 1, 0) {
                    let (a, b) = choose|a: int, b: int| #![trigger m.packages@[a].dependencies@[b]] writable_user(m, name@, w, a, b) && !m.packages@[a].dependencies@[b].uses_default_features && (a < i + 1 || (a == i + 1 && b < 0));
                    assert(writable_user(m, name@, w, a, b) && !m.packages@[a].dependencies@[b].uses_default_features && (a < i as int || (a == i as int && b < pkg.dependencies@.len())));
                }
                if drops_default_before(m, name@, w, i as int, pkg.dependencies@.len() as int) {
                    let (a, b) = choose|a: int, b: int| #![trigger m.packages@[a].dependencies@[b]] writable_user(m, name@, w, a, b) && !m.packages@[a].dependencies@[b].uses_default_features && (a < i as int || (a == i as int && b < pkg.dependencies@.len()));
                    assert(writable_user(m, name@, w, a, b) && !m.packages@[a].dependencies@[b].uses_default_features && (a < i + 1 || (a == i + 1 && b < 0)));
                }
            }
        }
        i = i + 1;
    }
    let wd = !drops;
    let mut entries: Vec<(usize, usize, String, Option<bool>)> = Vec::new();
    let mut i: usize = 0;
    while i < meta.packages.len()
        invariant
            writable@.len() == meta.packages@.len(),
            i <= meta.packages@.len(),
            entries@.map_values(|e: (usize, usize, String, Option<bool>)| (e.0 as int, e.1 as int, e.2@, e.3)) == plan_packages(*meta, name@, *skip, writable@, wd, i as int),
        decreases meta.packages@.len() - i,
    {
        let pkg = &meta.packages[i];
        let skipped_pkg = match skip {
            Some(s) => *s == pkg.name,
            None => false,
        };
        let ghost before = entries@.map_values(|e: (usize, usize, String, Option<bool>)| (e.0 as int, e.1 as int, e.2@, e.3));
        let mut d: usize = 0;
        while d < pkg.dependencies.len()
            invariant
                writable@.len() == meta.packages@.len(),
                i < meta.packages@.len(),
                *pkg == meta.packages@[i as int],
                skipped_pkg == skipped(*skip, pkg.name@),
                d <= pkg.dependencies@.len(),
                entries@.map_values(|e: (usize, usize, String, Option<bool>)| (e.0 as int, e.1 as int, e.2@, e.3)) == before + plan_records(*meta, name@, *skip, writable@, wd, i as int, d as int),
            decreases pkg.dependencies@.len() - d,
        {
            let dep = &pkg.dependencies[d];
            let ghost o = entries@;
            if dep.name == *name && writable[i] && !skipped_pkg {
                let used = match &dep.rename {
                    Some(r) => r.clone(),
                    None => dep.name.clone(),
                };
                let over = if dep.uses_default_features != wd {
                    Some(dep.uses_default_features)
                } else {
                    None
                };
                entries.push((i, d, used, over));
                proof {
                    assert(entries@.map_values(|e: (usize, usize, String, Option<bool>)| (e.0 as int, e.1 as int, e.2@, e.3)) =~= o.map_values(|e: (usize, usize, String, Option<bool>)| (e.0 as int, e.1 as int, e.2@, e.3)).push((i as int, d as int, crate::metadata::used_name(*dep), over)));
                }
            }
            d = d + 1;
            proof {
                assert(before + plan_records(*meta, name@, *skip, writable@, wd, i as int, d as int) =~= before + plan_records(*meta, name@, *skip, writable@, wd, i as int, d - 1) + if writable_user(*meta, name@, writable@, i as int, d - 1) && !skipped(*skip, meta.packages@[i as int].name@) {
                    seq![(i as int, d - 1, crate::metadata::used_name(meta.packages@[i as int].dependencies@[d - 1]), if meta.packages@[i as int].dependencies@[d - 1].uses_default_features != wd { Some(meta.packages@[i as int].dependencies@[d - 1].uses_default_features) } else { None })]
                } else {
                    Seq::empty()
                });
            }
        }
        i = i + 1;
        proof {
            assert(plan_packages(*meta, name@, *skip, writable@, wd, i as int) == plan_packages(*meta, name@, *skip, writable@, wd, i - 1) + plan_records(*meta, name@, *skip, writable@, wd, i - 1, meta.packages@[i - 1].dependencies@.len() as int));
        }
    }
    let local = match location {
        SourceLocationSelector::Local => match first_path {
            Some(p) => Some(make_relative(p.as_str(), meta.workspace_root.as_str())),
            None => None,
        },
        SourceLocationSelector::Remote => None,
    };
    LiftPlan { workspace_default: wd, entries, local }
}

} // verus!
