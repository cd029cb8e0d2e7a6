//! The lints over the feature graph and the metadata.

use vstd::prelude::*;
use crate::dag::{reaches, Dag};
use crate::features::{all_edges, dep_record, is_graph_of, CrateAndFeature, FeatureNode};
use crate::metadata::{
    edge_has_name, crate_root_name, is_first_where, is_member, is_workspace_member, lemma_resolves_unique, member_named,
    node_has_id, pkg_has_id, resolve_dep, resolved, resolves_to, used_name, Dependency, DependencyKind, Metadata,
    Package, RenamedPackage,
};
use crate::text::join2;

verus! {

/// How a lint treats a class of findings.
#[derive(Debug, Clone, Copy, PartialEq, Eq, Structural)]
pub enum MuteSetting {
    /// Ignore this behaviour.
    Ignore,
    /// Only report but do not fix.
    Report,
    /// Fix if fixing is enabled.
    Fix,
}

/// Whether a dependency kind is checked.
#[derive(Debug, Clone, Copy, PartialEq, Eq, Structural)]
pub enum IgnoreSetting {
    Ignore,
    Check,
}

/// What the propagation check found for one dependency record.
#[derive(Debug, Clone, Copy, PartialEq, Eq, Structural)]
pub enum Finding {
    /// Nothing to report.
    Fine,
    /// The package lacks the feature that the dependency has.
    FeatureMissing,
    /// The package has the feature but does not forward it to the dependency.
    PropagateMissing,
}

/// Whether package `p` declares feature `f`.
pub open spec fn declares(p: Package, f: Seq<char>) -> bool {
    exists|i: int| 0 <= i < p.features@.len() && (#[trigger] p.features@[i]).0@ == f
}

/// Whether `v` stays in the subgraph used for the entry-point check: the entry
/// node itself and every node of the dependency.
pub open spec fn keeps(entry: FeatureNode, did: Seq<char>, v: FeatureNode) -> bool {
    v == entry || v.0 == did
}

/// The subgraph of `g` on the nodes that [keeps] holds of.
pub open spec fn restrict(g: Map<FeatureNode, Set<FeatureNode>>, entry: FeatureNode, did: Seq<char>) -> Map<FeatureNode, Set<FeatureNode>> {
    Map::new(
        |a: FeatureNode| g.contains_key(a) && keeps(entry, did, a),
        |a: FeatureNode| g[a].filter(|b: FeatureNode| keeps(entry, did, b)),
    )
}

/// Whether the graph has an edge from `a` to `b`.
pub open spec fn has_edge(g: Map<FeatureNode, Set<FeatureNode>>, a: FeatureNode, b: FeatureNode) -> bool {
    g.contains_key(a) && g[a].contains(b)
}

/// Whether feature `f` of the package with id `pid` is forwarded to the package
/// with id `did`: a direct edge, the same from the weak (`?`) form of the id, or
/// a path from the package's entry point through the dependency's own nodes.
pub open spec fn forwarded(g: Map<FeatureNode, Set<FeatureNode>>, pid: Seq<char>, did: Seq<char>, f: Seq<char>) -> bool {
    has_edge(g, (pid, f), (did, f)) || has_edge(g, (pid + "?"@, f), (did, f)) || reaches(
        restrict(g, (pid, "#entrypoint"@), did),
        (pid, "#entrypoint"@),
        (did, f),
    )
}

/// Whether the pair `(lhs, rhs)` of names and feature is exempt from the check.
pub open spec fn exempt(ignore: Seq<(CrateAndFeature, CrateAndFeature)>, lhs: FeatureNode, rhs: FeatureNode) -> bool {
    exists|i: int| 0 <= i < ignore.len() && (#[trigger] ignore[i]).0@ == lhs && ignore[i].1@ == rhs
}

/// Whether dependency kind `k` is skipped: the last setting given for it says so.
pub open spec fn kind_ignored(kinds: Seq<(DependencyKind, IgnoreSetting)>, k: DependencyKind) -> bool
    decreases kinds.len(),
{
    if kinds.len() == 0 {
        false
    } else if kinds.last().0 == k {
        kinds.last().1 == IgnoreSetting::Ignore
    } else {
        kind_ignored(kinds.drop_last(), k)
    }
}

/// The settings of a propagation check.
pub struct PropagateSettings {
    /// What to do when the package lacks the feature.
    pub left_side_feature_missing: MuteSetting,
    /// What to do with packages outside the workspace.
    pub left_side_outside_workspace: MuteSetting,
    /// The setting of each dependency kind; the last one for a kind counts.
    pub dep_kinds: Vec<(DependencyKind, IgnoreSetting)>,
    /// Exempt pairs `(package/feature, dependency/feature)`, by package name.
    pub ignore_missing_propagate: Vec<(CrateAndFeature, CrateAndFeature)>,
}

/// What the check finds for dependency record `d` of package `p` and feature `f`.
pub open spec fn finding(meta: Metadata, g: Map<FeatureNode, Set<FeatureNode>>, s: PropagateSettings, p: Package, d: Dependency, f: Seq<char>) -> Finding {
    if !is_member(meta, p.id@) && s.left_side_outside_workspace == MuteSetting::Ignore {
        Finding::Fine
    } else if kind_ignored(s.dep_kinds@, d.kind) {
        Finding::Fine
    } else {
        match resolved(meta, p, d) {
            None => Finding::Fine,
            Some(k) => {
                let dp = meta.packages@[k];
                if !declares(dp, f) {
                    Finding::Fine
                } else if !declares(p, f) {
                    if s.left_side_feature_missing == MuteSetting::Ignore {
                        Finding::Fine
                    } else {
                        Finding::FeatureMissing
                    }
                } else if forwarded(g, p.id@, dp.id@, f) {
                    Finding::Fine
                } else if exempt(s.ignore_missing_propagate@, (p.name@, f), (dp.name@, f)) {
                    Finding::Fine
                } else {
                    Finding::PropagateMissing
                }
            },
        }
    }
}

/// Whether package `p` declares feature `f`.
pub fn has_feature(p: &Package, f: &String) -> (r: bool)
    ensures
        r == declares(*p, f@),
{
    let mut i: usize = 0;
    while i < p.features.len()
        invariant
            i <= p.features@.len(),
            forall|j: int| 0 <= j < i ==> (#[trigger] p.features@[j]).0@ != f@,
        decreases p.features@.len() - i,
    {
        if p.features[i].0 == *f {
            return true;
        }
        i = i + 1;
    }
    false
}

/// Whether kind `k` is skipped under `kinds`.
pub fn is_kind_ignored(kinds: &Vec<(DependencyKind, IgnoreSetting)>, k: DependencyKind) -> (r: bool)
    ensures
        r == kind_ignored(kinds@, k),
{
    let mut i: usize = kinds.len();
    assert(kinds@.take(kinds@.len() as int) =~= kinds@);
    while i > 0
        invariant
            i <= kinds@.len(),
            kind_ignored(kinds@, k) == kind_ignored(kinds@.take(i as int), k),
        decreases i,
    {
        let ghost t = kinds@.take(i as int);
        assert(t.drop_last() =~= kinds@.take(i - 1));
        if kinds[i - 1].0 == k {
            return kinds[i - 1].1 == IgnoreSetting::Ignore;
        }
        i = i - 1;
    }
    false
}

/// Whether `(lhs, rhs)` is exempt under `ignore`.
pub fn is_exempt(ignore: &Vec<(CrateAndFeature, CrateAndFeature)>, lhs: &CrateAndFeature, rhs: &CrateAndFeature) -> (r: bool)
    ensures
        r == exempt(ignore@, lhs@, rhs@),
{
    let mut i: usize = 0;
    while i < ignore.len()
        invariant
            i <= ignore@.len(),
            forall|j: int| 0 <= j < i ==> !((#[trigger] ignore@[j]).0@ == lhs@ && ignore@[j].1@ == rhs@),
        decreases ignore@.len() - i,
    {
        let e = &ignore[i];
        if e.0.0 == lhs.0 && e.0.1 == lhs.1 && e.1.0 == rhs.0 && e.1.1 == rhs.1 {
            return true;
        }
        i = i + 1;
    }
    false
}

/// Whether `(did, f)` is reachable from the entry point of `pid` through the
/// nodes of `did` only.
pub fn reached_from_entrypoint(dag: &Dag<CrateAndFeature>, pid: &String, did: &String, f: &String) -> (r: bool)
    requires
        dag.wf(),
    ensures
        r == reaches(restrict(dag@, (pid@, "#entrypoint"@), did@), (pid@, "#entrypoint"@), (did@, f@)),
{
    let entry = CrateAndFeature(pid.clone(), "#entrypoint".to_owned());
    let ghost ev = entry@;
    let ghost dv = did@;
    let entry_ref = &entry;
    let pred = |n: &CrateAndFeature| -> (b: bool)
        ensures
            b == keeps(entry_ref@, did@, n@),
    {
        (n.0 == entry_ref.0 && n.1 == entry_ref.1) || n.0 == *did
    };
    let sub = dag.sub(pred);
    proof {
        let g = dag@;
        let want = restrict(g, ev, dv);
        assert forall|a: FeatureNode| #[trigger] sub@.contains_key(a) <==> want.contains_key(a) by {
            if sub@.contains_key(a) {
                let t = choose|t: CrateAndFeature| #[trigger] pred.ensures((&t,), true) && t@ == a;
            }
            if want.contains_key(a) && !sub@.contains_key(a) {
                dag.lemma_stored(a);
            }
        }
        assert forall|a: FeatureNode| sub@.contains_key(a) implies sub@[a] =~= want[a] by {
            assert forall|b: FeatureNode| sub@[a].contains(b) <==> want[a].contains(b) by {
                if sub@[a].contains(b) {
                    let t = choose|t: CrateAndFeature| #[trigger] pred.ensures((&t,), true) && t@ == b;
                }
                if want[a].contains(b) && !sub@[a].contains(b) {
                    assert(dag@.contains_key(a) && dag@[a].contains(b));
                    dag.lemma_stored(b);
                }
            }
        }
        assert(sub@ =~= want);
    }
    let target = CrateAndFeature(did.clone(), f.clone());
    sub.any_path(&entry, &target).is_some()
}

/// What the check finds for dependency record `d` of package `p` and feature `f`.
pub fn check_dependency(meta: &Metadata, dag: &Dag<CrateAndFeature>, s: &PropagateSettings, p: &Package, d: &Dependency, f: &String) -> (r: (Finding, Option<RenamedPackage>))
    requires
        dag.wf(),
    ensures
        r.0 == finding(*meta, dag@, *s, *p, *d, f@),
        r.0 != Finding::Fine ==> (r.1 matches Some(rp) && resolved(*meta, *p, *d) == Some(rp.pkg as int)
            && rp.pkg < meta.packages@.len() && rp.optional == d.optional && rp.pkg_name@ == meta.packages@[rp.pkg as int].name@),
{
    if !is_workspace_member(meta, &p.id) && s.left_side_outside_workspace == MuteSetting::Ignore {
        return (Finding::Fine, None);
    }
    if is_kind_ignored(&s.dep_kinds, d.kind) {
        return (Finding::Fine, None);
    }
    let rp = match resolve_dep(p, d, meta) {
        None => return (Finding::Fine, None),
        Some(rp) => rp,
    };
    let dp = &meta.packages[rp.pkg];
    if !has_feature(dp, f) {
        return (Finding::Fine, None);
    }
    if !has_feature(p, f) {
        if s.left_side_feature_missing == MuteSetting::Ignore {
            return (Finding::Fine, None);
        }
        return (Finding::FeatureMissing, Some(rp));
    }
    let target = CrateAndFeature(dp.id.clone(), f.clone());
    let want_req = CrateAndFeature(p.id.clone(), f.clone());
    let want_opt = CrateAndFeature(join2(p.id.as_str(), "?"), f.clone());
    if dag.connected(&want_opt, &target) || dag.connected(&want_req, &target) {
        return (Finding::Fine, None);
    }
    if reached_from_entrypoint(dag, &p.id, &dp.id, f) {
        return (Finding::Fine, None);
    }
    let lhs = CrateAndFeature(p.name.clone(), f.clone());
    let rhs = CrateAndFeature(dp.name.clone(), f.clone());
    if is_exempt(&s.ignore_missing_propagate, &lhs, &rhs) {
        return (Finding::Fine, None);
    }
    (Finding::PropagateMissing, Some(rp))
}


/// One finding of the propagation check: package and dependency record (indices
/// into the metadata), what was found, and the resolved dependency.
#[derive(Debug)]
pub struct Issue {
    pub package: usize,
    pub dependency: usize,
    pub finding: Finding,
    pub dep: RenamedPackage,
}

/// Whether package `p` is among the selected ones: all when none are named.
pub open spec fn selected(names: Seq<String>, p: Package) -> bool {
    names.len() == 0 || exists|i: int| 0 <= i < names.len() && (#[trigger] names[i])@ == p.name@
}

/// The `(package, record, finding)` triples of the first `m` records of package `pi`.
pub open spec fn record_findings(meta: Metadata, g: Map<FeatureNode, Set<FeatureNode>>, s: PropagateSettings, pi: int, f: Seq<char>, m: int) -> Seq<(int, int, Finding)>
    decreases m,
{
    if m <= 0 {
        Seq::empty()
    } else {
        let p = meta.packages@[pi];
        let k = finding(meta, g, s, p, p.dependencies@[m - 1], f);
        record_findings(meta, g, s, pi, f, m - 1) + if k == Finding::Fine {
            Seq::empty()
        } else {
            seq![(pi, m - 1, k)]
        }
    }
}

/// The findings of the first `n` packages, in order.
pub open spec fn package_findings(meta: Metadata, g: Map<FeatureNode, Set<FeatureNode>>, s: PropagateSettings, names: Seq<String>, f: Seq<char>, n: int) -> Seq<(int, int, Finding)>
    decreases n,
{
    if n <= 0 {
        Seq::empty()
    } else {
        let p = meta.packages@[n - 1];
        package_findings(meta, g, s, names, f, n - 1) + if selected(names, p) {
            record_findings(meta, g, s, n - 1, f, p.dependencies@.len() as int)
        } else {
            Seq::empty()
        }
    }
}

/// The triples of a list of issues.
pub open spec fn issue_views(v: Seq<Issue>) -> Seq<(int, int, Finding)> {
    v.map_values(|i: Issue| (i.package as int, i.dependency as int, i.finding))
}

/// Whether package `name` is selected.
pub fn is_selected(names: &Vec<String>, p: &Package) -> (r: bool)
    ensures
        r == selected(names@, *p),
{
    if names.len() == 0 {
        return true;
    }
    let mut i: usize = 0;
    while i < names.len()
        invariant
            i <= names@.len(),
            forall|j: int| 0 <= j < i ==> (#[trigger] names@[j])@ != p.name@,
        decreases names@.len() - i,
    {
        if names[i] == p.name {
            return true;
        }
        i = i + 1;
    }
    false
}

/// Check that feature `f` is propagated along every dependency of the selected
/// packages (all packages when `names` is empty) and list every finding, by
/// package and then by dependency record.
pub fn propagate_issues(meta: &Metadata, dag: &Dag<CrateAndFeature>, s: &PropagateSettings, names: &Vec<String>, f: &String) -> (r: Vec<Issue>)
    requires
        dag.wf(),
    ensures
        issue_views(r@) == package_findings(*meta, dag@, *s, names@, f@, meta.packages@.len() as int),
        forall|i: int| 0 <= i < r@.len() ==> {
            let it = #[trigger] r@[i];
            &&& it.package < meta.packages@.len()
            &&& it.dependency < meta.packages@[it.package as int].dependencies@.len()
            &&& resolved(*meta, meta.packages@[it.package as int], meta.packages@[it.package as int].dependencies@[it.dependency as int]) == Some(it.dep.pkg as int)
            &&& it.dep.optional == meta.packages@[it.package as int].dependencies@[it.dependency as int].optional
            &&& it.dep.pkg < meta.packages@.len()
        },
{
    let mut out: Vec<Issue> = Vec::new();
    let mut n: usize = 0;
    while n < meta.packages.len()
        invariant
            dag.wf(),
            n <= meta.packages@.len(),
            issue_views(out@) == package_findings(*meta, dag@, *s, names@, f@, n as int),
            forall|i: int| 0 <= i < out@.len() ==> {
                let it = #[trigger] out@[i];
                &&& it.package < meta.packages@.len()
                &&& it.dependency < meta.packages@[it.package as int].dependencies@.len()
                &&& resolved(*meta, meta.packages@[it.package as int], meta.packages@[it.package as int].dependencies@[it.dependency as int]) == Some(it.dep.pkg as int)
                &&& it.dep.optional == meta.packages@[it.package as int].dependencies@[it.dependency as int].optional
                &&& it.dep.pkg < meta.packages@.len()
            },
        decreases meta.packages@.len() - n,
    {
        let p = &meta.packages[n];
        let ghost before = issue_views(out@);
        if is_selected(names, p) {
            let mut m: usize = 0;
            while m < p.dependencies.len()
                invariant
                    dag.wf(),
                    n < meta.packages@.len(),
                    *p == meta.packages@[n as int],
                    m <= p.dependencies@.len(),
                    issue_views(out@) == before + record_findings(*meta, dag@, *s, n as int, f@, m as int),
                    forall|i: int| 0 <= i < out@.len() ==> {
                        let it = #[trigger] out@[i];
                        &&& it.package < meta.packages@.len()
                        &&& it.dependency < meta.packages@[it.package as int].dependencies@.len()
                        &&& resolved(*meta, meta.packages@[it.package as int], meta.packages@[it.package as int].dependencies@[it.dependency as int]) == Some(it.dep.pkg as int)
                        &&& it.dep.optional == meta.packages@[it.package as int].dependencies@[it.dependency as int].optional
                        &&& it.dep.pkg < meta.packages@.len()
                    },
                decreases p.dependencies@.len() - m,
            {
                let (k, rp) = check_dependency(meta, dag, s, p, &p.dependencies[m], f);
                let ghost o = out@;
                if k != Finding::Fine {
                    let rp = rp.unwrap();
                    out.push(Issue { package: n, dependency: m, finding: k, dep: rp });
                    assert(issue_views(out@) =~= issue_views(o).push((n as int, m as int, k)));
                } else {
                    assert(issue_views(out@) =~= issue_views(o));
                }
                m = m + 1;
                assert(before + record_findings(*meta, dag@, *s, n as int, f@, m as int) =~= before + record_findings(*meta, dag@, *s, n as int, f@, m - 1) + if k == Finding::Fine {
                    Seq::<(int, int, Finding)>::empty()
                } else {
                    seq![(n as int, m - 1, k)]
                });
            }
        }
        n = n + 1;
        assert(package_findings(*meta, dag@, *s, names@, f@, n as int) =~= package_findings(*meta, dag@, *s, names@, f@, n - 1) + if selected(names@, meta.packages@[n - 1]) {
            record_findings(*meta, dag@, *s, n - 1, f@, meta.packages@[n - 1].dependencies@.len() as int)
        } else {
            Seq::<(int, int, Finding)>::empty()
        });
    }
    out
}

/// The entry that fixes a missing propagation of `f` to `dep`: `dep/f`, or
/// `dep?/f` when the dependency is optional and not listed in `non_optional` as
/// a `(feature, dependency)` pair that must be enabled unconditionally.
/// The entry that fixes a missing propagation of `f` to `dep`.
pub open spec fn fix_text(dep: RenamedPackage, f: Seq<char>, non_optional: Seq<(String, String)>) -> Seq<char> {
    (match dep.rename {
        Some(a) => a@,
        None => dep.pkg_name@,
    }) + (if dep.optional && !(exists|i: int| 0 <= i < non_optional.len() && (#[trigger] non_optional[i]).0@ == f
        && non_optional[i].1@ == (match dep.rename {
        Some(a) => a@,
        None => dep.pkg_name@,
    })) {
        "?"@
    } else {
        Seq::<char>::empty()
    }) + "/"@ + f
}

pub fn fix_entry(dep: &RenamedPackage, f: &String, non_optional: &Vec<(String, String)>) -> (r: String)
    ensures
        r@ == fix_text(*dep, f@, non_optional@),
{
    let name = dep.name();
    let mut forced = false;
    let mut i: usize = 0;
    while i < non_optional.len()
        invariant
            i <= non_optional@.len(),
            forced == exists|j: int| 0 <= j < i && (#[trigger] non_optional@[j]).0@ == f@ && non_optional@[j].1@ == name@,
        decreases non_optional@.len() - i,
    {
        if non_optional[i].0 == *f && non_optional[i].1 == name {
            forced = true;
        }
        i = i + 1;
    }
    let s = if dep.optional && !forced {
        join2(name.as_str(), "?")
    } else {
        proof {
            assert(name@ + Seq::<char>::empty() =~= name@);
        }
        name
    };
    let s = join2(s.as_str(), "/");
    join2(s.as_str(), f.as_str())
}


/// A dependency kind as the command line names it.
#[derive(Debug, Clone, Copy, PartialEq, Eq, PartialOrd, Ord, Structural)]
pub enum DepKind {
    Normal,
    Dev,
    Build,
}

/// `s` in ASCII lower case.
pub open spec fn ascii_lower(s: Seq<char>) -> Seq<char> {
    s.map_values(|c: char| if 'A' <= c && c <= 'Z' { ((c as u8) + 32) as char } else { c })
}

fn lower_char(c: char) -> (r: char)
    ensures
        r == (if 'A' <= c && c <= 'Z' { ((c as u8) + 32) as char } else { c }),
{
    if 'A' <= c && c <= 'Z' {
        ((c as u8) + 32) as char
    } else {
        c
    }
}

/// `s` in ASCII lower case.
pub fn to_ascii_lowercase(s: &str) -> (r: String)
    ensures
        r@ == ascii_lower(s@),
{
    let v = crate::text::chars_of(s);
    let mut out: Vec<char> = Vec::new();
    let mut k: usize = 0;
    while k < v.len()
        invariant
            k <= v@.len(),
            out@ =~= ascii_lower(v@.take(k as int)),
        decreases v@.len() - k,
    {
        out.push(lower_char(v[k]));
        k = k + 1;
        assert(out@ =~= ascii_lower(v@.take(k as int)));
    }
    assert(v@.take(v@.len() as int) =~= v@);
    crate::text::string_of(&out)
}

impl DepKind {
    /// Read a kind, ignoring ASCII case: `normal`, `dev` or `build`.
    pub fn from_str(s: &str) -> (r: Result<DepKind, String>)
        ensures
            ascii_lower(s@) == "normal"@ ==> r == Ok::<DepKind, String>(DepKind::Normal),
            ascii_lower(s@) == "dev"@ ==> r == Ok::<DepKind, String>(DepKind::Dev),
            ascii_lower(s@) == "build"@ ==> r == Ok::<DepKind, String>(DepKind::Build),
            r is Err <==> (ascii_lower(s@) != "normal"@ && ascii_lower(s@) != "dev"@ && ascii_lower(s@) != "build"@),
    {
        let l = to_ascii_lowercase(s);
        proof {
            reveal_strlit("normal");
            reveal_strlit("dev");
            reveal_strlit("build");
            assert("normal"@.len() == 6 && "dev"@.len() == 3 && "build"@.len() == 5);
            assert("normal"@ != "dev"@ && "normal"@ != "build"@ && "dev"@ != "build"@);
        }
        let normal = "normal".to_owned();
        let dev = "dev".to_owned();
        let build = "build".to_owned();
        if l == normal {
            Ok(DepKind::Normal)
        } else if l == dev {
            Ok(DepKind::Dev)
        } else if l == build {
            Ok(DepKind::Build)
        } else {
            let m = join2("Unknown dependency kind '", s);
            Err(join2(m.as_str(), "'"))
        }
    }

    /// The metadata kind of this kind.
    pub fn kind(self) -> (r: DependencyKind)
        ensures
            r == match self {
                DepKind::Normal => DependencyKind::Normal,
                DepKind::Dev => DependencyKind::Development,
                DepKind::Build => DependencyKind::Build,
            },
    {
        match self {
            DepKind::Normal => DependencyKind::Normal,
            DepKind::Dev => DependencyKind::Development,
            DepKind::Build => DependencyKind::Build,
        }
    }
}

impl IgnoreSetting {
    /// Read a setting, ignoring ASCII case: `ignore` or `check`.
    pub fn from_str(s: &str) -> (r: Result<IgnoreSetting, String>)
        ensures
            ascii_lower(s@) == "ignore"@ ==> r == Ok::<IgnoreSetting, String>(IgnoreSetting::Ignore),
            ascii_lower(s@) == "check"@ ==> r == Ok::<IgnoreSetting, String>(IgnoreSetting::Check),
            r is Err <==> (ascii_lower(s@) != "ignore"@ && ascii_lower(s@) != "check"@),
    {
        let l = to_ascii_lowercase(s);
        proof {
            reveal_strlit("ignore");
            reveal_strlit("check");
            assert("ignore"@.len() == 6 && "check"@.len() == 5);
            assert("ignore"@ != "check"@);
        }
        let ignore = "ignore".to_owned();
        let check = "check".to_owned();
        if l == ignore {
            Ok(IgnoreSetting::Ignore)
        } else if l == check {
            Ok(IgnoreSetting::Check)
        } else {
            let m = join2("Unknown ignore setting '", s);
            Err(join2(m.as_str(), "'"))
        }
    }
}

/// Whether `p` declares feature `f` and the tokens of its first such feature.
pub fn feature_tokens<'a>(p: &'a Package, f: &String) -> (r: Option<&'a Vec<String>>)
    ensures
        r is Some == declares(*p, f@),
        r matches Some(t) ==> exists|fi: int| #[trigger] first_feat(*p, f@, fi) && p.features@[fi].1 == *t,
{
    let mut i: usize = 0;
    while i < p.features.len()
        invariant
            i <= p.features@.len(),
            forall|j: int| 0 <= j < i ==> (#[trigger] p.features@[j]).0@ != f@,
        decreases p.features@.len() - i,
    {
        if p.features[i].0 == *f {
            assert(first_feat(*p, f@, i as int));
            return Some(&p.features[i].1);
        }
        i = i + 1;
    }
    None
}

/// Whether `v` holds `s`.
pub fn contains_string(v: &Vec<String>, s: &String) -> (r: bool)
    ensures
        r == exists|i: int| 0 <= i < v@.len() && (#[trigger] v@[i])@ == s@,
{
    let mut i: usize = 0;
    while i < v.len()
        invariant
            i <= v@.len(),
            forall|j: int| 0 <= j < i ==> (#[trigger] v@[j])@ != s@,
        decreases v@.len() - i,
    {
        if v[i] == *s {
            return true;
        }
        i = i + 1;
    }
    false
}

/// Feature `fi` is the first feature of `p` named `f`.
pub open spec fn first_feat(p: Package, f: Seq<char>, fi: int) -> bool {
    0 <= fi < p.features@.len() && p.features@[fi].0@ == f && forall|g: int| 0 <= g < fi ==> (#[trigger] p.features@[g]).0@ != f
}

pub proof fn lemma_first_feat_unique(p: Package, f: Seq<char>, a: int, b: int)
    requires
        first_feat(p, f, a),
        first_feat(p, f, b),
    ensures
        a == b,
{
    if a < b {
        assert(p.features@[a].0@ != f);
    } else if b < a {
        assert(p.features@[b].0@ != f);
    }
}

/// The name under which dependency `d` that resolves to package `q` is used.
pub open spec fn use_name(meta: Metadata, d: Dependency, q: int) -> Seq<char> {
    match d.rename {
        Some(b) => b@,
        None => meta.packages@[q].name@,
    }
}

/// The name under which a resolved dependency is used.
pub open spec fn rp_name(rp: RenamedPackage) -> Seq<char> {
    match rp.rename {
        Some(a) => a@,
        None => rp.pkg_name@,
    }
}

/// `r` lists package `p` as its own offender.
pub open spec fn listed_own(r: Seq<(usize, RenamedPackage)>, p: int) -> bool {
    exists|k: int| 0 <= k < r.len() && (#[trigger] r[k]).0 == p && r[k].1.pkg == p && r[k].1.rename is None
}

/// `r` lists package `p` with its dependency on package `q` used as `n`.
pub open spec fn listed_dep(r: Seq<(usize, RenamedPackage)>, p: int, q: int, n: Seq<char>) -> bool {
    exists|k: int| 0 <= k < r.len() && (#[trigger] r[k]).0 == p && r[k].1.pkg == q && rp_name(r[k].1) == n
}

/// Every offender of the first feature `pre` of package `p` that comes before
/// dependency `dn` is listed in `r`.
pub open spec fn never_found_upto(meta: Metadata, pre: Seq<char>, post: Seq<char>, r: Seq<(usize, RenamedPackage)>, p: int, dn: int) -> bool {
    &&& forall|fi: int, j: int|
        #![trigger meta.packages@[p].features@[fi].1@[j]]
        first_feat(meta.packages@[p], pre, fi) && 0 <= j < meta.packages@[p].features@[fi].1@.len()
            && meta.packages@[p].features@[fi].1@[j]@ == post ==> listed_own(r, p)
    &&& forall|fi: int, j: int, d: int|
        #![trigger meta.packages@[p].features@[fi].1@[j], meta.packages@[p].dependencies@[d]]
        first_feat(meta.packages@[p], pre, fi) && 0 <= j < meta.packages@[p].features@[fi].1@.len() && 0 <= d < dn
            && resolved(meta, meta.packages@[p], meta.packages@[p].dependencies@[d]) is Some && ({
            let q = resolved(meta, meta.packages@[p], meta.packages@[p].dependencies@[d])->Some_0;
            let n = use_name(meta, meta.packages@[p].dependencies@[d], q);
            meta.packages@[p].features@[fi].1@[j]@ == n + "/"@ + post || meta.packages@[p].features@[fi].1@[j]@ == n + "?/"@ + post
        }) ==> listed_dep(
            r,
            p,
            resolved(meta, meta.packages@[p], meta.packages@[p].dependencies@[d])->Some_0,
            use_name(meta, meta.packages@[p].dependencies@[d], resolved(meta, meta.packages@[p], meta.packages@[p].dependencies@[d])->Some_0),
        )
}

/// Each entry of `r` is an offender.
pub open spec fn never_sound(meta: Metadata, pre: Seq<char>, post: Seq<char>, r: Seq<(usize, RenamedPackage)>) -> bool {
    &&& forall|i: int| 0 <= i < r.len() ==> (#[trigger] r[i]).0 < meta.packages@.len() && declares(meta.packages@[r[i].0 as int], pre)
    &&& forall|i: int| 0 <= i < r.len() ==> never_pair(meta, pre, post, (#[trigger] r[i]).0 as int, rp_name(r[i].1),
        r[i].1.pkg as int == r[i].0 as int && r[i].1.rename is None)
}

/// What `never_enables` returns: offenders only, and each offender of the first
/// feature `pre` of every package.
pub open spec fn never_enables_result(meta: Metadata, pre: Seq<char>, post: Seq<char>, r: Seq<(usize, RenamedPackage)>) -> bool {
    &&& never_sound(meta, pre, post, r)
    &&& forall|p: int| 0 <= p < meta.packages@.len() ==> #[trigger] never_found_upto(meta, pre, post, r, p, meta.packages@[p].dependencies@.len() as int)
}

pub proof fn lemma_never_push(meta: Metadata, pre: Seq<char>, post: Seq<char>, o: Seq<(usize, RenamedPackage)>, x: (usize, RenamedPackage), p: int, dn: int)
    requires
        never_found_upto(meta, pre, post, o, p, dn),
    ensures
        never_found_upto(meta, pre, post, o.push(x), p, dn),
{
    let r = o.push(x);
    assert forall|k: int| 0 <= k < o.len() implies #[trigger] r[k] == o[k] by {}
    assert forall|fi: int, j: int|
        #![trigger meta.packages@[p].features@[fi].1@[j]]
        first_feat(meta.packages@[p], pre, fi) && 0 <= j < meta.packages@[p].features@[fi].1@.len()
            && meta.packages@[p].features@[fi].1@[j]@ == post implies listed_own(r, p) by {
        let k = choose|k: int| 0 <= k < o.len() && (#[trigger] o[k]).0 == p && o[k].1.pkg == p && o[k].1.rename is None;
        assert(r[k] == o[k]);
    }
    assert forall|fi: int, j: int, d: int|
        #![trigger meta.packages@[p].features@[fi].1@[j], meta.packages@[p].dependencies@[d]]
        first_feat(meta.packages@[p], pre, fi) && 0 <= j < meta.packages@[p].features@[fi].1@.len() && 0 <= d < dn
            && resolved(meta, meta.packages@[p], meta.packages@[p].dependencies@[d]) is Some && ({
            let q = resolved(meta, meta.packages@[p], meta.packages@[p].dependencies@[d])->Some_0;
            let n = use_name(meta, meta.packages@[p].dependencies@[d], q);
            meta.packages@[p].features@[fi].1@[j]@ == n + "/"@ + post || meta.packages@[p].features@[fi].1@[j]@ == n + "?/"@ + post
        }) implies listed_dep(
            r,
            p,
            resolved(meta, meta.packages@[p], meta.packages@[p].dependencies@[d])->Some_0,
            use_name(meta, meta.packages@[p].dependencies@[d], resolved(meta, meta.packages@[p], meta.packages@[p].dependencies@[d])->Some_0),
        ) by {
        let q = resolved(meta, meta.packages@[p], meta.packages@[p].dependencies@[d])->Some_0;
        let n = use_name(meta, meta.packages@[p].dependencies@[d], q);
        let k = choose|k: int| 0 <= k < o.len() && (#[trigger] o[k]).0 == p && o[k].1.pkg == q && rp_name(o[k].1) == n;
        assert(r[k] == o[k]);
    }
}

pub proof fn lemma_never_sound_push(meta: Metadata, pre: Seq<char>, post: Seq<char>, o: Seq<(usize, RenamedPackage)>, x: (usize, RenamedPackage))
    requires
        never_sound(meta, pre, post, o),
        never_sound(meta, pre, post, seq![x]),
    ensures
        never_sound(meta, pre, post, o.push(x)),
{
    let r = o.push(x);
    assert forall|k: int| 0 <= k < r.len() implies (#[trigger] r[k]).0 < meta.packages@.len() && declares(meta.packages@[r[k].0 as int], pre)
        && never_pair(meta, pre, post, r[k].0 as int, rp_name(r[k].1), r[k].1.pkg as int == r[k].0 as int && r[k].1.rename is None) by {
        if k < o.len() {
            assert(r[k] == o[k]);
        } else {
            assert(r[k] == seq![x][0]);
        }
    }
}

/// The offenders of `pre` never enabling `post`: for each package whose feature
/// `pre` lists `post` itself (the package is then its own offender), `dep/post`
/// or `dep?/post` for a resolved dependency `dep`, that package and the
/// dependency.
pub fn never_enables(meta: &Metadata, pre: &String, post: &String) -> (r: Vec<(usize, RenamedPackage)>)
    ensures
        never_enables_result(*meta, pre@, post@, r@),
{
    let mut out: Vec<(usize, RenamedPackage)> = Vec::new();
    let mut i: usize = 0;
    while i < meta.packages.len()
        invariant
            i <= meta.packages@.len(),
            never_sound(*meta, pre@, post@, out@),
            forall|p: int| 0 <= p < i ==> #[trigger] never_found_upto(*meta, pre@, post@, out@, p, meta.packages@[p].dependencies@.len() as int),
        decreases meta.packages@.len() - i,
    {
        let lhs = &meta.packages[i];
        let ghost pi = i as int;
        match feature_tokens(lhs, pre) {
            None => {
                assert forall|fi: int| !first_feat(meta.packages@[pi], pre@, fi) by {
                    if first_feat(meta.packages@[pi], pre@, fi) {
                        assert(declares(*lhs, pre@));
                    }
                }
                assert(never_found_upto(*meta, pre@, post@, out@, pi, meta.packages@[pi].dependencies@.len() as int));
            },
            Some(enabled) => {
                let ghost fi0 = choose|fi: int| #[trigger] first_feat(*lhs, pre@, fi) && lhs.features@[fi].1 == *enabled;
                if contains_string(enabled, post) {
                    let ghost o = out@;
                    let x = (i, RenamedPackage { pkg: i, pkg_name: lhs.name.clone(), pkg_id: lhs.id.clone(), rename: None, optional: false });
                    proof {
                        let j = choose|j: int| 0 <= j < enabled@.len() && (#[trigger] enabled@[j])@ == post@;
                        assert(meta.packages@[pi].features@[fi0].1@[j]@ == post@);
                        assert(declares(*lhs, pre@));
                        assert(never_pair(*meta, pre@, post@, pi, rp_name(x.1), true));
                        assert(seq![x][0] == x);
                    }
                    out.push(x);
                    proof {
                        lemma_never_sound_push(*meta, pre@, post@, o, x);
                        assert forall|p: int| 0 <= p < i implies #[trigger] never_found_upto(*meta, pre@, post@, out@, p, meta.packages@[p].dependencies@.len() as int) by {
                            lemma_never_push(*meta, pre@, post@, o, x, p, meta.packages@[p].dependencies@.len() as int);
                        }
                        assert(out@[o.len() as int] == x);
                        assert(listed_own(out@, pi));
                    }
                }
                assert forall|fi: int, j: int|
                    #![trigger meta.packages@[pi].features@[fi].1@[j]]
                    first_feat(meta.packages@[pi], pre@, fi) && 0 <= j < meta.packages@[pi].features@[fi].1@.len()
                        && meta.packages@[pi].features@[fi].1@[j]@ == post@ implies listed_own(out@, pi) by {
                    lemma_first_feat_unique(*lhs, pre@, fi, fi0);
                    assert(enabled@[j]@ == post@);
                }
                assert(never_found_upto(*meta, pre@, post@, out@, pi, 0));
                let mut d: usize = 0;
                while d < lhs.dependencies.len()
                    invariant
                        i < meta.packages@.len(),
                        pi == i as int,
                        *lhs == meta.packages@[pi],
                        first_feat(*lhs, pre@, fi0),
                        lhs.features@[fi0].1 == *enabled,
                        d <= lhs.dependencies@.len(),
                        never_sound(*meta, pre@, post@, out@),
                        forall|p: int| 0 <= p < i ==> #[trigger] never_found_upto(*meta, pre@, post@, out@, p, meta.packages@[p].dependencies@.len() as int),
                        never_found_upto(*meta, pre@, post@, out@, pi, d as int),
                    decreases lhs.dependencies@.len() - d,
                {
                    let ghost o0 = out@;
                    let res = resolve_dep(lhs, &lhs.dependencies[d], meta);
                    if let Some(rhs) = res {
                        let name = rhs.name();
                        let token = join2(name.as_str(), "/");
                        let token = join2(token.as_str(), post.as_str());
                        let qtoken = join2(name.as_str(), "?/");
                        let qtoken = join2(qtoken.as_str(), post.as_str());
                        if contains_string(enabled, &token) || contains_string(enabled, &qtoken) {
                            let ghost o = out@;
                            let x = (i, rhs);
                            proof {
                                assert(declares(*lhs, pre@));
                                if exists|j: int| 0 <= j < enabled@.len() && (#[trigger] enabled@[j])@ == token@ {
                                    let j = choose|j: int| 0 <= j < enabled@.len() && (#[trigger] enabled@[j])@ == token@;
                                    assert(meta.packages@[pi].features@[fi0].1@[j]@ == name@ + "/"@ + post@);
                                    assert(never_pair(*meta, pre@, post@, pi, rp_name(x.1), x.1.pkg as int == pi && x.1.rename is None));
                                } else {
                                    let j = choose|j: int| 0 <= j < enabled@.len() && (#[trigger] enabled@[j])@ == qtoken@;
                                    assert(meta.packages@[pi].features@[fi0].1@[j]@ == name@ + "?/"@ + post@);
                                    assert(never_pair(*meta, pre@, post@, pi, rp_name(x.1), x.1.pkg as int == pi && x.1.rename is None));
                                }
                                assert(seq![x][0] == x);
                            }
                            out.push(x);
                            proof {
                                lemma_never_sound_push(*meta, pre@, post@, o, x);
                                assert forall|p: int| 0 <= p < i implies #[trigger] never_found_upto(*meta, pre@, post@, out@, p, meta.packages@[p].dependencies@.len() as int) by {
                                    lemma_never_push(*meta, pre@, post@, o, x, p, meta.packages@[p].dependencies@.len() as int);
                                }
                                lemma_never_push(*meta, pre@, post@, o, x, pi, d as int);
                                assert(out@[o.len() as int] == x);
                                assert(listed_dep(out@, pi, rhs.pkg as int, rp_name(rhs)));
                            }
                        }
                    }
                    proof {
                        let dd = d as int;
                        assert forall|fi: int, j: int, e: int|
                            #![trigger meta.packages@[pi].features@[fi].1@[j], meta.packages@[pi].dependencies@[e]]
                            first_feat(meta.packages@[pi], pre@, fi) && 0 <= j < meta.packages@[pi].features@[fi].1@.len() && 0 <= e < dd + 1
                                && resolved(*meta, meta.packages@[pi], meta.packages@[pi].dependencies@[e]) is Some && ({
                                let q = resolved(*meta, meta.packages@[pi], meta.packages@[pi].dependencies@[e])->Some_0;
                                let n = use_name(*meta, meta.packages@[pi].dependencies@[e], q);
                                meta.packages@[pi].features@[fi].1@[j]@ == n + "/"@ + post@ || meta.packages@[pi].features@[fi].1@[j]@ == n + "?/"@ + post@
                            }) implies listed_dep(
                                out@,
                                pi,
                                resolved(*meta, meta.packages@[pi], meta.packages@[pi].dependencies@[e])->Some_0,
                                use_name(*meta, meta.packages@[pi].dependencies@[e], resolved(*meta, meta.packages@[pi], meta.packages@[pi].dependencies@[e])->Some_0),
                            ) by {
                            if e == dd {
                                lemma_first_feat_unique(*lhs, pre@, fi, fi0);
                                let rhs = res->Some_0;
                                assert(enabled@[j] == meta.packages@[pi].features@[fi].1@[j]);
                                assert(rp_name(rhs) == use_name(*meta, meta.packages@[pi].dependencies@[e], rhs.pkg as int));
                            }
                        }
                    }
                    d = d + 1;
                }
            },
        }
        i = i + 1;
    }
    out
}

/// Feature `pre` of package `p` lists `post` itself (`own`), `n/post` or `n?/post`.
pub open spec fn never_pair(meta: Metadata, pre: Seq<char>, post: Seq<char>, p: int, n: Seq<char>, own: bool) -> bool {
    exists|fi: int, j: int|
        #![trigger meta.packages@[p].features@[fi].1@[j]]
        0 <= p < meta.packages@.len() && 0 <= fi < meta.packages@[p].features@.len() && meta.packages@[p].features@[fi].0@ == pre && 0 <= j
            < meta.packages@[p].features@[fi].1@.len() && (meta.packages@[p].features@[fi].1@[j]@ == n + "/"@ + post
            || meta.packages@[p].features@[fi].1@[j]@ == n + "?/"@ + post || (own
            && meta.packages@[p].features@[fi].1@[j]@ == post))
}

/// Feature `fi` of package `p`, other than `pre`, lists at token `j` `n/only`,
/// or `n?/only` where dependency `d` is optional, for the name `n` under which
/// dependency `d` resolves to a package that declares `only`.
pub open spec fn only_cond(meta: Metadata, pre: Seq<char>, only: Seq<char>, p: int, d: int, fi: int, j: int) -> bool {
    let pk = meta.packages@[p];
    let q = resolved(meta, pk, pk.dependencies@[d])->Some_0;
    let n = use_name(meta, pk.dependencies@[d], q);
    let t = pk.features@[fi].1@[j]@;
    &&& 0 <= d < pk.dependencies@.len()
    &&& 0 <= fi < pk.features@.len()
    &&& 0 <= j < pk.features@[fi].1@.len()
    &&& resolved(meta, pk, pk.dependencies@[d]) is Some
    &&& declares(meta.packages@[q], only)
    &&& pk.features@[fi].0@ != pre
    &&& (t == n + "/"@ + only || (pk.dependencies@[d].optional && t == n + "?/"@ + only))
}

/// `r` holds the triple `(a, b, c)`.
pub open spec fn listed3(r: Seq<(String, String, String)>, a: Seq<char>, b: Seq<char>, c: Seq<char>) -> bool {
    exists|k: int| 0 <= k < r.len() && (#[trigger] r[k]).0@ == a && r[k].1@ == b && r[k].2@ == c
}

/// Every offender of package `p` through a dependency before `dn`, or through
/// dependency `dn` and a feature before `fn_`, is listed in `r`.
pub open spec fn only_done(meta: Metadata, pre: Seq<char>, only: Seq<char>, r: Seq<(String, String, String)>, p: int, dn: int, fn_: int) -> bool {
    forall|d: int, fi: int, j: int|
        #![trigger meta.packages@[p].features@[fi].1@[j], meta.packages@[p].dependencies@[d]]
        only_cond(meta, pre, only, p, d, fi, j) && (d < dn || (d == dn && fi < fn_)) ==> listed3(
            r,
            meta.packages@[p].name@,
            meta.packages@[p].features@[fi].0@,
            use_name(meta, meta.packages@[p].dependencies@[d], resolved(meta, meta.packages@[p], meta.packages@[p].dependencies@[d])->Some_0),
        )
}

pub proof fn lemma_only_push(meta: Metadata, pre: Seq<char>, only: Seq<char>, o: Seq<(String, String, String)>, x: (String, String, String), p: int, dn: int, fn_: int)
    requires
        only_done(meta, pre, only, o, p, dn, fn_),
    ensures
        only_done(meta, pre, only, o.push(x), p, dn, fn_),
{
    let r = o.push(x);
    assert forall|d: int, fi: int, j: int|
        #![trigger meta.packages@[p].features@[fi].1@[j], meta.packages@[p].dependencies@[d]]
        only_cond(meta, pre, only, p, d, fi, j) && (d < dn || (d == dn && fi < fn_)) implies listed3(
            r,
            meta.packages@[p].name@,
            meta.packages@[p].features@[fi].0@,
            use_name(meta, meta.packages@[p].dependencies@[d], resolved(meta, meta.packages@[p], meta.packages@[p].dependencies@[d])->Some_0),
        ) by {
        let n = use_name(meta, meta.packages@[p].dependencies@[d], resolved(meta, meta.packages@[p], meta.packages@[p].dependencies@[d])->Some_0);
        let k = choose|k: int| 0 <= k < o.len() && (#[trigger] o[k]).0@ == meta.packages@[p].name@ && o[k].1@ == meta.packages@[p].features@[fi].0@ && o[k].2@ == n;
        assert(r[k] == o[k]);
    }
}

/// What `only_enables` returns: offenders only, and every offender.
pub open spec fn only_enables_result(meta: Metadata, pre: Seq<char>, only: Seq<char>, r: Seq<(String, String, String)>) -> bool {
    &&& forall|k: int| 0 <= k < r.len() ==> only_triple(meta, pre, only, (#[trigger] r[k]).0@, r[k].1@, r[k].2@)
    &&& forall|p: int| 0 <= p < meta.packages@.len() ==> #[trigger] only_done(meta, pre, only, r, p, meta.packages@[p].dependencies@.len() as int, 0)
}

/// The features other than `pre` that enable `only/dep` on a dependency that has
/// feature `only`: `(package name, feature, dependency name)`.
pub fn only_enables(meta: &Metadata, pre: &String, only: &String) -> (r: Vec<(String, String, String)>)
    ensures
        only_enables_result(*meta, pre@, only@, r@),
{
    let mut out: Vec<(String, String, String)> = Vec::new();
    let mut i: usize = 0;
    while i < meta.packages.len()
        invariant
            i <= meta.packages@.len(),
            forall|k: int| 0 <= k < out@.len() ==> only_triple(*meta, pre@, only@, (#[trigger] out@[k]).0@, out@[k].1@, out@[k].2@),
            forall|p: int| 0 <= p < i ==> #[trigger] only_done(*meta, pre@, only@, out@, p, meta.packages@[p].dependencies@.len() as int, 0),
        decreases meta.packages@.len() - i,
    {
        let pkg = &meta.packages[i];
        let mut d: usize = 0;
        while d < pkg.dependencies.len()
            invariant
                i < meta.packages@.len(),
                *pkg == meta.packages@[i as int],
                d <= pkg.dependencies@.len(),
                forall|k: int| 0 <= k < out@.len() ==> only_triple(*meta, pre@, only@, (#[trigger] out@[k]).0@, out@[k].1@, out@[k].2@),
                forall|p: int| 0 <= p < i ==> #[trigger] only_done(*meta, pre@, only@, out@, p, meta.packages@[p].dependencies@.len() as int, 0),
                only_done(*meta, pre@, only@, out@, i as int, d as int, 0),
            decreases pkg.dependencies@.len() - d,
        {
            let ghost pi = i as int;
            let ghost dd = d as int;
            let res = resolve_dep(pkg, &pkg.dependencies[d], meta);
            let ghost o0 = out@;
            if let Some(dep) = res {
                if has_feature(&meta.packages[dep.pkg], only) {
                    let name = dep.name();
                    let bad = join2(join2(name.as_str(), "/").as_str(), only.as_str());
                    let opt = if dep.optional {
                        join2(join2(name.as_str(), "?/").as_str(), only.as_str())
                    } else {
                        bad.clone()
                    };
                    let mut f: usize = 0;
                    while f < pkg.features.len()
                        invariant
                            i < meta.packages@.len(),
                            *pkg == meta.packages@[i as int],
                            f <= pkg.features@.len(),
                            bad@ == name@ + "/"@ + only@,
                            opt@ == name@ + "/"@ + only@ || opt@ == name@ + "?/"@ + only@,
                            dep.optional ==> opt@ == name@ + "?/"@ + only@,
                            forall|k: int| 0 <= k < out@.len() ==> only_triple(*meta, pre@, only@, (#[trigger] out@[k]).0@, out@[k].1@, out@[k].2@),
                            forall|p: int| 0 <= p < i ==> #[trigger] only_done(*meta, pre@, only@, out@, p, meta.packages@[p].dependencies@.len() as int, 0),
                            only_done(*meta, pre@, only@, out@, i as int, d as int, f as int),
                            pi == i as int,
                            dd == d as int,
                            d < pkg.dependencies@.len(),
                            res == Some(dep),
                            resolved(*meta, *pkg, pkg.dependencies@[dd]) == Some(dep.pkg as int),
                            dep.optional == pkg.dependencies@[dd].optional,
                            name@ == use_name(*meta, pkg.dependencies@[dd], dep.pkg as int),
                        decreases pkg.features@.len() - f,
                    {
                        let (feat, imply) = &pkg.features[f];
                        let has_bad = contains_string(imply, &bad);
                        let has_opt = contains_string(imply, &opt);
                        if !(*feat == *pre) && (has_bad || has_opt) {
                            let ghost o = out@;
                            let t = (pkg.name.clone(), feat.clone(), name.clone());
                            out.push(t);
                            proof {
                                assert forall|p: int| 0 <= p < i implies #[trigger] only_done(*meta, pre@, only@, out@, p, meta.packages@[p].dependencies@.len() as int, 0) by {
                                    lemma_only_push(*meta, pre@, only@, o, t, p, meta.packages@[p].dependencies@.len() as int, 0);
                                }
                                lemma_only_push(*meta, pre@, only@, o, t, pi, dd, f as int);
                                assert(out@[o.len() as int] == t);
                                assert(listed3(out@, pkg.name@, feat@, name@));
                                assert(pkg.features@[f as int].1@ == imply@);
                                assert(only_triple(*meta, pre@, only@, t.0@, t.1@, t.2@)) by {
                                    assert(meta.packages@[i as int].features@[f as int].0@ == feat@);
                                    if has_bad {
                                        let j = choose|j: int| 0 <= j < imply@.len() && (#[trigger] imply@[j])@ == bad@;
                                        assert(token_names(meta.packages@[i as int].features@[f as int].1@[j]@, t.2@, only@));
                                    } else {
                                        let j = choose|j: int| 0 <= j < imply@.len() && (#[trigger] imply@[j])@ == opt@;
                                        assert(token_names(meta.packages@[i as int].features@[f as int].1@[j]@, t.2@, only@));
                                    }
                                }
                                assert forall|k: int| 0 <= k < out@.len() implies only_triple(*meta, pre@, only@, (#[trigger] out@[k]).0@, out@[k].1@, out@[k].2@) by {
                                    if k < o.len() {
                                        assert(out@[k] == o[k]);
                                    }
                                }
                            }
                        }
                        proof {
                            assert forall|dx: int, fi: int, j: int|
                                #![trigger meta.packages@[pi].features@[fi].1@[j], meta.packages@[pi].dependencies@[dx]]
                                only_cond(*meta, pre@, only@, pi, dx, fi, j) && (dx < dd || (dx == dd && fi < f + 1)) implies listed3(
                                    out@,
                                    meta.packages@[pi].name@,
                                    meta.packages@[pi].features@[fi].0@,
                                    use_name(*meta, meta.packages@[pi].dependencies@[dx], resolved(*meta, meta.packages@[pi], meta.packages@[pi].dependencies@[dx])->Some_0),
                                ) by {
                                if dx == dd && fi == f as int {
                                    let tk = imply@[j];
                                    assert(tk == meta.packages@[pi].features@[fi].1@[j]);
                                    if tk@ == bad@ {
                                        assert(has_bad);
                                    } else {
                                        assert(tk@ == opt@);
                                        assert(has_opt);
                                    }
                                    assert(feat@ != pre@);
                                }
                            }
                        }
                        f = f + 1;
                    }
                    proof {
                        assert forall|dx: int, fi: int, j: int|
                            #![trigger meta.packages@[pi].features@[fi].1@[j], meta.packages@[pi].dependencies@[dx]]
                            only_cond(*meta, pre@, only@, pi, dx, fi, j) && (dx < dd + 1 || (dx == dd + 1 && fi < 0)) implies listed3(
                                out@,
                                meta.packages@[pi].name@,
                                meta.packages@[pi].features@[fi].0@,
                                use_name(*meta, meta.packages@[pi].dependencies@[dx], resolved(*meta, meta.packages@[pi], meta.packages@[pi].dependencies@[dx])->Some_0),
                            ) by {
                        }
                    }
                }
            }
            proof {
                if !(res is Some && declares(meta.packages@[res->Some_0.pkg as int], only@)) {
                    assert forall|dx: int, fi: int, j: int|
                        #![trigger meta.packages@[pi].features@[fi].1@[j], meta.packages@[pi].dependencies@[dx]]
                        only_cond(*meta, pre@, only@, pi, dx, fi, j) && (dx < dd + 1 || (dx == dd + 1 && fi < 0)) implies listed3(
                            out@,
                            meta.packages@[pi].name@,
                            meta.packages@[pi].features@[fi].0@,
                            use_name(*meta, meta.packages@[pi].dependencies@[dx], resolved(*meta, meta.packages@[pi], meta.packages@[pi].dependencies@[dx])->Some_0),
                        ) by {
                        if dx == dd {
                            assert(resolved(*meta, meta.packages@[pi], meta.packages@[pi].dependencies@[dx]) is Some);
                        }
                    }
                }
            }
            d = d + 1;
        }
        assert(only_done(*meta, pre@, only@, out@, i as int, pkg.dependencies@.len() as int, 0));
        i = i + 1;
    }
    out
}

/// Token `t` enables feature `only` on dependency `d`, strongly or weakly.
pub open spec fn token_names(t: Seq<char>, d: Seq<char>, only: Seq<char>) -> bool {
    t == d + "/"@ + only || t == d + "?/"@ + only
}

/// Package `p` has a feature `f` other than `pre` that lists a token enabling
/// `only` on dependency `d`.
pub open spec fn only_triple(meta: Metadata, pre: Seq<char>, only: Seq<char>, p: Seq<char>, f: Seq<char>, d: Seq<char>) -> bool {
    exists|i: int, fi: int, j: int|
        #![trigger meta.packages@[i].features@[fi].1@[j]]
        0 <= i < meta.packages@.len() && 0 <= fi < meta.packages@[i].features@.len() && 0 <= j < meta.packages@[i].features@[fi].1@.len()
            && meta.packages@[i].name@ == p && meta.packages@[i].features@[fi].0@ == f && f != pre && token_names(
            meta.packages@[i].features@[fi].1@[j]@,
            d,
            only,
        )
}

/// The name of the package with id `id`, or `id` itself when there is none.
pub fn name_of_id(meta: &Metadata, id: &String) -> (r: String)
    ensures
        r@ == name_of(*meta, id@),
{
    match crate::metadata::find_package(&meta.packages, id) {
        Some(k) => {
            proof {
                let c = choose|c: int| is_first_where(meta.packages@, pkg_has_id(id@), c);
                crate::metadata::lemma_first_unique(meta.packages@, pkg_has_id(id@), k as int, c);
            }
            meta.packages[k].name.clone()
        },
        None => {
            proof {
                if exists|c: int| is_first_where(meta.packages@, pkg_has_id(id@), c) {
                    let c = choose|c: int| is_first_where(meta.packages@, pkg_has_id(id@), c);
                    assert(meta.packages@[c].id@ == id@);
                }
            }
            id.clone()
        },
    }
}

/// The name of the first package with id `id`, or `id` itself.
pub open spec fn name_of(meta: Metadata, id: Seq<char>) -> Seq<char> {
    if exists|c: int| is_first_where(meta.packages@, pkg_has_id(id), c) {
        meta.packages@[choose|c: int| is_first_where(meta.packages@, pkg_has_id(id), c)].name@
    } else {
        id
    }
}

/// Some edge into feature `feat` of package `pkg` starts at a node of package
/// `name` with feature `f`.
pub open spec fn explains(meta: Metadata, g: Map<FeatureNode, Set<FeatureNode>>, pkg: Seq<char>, feat: Seq<char>, name: Seq<char>, f: Seq<char>) -> bool {
    exists|a: FeatureNode, b: FeatureNode| #[trigger] edge_into_pkg(meta, g, pkg, a, b) && b.1 == feat && name == name_of(meta, a.0) && f == a.1
}

/// An edge of `g` from `a` ends at feature `feat` of a node of package `pkg`.
pub open spec fn edge_into_feat(meta: Metadata, g: Map<FeatureNode, Set<FeatureNode>>, pkg: Seq<char>, feat: Seq<char>, a: FeatureNode, b: FeatureNode) -> bool {
    edge_into_pkg(meta, g, pkg, a, b) && b.1 == feat
}

/// Some edge of `g` from `a` ends at a node of package `pkg` (by name).
pub open spec fn edge_into_pkg(meta: Metadata, g: Map<FeatureNode, Set<FeatureNode>>, pkg: Seq<char>, a: FeatureNode, b: FeatureNode) -> bool {
    g.contains_key(a) && g[a].contains(b) && name_of(meta, b.0) == pkg
}

/// Why a feature could not be explained.
#[derive(Debug, Clone, Copy, PartialEq, Eq, Structural)]
pub enum WhyError {
    /// No edge of the graph ends at the package.
    PackageNotFound,
    /// No edge ends at that feature of the package.
    FeatureNotFound,
}

/// The `(package name, feature)` pairs whose edges enable `feature` of the
/// package named `package`; nodes are named by their package, or by their own
/// crate part when no package has that id.
pub fn why_enabled(meta: &Metadata, dag: &Dag<CrateAndFeature>, package: &String, feature: &String) -> (r: Result<Vec<(String, String)>, WhyError>)
    requires
        dag.wf(),
    ensures
        (r == Err::<Vec<(String, String)>, WhyError>(WhyError::PackageNotFound)) == !exists|a: FeatureNode, b: FeatureNode|
            #[trigger] edge_into_pkg(*meta, dag@, package@, a, b),
        r matches Ok(v) ==> v@.len() > 0 && forall|i: int| 0 <= i < v@.len() ==> explains(*meta, dag@, package@, feature@, (#[trigger] v@[i]).0@, v@[i].1@),
        r matches Ok(v) ==> forall|a: FeatureNode, b: FeatureNode| #[trigger] edge_into_feat(*meta, dag@, package@, feature@, a, b) ==> listed2(v@, name_of(*meta, a.0), a.1),
        (r == Err::<Vec<(String, String)>, WhyError>(WhyError::FeatureNotFound)) == ((exists|a: FeatureNode, b: FeatureNode|
            #[trigger] edge_into_pkg(*meta, dag@, package@, a, b)) && !exists|a: FeatureNode, b: FeatureNode|
            #[trigger] edge_into_feat(*meta, dag@, package@, feature@, a, b)),
{
    let mut found_crate = false;
    let mut out: Vec<(String, String)> = Vec::new();
    let lhs_all = dag.lhs_nodes();
    let ghost g = dag@;
    let mut k: usize = 0;
    while k < lhs_all.len()
        invariant
            dag.wf(),
            g == dag@,
            k <= lhs_all@.len(),
            crate::dag::views(lhs_all@).to_set() == g.dom(),
            found_crate == exists|m: int, b: FeatureNode| 0 <= m < k && #[trigger] edge_into_pkg(*meta, g, package@, lhs_all@[m]@, b),
            forall|i: int| 0 <= i < out@.len() ==> explains(*meta, g, package@, feature@, (#[trigger] out@[i]).0@, out@[i].1@),
            forall|m: int, b: FeatureNode| 0 <= m < k && #[trigger] edge_into_feat(*meta, g, package@, feature@, lhs_all@[m]@, b) ==> listed2(out@, name_of(*meta, lhs_all@[m]@.0), lhs_all@[m]@.1),
        decreases lhs_all@.len() - k,
    {
        let lhs = &lhs_all[k];
        let succ = dag.successors(lhs);
        proof {
            assert(crate::dag::views(lhs_all@)[k as int] == lhs@);
            assert(g.contains_key(lhs@));
        }
        let ghost found0 = found_crate;
        let mut j: usize = 0;
        while j < succ.len()
            invariant
                g == dag@,
                k < lhs_all@.len(),
                *lhs == lhs_all@[k as int],
                g.contains_key(lhs@),
                forall|b: FeatureNode| #[trigger] crate::dag::views(succ@).contains(b) <==> g[lhs@].contains(b),
                j <= succ@.len(),
                found_crate == (found0 || exists|jj: int| 0 <= jj < j && name_of(*meta, (#[trigger] succ@[jj])@.0) == package@),
                forall|i: int| 0 <= i < out@.len() ==> explains(*meta, g, package@, feature@, (#[trigger] out@[i]).0@, out@[i].1@),
                forall|m: int, b: FeatureNode| 0 <= m < k && #[trigger] edge_into_feat(*meta, g, package@, feature@, lhs_all@[m]@, b) ==> listed2(out@, name_of(*meta, lhs_all@[m]@.0), lhs_all@[m]@.1),
                forall|jj: int| 0 <= jj < j && #[trigger] edge_into_feat(*meta, g, package@, feature@, lhs@, succ@[jj]@) ==> listed2(out@, name_of(*meta, lhs@.0), lhs@.1),
            decreases succ@.len() - j,
        {
            let rhs = &succ[j];
            let resolved = name_of_id(meta, &rhs.0);
            proof {
                assert(crate::dag::views(succ@)[j as int] == succ@[j as int]@);
                assert(crate::dag::views(succ@).contains(succ@[j as int]@));
            }
            if resolved == *package {
                found_crate = true;
                if rhs.1 == *feature {
                    let pair = (name_of_id(meta, &lhs.0), lhs.1.clone());
                    let ghost ov = out@;
                    out.push(pair);
                    proof {
                        assert(out@[ov.len() as int] == pair);
                        assert(listed2(out@, name_of(*meta, lhs@.0), lhs@.1));
                        assert forall|n: Seq<char>, f: Seq<char>| listed2(ov, n, f) implies listed2(out@, n, f) by {
                            let i = choose|i: int| 0 <= i < ov.len() && (#[trigger] ov[i]).0@ == n && ov[i].1@ == f;
                            assert(out@[i] == ov[i]);
                        }
                        assert forall|i: int| 0 <= i < out@.len() implies explains(*meta, g, package@, feature@, (#[trigger] out@[i]).0@, out@[i].1@) by {
                            if i < ov.len() {
                                assert(out@[i] == ov[i]);
                            } else {
                                assert(edge_into_pkg(*meta, g, package@, lhs@, succ@[j as int]@));
                            }
                        }
                    }
                }
            }
            proof {
                assert forall|jj: int| 0 <= jj < j + 1 && #[trigger] edge_into_feat(*meta, g, package@, feature@, lhs@, succ@[jj]@) implies listed2(out@, name_of(*meta, lhs@.0), lhs@.1) by {
                    if jj == j as int {
                        assert(resolved@ == package@);
                        assert(rhs.1@ == feature@);
                    }
                }
                if exists|jj: int| 0 <= jj < j + 1 && name_of(*meta, (#[trigger] succ@[jj])@.0) == package@ {
                    let jj = choose|jj: int| 0 <= jj < j + 1 && name_of(*meta, (#[trigger] succ@[jj])@.0) == package@;
                    if jj < j {
                        assert(0 <= jj < j && name_of(*meta, succ@[jj]@.0) == package@);
                    }
                }
                if name_of(*meta, succ@[j as int]@.0) == package@ {
                    assert(0 <= j < j + 1 && name_of(*meta, succ@[j as int]@.0) == package@);
                }
                if exists|jj: int| 0 <= jj < j && name_of(*meta, (#[trigger] succ@[jj])@.0) == package@ {
                    let jj = choose|jj: int| 0 <= jj < j && name_of(*meta, (#[trigger] succ@[jj])@.0) == package@;
                    assert(0 <= jj < j + 1 && name_of(*meta, succ@[jj]@.0) == package@);
                }
            }
            j = j + 1;
        }
        proof {
            assert(found_crate == exists|m: int, b: FeatureNode| 0 <= m < k + 1 && #[trigger] edge_into_pkg(*meta, g, package@, lhs_all@[m]@, b)) by {
                if found_crate && !found0 {
                    let jj = choose|jj: int| 0 <= jj < succ@.len() && name_of(*meta, (#[trigger] succ@[jj])@.0) == package@;
                    let b = succ@[jj]@;
                    assert(crate::dag::views(succ@)[jj] == b);
                    assert(crate::dag::views(succ@).contains(b));
                    assert(edge_into_pkg(*meta, g, package@, lhs_all@[k as int]@, b));
                }
                if exists|m: int, b: FeatureNode| 0 <= m < k + 1 && #[trigger] edge_into_pkg(*meta, g, package@, lhs_all@[m]@, b) {
                    let (m, b) = choose|m: int, b: FeatureNode| 0 <= m < k + 1 && #[trigger] edge_into_pkg(*meta, g, package@, lhs_all@[m]@, b);
                    if m == k as int {
                        assert(crate::dag::views(succ@).contains(b));
                        let jj = choose|jj: int| 0 <= jj < crate::dag::views(succ@).len() && crate::dag::views(succ@)[jj] == b;
                        assert(succ@[jj]@ == b);
                    } else {
                        assert(0 <= m < k && edge_into_pkg(*meta, g, package@, lhs_all@[m]@, b));
                    }
                }
            }
            assert forall|m: int, b: FeatureNode| 0 <= m < k + 1 && #[trigger] edge_into_feat(*meta, g, package@, feature@, lhs_all@[m]@, b) implies listed2(out@, name_of(*meta, lhs_all@[m]@.0), lhs_all@[m]@.1) by {
                if m == k as int {
                    assert(crate::dag::views(succ@).contains(b));
                    let jj = choose|jj: int| 0 <= jj < crate::dag::views(succ@).len() && crate::dag::views(succ@)[jj] == b;
                    assert(succ@[jj]@ == b);
                    assert(edge_into_feat(*meta, g, package@, feature@, lhs@, succ@[jj]@));
                }
            }
        }
        k = k + 1;
    }
    proof {
        if exists|a: FeatureNode, b: FeatureNode| #[trigger] edge_into_pkg(*meta, g, package@, a, b) {
            let (a, b) = choose|a: FeatureNode, b: FeatureNode| #[trigger] edge_into_pkg(*meta, g, package@, a, b);
            assert(crate::dag::views(lhs_all@).to_set().contains(a));
            let m = choose|m: int| 0 <= m < crate::dag::views(lhs_all@).len() && crate::dag::views(lhs_all@)[m] == a;
            assert(lhs_all@[m]@ == a);
            assert(edge_into_pkg(*meta, g, package@, lhs_all@[m]@, b));
        }
        assert forall|a: FeatureNode, b: FeatureNode| #[trigger] edge_into_feat(*meta, g, package@, feature@, a, b) implies listed2(out@, name_of(*meta, a.0), a.1) by {
            assert(crate::dag::views(lhs_all@).to_set().contains(a));
            let m = choose|m: int| 0 <= m < crate::dag::views(lhs_all@).len() && crate::dag::views(lhs_all@)[m] == a;
            assert(lhs_all@[m]@ == a);
            assert(edge_into_feat(*meta, g, package@, feature@, lhs_all@[m]@, b));
        }
        if exists|a: FeatureNode, b: FeatureNode| #[trigger] edge_into_feat(*meta, g, package@, feature@, a, b) {
            let (a, b) = choose|a: FeatureNode, b: FeatureNode| #[trigger] edge_into_feat(*meta, g, package@, feature@, a, b);
            assert(edge_into_pkg(*meta, g, package@, a, b));
            assert(listed2(out@, name_of(*meta, a.0), a.1));
        }
        if out@.len() > 0 {
            assert(explains(*meta, g, package@, feature@, out@[0].0@, out@[0].1@));
            let (a, b) = choose|a: FeatureNode, b: FeatureNode| #[trigger] edge_into_pkg(*meta, g, package@, a, b) && b.1 == feature@
                && out@[0].0@ == name_of(*meta, a.0) && out@[0].1@ == a.1;
            assert(edge_into_feat(*meta, g, package@, feature@, a, b));
        }
    }
    if !found_crate {
        Err(WhyError::PackageNotFound)
    } else if out.len() == 0 {
        Err(WhyError::FeatureNotFound)
    } else {
        Ok(out)
    }
}

/// The packages named in both `[dependencies]` and `[dev-dependencies]` of a
/// workspace member with otherwise equal records: `(package, dependency)`.
pub fn duplicate_deps(meta: &Metadata) -> (r: Vec<(String, String)>)
    ensures
        forall|k: int| 0 <= k < r@.len() ==> dup_pair(*meta, (#[trigger] r@[k]).0@, r@[k].1@),
        forall|i: int, a: int| #[trigger] duplicated(*meta, i, a) ==> listed2(r@, meta.packages@[i].name@, meta.packages@[i].dependencies@[a].name@),
{
    let mut out: Vec<(String, String)> = Vec::new();
    let mut i: usize = 0;
    while i < meta.packages.len()
        invariant
            i <= meta.packages@.len(),
            forall|k: int| 0 <= k < out@.len() ==> dup_pair(*meta, (#[trigger] out@[k]).0@, out@[k].1@),
            forall|p: int, a: int| 0 <= p < i && #[trigger] duplicated(*meta, p, a) ==> listed2(out@, meta.packages@[p].name@, meta.packages@[p].dependencies@[a].name@),
        decreases meta.packages@.len() - i,
    {
        let pkg = &meta.packages[i];
        if is_workspace_member(meta, &pkg.id) {
            let mut a: usize = 0;
            while a < pkg.dependencies.len()
                invariant
                    i < meta.packages@.len(),
                    *pkg == meta.packages@[i as int],
                    is_member(*meta, pkg.id@),
                    a <= pkg.dependencies@.len(),
                    forall|k: int| 0 <= k < out@.len() ==> dup_pair(*meta, (#[trigger] out@[k]).0@, out@[k].1@),
                    forall|p: int, a2: int| 0 <= p < i && #[trigger] duplicated(*meta, p, a2) ==> listed2(out@, meta.packages@[p].name@, meta.packages@[p].dependencies@[a2].name@),
                    forall|a2: int| 0 <= a2 < a && #[trigger] duplicated(*meta, i as int, a2) ==> listed2(out@, meta.packages@[i as int].name@, meta.packages@[i as int].dependencies@[a2].name@),
                decreases pkg.dependencies@.len() - a,
            {
                let x = &pkg.dependencies[a];
                if x.kind == DependencyKind::Normal {
                    let mut b: usize = 0;
                    let mut dup = false;
                    while b < pkg.dependencies.len()
                        invariant
                            a < pkg.dependencies@.len(),
                            *x == pkg.dependencies@[a as int],
                            b <= pkg.dependencies@.len(),
                            dup == exists|b2: int| 0 <= b2 < b && (#[trigger] pkg.dependencies@[b2]).kind
                                == DependencyKind::Development && same_rec(*x, pkg.dependencies@[b2]),
                        decreases pkg.dependencies@.len() - b,
                    {
                        let y = &pkg.dependencies[b];
                        if y.kind == DependencyKind::Development && same_record(x, y) {
                            dup = true;
                        }
                        b = b + 1;
                    }
                    if dup {
                        let ghost o = out@;
                        let t = (pkg.name.clone(), x.name.clone());
                        out.push(t);
                        proof {
                            assert(out@[o.len() as int] == t);
                            assert(listed2(out@, pkg.name@, x.name@));
                            assert forall|n: Seq<char>, dn: Seq<char>| listed2(o, n, dn) implies listed2(out@, n, dn) by {
                                let k = choose|k: int| 0 <= k < o.len() && (#[trigger] o[k]).0@ == n && o[k].1@ == dn;
                                assert(out@[k] == o[k]);
                            }
                            assert(duplicated(*meta, i as int, a as int));
                            assert forall|k: int| 0 <= k < out@.len() implies dup_pair(*meta, (#[trigger] out@[k]).0@, out@[k].1@) by {
                                if k < o.len() {
                                    assert(out@[k] == o[k]);
                                } else {
                                    assert(duplicated(*meta, i as int, a as int) && out@[k].0@ == meta.packages@[i as int].name@ && out@[k].1@ == meta.packages@[i as int].dependencies@[a as int].name@);
                                }
                            }
                        }
                    }
                }
                proof {
                    assert forall|a2: int| 0 <= a2 < a + 1 && #[trigger] duplicated(*meta, i as int, a2) implies listed2(out@, meta.packages@[i as int].name@, meta.packages@[i as int].dependencies@[a2].name@) by {
                        if a2 == a {
                            assert(x.kind == DependencyKind::Normal);
                            let b2 = choose|b2: int| 0 <= b2 < meta.packages@[i as int].dependencies@.len() && (#[trigger] meta.packages@[i as int].dependencies@[b2]).kind
                                == DependencyKind::Development && same_rec(meta.packages@[i as int].dependencies@[a2], meta.packages@[i as int].dependencies@[b2]);
                            assert(pkg.dependencies@[b2].kind == DependencyKind::Development);
                        }
                    }
                }
                a = a + 1;
            }
        }
        proof {
            assert forall|p: int, a2: int| 0 <= p < i + 1 && #[trigger] duplicated(*meta, p, a2) implies listed2(out@, meta.packages@[p].name@, meta.packages@[p].dependencies@[a2].name@) by {
                if p == i as int {
                    assert(is_member(*meta, pkg.id@));
                }
            }
        }
        i = i + 1;
    }
    out
}

fn same_opt(a: &Option<String>, b: &Option<String>) -> (r: bool)
    ensures
        r == (match (a, b) {
            (Some(x), Some(y)) => x@ == y@,
            (None, None) => true,
            _ => false,
        }),
{
    match (a, b) {
        (Some(x), Some(y)) => *x == *y,
        (None, None) => true,
        _ => false,
    }
}

/// Whether two records agree on everything but their kind.
pub fn same_record(x: &Dependency, y: &Dependency) -> (r: bool)
    ensures
        r == same_rec(*x, *y),
{
    if !(x.name == y.name) || !same_opt(&x.rename, &y.rename) || x.optional != y.optional
        || x.uses_default_features != y.uses_default_features || !(x.req == y.req) || !same_opt(&x.path, &y.path)
        || x.features.len() != y.features.len() {
        return false;
    }
    let mut k: usize = 0;
    while k < x.features.len()
        invariant
            k <= x.features@.len(),
            x.features@.len() == y.features@.len(),
            forall|j: int| 0 <= j < k ==> x.features@[j]@ == y.features@[j]@,
        decreases x.features@.len() - k,
    {
        if !(x.features[k] == y.features[k]) {
            return false;
        }
        k = k + 1;
    }
    true
}

/// Whether two dependency records agree on everything but their kind.
pub open spec fn same_rec(x: Dependency, y: Dependency) -> bool {
    &&& x.name@ == y.name@
    &&& match (x.rename, y.rename) {
        (Some(a), Some(b)) => a@ == b@,
        (None, None) => true,
        _ => false,
    }
    &&& x.optional == y.optional
    &&& x.uses_default_features == y.uses_default_features
    &&& x.req@ == y.req@
    &&& match (x.path, y.path) {
        (Some(a), Some(b)) => a@ == b@,
        (None, None) => true,
        _ => false,
    }
    &&& x.features@.len() == y.features@.len()
    &&& forall|j: int| 0 <= j < x.features@.len() ==> x.features@[j]@ == y.features@[j]@
}

/// Some workspace member named `n` has a normal record named `d` with a dev twin.
/// `r` holds the pair `(n, d)`.
pub open spec fn listed2(r: Seq<(String, String)>, n: Seq<char>, d: Seq<char>) -> bool {
    exists|k: int| 0 <= k < r.len() && (#[trigger] r[k]).0@ == n && r[k].1@ == d
}

pub open spec fn dup_pair(meta: Metadata, n: Seq<char>, d: Seq<char>) -> bool {
    exists|i: int, a: int| #[trigger] duplicated(meta, i, a) && n == meta.packages@[i].name@ && d == meta.packages@[i].dependencies@[a].name@
}

/// Package `i` is a workspace member whose normal record `a` has a twin among
/// its dev records.
pub open spec fn duplicated(meta: Metadata, i: int, a: int) -> bool {
    &&& 0 <= i < meta.packages@.len()
    &&& is_member(meta, meta.packages@[i].id@)
    &&& 0 <= a < meta.packages@[i].dependencies@.len()
    &&& meta.packages@[i].dependencies@[a].kind == DependencyKind::Normal
    &&& exists|b: int| 0 <= b < meta.packages@[i].dependencies@.len() && (#[trigger] meta.packages@[i].dependencies@[b]).kind
        == DependencyKind::Development && same_rec(meta.packages@[i].dependencies@[a], meta.packages@[i].dependencies@[b])
}

/// Whether the source of a crate root declares no-std support, and whether it
/// also holds a crate-level `cfg` that may pull in the standard library.
pub fn supports_nostd(content: &str) -> (r: (bool, bool))
    ensures
        r.0 == (crate::cmd::has_text(content@, "#![cfg_attr(not(feature = \"std\"), no_std)]"@) || crate::cmd::has_text(
            content@,
            "#![no_std]"@,
        )),
        r.1 == (r.0 && crate::cmd::has_text(content@, "\n#![cfg("@)),
{
    let a = crate::cmd::contains_text(content, "#![cfg_attr(not(feature = \"std\"), no_std)]");
    let b = crate::cmd::contains_text(content, "#![no_std]");
    if a || b {
        let warn = crate::cmd::contains_text(content, "\n#![cfg(");
        (true, warn)
    } else {
        (false, false)
    }
}

/// The name `lhs` uses for its dependency `d` that resolves to package `k`: the
/// alias, else the package's name.
pub open spec fn name_for(meta: Metadata, d: Dependency, k: int) -> Seq<char> {
    match d.rename {
        Some(a) => a@,
        None => meta.packages@[k].name@,
    }
}

/// The offenders among the first `m` records of `lhs`.
pub open spec fn nostd_names(meta: Metadata, lhs: Package, supports: Seq<bool>, m: int) -> Seq<Seq<char>>
    decreases m,
{
    if m <= 0 {
        Seq::empty()
    } else {
        let d = lhs.dependencies@[m - 1];
        nostd_names(meta, lhs, supports, m - 1) + match resolved(meta, lhs, d) {
            Some(k) => if d.kind == DependencyKind::Normal && supports[k] && d.uses_default_features {
                seq![name_for(meta, d, k)]
            } else {
                Seq::empty()
            },
            None => Seq::empty(),
        }
    }
}

/// The normal dependencies of `lhs` that resolve to a package `k` with
/// `supports[k]` and still use their default features, by the name `lhs` uses
/// for them, in order.
pub fn nostd_offenders(meta: &Metadata, lhs: &Package, supports: &Vec<bool>) -> (r: Vec<String>)
    requires
        supports@.len() == meta.packages@.len(),
    ensures
        r@.map_values(|x: String| x@) == nostd_names(*meta, *lhs, supports@, lhs.dependencies@.len() as int),
{
    let mut out: Vec<String> = Vec::new();
    let mut d: usize = 0;
    while d < lhs.dependencies.len()
        invariant
            supports@.len() == meta.packages@.len(),
            d <= lhs.dependencies@.len(),
            out@.map_values(|x: String| x@) == nostd_names(*meta, *lhs, supports@, d as int),
        decreases lhs.dependencies@.len() - d,
    {
        let dep = &lhs.dependencies[d];
        let ghost o = out@;
        match resolve_dep(lhs, dep, meta) {
            Some(rhs) => {
                if dep.kind == DependencyKind::Normal && supports[rhs.pkg] && dep.uses_default_features {
                    let n = rhs.name();
                    out.push(n);
                    assert(out@.map_values(|x: String| x@) =~= o.map_values(|x: String| x@).push(n@));
                } else {
                    assert(out@.map_values(|x: String| x@) =~= o.map_values(|x: String| x@));
                }
            },
            None => {
                assert(out@.map_values(|x: String| x@) =~= o.map_values(|x: String| x@));
            },
        }
        d = d + 1;
        proof {
            let m = *meta;
            assert(nostd_names(m, *lhs, supports@, d as int) =~= nostd_names(m, *lhs, supports@, d - 1) + match resolved(m, *lhs, lhs.dependencies@[d - 1]) {
                Some(k) => if lhs.dependencies@[d - 1].kind == DependencyKind::Normal && supports@[k] && lhs.dependencies@[d - 1].uses_default_features {
                    seq![name_for(m, lhs.dependencies@[d - 1], k)]
                } else {
                    Seq::<Seq<char>>::empty()
                },
                None => Seq::<Seq<char>>::empty(),
            });
        }
    }
    out
}

/// The metadata `m2` is `m` with token `t` appended to feature `fi` of package `pi`.
pub open spec fn with_token(m: Metadata, m2: Metadata, pi: int, fi: int, t: Seq<char>) -> bool {
    &&& m2.resolve == m.resolve
    &&& m2.workspace_members@ == m.workspace_members@
    &&& m2.packages@.len() == m.packages@.len()
    &&& forall|j: int| 0 <= j < m.packages@.len() && j != pi ==> #[trigger] m2.packages@[j] == m.packages@[j]
    &&& m2.packages@[pi].id == m.packages@[pi].id
    &&& m2.packages@[pi].name == m.packages@[pi].name
    &&& m2.packages@[pi].dependencies == m.packages@[pi].dependencies
    &&& m2.packages@[pi].features@.len() == m.packages@[pi].features@.len()
    &&& forall|j: int| 0 <= j < m.packages@[pi].features@.len() && j != fi ==> #[trigger] m2.packages@[pi].features@[j] == m.packages@[pi].features@[j]
    &&& m2.packages@[pi].features@[fi].0 == m.packages@[pi].features@[fi].0
    &&& views_of(m2.packages@[pi].features@[fi].1@) == views_of(m.packages@[pi].features@[fi].1@).push(t)
}

/// The views of a list of strings.
pub open spec fn views_of(s: Seq<String>) -> Seq<Seq<char>> {
    s.map_values(|x: String| x@)
}

proof fn lemma_first_same<A>(s1: Seq<A>, s2: Seq<A>, p: spec_fn(A) -> bool, q: spec_fn(A) -> bool, k: int)
    requires
        s1.len() == s2.len(),
        forall|j: int| 0 <= j < s1.len() ==> p(#[trigger] s1[j]) == q(s2[j]),
    ensures
        is_first_where(s1, p, k) == is_first_where(s2, q, k),
{
    if is_first_where(s1, p, k) {
        assert forall|j: int| 0 <= j < k implies !q(#[trigger] s2[j]) by {
            assert(!p(s1[j]));
        }
    }
    if is_first_where(s2, q, k) {
        assert forall|j: int| 0 <= j < k implies !p(#[trigger] s1[j]) by {
            assert(!q(s2[j]));
        }
    }
}

#[verifier::spinoff_prover]
#[verifier::rlimit(40)]
proof fn lemma_resolved_same(m: Metadata, m2: Metadata, pi: int, fi: int, t: Seq<char>, d: Dependency)
    requires
        with_token(m, m2, pi, fi, t),
        0 <= pi < m.packages@.len(),
    ensures
        resolved(m, m.packages@[pi], d) == resolved(m2, m2.packages@[pi], d),
{
    let p = m.packages@[pi];
    let p2 = m2.packages@[pi];
    assert forall|j: int| 0 <= j < m.packages@.len() implies (#[trigger] m2.packages@[j]).id@ == m.packages@[j].id@
        && m2.packages@[j].name@ == m.packages@[j].name@ by {
        if j != pi {
            assert(m2.packages@[j] == m.packages@[j]);
        }
    }
    assert forall|x: Seq<char>| is_member(m, x) == is_member(m2, x) by {
        if is_member(m, x) {
            let i = choose|i: int| 0 <= i < m.workspace_members@.len() && (#[trigger] m.workspace_members@[i])@ == x;
            assert(m2.workspace_members@[i] == m.workspace_members@[i]);
        }
        if is_member(m2, x) {
            let i = choose|i: int| 0 <= i < m2.workspace_members@.len() && (#[trigger] m2.workspace_members@[i])@ == x;
            assert(m2.workspace_members@[i] == m.workspace_members@[i]);
        }
    }
    assert forall|k: int| resolves_to(m, p, d, k) == resolves_to(m2, p2, d, k) by {
        match m.resolve {
            Some(nodes) => {
                assert forall|x: Seq<char>, kk: int| is_first_where(m.packages@, pkg_has_id(x), kk) == is_first_where(m2.packages@, pkg_has_id(x), kk) by {
                    lemma_first_same(m.packages@, m2.packages@, pkg_has_id(x), pkg_has_id(x), kk);
                }
                if resolves_to(m, p, d, k) {
                    let (n, e) = choose|n: int, e: int|
                        is_first_where(nodes@, node_has_id(p.id@), n) && is_first_where(
                            nodes@[n].deps@, edge_has_name(crate_root_name(used_name(d))), e,
                        ) && is_first_where(m.packages@, pkg_has_id(nodes@[n].deps@[e].pkg@), k);
                    assert(is_first_where(m2.packages@, pkg_has_id(nodes@[n].deps@[e].pkg@), k));
                }
                if resolves_to(m2, p2, d, k) {
                    let (n, e) = choose|n: int, e: int|
                        is_first_where(nodes@, node_has_id(p2.id@), n) && is_first_where(
                            nodes@[n].deps@, edge_has_name(crate_root_name(used_name(d))), e,
                        ) && is_first_where(m2.packages@, pkg_has_id(nodes@[n].deps@[e].pkg@), k);
                    assert(is_first_where(m.packages@, pkg_has_id(nodes@[n].deps@[e].pkg@), k));
                }
            },
            None => {
                assert forall|kk: int| is_first_where(m.packages@, member_named(m, d.name@), kk) == is_first_where(m2.packages@, member_named(m2, d.name@), kk) by {
                    lemma_first_same(m.packages@, m2.packages@, member_named(m, d.name@), member_named(m2, d.name@), kk);
                }
                assert forall|x: Seq<char>, kk: int| is_first_where(m.packages@, pkg_has_id(x), kk) == is_first_where(m2.packages@, pkg_has_id(x), kk) by {
                    lemma_first_same(m.packages@, m2.packages@, pkg_has_id(x), pkg_has_id(x), kk);
                }
                if resolves_to(m, p, d, k) {
                    let w = choose|w: int|
                        is_first_where(m.packages@, member_named(m, d.name@), w) && is_first_where(m.packages@, pkg_has_id(m.packages@[w].id@), k);
                    assert(is_first_where(m2.packages@, member_named(m2, d.name@), w));
                    assert(m2.packages@[w].id@ == m.packages@[w].id@);
                    assert(is_first_where(m2.packages@, pkg_has_id(m2.packages@[w].id@), k));
                }
                if resolves_to(m2, p2, d, k) {
                    let w = choose|w: int|
                        is_first_where(m2.packages@, member_named(m2, d.name@), w) && is_first_where(m2.packages@, pkg_has_id(m2.packages@[w].id@), k);
                    assert(is_first_where(m.packages@, member_named(m, d.name@), w));
                    assert(m2.packages@[w].id@ == m.packages@[w].id@);
                    assert(is_first_where(m.packages@, pkg_has_id(m.packages@[w].id@), k));
                }
            },
        }
    }
    if resolved(m, p, d) is Some {
        let k = resolved(m, p, d)->0;
        assert(resolves_to(m2, p2, d, k));
        lemma_resolves_unique(m2, p2, d, k, resolved(m2, p2, d)->0);
    } else if resolved(m2, p2, d) is Some {
        let k = resolved(m2, p2, d)->0;
        assert(resolves_to(m, p, d, k));
    }
}

/// Fixing a missing propagation removes the finding: when the check finds that
/// feature `f` of package `pi` is not forwarded along its dependency record `di`,
/// appending `dep/f` (or `dep?/f`) to that feature, `dep` being the name the
/// record is used under, makes the check of the new metadata fine for the record.
/// Names hold no `:`, `/` or `?`, and the record is the first one used under its
/// name.
#[verifier::spinoff_prover]
#[verifier::rlimit(40)]
pub proof fn lemma_fix_resolves_propagation(
    m: Metadata,
    g: Map<FeatureNode, Set<FeatureNode>>,
    s: PropagateSettings,
    pi: int,
    di: int,
    fi: int,
    weak: bool,
    m2: Metadata,
    g2: Map<FeatureNode, Set<FeatureNode>>,
)
    requires
        0 <= pi < m.packages@.len(),
        0 <= di < m.packages@[pi].dependencies@.len(),
        0 <= fi < m.packages@[pi].features@.len(),
        finding(m, g, s, m.packages@[pi], m.packages@[pi].dependencies@[di], m.packages@[pi].features@[fi].0@) == Finding::PropagateMissing,
        with_token(
            m,
            m2,
            pi,
            fi,
            used_name(m.packages@[pi].dependencies@[di]) + (if weak { "?"@ } else { Seq::<char>::empty() }) + "/"@
                + m.packages@[pi].features@[fi].0@,
        ),
        is_graph_of(g2, all_edges(m2, m2.packages@, m2.packages@.len() as int)),
        dep_record(m.packages@[pi], used_name(m.packages@[pi].dependencies@[di])) == Some(di),
        !used_name(m.packages@[pi].dependencies@[di]).contains(':'),
        !used_name(m.packages@[pi].dependencies@[di]).contains('/'),
        !used_name(m.packages@[pi].dependencies@[di]).contains('?'),
        !m.packages@[pi].features@[fi].0@.contains(':'),
        !m.packages@[pi].features@[fi].0@.contains('/'),
    ensures
        finding(m2, g2, s, m2.packages@[pi], m2.packages@[pi].dependencies@[di], m.packages@[pi].features@[fi].0@) == Finding::Fine,
{
    let p = m.packages@[pi];
    let p2 = m2.packages@[pi];
    let d = p.dependencies@[di];
    let f = p.features@[fi].0@;
    let u = used_name(d);
    let q = if weak { "?"@ } else { Seq::<char>::empty() };
    let t = u + q + "/"@ + f;
    reveal_strlit("?");
    reveal_strlit("/");
    assert(p2.dependencies@[di] == d);
    lemma_resolved_same(m, m2, pi, fi, t, d);
    let k = resolved(m, p, d)->0;
    assert(resolved(m2, p2, d) == Some(k));
    assert(m2.packages@[k].id@ == m.packages@[k].id@) by {
        if k != pi {
            assert(m2.packages@[k] == m.packages@[k]);
        }
    }
    assert(is_member(m, p.id@) == is_member(m2, p2.id@)) by {
        if is_member(m, p.id@) {
            let i = choose|i: int| 0 <= i < m.workspace_members@.len() && (#[trigger] m.workspace_members@[i])@ == p.id@;
            assert(m2.workspace_members@[i] == m.workspace_members@[i]);
        }
        if is_member(m2, p2.id@) {
            let i = choose|i: int| 0 <= i < m2.workspace_members@.len() && (#[trigger] m2.workspace_members@[i])@ == p2.id@;
            assert(m2.workspace_members@[i] == m.workspace_members@[i]);
        }
    }
    // The package and the dependency still declare the feature.
    assert(declares(p2, f)) by {
        assert(p2.features@[fi].0@ == f);
    }
    assert(declares(m2.packages@[k], f)) by {
        if k != pi {
            assert(m2.packages@[k] == m.packages@[k]);
        } else {
            assert(p2.features@[fi].0@ == f);
        }
    }
    lemma_token_points_at(m, m2, pi, di, fi, weak, k);
    // The edge is in the new graph.
    let toks = p2.features@[fi].1@;
    let e = ((p2.id@, f), crate::features::token_target(m2, p2, t));
    assert(views_of(toks).len() == toks.len());
    assert(toks.len() > 0);
    assert(toks.last()@ == t) by {
        assert(views_of(toks)[toks.len() - 1] == t);
    }
    let fe = crate::features::feature_edges(m2, p2, p2.features@[fi].0@, toks);
    assert(fe[toks.len() - 1] == e);
    assert(fe.contains(e));
    crate::features::lemma_feats_edges_contains(m2, p2, p2.features@.len() as int, fi, e);
    let de = crate::features::deps_edges(m2, p2, p2.dependencies@.len() as int);
    let fes = crate::features::feats_edges(m2, p2, p2.features@.len() as int);
    let kk = choose|kk: int| 0 <= kk < fes.len() && fes[kk] == e;
    assert((de + fes)[de.len() + kk] == e);
    assert(crate::features::package_edges(m2, p2).contains(e));
    crate::features::lemma_all_edges_contains(m2, m2.packages@, m2.packages@.len() as int, pi, e);
    let all = all_edges(m2, m2.packages@, m2.packages@.len() as int);
    let ii = choose|ii: int| 0 <= ii < all.len() && all[ii] == e;
    assert(all[ii].0 == e.0);
    assert(g2.contains_key(e.0));
    assert(g2[e.0].contains(e.1));
    assert(has_edge(g2, (p2.id@, f), (m2.packages@[k].id@, f)));
}


#[verifier::spinoff_prover]
#[verifier::rlimit(40)]
proof fn lemma_token_points_at(m: Metadata, m2: Metadata, pi: int, di: int, fi: int, weak: bool, k: int)
    requires
        0 <= pi < m.packages@.len(),
        0 <= di < m.packages@[pi].dependencies@.len(),
        0 <= fi < m.packages@[pi].features@.len(),
        0 <= k < m.packages@.len(),
        m2.packages@[pi].dependencies == m.packages@[pi].dependencies,
        m2.packages@[k].id@ == m.packages@[k].id@,
        resolved(m2, m2.packages@[pi], m.packages@[pi].dependencies@[di]) == Some(k),
        dep_record(m.packages@[pi], used_name(m.packages@[pi].dependencies@[di])) == Some(di),
        !used_name(m.packages@[pi].dependencies@[di]).contains(':'),
        !used_name(m.packages@[pi].dependencies@[di]).contains('/'),
        !used_name(m.packages@[pi].dependencies@[di]).contains('?'),
        !m.packages@[pi].features@[fi].0@.contains(':'),
        !m.packages@[pi].features@[fi].0@.contains('/'),
    ensures
        crate::features::token_target(
            m2,
            m2.packages@[pi],
            used_name(m.packages@[pi].dependencies@[di]) + (if weak { "?"@ } else { Seq::<char>::empty() }) + "/"@
                + m.packages@[pi].features@[fi].0@,
        ) == (m.packages@[k].id@, m.packages@[pi].features@[fi].0@),
{
    let p = m.packages@[pi];
    let p2 = m2.packages@[pi];
    let d = p.dependencies@[di];
    let f = p.features@[fi].0@;
    let u = used_name(d);
    let q = if weak { "?"@ } else { Seq::<char>::empty() };
    let t = u + q + "/"@ + f;
    reveal_strlit("?");
    reveal_strlit("/");
    let slash: int = (u.len() + q.len()) as int;
    assert(t[slash] == '/');
    assert(!t.contains(':')) by {
        if t.contains(':') {
            let i = choose|i: int| 0 <= i < t.len() && t[i] == ':';
            if i < u.len() {
                assert(u[i] == ':');
            } else if i < slash + 1 {
            } else {
                assert(f[i - slash - 1] == ':');
            }
        }
    }
    assert(crate::text::is_first(t, '/', slash)) by {
        assert forall|j: int| 0 <= j < slash implies t[j] != '/' by {
            if j < u.len() {
                assert(t[j] == u[j]);
                if u[j] == '/' {
                    assert(u.contains('/'));
                }
            }
        }
    }
    crate::text::lemma_index_of(t, '/', slash);
    assert(t.contains('/'));
    assert(before_first_slash(t) == u + q);
    assert(t.take(slash) =~= u + q);
    assert(t.skip(slash + 1) =~= f);
    crate::text::lemma_without_absent(u, '?');
    if weak {
        crate::text::lemma_without_push(u, '?');
        assert(u + q =~= u.push('?'));
    } else {
        assert(u + q =~= u);
    }
    assert(crate::text::without_char(crate::text::before_first(t, '/'), '?') == u);
    assert(crate::text::before_first(f, '/') == f);
    assert(crate::features::dep_record(p2, u) == Some(di)) by {
        assert(p2.dependencies == p.dependencies);
    }
    assert(crate::features::token_target(m2, p2, t) == (m.packages@[k].id@, f));
}

spec fn before_first_slash(t: Seq<char>) -> Seq<char> {
    crate::text::before_first(t, '/')
}

} // verus!
