//! The feature graph of a workspace: nodes are `(crate id, feature)` pairs and an
//! edge `(A, f) -> (B, g)` means that enabling `f` on `A` enables `g` on `B`.

use vstd::prelude::*;
use crate::dag::{Dag, DagNode};
use crate::metadata::{
    is_first_where, lemma_first_unique, resolve_dep, resolved, used_name, Dependency, Metadata,
    Package,
};
use crate::text::{after_first, before_first, has_char, remove_char, split_once, without_char};

verus! {

/// A feature of a crate: the crate id (or, for an unresolved dependency, its
/// name) and the feature name.
#[derive(Debug, Clone)]
pub struct CrateAndFeature(pub String, pub String);

impl View for CrateAndFeature {
    type V = (Seq<char>, Seq<char>);

    open spec fn view(&self) -> (Seq<char>, Seq<char>) {
        (self.0@, self.1@)
    }
}

impl DagNode for CrateAndFeature {
    fn same(&self, other: &Self) -> (r: bool) {
        self.0 == other.0 && self.1 == other.1
    }

    fn duplicate(&self) -> (r: Self) {
        CrateAndFeature(self.0.clone(), self.1.clone())
    }
}

impl CrateAndFeature {
    /// `crate/feature`.
    pub fn to_string(&self) -> (r: String)
        ensures
            r@ == self.0@ + "/"@ + self.1@,
    {
        let s = crate::text::join2(self.0.as_str(), "/");
        crate::text::join2(s.as_str(), self.1.as_str())
    }
}

/// The view of a feature node.
pub type FeatureNode = (Seq<char>, Seq<char>);

/// The views of a list of edges.
pub open spec fn edge_views(s: Seq<(CrateAndFeature, CrateAndFeature)>) -> Seq<(FeatureNode, FeatureNode)> {
    s.map_values(|e: (CrateAndFeature, CrateAndFeature)| (e.0@, e.1@))
}

pub open spec fn uses_name(name: Seq<char>) -> spec_fn(Dependency) -> bool {
    |d: Dependency| used_name(d) == name
}

/// The first dependency record of `p` used under `name`.
pub open spec fn dep_record(p: Package, name: Seq<char>) -> Option<int> {
    if exists|i: int| is_first_where(p.dependencies@, uses_name(name), i) {
        Some(choose|i: int| is_first_where(p.dependencies@, uses_name(name), i))
    } else {
        None
    }
}

/// The crate that the token naming dependency `name` of `p` points at: the id of
/// the resolved package, else the name of the record, else the name itself. The
/// last two are dead ends of the graph.
pub open spec fn dep_target(meta: Metadata, p: Package, name: Seq<char>) -> Seq<char> {
    match dep_record(p, name) {
        Some(i) => match resolved(meta, p, p.dependencies@[i]) {
            Some(k) => meta.packages@[k].id@,
            None => p.dependencies@[i].name@,
        },
        None => name,
    }
}

/// The node that activation token `t` of package `p` enables.
///
/// `x:dep` enables the default features of `dep`; `dep/g` and `dep?/g` enable `g`
/// on `dep`; a bare `g` enables feature `g` of `p` itself.
pub open spec fn token_target(meta: Metadata, p: Package, t: Seq<char>) -> FeatureNode {
    if t.contains(':') {
        (dep_target(meta, p, before_first(after_first(t, ':'), ':')), "default"@)
    } else if t.contains('/') {
        (
            dep_target(meta, p, without_char(before_first(t, '/'), '?')),
            before_first(after_first(t, '/'), '/'),
        )
    } else {
        (p.id@, t)
    }
}

/// The edges that one dependency record contributes.
pub open spec fn dep_edges(meta: Metadata, p: Package, d: Dependency) -> Seq<(FeatureNode, FeatureNode)> {
    (if d.uses_default_features {
        seq![((p.id@, "default"@), (d.name@, "default"@))] + match resolved(meta, p, d) {
            Some(k) => seq![((p.id@, "#entrypoint"@), (meta.packages@[k].id@, "default"@))],
            None => Seq::empty(),
        }
    } else {
        Seq::empty()
    }) + d.features@.map_values(|f: String| ((p.id@, "default"@), (d.name@, f@)))
}

/// The edges of the first `n` dependency records of `p`.
pub open spec fn deps_edges(meta: Metadata, p: Package, n: int) -> Seq<(FeatureNode, FeatureNode)>
    decreases n,
{
    if n <= 0 {
        Seq::empty()
    } else {
        deps_edges(meta, p, n - 1) + dep_edges(meta, p, p.dependencies@[n - 1])
    }
}

/// The edges of feature `f` of `p`: one for each activation token.
pub open spec fn feature_edges(meta: Metadata, p: Package, f: Seq<char>, tokens: Seq<String>) -> Seq<(FeatureNode, FeatureNode)> {
    tokens.map_values(|t: String| ((p.id@, f), token_target(meta, p, t@)))
}

/// The edges of the first `n` features of `p`.
pub open spec fn feats_edges(meta: Metadata, p: Package, n: int) -> Seq<(FeatureNode, FeatureNode)>
    decreases n,
{
    if n <= 0 {
        Seq::empty()
    } else {
        feats_edges(meta, p, n - 1) + feature_edges(meta, p, p.features@[n - 1].0@, p.features@[n - 1].1@)
    }
}

/// All edges that package `p` contributes.
pub open spec fn package_edges(meta: Metadata, p: Package) -> Seq<(FeatureNode, FeatureNode)> {
    deps_edges(meta, p, p.dependencies@.len() as int) + feats_edges(meta, p, p.features@.len() as int)
}

/// The edges of the first `n` packages.
pub open spec fn all_edges(meta: Metadata, pkgs: Seq<Package>, n: int) -> Seq<(FeatureNode, FeatureNode)>
    decreases n,
{
    if n <= 0 {
        Seq::empty()
    } else {
        all_edges(meta, pkgs, n - 1) + package_edges(meta, pkgs[n - 1])
    }
}

/// Whether `g` is exactly the edge relation of the list `es`.
pub open spec fn is_graph_of(g: Map<FeatureNode, Set<FeatureNode>>, es: Seq<(FeatureNode, FeatureNode)>) -> bool {
    &&& forall|a: FeatureNode| #[trigger] g.contains_key(a) <==> exists|i: int| 0 <= i < es.len() && (#[trigger] es[i]).0 == a
    &&& forall|a: FeatureNode, b: FeatureNode| g.contains_key(a) ==> (#[trigger] g[a].contains(b) <==> es.contains((a, b)))
}

/// The graph of a list of edges.
pub fn dag_from_edges(es: &Vec<(CrateAndFeature, CrateAndFeature)>) -> (r: Dag<CrateAndFeature>)
    ensures
        r.wf(),
        is_graph_of(r@, edge_views(es@)),
{
    let mut r: Dag<CrateAndFeature> = Dag::new();
    let mut k: usize = 0;
    while k < es.len()
        invariant
            k <= es@.len(),
            r.wf(),
            is_graph_of(r@, edge_views(es@).take(k as int)),
        decreases es@.len() - k,
    {
        let ghost g0 = r@;
        let ghost pre = edge_views(es@).take(k as int);
        let ghost e = edge_views(es@)[k as int];
        r.add_edge(es[k].0.duplicate(), es[k].1.duplicate());
        proof {
            let post = edge_views(es@).take(k as int + 1);
            assert(post =~= pre.push(e));
            assert forall|a: FeatureNode| #[trigger] r@.contains_key(a) <==> exists|i: int| 0 <= i < post.len() && (#[trigger] post[i]).0 == a by {
                if a == e.0 {
                    assert(post[k as int].0 == a);
                } else if r@.contains_key(a) {
                    assert(g0.contains_key(a));
                    let i = choose|i: int| 0 <= i < pre.len() && (#[trigger] pre[i]).0 == a;
                    assert(post[i] == pre[i]);
                } else if exists|i: int| 0 <= i < post.len() && (#[trigger] post[i]).0 == a {
                    let i = choose|i: int| 0 <= i < post.len() && (#[trigger] post[i]).0 == a;
                    assert(pre[i] == post[i]);
                }
            }
            assert forall|a: FeatureNode, b: FeatureNode| r@.contains_key(a) implies (#[trigger] r@[a].contains(b) <==> post.contains((a, b))) by {
                if post.contains((a, b)) {
                    let i = choose|i: int| 0 <= i < post.len() && post[i] == (a, b);
                    if i < k {
                        assert(pre[i] == (a, b));
                        assert(pre.contains((a, b)));
                        assert(g0.contains_key(a)) by {
                            assert(pre[i].0 == a);
                        }
                    }
                }
                if a != e.0 && g0.contains_key(a) && pre.contains((a, b)) {
                    let i = choose|i: int| 0 <= i < pre.len() && pre[i] == (a, b);
                    assert(post[i] == (a, b));
                }
                if a == e.0 && g0.contains_key(a) && pre.contains((a, b)) {
                    let i = choose|i: int| 0 <= i < pre.len() && pre[i] == (a, b);
                    assert(post[i] == (a, b));
                }
                if a == e.0 && b == e.1 {
                    assert(post[k as int] == (a, b));
                }
            }
        }
        k = k + 1;
    }
    proof {
        assert(edge_views(es@).take(es@.len() as int) =~= edge_views(es@));
    }
    r
}


/// The first dependency record of `p` used under `name`.
pub fn find_dep_record(p: &Package, name: &String) -> (r: Option<usize>)
    ensures
        match r {
            Some(i) => dep_record(*p, name@) == Some(i as int) && i < p.dependencies@.len(),
            None => dep_record(*p, name@) is None,
        },
{
    let mut i: usize = 0;
    while i < p.dependencies.len()
        invariant
            i <= p.dependencies@.len(),
            forall|j: int| 0 <= j < i ==> !uses_name(name@)(#[trigger] p.dependencies@[j]),
        decreases p.dependencies@.len() - i,
    {
        let d = &p.dependencies[i];
        let hit = match &d.rename {
            Some(a) => *a == *name,
            None => d.name == *name,
        };
        if hit {
            proof {
                assert(is_first_where(p.dependencies@, uses_name(name@), i as int));
                let c = choose|c: int| is_first_where(p.dependencies@, uses_name(name@), c);
                lemma_first_unique(p.dependencies@, uses_name(name@), i as int, c);
            }
            return Some(i);
        }
        i = i + 1;
    }
    proof {
        assert forall|c: int| !is_first_where(p.dependencies@, uses_name(name@), c) by {
            if is_first_where(p.dependencies@, uses_name(name@), c) {
                assert(!uses_name(name@)(p.dependencies@[c]));
            }
        }
    }
    None
}

/// The crate that a token naming dependency `name` of `p` points at.
pub fn dep_target_of(meta: &Metadata, p: &Package, name: &String) -> (r: String)
    ensures
        r@ == dep_target(*meta, *p, name@),
{
    match find_dep_record(p, name) {
        Some(i) => match resolve_dep(p, &p.dependencies[i], meta) {
            Some(rp) => rp.pkg_id,
            None => p.dependencies[i].name.clone(),
        },
        None => name.clone(),
    }
}

/// The node that activation token `t` of package `p` enables.
pub fn token_target_of(meta: &Metadata, p: &Package, t: &String) -> (r: CrateAndFeature)
    ensures
        r@ == token_target(*meta, *p, t@),
{
    if has_char(t.as_str(), ':') {
        let (_, rest) = split_once(t.as_str(), ':').unwrap();
        let dep = match split_once(rest.as_str(), ':') {
            Some((d, _)) => d,
            None => rest,
        };
        proof {
            if !rest@.contains(':') {
                assert(before_first(rest@, ':') == rest@);
            }
        }
        CrateAndFeature(dep_target_of(meta, p, &dep), "default".to_owned())
    } else if has_char(t.as_str(), '/') {
        let (left, rest) = split_once(t.as_str(), '/').unwrap();
        let dep = remove_char(left.as_str(), '?');
        let feat = match split_once(rest.as_str(), '/') {
            Some((f, _)) => f,
            None => rest,
        };
        CrateAndFeature(dep_target_of(meta, p, &dep), feat)
    } else {
        CrateAndFeature(p.id.clone(), t.clone())
    }
}

/// Append the edges of dependency record `d` of `p`.
fn push_dep_edges(meta: &Metadata, p: &Package, d: &Dependency, out: &mut Vec<(CrateAndFeature, CrateAndFeature)>)
    ensures
        edge_views(final(out)@) == edge_views(old(out)@) + dep_edges(*meta, *p, *d),
{
    let ghost start = edge_views(out@);
    if d.uses_default_features {
        out.push((CrateAndFeature(p.id.clone(), "default".to_owned()), CrateAndFeature(d.name.clone(), "default".to_owned())));
        match resolve_dep(p, d, meta) {
            Some(rp) => {
                out.push((CrateAndFeature(p.id.clone(), "#entrypoint".to_owned()), CrateAndFeature(rp.pkg_id, "default".to_owned())));
            },
            None => {},
        }
    }
    let ghost mid = edge_views(out@);
    assert(mid =~= start + (if d.uses_default_features {
        seq![((p.id@, "default"@), (d.name@, "default"@))] + match resolved(*meta, *p, *d) {
            Some(k) => seq![((p.id@, "#entrypoint"@), (meta.packages@[k].id@, "default"@))],
            None => Seq::empty(),
        }
    } else {
        Seq::empty()
    }));
    let mut k: usize = 0;
    while k < d.features.len()
        invariant
            k <= d.features@.len(),
            edge_views(out@) =~= mid + d.features@.take(k as int).map_values(|f: String| ((p.id@, "default"@), (d.name@, f@))),
        decreases d.features@.len() - k,
    {
        let ghost o = out@;
        out.push((CrateAndFeature(p.id.clone(), "default".to_owned()), CrateAndFeature(d.name.clone(), d.features[k].clone())));
        assert(out@ =~= o.push(out@[o.len() as int]));
        assert(edge_views(out@) =~= edge_views(o).push(((p.id@, "default"@), (d.name@, d.features@[k as int]@))));
        k = k + 1;
        assert(d.features@.take(k as int) =~= d.features@.take(k as int - 1).push(d.features@[k as int - 1]));
    }
    assert(d.features@.take(d.features@.len() as int) =~= d.features@);
}

/// Append all edges that package `p` contributes.
fn push_package_edges(meta: &Metadata, p: &Package, out: &mut Vec<(CrateAndFeature, CrateAndFeature)>)
    ensures
        edge_views(final(out)@) == edge_views(old(out)@) + package_edges(*meta, *p),
{
    let ghost start = edge_views(out@);
    let mut i: usize = 0;
    while i < p.dependencies.len()
        invariant
            i <= p.dependencies@.len(),
            edge_views(out@) == start + deps_edges(*meta, *p, i as int),
        decreases p.dependencies@.len() - i,
    {
        push_dep_edges(meta, p, &p.dependencies[i], out);
        i = i + 1;
        assert(start + deps_edges(*meta, *p, i as int) =~= start + deps_edges(*meta, *p, i - 1) + dep_edges(*meta, *p, p.dependencies@[i - 1]));
    }
    let ghost mid = edge_views(out@);
    let mut j: usize = 0;
    while j < p.features.len()
        invariant
            j <= p.features@.len(),
            mid == start + deps_edges(*meta, *p, p.dependencies@.len() as int),
            edge_views(out@) == mid + feats_edges(*meta, *p, j as int),
        decreases p.features@.len() - j,
    {
        let fname = &p.features[j].0;
        let tokens = &p.features[j].1;
        let ghost before = edge_views(out@);
        let mut t: usize = 0;
        while t < tokens.len()
            invariant
                t <= tokens@.len(),
                edge_views(out@) =~= before + feature_edges(*meta, *p, fname@, tokens@.take(t as int)),
            decreases tokens@.len() - t,
        {
            let target = token_target_of(meta, p, &tokens[t]);
            let ghost o = out@;
            let ghost tv = target@;
            out.push((CrateAndFeature(p.id.clone(), fname.clone()), target));
            assert(edge_views(out@) =~= edge_views(o).push(((p.id@, fname@), tv)));
            t = t + 1;
            assert(tokens@.take(t as int) =~= tokens@.take(t as int - 1).push(tokens@[t as int - 1]));
        }
        assert(tokens@.take(tokens@.len() as int) =~= tokens@);
        j = j + 1;
        assert(mid + feats_edges(*meta, *p, j as int) =~= mid + feats_edges(*meta, *p, j - 1) + feature_edges(*meta, *p, p.features@[j - 1].0@, p.features@[j - 1].1@));
    }
    assert(edge_views(out@) =~= start + package_edges(*meta, *p));
}

/// Every edge of the feature graph of `pkgs`, in order.
pub fn feature_edge_list(meta: &Metadata, pkgs: &Vec<Package>) -> (r: Vec<(CrateAndFeature, CrateAndFeature)>)
    ensures
        edge_views(r@) == all_edges(*meta, pkgs@, pkgs@.len() as int),
{
    let mut out: Vec<(CrateAndFeature, CrateAndFeature)> = Vec::new();
    let mut i: usize = 0;
    assert(edge_views(out@) =~= Seq::empty());
    while i < pkgs.len()
        invariant
            i <= pkgs@.len(),
            edge_views(out@) == all_edges(*meta, pkgs@, i as int),
        decreases pkgs@.len() - i,
    {
        push_package_edges(meta, &pkgs[i], &mut out);
        i = i + 1;
    }
    out
}

/// Build the feature graph of the packages `pkgs` of `meta`.
///
/// For every dependency record that uses default features: `(P, default) ->
/// (D, default)`, and `(P, #entrypoint) -> (D', default)` where `D'` is the
/// resolved package. For every feature enabled by the record: `(P, default) ->
/// (D, f)`. For every activation token of every feature: one edge to the node the
/// token enables (see [token_target]). Unresolved dependencies stay leaves.
pub fn build_feature_dag(meta: &Metadata, pkgs: &Vec<Package>) -> (r: Dag<CrateAndFeature>)
    ensures
        r.wf(),
        is_graph_of(r@, all_edges(*meta, pkgs@, pkgs@.len() as int)),
{
    let es = feature_edge_list(meta, pkgs);
    dag_from_edges(&es)
}


/// The feature graph is a function of the metadata: two graphs that are both the
/// edge relation of the same metadata are equal.
pub proof fn lemma_feature_graph_deterministic(
    meta: Metadata,
    pkgs: Seq<Package>,
    g1: Map<FeatureNode, Set<FeatureNode>>,
    g2: Map<FeatureNode, Set<FeatureNode>>,
)
    requires
        is_graph_of(g1, all_edges(meta, pkgs, pkgs.len() as int)),
        is_graph_of(g2, all_edges(meta, pkgs, pkgs.len() as int)),
    ensures
        g1 == g2,
{
    let es = all_edges(meta, pkgs, pkgs.len() as int);
    assert(g1.dom() =~= g2.dom());
    assert forall|a: FeatureNode| g1.contains_key(a) implies g1[a] =~= g2[a] by {
        assert forall|b: FeatureNode| g1[a].contains(b) <==> g2[a].contains(b) by {
            assert(g1[a].contains(b) <==> es.contains((a, b)));
            assert(g2[a].contains(b) <==> es.contains((a, b)));
        }
    }
    assert(g1 =~= g2);
}

/// Every edge of package `pkgs[i]` is among the edges of the first `n` packages.
pub proof fn lemma_all_edges_contains(meta: Metadata, pkgs: Seq<Package>, n: int, i: int, e: (FeatureNode, FeatureNode))
    requires
        0 <= i < n <= pkgs.len(),
        package_edges(meta, pkgs[i]).contains(e),
    ensures
        all_edges(meta, pkgs, n).contains(e),
    decreases n,
{
    let prev = all_edges(meta, pkgs, n - 1);
    let last = package_edges(meta, pkgs[n - 1]);
    if i < n - 1 {
        lemma_all_edges_contains(meta, pkgs, n - 1, i, e);
        let k = choose|k: int| 0 <= k < prev.len() && prev[k] == e;
        assert((prev + last)[k] == e);
    } else {
        let k = choose|k: int| 0 <= k < last.len() && last[k] == e;
        assert((prev + last)[prev.len() + k] == e);
    }
}

/// Every edge of feature `p.features[j]` is among the edges of the first `m` features.
pub proof fn lemma_feats_edges_contains(meta: Metadata, p: Package, m: int, j: int, e: (FeatureNode, FeatureNode))
    requires
        0 <= j < m <= p.features@.len(),
        feature_edges(meta, p, p.features@[j].0@, p.features@[j].1@).contains(e),
    ensures
        feats_edges(meta, p, m).contains(e),
    decreases m,
{
    let prev = feats_edges(meta, p, m - 1);
    let last = feature_edges(meta, p, p.features@[m - 1].0@, p.features@[m - 1].1@);
    if j < m - 1 {
        lemma_feats_edges_contains(meta, p, m - 1, j, e);
        let k = choose|k: int| 0 <= k < prev.len() && prev[k] == e;
        assert((prev + last)[k] == e);
    } else {
        let k = choose|k: int| 0 <= k < last.len() && last[k] == e;
        assert((prev + last)[prev.len() + k] == e);
    }
}

} // verus!
