//! The workspace metadata that the lints read, and the resolution of a declared
//! dependency to the package that it names.
//!
//! The values mirror what the package manager's `metadata` command reports.

use vstd::prelude::*;
use crate::text::{replace, replace_char, join2};

verus! {

/// The kind of a dependency declaration.
#[derive(Debug, Clone, Copy, PartialEq, Eq, Structural)]
pub enum DependencyKind {
    /// `[dependencies]`
    Normal,
    /// `[dev-dependencies]`
    Development,
    /// `[build-dependencies]`
    Build,
    /// Anything else the metadata reports.
    Unknown,
}

/// One dependency record of a package.
#[derive(Debug)]
pub struct Dependency {
    /// The name of the package that is depended upon.
    pub name: String,
    /// The alias under which it is used, if renamed.
    pub rename: Option<String>,
    pub kind: DependencyKind,
    pub optional: bool,
    pub uses_default_features: bool,
    /// The features that the record enables explicitly.
    pub features: Vec<String>,
    /// The version requirement as written.
    pub req: String,
    /// The local path, for path dependencies.
    pub path: Option<String>,
}

/// A package of the metadata.
#[derive(Debug)]
pub struct Package {
    pub name: String,
    /// The unique id: name, version and source.
    pub id: String,
    pub version: String,
    pub manifest_path: String,
    /// Each declared feature with its activation tokens.
    pub features: Vec<(String, Vec<String>)>,
    pub dependencies: Vec<Dependency>,
}

/// One edge of the resolve graph: the crate-root name of a dependency and the
/// package id it resolved to.
#[derive(Debug)]
pub struct NodeDep {
    pub name: String,
    pub pkg: String,
}

/// A node of the resolve graph.
#[derive(Debug)]
pub struct ResolveNode {
    pub id: String,
    pub deps: Vec<NodeDep>,
}

/// The metadata of a workspace.
#[derive(Debug)]
pub struct Metadata {
    pub packages: Vec<Package>,
    /// The ids of the workspace members.
    pub workspace_members: Vec<String>,
    /// The resolve graph, if the metadata holds one.
    pub resolve: Option<Vec<ResolveNode>>,
    pub workspace_root: String,
}

/// A resolved dependency: the package it names (an index into
/// [Metadata::packages]) together with the alias and optional flag of the record.
#[derive(Debug)]
pub struct RenamedPackage {
    pub pkg: usize,
    pub pkg_name: String,
    pub pkg_id: String,
    pub rename: Option<String>,
    pub optional: bool,
}

/// `i` is the first index of `s` at which `p` holds.
pub open spec fn is_first_where<A>(s: Seq<A>, p: spec_fn(A) -> bool, i: int) -> bool {
    &&& 0 <= i < s.len()
    &&& p(s[i])
    &&& forall|j: int| 0 <= j < i ==> !p(#[trigger] s[j])
}

pub proof fn lemma_first_unique<A>(s: Seq<A>, p: spec_fn(A) -> bool, i: int, k: int)
    requires
        is_first_where(s, p, i),
        is_first_where(s, p, k),
    ensures
        i == k,
{
    if i < k {
        assert(!p(s[i]));
    } else if k < i {
        assert(!p(s[k]));
    }
}

/// The name under which a dependency record is used: its alias, else its name.
pub open spec fn used_name(d: Dependency) -> Seq<char> {
    match d.rename {
        Some(r) => r@,
        None => d.name@,
    }
}

/// The crate-root form of a name: `-` becomes `_`.
pub open spec fn crate_root_name(s: Seq<char>) -> Seq<char> {
    replace_char(s, '-', '_')
}

pub open spec fn pkg_has_id(id: Seq<char>) -> spec_fn(Package) -> bool {
    |q: Package| q.id@ == id
}

pub open spec fn node_has_id(id: Seq<char>) -> spec_fn(ResolveNode) -> bool {
    |q: ResolveNode| q.id@ == id
}

pub open spec fn edge_has_name(name: Seq<char>) -> spec_fn(NodeDep) -> bool {
    |q: NodeDep| q.name@ == name
}

/// Whether `id` is the id of a workspace member.
pub open spec fn is_member(meta: Metadata, id: Seq<char>) -> bool {
    exists|m: int| 0 <= m < meta.workspace_members@.len() && (#[trigger] meta.workspace_members@[m])@ == id
}

pub open spec fn member_named(meta: Metadata, name: Seq<char>) -> spec_fn(Package) -> bool {
    |q: Package| is_member(meta, q.id@) && q.name@ == name
}

/// Whether dependency `d` of package `p` resolves to the package at index `k`.
///
/// With a resolve graph: the first node with `p`'s id, its first edge named like
/// the crate root of `d`'s used name, and the first package with that edge's id.
/// Without one: the first workspace package named like `d`, and the first package
/// with its id.
pub open spec fn resolves_to(meta: Metadata, p: Package, d: Dependency, k: int) -> bool {
    match meta.resolve {
        Some(nodes) => exists|n: int, e: int|
            #![trigger is_first_where(nodes@, node_has_id(p.id@), n), is_first_where(nodes@[n].deps@, edge_has_name(crate_root_name(used_name(d))), e)]
            is_first_where(nodes@, node_has_id(p.id@), n) && is_first_where(
                nodes@[n].deps@,
                edge_has_name(crate_root_name(used_name(d))),
                e,
            ) && is_first_where(meta.packages@, pkg_has_id(nodes@[n].deps@[e].pkg@), k),
        None => exists|w: int|
            #![trigger is_first_where(meta.packages@, member_named(meta, d.name@), w)]
            is_first_where(meta.packages@, member_named(meta, d.name@), w) && is_first_where(
                meta.packages@,
                pkg_has_id(meta.packages@[w].id@),
                k,
            ),
    }
}

/// The package that dependency `d` of `p` resolves to, if any.
pub open spec fn resolved(meta: Metadata, p: Package, d: Dependency) -> Option<int> {
    if exists|k: int| resolves_to(meta, p, d, k) {
        Some(choose|k: int| resolves_to(meta, p, d, k))
    } else {
        None
    }
}

pub proof fn lemma_resolves_unique(meta: Metadata, p: Package, d: Dependency, k1: int, k2: int)
    requires
        resolves_to(meta, p, d, k1),
        resolves_to(meta, p, d, k2),
    ensures
        k1 == k2,
{
    match meta.resolve {
        Some(nodes) => {
            let (n1, e1) = choose|n: int, e: int|
                is_first_where(nodes@, node_has_id(p.id@), n) && is_first_where(
                    nodes@[n].deps@,
                    edge_has_name(crate_root_name(used_name(d))),
                    e,
                ) && is_first_where(meta.packages@, pkg_has_id(nodes@[n].deps@[e].pkg@), k1);
            let (n2, e2) = choose|n: int, e: int|
                is_first_where(nodes@, node_has_id(p.id@), n) && is_first_where(
                    nodes@[n].deps@,
                    edge_has_name(crate_root_name(used_name(d))),
                    e,
                ) && is_first_where(meta.packages@, pkg_has_id(nodes@[n].deps@[e].pkg@), k2);
            lemma_first_unique(nodes@, node_has_id(p.id@), n1, n2);
            lemma_first_unique(nodes@[n1].deps@, edge_has_name(crate_root_name(used_name(d))), e1, e2);
            lemma_first_unique(meta.packages@, pkg_has_id(nodes@[n1].deps@[e1].pkg@), k1, k2);
        },
        None => {
            let w1 = choose|w: int|
                is_first_where(meta.packages@, member_named(meta, d.name@), w) && is_first_where(
                    meta.packages@,
                    pkg_has_id(meta.packages@[w].id@),
                    k1,
                );
            let w2 = choose|w: int|
                is_first_where(meta.packages@, member_named(meta, d.name@), w) && is_first_where(
                    meta.packages@,
                    pkg_has_id(meta.packages@[w].id@),
                    k2,
                );
            lemma_first_unique(meta.packages@, member_named(meta, d.name@), w1, w2);
            lemma_first_unique(meta.packages@, pkg_has_id(meta.packages@[w1].id@), k1, k2);
        },
    }
}

/// The index of the first package with id `id`.
pub fn find_package(pkgs: &Vec<Package>, id: &String) -> (r: Option<usize>)
    ensures
        r matches Some(k) ==> is_first_where(pkgs@, pkg_has_id(id@), k as int),
        r is None ==> forall|k: int| 0 <= k < pkgs@.len() ==> pkgs@[k].id@ != id@,
{
    let mut k: usize = 0;
    while k < pkgs.len()
        invariant
            k <= pkgs@.len(),
            forall|j: int| 0 <= j < k ==> !pkg_has_id(id@)(#[trigger] pkgs@[j]),
        decreases pkgs@.len() - k,
    {
        if pkgs[k].id == *id {
            return Some(k);
        }
        k = k + 1;
    }
    proof {
        assert forall|j: int| 0 <= j < pkgs@.len() implies pkgs@[j].id@ != id@ by {
            assert(!pkg_has_id(id@)(pkgs@[j]));
        }
    }
    None
}

/// Whether `id` is the id of a workspace member.
pub fn is_workspace_member(meta: &Metadata, id: &String) -> (r: bool)
    ensures
        r == is_member(*meta, id@),
{
    let mut m: usize = 0;
    while m < meta.workspace_members.len()
        invariant
            m <= meta.workspace_members@.len(),
            forall|j: int| 0 <= j < m ==> (#[trigger] meta.workspace_members@[j])@ != id@,
        decreases meta.workspace_members@.len() - m,
    {
        if meta.workspace_members[m] == *id {
            return true;
        }
        m = m + 1;
    }
    false
}

/// The package that dependency `dep` of `pkg` resolves to, if any.
///
/// With a resolve graph the edge is looked up by the crate-root form of the name
/// the dependency is used under; otherwise the workspace members are matched by
/// name. `None` is an expected outcome (an optional dependency that was not
/// selected, a target-gated or a dev-only dependency).
pub fn resolve_dep(pkg: &Package, dep: &Dependency, meta: &Metadata) -> (r: Option<RenamedPackage>)
    ensures
        match r {
            Some(rp) => resolved(*meta, *pkg, *dep) == Some(rp.pkg as int) && rp.pkg < meta.packages@.len()
                && rp.pkg_name@ == meta.packages@[rp.pkg as int].name@ && rp.pkg_id@
                == meta.packages@[rp.pkg as int].id@ && rp.optional == dep.optional && match rp.rename {
                Some(a) => dep.rename matches Some(b) && a@ == b@,
                None => dep.rename is None,
            },
            None => resolved(*meta, *pkg, *dep) is None,
        },
{
    let k = match &meta.resolve {
        Some(nodes) => resolve_in_graph(pkg, dep, meta, nodes),
        None => resolve_in_workspace(dep, meta),
    };
    match k {
        None => None,
        Some(k) => {
            let rename = match &dep.rename {
                Some(a) => Some(a.clone()),
                None => None,
            };
            Some(RenamedPackage {
                pkg: k,
                pkg_name: meta.packages[k].name.clone(),
                pkg_id: meta.packages[k].id.clone(),
                rename,
                optional: dep.optional,
            })
        },
    }
}

fn resolve_in_graph(pkg: &Package, dep: &Dependency, meta: &Metadata, nodes: &Vec<ResolveNode>) -> (r: Option<usize>)
    requires
        meta.resolve == Some(*nodes),
    ensures
        match r {
            Some(k) => k < meta.packages@.len() && resolved(*meta, *pkg, *dep) == Some(k as int),
            None => resolved(*meta, *pkg, *dep) is None,
        },
{
    let used = match &dep.rename {
        Some(a) => a,
        None => &dep.name,
    };
    let root = replace(used.as_str(), '-', '_');
    let ghost root_v = crate_root_name(used_name(*dep));
    assert(root@ == root_v);
    let mut n: usize = 0;
    while n < nodes.len()
        invariant
            meta.resolve == Some(*nodes),
            root@ == root_v,
            root_v == crate_root_name(used_name(*dep)),
            n <= nodes@.len(),
            forall|j: int| 0 <= j < n ==> !node_has_id(pkg.id@)(#[trigger] nodes@[j]),
        decreases nodes@.len() - n,
    {
        if nodes[n].id == pkg.id {
            assert(is_first_where(nodes@, node_has_id(pkg.id@), n as int));
            let deps = &nodes[n].deps;
            let mut e: usize = 0;
            while e < deps.len()
                invariant
                    meta.resolve == Some(*nodes),
                    n < nodes@.len(),
                    is_first_where(nodes@, node_has_id(pkg.id@), n as int),
                    deps@ == nodes@[n as int].deps@,
                    root@ == root_v,
                    root_v == crate_root_name(used_name(*dep)),
                    e <= deps@.len(),
                    forall|j: int| 0 <= j < e ==> !edge_has_name(root_v)(#[trigger] deps@[j]),
                decreases deps@.len() - e,
            {
                if deps[e].name == root {
                    assert(is_first_where(deps@, edge_has_name(root_v), e as int));
                    let found = find_package(&meta.packages, &deps[e].pkg);
                    match found {
                        Some(k) => {
                            proof {
                                let nn = meta.resolve->0;
                                assert(nn == *nodes);
                                assert(is_first_where(nn@, node_has_id(pkg.id@), n as int));
                                assert(is_first_where(nn@[n as int].deps@, edge_has_name(crate_root_name(used_name(*dep))), e as int));
                                assert(is_first_where(nodes@, node_has_id(pkg.id@), n as int));
                                assert(is_first_where(nodes@[n as int].deps@, edge_has_name(crate_root_name(used_name(*dep))), e as int));
                                assert(is_first_where(meta.packages@, pkg_has_id(nodes@[n as int].deps@[e as int].pkg@), k as int));
                                assert(resolves_to(*meta, *pkg, *dep, k as int));
                                lemma_resolves_unique(*meta, *pkg, *dep, k as int, resolved(*meta, *pkg, *dep)->0);
                            }
                            return Some(k);
                        },
                        None => {
                            proof {
                                assert forall|k: int| !resolves_to(*meta, *pkg, *dep, k) by {
                                    if resolves_to(*meta, *pkg, *dep, k) {
                                        let (n2, e2) = choose|n2: int, e2: int|
                                            is_first_where(nodes@, node_has_id(pkg.id@), n2) && is_first_where(
                                                nodes@[n2].deps@, edge_has_name(root_v), e2,
                                            ) && is_first_where(meta.packages@, pkg_has_id(nodes@[n2].deps@[e2].pkg@), k);
                                        lemma_first_unique(nodes@, node_has_id(pkg.id@), n as int, n2);
                                        lemma_first_unique(deps@, edge_has_name(root_v), e as int, e2);
                                    }
                                }
                            }
                            return None;
                        },
                    }
                }
                e = e + 1;
            }
            proof {
                assert forall|k: int| !resolves_to(*meta, *pkg, *dep, k) by {
                    if resolves_to(*meta, *pkg, *dep, k) {
                        let (n2, e2) = choose|n2: int, e2: int|
                            is_first_where(nodes@, node_has_id(pkg.id@), n2) && is_first_where(
                                nodes@[n2].deps@, edge_has_name(root_v), e2,
                            ) && is_first_where(meta.packages@, pkg_has_id(nodes@[n2].deps@[e2].pkg@), k);
                        lemma_first_unique(nodes@, node_has_id(pkg.id@), n as int, n2);
                        assert(!edge_has_name(root_v)(deps@[e2]));
                    }
                }
            }
            return None;
        }
        n = n + 1;
    }
    proof {
        assert forall|k: int| !resolves_to(*meta, *pkg, *dep, k) by {
            if resolves_to(*meta, *pkg, *dep, k) {
                let (n2, e2) = choose|n2: int, e2: int|
                    is_first_where(nodes@, node_has_id(pkg.id@), n2) && is_first_where(
                        nodes@[n2].deps@, edge_has_name(root_v), e2,
                    ) && is_first_where(meta.packages@, pkg_has_id(nodes@[n2].deps@[e2].pkg@), k);
                assert(!node_has_id(pkg.id@)(nodes@[n2]));
            }
        }
    }
    None
}

fn resolve_in_workspace(dep: &Dependency, meta: &Metadata) -> (r: Option<usize>)
    requires
        meta.resolve is None,
    ensures
        forall|p: Package| match r {
            Some(k) => k < meta.packages@.len() && resolved(*meta, p, *dep) == Some(k as int),
            None => resolved(*meta, p, *dep) is None,
        },
{
    let mut w: usize = 0;
    while w < meta.packages.len()
        invariant
            meta.resolve is None,
            w <= meta.packages@.len(),
            forall|j: int| 0 <= j < w ==> !member_named(*meta, dep.name@)(#[trigger] meta.packages@[j]),
        decreases meta.packages@.len() - w,
    {
        let member = is_workspace_member(meta, &meta.packages[w].id);
        if member && meta.packages[w].name == dep.name {
            assert(is_first_where(meta.packages@, member_named(*meta, dep.name@), w as int));
            let found = find_package(&meta.packages, &meta.packages[w].id);
            proof {
                let k = found->0 as int;
                assert(meta.packages@[w as int].id@ == meta.packages@[w as int].id@);
                assert forall|p: Package| resolved(*meta, p, *dep) == Some(k) by {
                    assert(resolves_to(*meta, p, *dep, k));
                    lemma_resolves_unique(*meta, p, *dep, k, resolved(*meta, p, *dep)->0);
                }
            }
            return found;
        }
        w = w + 1;
    }
    proof {
        assert forall|p: Package, k: int| !resolves_to(*meta, p, *dep, k) by {
            if resolves_to(*meta, p, *dep, k) {
                let w2 = choose|w2: int|
                    is_first_where(meta.packages@, member_named(*meta, dep.name@), w2) && is_first_where(
                        meta.packages@, pkg_has_id(meta.packages@[w2].id@), k,
                    );
                assert(!member_named(*meta, dep.name@)(meta.packages@[w2]));
            }
        }
    }
    None
}

impl RenamedPackage {
    /// The name the dependency is used under: its alias, else the package name.
    pub fn name(&self) -> (r: String)
        ensures
            r@ == match self.rename {
                Some(a) => a@,
                None => self.pkg_name@,
            },
    {
        match &self.rename {
            Some(a) => a.clone(),
            None => self.pkg_name.clone(),
        }
    }

    /// The name of the package itself.
    pub fn original_name(&self) -> (r: String)
        ensures
            r@ == self.pkg_name@,
    {
        self.pkg_name.clone()
    }

    /// `alias (renamed from name)` for a renamed dependency, else the name.
    pub fn display_name(&self) -> (r: String)
        ensures
            r@ == match self.rename {
                Some(a) => a@ + " (renamed from "@ + self.pkg_name@ + ")"@,
                None => self.pkg_name@,
            },
    {
        match &self.rename {
            Some(a) => {
                let s = join2(a.as_str(), " (renamed from ");
                let s = join2(s.as_str(), self.pkg_name.as_str());
                join2(s.as_str(), ")")
            },
            None => self.pkg_name.clone(),
        }
    }
}

} // verus!
