use zepter::dag::Dag;
use zepter::features::CrateAndFeature;

fn s(x: &str) -> String {
    x.to_string()
}

fn cf(a: &str, b: &str) -> CrateAndFeature {
    CrateAndFeature(a.to_string(), b.to_string())
}

#[test]
fn add_edge_is_idempotent() {
    let mut dag = Dag::<String>::new();
    dag.add_edge(s("A"), s("B"));
    dag.add_edge(s("A"), s("B"));
    dag.add_edge(s("B"), s("C"));
    assert_eq!(dag.num_edges(), 2);
    assert_eq!(dag.num_nodes(), 2);
    assert!(dag.connected(&s("A"), &s("B")));
    assert!(!dag.connected(&s("A"), &s("C")));
    assert!(dag.lhs_contains(&s("B")));
    assert!(!dag.lhs_contains(&s("C")));
    assert!(dag.rhs_contains(&s("C")));
    assert!(!dag.rhs_contains(&s("A")));
}

#[test]
fn any_path_iff_reachable() {
    let mut dag = Dag::<String>::new();
    dag.add_edge(s("A"), s("B"));
    dag.add_edge(s("B"), s("C"));
    dag.add_edge(s("C"), s("A"));
    dag.add_edge(s("D"), s("A"));
    let p = dag.any_path(&s("A"), &s("C")).unwrap();
    assert_eq!(p.0, vec![s("A"), s("B"), s("C")]);
    assert_eq!(p.num_hops(), 2);
    assert!(dag.any_path(&s("A"), &s("D")).is_none());
    assert!(dag.any_path(&s("X"), &s("X")).is_some());
    assert!(dag.any_path(&s("X"), &s("A")).is_none());
    assert_eq!(dag.any_path(&s("C"), &s("C")).unwrap().num_nodes(), 1);
}

#[test]
fn never_implies_path_is_found() {
    let mut dag = Dag::<CrateAndFeature>::new();
    dag.add_edge(cf("root", "default"), cf("mid", "std"));
    dag.add_edge(cf("mid", "std"), cf("leaf", "std"));
    let p = dag.reachable_predicate(&cf("root", "default"), |n: &CrateAndFeature| n.1 == "std").unwrap();
    let shown: Vec<String> = p.0.iter().map(|n| n.to_string()).collect();
    assert_eq!(shown.join(" -> "), "root/default -> mid/std");
    assert!(dag.reachable_predicate(&cf("leaf", "std"), |n: &CrateAndFeature| n.1 == "default").is_none());
}

#[test]
fn sub_keeps_induced_edges() {
    let mut dag = Dag::<String>::new();
    dag.add_edge(s("a1"), s("a2"));
    dag.add_edge(s("a2"), s("b1"));
    dag.add_edge(s("a2"), s("a3"));
    let sub = dag.sub(|n: &String| n.starts_with('a'));
    assert!(sub.connected(&s("a1"), &s("a2")));
    assert!(sub.connected(&s("a2"), &s("a3")));
    assert!(!sub.connected(&s("a2"), &s("b1")));
    assert_eq!(sub.num_edges(), 2);
}

#[test]
fn lookups_work() {
    let mut dag = Dag::<String>::new();
    dag.add_edge(s("A"), s("C"));
    dag.add_edge(s("B"), s("C"));
    dag.add_node(s("D"));
    assert_eq!(dag.inverse_lookup(&s("C")), vec![s("A"), s("B")]);
    assert_eq!(dag.lhs_nodes(), vec![s("A"), s("B"), s("D")]);
    assert_eq!(dag.lhs_node(&s("D")), Some(&s("D")));
    assert_eq!(dag.lhs_node(&s("C")), None);
    let one = dag.dag_of(s("A"));
    assert_eq!(one.num_nodes(), 1);
    assert!(one.connected(&s("A"), &s("C")));
}

#[test]
fn rhs_nodes_lists_each_edge_target() {
    let mut dag = Dag::<String>::new();
    dag.add_edge(s("A"), s("B"));
    dag.add_edge(s("A"), s("C"));
    dag.add_edge(s("D"), s("B"));
    let mut r = dag.rhs_nodes();
    assert_eq!(r.len(), 3);
    r.sort();
    r.dedup();
    assert_eq!(r, vec![s("B"), s("C")]);
}
