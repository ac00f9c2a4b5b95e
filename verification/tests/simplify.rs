use csvizmo_depgraph::algorithm::simplify::simplify;
use csvizmo_depgraph::graph::{DepGraph, Edge, NodeInfo};

fn make_graph(nodes: &[(&str, &str)], edges: &[(&str, &str)]) -> DepGraph {
    DepGraph {
        nodes: nodes
            .iter()
            .map(|(id, label)| (id.to_string(), NodeInfo::new(*label)))
            .collect(),
        edges: edges
            .iter()
            .map(|(from, to)| Edge {
                from: from.to_string(),
                to: to.to_string(),
                ..Default::default()
            })
            .collect(),
        ..Default::default()
    }
}

fn edge_pairs(graph: &DepGraph) -> Vec<(&str, &str)> {
    let mut pairs: Vec<_> = graph
        .edges
        .iter()
        .map(|e| (e.from.as_str(), e.to.as_str()))
        .collect();
    pairs.sort();
    pairs
}

#[test]
fn removes_redundant_edge() {
    // a -> b -> c, a -> c: the direct a->c is redundant
    let g = make_graph(
        &[("a", "A"), ("b", "B"), ("c", "C")],
        &[("a", "b"), ("b", "c"), ("a", "c")],
    );
    let result = simplify(&g).unwrap();
    assert_eq!(edge_pairs(&result), vec![("a", "b"), ("b", "c")]);
}

#[test]
fn keeps_all_edges_when_none_redundant() {
    // a -> b -> c: no redundant edges
    let g = make_graph(
        &[("a", "A"), ("b", "B"), ("c", "C")],
        &[("a", "b"), ("b", "c")],
    );
    let result = simplify(&g).unwrap();
    assert_eq!(edge_pairs(&result), vec![("a", "b"), ("b", "c")]);
}

#[test]
fn diamond_reduces() {
    // a -> b -> d, a -> c -> d, a -> d: a->d is redundant
    let g = make_graph(
        &[("a", "A"), ("b", "B"), ("c", "C"), ("d", "D")],
        &[("a", "b"), ("a", "c"), ("b", "d"), ("c", "d"), ("a", "d")],
    );
    let result = simplify(&g).unwrap();
    assert_eq!(
        edge_pairs(&result),
        vec![("a", "b"), ("a", "c"), ("b", "d"), ("c", "d")]
    );
}

#[test]
fn errors_on_cycle() {
    let g = make_graph(&[("a", "A"), ("b", "B")], &[("a", "b"), ("b", "a")]);
    let msg = simplify(&g).err().expect("expected error").to_string();
    assert!(msg.contains("cycles"), "error message: {msg}");
}

#[test]
fn simplify_empty_graph() {
    let g = DepGraph::default();
    let result = simplify(&g).unwrap();
    assert!(result.edges.is_empty());
}

#[test]
fn reverse_insertion_order() {
    // Nodes inserted in reverse topological order to exercise the topo mapping.
    // c -> b -> a with c -> a redundant.
    let g = make_graph(
        &[("c", "C"), ("b", "B"), ("a", "A")],
        &[("c", "b"), ("b", "a"), ("c", "a")],
    );
    let result = simplify(&g).unwrap();
    assert_eq!(edge_pairs(&result), vec![("b", "a"), ("c", "b")]);
}
