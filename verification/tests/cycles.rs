use csvizmo_depgraph::algorithm::cycles::{cycles, cycles_from_components, CyclesArgs};
use csvizmo_depgraph::graph::{DepGraph, Edge, NodeInfo};

fn make_graph(nodes: &[(&str, &str)], edges: &[(&str, &str)]) -> DepGraph {
    DepGraph {
        nodes: nodes
            .iter()
            .map(|(id, label)| (id.to_string(), NodeInfo::new(*label)))
            .collect(),
        edges: edges
            .iter()
            .map(|(from, to)| Edge {
                from: from.to_string(),
                to: to.to_string(),
                ..Default::default()
            })
            .collect(),
        ..Default::default()
    }
}

fn sorted_node_ids(graph: &DepGraph) -> Vec<&str> {
    let mut ids: Vec<&str> = graph.nodes.keys().map(|s| s.as_str()).collect();
    ids.sort();
    ids
}

fn sorted_edge_pairs(graph: &DepGraph) -> Vec<(&str, &str)> {
    let mut pairs: Vec<(&str, &str)> = graph
        .edges
        .iter()
        .map(|e| (e.from.as_str(), e.to.as_str()))
        .collect();
    pairs.sort();
    pairs
}

#[test]
fn no_cycles_returns_empty() {
    // a -> b -> c: DAG, no cycles
    let g = make_graph(
        &[("a", "a"), ("b", "b"), ("c", "c")],
        &[("a", "b"), ("b", "c")],
    );
    let result = cycles(&g, &CyclesArgs::default());
    assert!(result.nodes.is_empty());
    assert!(result.edges.is_empty());
    assert!(result.subgraphs.is_empty());
}

#[test]
fn simple_cycle() {
    // a -> b -> c -> a
    let g = make_graph(
        &[("a", "a"), ("b", "b"), ("c", "c")],
        &[("a", "b"), ("b", "c"), ("c", "a")],
    );
    let result = cycles(&g, &CyclesArgs::default());
    assert!(result.nodes.is_empty(), "no top-level nodes");
    assert!(result.edges.is_empty(), "no cross-cycle edges");
    assert_eq!(result.subgraphs.len(), 1);

    let sg = &result.subgraphs[0];
    assert_eq!(sg.id.as_deref(), Some("cycle_0"));
    assert_eq!(sorted_node_ids(sg), vec!["a", "b", "c"]);
    assert_eq!(
        sorted_edge_pairs(sg),
        vec![("a", "b"), ("b", "c"), ("c", "a")]
    );
}

#[test]
fn self_loop_ignored() {
    // a -> a: self-loop is an SCC of size 1, should be ignored
    let g = make_graph(&[("a", "a")], &[("a", "a")]);
    let result = cycles(&g, &CyclesArgs::default());
    assert!(result.nodes.is_empty());
    assert!(result.edges.is_empty());
    assert!(result.subgraphs.is_empty());
}

#[test]
fn multiple_disjoint_cycles() {
    // cycle1: a -> b -> a
    // cycle2: c -> d -> c
    let g = make_graph(
        &[("a", "a"), ("b", "b"), ("c", "c"), ("d", "d")],
        &[("a", "b"), ("b", "a"), ("c", "d"), ("d", "c")],
    );
    let result = cycles(&g, &CyclesArgs::default());
    assert_eq!(result.subgraphs.len(), 2);

    // Collect all cycle nodes across subgraphs.
    let mut all_cycle_nodes: Vec<&str> = result
        .subgraphs
        .iter()
        .flat_map(|sg| sg.nodes.keys().map(|s| s.as_str()))
        .collect();
    all_cycle_nodes.sort();
    assert_eq!(all_cycle_nodes, vec!["a", "b", "c", "d"]);

    // Each subgraph has 2 nodes.
    for sg in &result.subgraphs {
        assert_eq!(sg.nodes.len(), 2);
        assert_eq!(sg.edges.len(), 2);
    }
}

#[test]
fn mixed_graph_excludes_acyclic_nodes() {
    // x -> a -> b -> a, b -> y: only a and b are in a cycle
    let g = make_graph(
        &[("x", "x"), ("a", "a"), ("b", "b"), ("y", "y")],
        &[("x", "a"), ("a", "b"), ("b", "a"), ("b", "y")],
    );
    let result = cycles(&g, &CyclesArgs::default());
    assert_eq!(result.subgraphs.len(), 1);

    let sg = &result.subgraphs[0];
    assert_eq!(sorted_node_ids(sg), vec!["a", "b"]);
    assert_eq!(sorted_edge_pairs(sg), vec![("a", "b"), ("b", "a")]);
    // x and y are not in any cycle
    assert!(result.nodes.is_empty());
}

#[test]
fn cross_cycle_edges() {
    // cycle1: a -> b -> a
    // cycle2: c -> d -> c
    // cross edge: b -> c
    let g = make_graph(
        &[("a", "a"), ("b", "b"), ("c", "c"), ("d", "d")],
        &[("a", "b"), ("b", "a"), ("c", "d"), ("d", "c"), ("b", "c")],
    );
    let result = cycles(&g, &CyclesArgs::default());
    assert_eq!(result.subgraphs.len(), 2);
    // The cross-cycle edge b -> c should be at the top level.
    assert_eq!(sorted_edge_pairs(&result), vec![("b", "c")]);
}

#[test]
fn cycles_empty_graph() {
    let g = DepGraph::default();
    let result = cycles(&g, &CyclesArgs::default());
    assert!(result.nodes.is_empty());
    assert!(result.edges.is_empty());
    assert!(result.subgraphs.is_empty());
}

#[test]
fn cycles_from_given_components() {
    // a <-> b, c -> a; components given in the order a caller found them
    let g = make_graph(&[("a", "a"), ("b", "b"), ("c", "c")], &[("a", "b"), ("b", "a"), ("c", "a")]);
    let result = cycles_from_components(&g, &vec![vec![1, 0], vec![2]]);
    assert_eq!(result.subgraphs.len(), 1);
    assert_eq!(result.subgraphs[0].id.as_deref(), Some("cycle_0"));
    assert_eq!(sorted_node_ids(&result.subgraphs[0]), vec!["a", "b"]);
    assert_eq!(sorted_edge_pairs(&result.subgraphs[0]), vec![("a", "b"), ("b", "a")]);
    // a single-node component alone is no cycle
    assert!(cycles_from_components(&g, &vec![vec![0], vec![1], vec![2]]).subgraphs.is_empty());
}
