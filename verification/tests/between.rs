use csvizmo_depgraph::algorithm::between::{between, BetweenArgs};
use csvizmo_depgraph::algorithm::MatchKey;
use csvizmo_depgraph::graph::{DepGraph, Edge, NodeInfo};

fn make_graph(
    nodes: &[(&str, &str)],
    edges: &[(&str, &str)],
    subgraphs: Vec<DepGraph>,
) -> DepGraph {
    DepGraph {
        nodes: nodes
            .iter()
            .map(|(id, label)| (id.to_string(), NodeInfo::new(*label)))
            .collect(),
        edges: edges
            .iter()
            .map(|(from, to)| Edge {
                from: from.to_string(),
                to: to.to_string(),
                ..Default::default()
            })
            .collect(),
        subgraphs,
        ..Default::default()
    }
}

fn sorted_node_ids(graph: &DepGraph) -> Vec<&str> {
    let mut ids: Vec<&str> = graph.nodes.keys().map(|s| s.as_str()).collect();
    ids.sort();
    ids
}

fn sorted_edge_pairs(graph: &DepGraph) -> Vec<(&str, &str)> {
    let mut pairs: Vec<(&str, &str)> = graph
        .edges
        .iter()
        .map(|e| (e.from.as_str(), e.to.as_str()))
        .collect();
    pairs.sort();
    pairs
}

#[test]
fn direct_path() {
    // a -> b: between a and b yields both
    let g = make_graph(&[("a", "a"), ("b", "b")], &[("a", "b")], vec![]);
    let args = BetweenArgs::default().included("a").included("b");
    let result = between(&g, &args).unwrap();
    assert_eq!(sorted_node_ids(&result), vec!["a", "b"]);
    assert_eq!(sorted_edge_pairs(&result), vec![("a", "b")]);
}

#[test]
fn intermediate_nodes() {
    // a -> b -> c: between a and c includes intermediate b
    let g = make_graph(
        &[("a", "a"), ("b", "b"), ("c", "c")],
        &[("a", "b"), ("b", "c")],
        vec![],
    );
    let args = BetweenArgs::default().included("a").included("c");
    let result = between(&g, &args).unwrap();
    assert_eq!(sorted_node_ids(&result), vec!["a", "b", "c"]);
    assert_eq!(sorted_edge_pairs(&result), vec![("a", "b"), ("b", "c")]);
}

#[test]
fn no_path_returns_empty() {
    // a -> b, c -> d: no path between a and c
    let g = make_graph(
        &[("a", "a"), ("b", "b"), ("c", "c"), ("d", "d")],
        &[("a", "b"), ("c", "d")],
        vec![],
    );
    let args = BetweenArgs::default().included("a").included("c");
    let result = between(&g, &args).unwrap();
    assert!(result.nodes.is_empty());
    assert!(result.edges.is_empty());
}

#[test]
fn between_diamond() {
    // a -> b -> d, a -> c -> d: between a and d includes both paths
    let g = make_graph(
        &[("a", "a"), ("b", "b"), ("c", "c"), ("d", "d")],
        &[("a", "b"), ("a", "c"), ("b", "d"), ("c", "d")],
        vec![],
    );
    let args = BetweenArgs::default().included("a").included("d");
    let result = between(&g, &args).unwrap();
    assert_eq!(sorted_node_ids(&result), vec!["a", "b", "c", "d"]);
    assert_eq!(
        sorted_edge_pairs(&result),
        vec![("a", "b"), ("a", "c"), ("b", "d"), ("c", "d")]
    );
}

#[test]
fn multiple_query_nodes() {
    // a -> b -> c -> d: between a, b, and d includes everything on paths a->b, a->d, b->d
    let g = make_graph(
        &[("a", "a"), ("b", "b"), ("c", "c"), ("d", "d")],
        &[("a", "b"), ("b", "c"), ("c", "d")],
        vec![],
    );
    let args = BetweenArgs::default()
        .included("a")
        .included("b")
        .included("d");
    let result = between(&g, &args).unwrap();
    assert_eq!(sorted_node_ids(&result), vec!["a", "b", "c", "d"]);
}

#[test]
fn no_match_returns_empty() {
    let g = make_graph(&[("a", "a"), ("b", "b")], &[("a", "b")], vec![]);
    let args = BetweenArgs::default().included("nonexistent");
    let result = between(&g, &args).unwrap();
    assert!(result.nodes.is_empty());
    assert!(result.edges.is_empty());
}

#[test]
fn single_match_returns_empty() {
    // Only one node matches -- need at least 2 for a path
    let g = make_graph(&[("a", "a"), ("b", "b")], &[("a", "b")], vec![]);
    let args = BetweenArgs::default().included("a");
    let result = between(&g, &args).unwrap();
    assert!(result.nodes.is_empty());
    assert!(result.edges.is_empty());
}

#[test]
fn cycle() {
    // a -> b -> c -> a: between a and c includes all nodes in the cycle
    let g = make_graph(
        &[("a", "a"), ("b", "b"), ("c", "c")],
        &[("a", "b"), ("b", "c"), ("c", "a")],
        vec![],
    );
    let args = BetweenArgs::default().included("a").included("c");
    let result = between(&g, &args).unwrap();
    assert_eq!(sorted_node_ids(&result), vec!["a", "b", "c"]);
}

#[test]
fn between_match_by_id() {
    let g = make_graph(&[("1", "libfoo"), ("2", "libbar")], &[("1", "2")], vec![]);
    let args = BetweenArgs::default()
        .included("1")
        .included("2")
        .key(MatchKey::Id);
    let result = between(&g, &args).unwrap();
    assert_eq!(sorted_node_ids(&result), vec!["1", "2"]);
    assert_eq!(sorted_edge_pairs(&result), vec![("1", "2")]);
}

#[test]
fn excludes_unrelated_nodes() {
    // a -> b -> c, d -> e: between a and c should not contain d or e
    let g = make_graph(
        &[("a", "a"), ("b", "b"), ("c", "c"), ("d", "d"), ("e", "e")],
        &[("a", "b"), ("b", "c"), ("d", "e")],
        vec![],
    );
    let args = BetweenArgs::default().included("a").included("c");
    let result = between(&g, &args).unwrap();
    assert_eq!(sorted_node_ids(&result), vec!["a", "b", "c"]);
    assert_eq!(sorted_edge_pairs(&result), vec![("a", "b"), ("b", "c")]);
}

#[test]
fn glob_matching_multiple_nodes() {
    // a -> b -> c: glob "?" matches a, b, c -- all pairs have paths
    let g = make_graph(
        &[("a", "a"), ("b", "b"), ("c", "c")],
        &[("a", "b"), ("b", "c")],
        vec![],
    );
    let args = BetweenArgs::default().included("?");
    let result = between(&g, &args).unwrap();
    assert_eq!(sorted_node_ids(&result), vec!["a", "b", "c"]);
    assert_eq!(sorted_edge_pairs(&result), vec![("a", "b"), ("b", "c")]);
}

#[test]
fn exclude_removes_from_result() {
    // a -> b -> c: between a and c, exclude b
    let g = make_graph(
        &[("a", "a"), ("b", "b"), ("c", "c")],
        &[("a", "b"), ("b", "c")],
        vec![],
    );
    let args = BetweenArgs::default()
        .included("a")
        .included("c")
        .exclude("b");
    let result = between(&g, &args).unwrap();
    assert_eq!(sorted_node_ids(&result), vec!["a", "c"]);
    assert!(sorted_edge_pairs(&result).is_empty());
}
