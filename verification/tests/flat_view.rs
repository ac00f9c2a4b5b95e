use std::collections::HashSet;

use csvizmo_depgraph::flat::FlatGraphView;
use csvizmo_depgraph::graph::{DepGraph, Edge, NodeInfo};
use indexmap::IndexMap;

fn make_graph(
    nodes: &[(&str, &str)],
    edges: &[(&str, &str)],
    subgraphs: Vec<DepGraph>,
) -> DepGraph {
    DepGraph {
        id: None,
        attrs: IndexMap::new(),
        nodes: nodes
            .iter()
            .map(|(id, label)| (id.to_string(), NodeInfo::new(*label)))
            .collect(),
        edges: edges
            .iter()
            .map(|(from, to)| Edge {
                from: from.to_string(),
                to: to.to_string(),
                ..Default::default()
            })
            .collect(),
        subgraphs,
    }
}

#[test]
fn new_empty() {
    let g = DepGraph::default();
    let view = FlatGraphView::new(&g);
    assert_eq!(view.pg.node_count(), 0);
    assert_eq!(view.pg.edge_count(), 0);
    assert!(view.id_to_idx.is_empty());
    assert!(view.idx_to_id.is_empty());
}

#[test]
fn new_flat() {
    let g = make_graph(
        &[("a", "A"), ("b", "B"), ("c", "C")],
        &[("a", "b"), ("b", "c")],
        vec![],
    );
    let view = FlatGraphView::new(&g);

    assert_eq!(view.pg.node_count(), 3);
    assert_eq!(view.pg.edge_count(), 2);

    // Round-trip: id -> idx -> id
    for &id in &["a", "b", "c"] {
        let idx = view.id_to_idx[id];
        assert_eq!(view.idx_to_id[idx], id);
    }
}

#[test]
fn new_with_subgraphs() {
    let sub = make_graph(&[("c", "C")], &[("a", "c")], vec![]);
    let g = make_graph(&[("a", "A"), ("b", "B")], &[("a", "b")], vec![sub]);
    let view = FlatGraphView::new(&g);

    assert_eq!(view.pg.node_count(), 3);
    // a->b from root, a->c from subgraph
    assert_eq!(view.pg.edge_count(), 2);
    assert!(view.id_to_idx.contains_key("c"));
}

#[test]
fn new_skips_dangling_edges() {
    let g = make_graph(
        &[("a", "A")],
        &[("a", "b"), ("x", "a")], // b and x don't exist
        vec![],
    );
    let view = FlatGraphView::new(&g);

    assert_eq!(view.pg.node_count(), 1);
    assert_eq!(view.pg.edge_count(), 0);
}

#[test]
fn filter_keeps_matching_nodes() {
    let g = make_graph(
        &[("a", "A"), ("b", "B"), ("c", "C")],
        &[("a", "b"), ("b", "c"), ("a", "c")],
        vec![],
    );
    let view = FlatGraphView::new(&g);

    let keep: HashSet<usize> = ["a", "b"].iter().map(|id| view.id_to_idx[*id]).collect();
    let filtered = view.filter(&keep);

    assert_eq!(filtered.nodes.len(), 2);
    assert!(filtered.nodes.contains_key("a"));
    assert!(filtered.nodes.contains_key("b"));
    assert_eq!(filtered.edges.len(), 1);
    assert_eq!(filtered.edges[0].from, "a");
    assert_eq!(filtered.edges[0].to, "b");
}

#[test]
fn filter_drops_unmatched_edges() {
    let g = make_graph(
        &[("a", "A"), ("b", "B"), ("c", "C")],
        &[("a", "b"), ("b", "c")],
        vec![],
    );
    let view = FlatGraphView::new(&g);

    // Keep a and c but not b -- both edges touch b so both are dropped
    let keep: HashSet<usize> = ["a", "c"].iter().map(|id| view.id_to_idx[*id]).collect();
    let filtered = view.filter(&keep);

    assert_eq!(filtered.nodes.len(), 2);
    assert!(filtered.edges.is_empty());
}

#[test]
fn filter_preserves_subgraph_structure() {
    let sub = make_graph(&[("c", "C")], &[], vec![]);
    let g = make_graph(&[("a", "A"), ("b", "B")], &[("a", "b")], vec![sub]);
    let view = FlatGraphView::new(&g);

    // Keep all three nodes
    let keep: HashSet<usize> = ["a", "b", "c"]
        .iter()
        .map(|id| view.id_to_idx[*id])
        .collect();
    let filtered = view.filter(&keep);

    assert_eq!(filtered.nodes.len(), 2); // a, b at root
    assert_eq!(filtered.subgraphs.len(), 1);
    assert_eq!(filtered.subgraphs[0].nodes.len(), 1); // c in subgraph
    assert!(filtered.subgraphs[0].nodes.contains_key("c"));
}

#[test]
fn filter_drops_empty_subgraphs() {
    let sub = make_graph(&[("c", "C")], &[], vec![]);
    let g = make_graph(&[("a", "A"), ("b", "B")], &[], vec![sub]);
    let view = FlatGraphView::new(&g);

    // Keep only root nodes, subgraph node c is excluded
    let keep: HashSet<usize> = ["a", "b"].iter().map(|id| view.id_to_idx[*id]).collect();
    let filtered = view.filter(&keep);

    assert_eq!(filtered.nodes.len(), 2);
    assert!(filtered.subgraphs.is_empty());
}

#[test]
fn filter_preserves_subgraph_attrs() {
    let mut sub = make_graph(&[("c", "C")], &[], vec![]);
    sub.id = Some("cluster_0".to_string());
    sub.attrs.insert("color".to_string(), "blue".to_string());

    let g = make_graph(&[("a", "A")], &[], vec![sub]);
    let view = FlatGraphView::new(&g);

    let keep: HashSet<usize> = ["a", "c"].iter().map(|id| view.id_to_idx[*id]).collect();
    let filtered = view.filter(&keep);

    assert_eq!(filtered.subgraphs.len(), 1);
    assert_eq!(filtered.subgraphs[0].id.as_deref(), Some("cluster_0"));
    assert_eq!(
        filtered.subgraphs[0].attrs.get("color").map(String::as_str),
        Some("blue")
    );
}

// -- roots --

#[test]
fn roots_empty_graph() {
    let g = DepGraph::default();
    let view = FlatGraphView::new(&g);
    assert_eq!(view.roots().len(), 0);
}

#[test]
fn roots_no_edges() {
    let g = make_graph(&[("a", "A"), ("b", "B")], &[], vec![]);
    let view = FlatGraphView::new(&g);
    let root_ids: Vec<&str> = view
        .roots()
        .iter()
        .map(|idx| view.idx_to_id[*idx].as_str())
        .collect();
    assert_eq!(root_ids, vec!["a", "b"]);
}

#[test]
fn roots_chain() {
    // a -> b -> c: only a is a root
    let g = make_graph(
        &[("a", "A"), ("b", "B"), ("c", "C")],
        &[("a", "b"), ("b", "c")],
        vec![],
    );
    let view = FlatGraphView::new(&g);
    let root_ids: Vec<&str> = view
        .roots()
        .iter()
        .map(|idx| view.idx_to_id[*idx].as_str())
        .collect();
    assert_eq!(root_ids, vec!["a"]);
}

#[test]
fn roots_diamond() {
    // a -> b, a -> c, b -> d, c -> d
    let g = make_graph(
        &[("a", "A"), ("b", "B"), ("c", "C"), ("d", "D")],
        &[("a", "b"), ("a", "c"), ("b", "d"), ("c", "d")],
        vec![],
    );
    let view = FlatGraphView::new(&g);
    let root_ids: Vec<&str> = view
        .roots()
        .iter()
        .map(|idx| view.idx_to_id[*idx].as_str())
        .collect();
    assert_eq!(root_ids, vec!["a"]);
}

#[test]
fn roots_cycle() {
    // a -> b -> c -> a: every node has an incoming edge, no roots
    let g = make_graph(
        &[("a", "A"), ("b", "B"), ("c", "C")],
        &[("a", "b"), ("b", "c"), ("c", "a")],
        vec![],
    );
    let view = FlatGraphView::new(&g);
    assert_eq!(view.roots().len(), 0);
}

// -- bfs --

#[test]
fn bfs_outgoing_full() {
    // a -> b -> c
    let g = make_graph(
        &[("a", "A"), ("b", "B"), ("c", "C")],
        &[("a", "b"), ("b", "c")],
        vec![],
    );
    let view = FlatGraphView::new(&g);
    let result = view.bfs(&vec![view.id_to_idx["a"]], true, None);
    let mut ids: Vec<&str> = result
        .iter()
        .map(|idx| view.idx_to_id[*idx].as_str())
        .collect();
    ids.sort();
    assert_eq!(ids, vec!["a", "b", "c"]);
}

#[test]
fn bfs_incoming_full() {
    // a -> b -> c: ancestors of c = {a, b, c}
    let g = make_graph(
        &[("a", "A"), ("b", "B"), ("c", "C")],
        &[("a", "b"), ("b", "c")],
        vec![],
    );
    let view = FlatGraphView::new(&g);
    let result = view.bfs(&vec![view.id_to_idx["c"]], false, None);
    let mut ids: Vec<&str> = result
        .iter()
        .map(|idx| view.idx_to_id[*idx].as_str())
        .collect();
    ids.sort();
    assert_eq!(ids, vec!["a", "b", "c"]);
}

#[test]
fn bfs_depth_limited() {
    // a -> b -> c -> d: depth 1 from a = {a, b}
    let g = make_graph(
        &[("a", "A"), ("b", "B"), ("c", "C"), ("d", "D")],
        &[("a", "b"), ("b", "c"), ("c", "d")],
        vec![],
    );
    let view = FlatGraphView::new(&g);
    let result = view.bfs(&vec![view.id_to_idx["a"]], true, Some(1));
    let mut ids: Vec<&str> = result
        .iter()
        .map(|idx| view.idx_to_id[*idx].as_str())
        .collect();
    ids.sort();
    assert_eq!(ids, vec!["a", "b"]);
}

#[test]
fn bfs_depth_zero() {
    // depth 0 from a = just {a}
    let g = make_graph(&[("a", "A"), ("b", "B")], &[("a", "b")], vec![]);
    let view = FlatGraphView::new(&g);
    let result = view.bfs(&vec![view.id_to_idx["a"]], true, Some(0));
    let ids: Vec<&str> = result
        .iter()
        .map(|idx| view.idx_to_id[*idx].as_str())
        .collect();
    assert_eq!(ids, vec!["a"]);
}

#[test]
fn bfs_multiple_seeds() {
    // a -> b, c -> d: seeds {a, c} outgoing = {a, b, c, d}
    let g = make_graph(
        &[("a", "A"), ("b", "B"), ("c", "C"), ("d", "D")],
        &[("a", "b"), ("c", "d")],
        vec![],
    );
    let view = FlatGraphView::new(&g);
    let result = view.bfs(
        &vec![view.id_to_idx["a"], view.id_to_idx["c"]],
        true,
        None,
    );
    let mut ids: Vec<&str> = result
        .iter()
        .map(|idx| view.idx_to_id[*idx].as_str())
        .collect();
    ids.sort();
    assert_eq!(ids, vec!["a", "b", "c", "d"]);
}

#[test]
fn bfs_cycle() {
    // a -> b -> c -> a: full traversal doesn't loop forever
    let g = make_graph(
        &[("a", "A"), ("b", "B"), ("c", "C")],
        &[("a", "b"), ("b", "c"), ("c", "a")],
        vec![],
    );
    let view = FlatGraphView::new(&g);
    let result = view.bfs(&vec![view.id_to_idx["a"]], true, None);
    assert_eq!(result.len(), 3);
}
