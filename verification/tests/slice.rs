use csvizmo_depgraph::algorithm::slice::{slice, SliceArgs};
use csvizmo_depgraph::graph::{DepGraph, Edge, NodeInfo};

fn make_graph(nodes: &[&str], edges: &[(&str, &str)], subgraphs: Vec<DepGraph>) -> DepGraph {
    DepGraph {
        nodes: nodes
            .iter()
            .map(|id| (id.to_string(), NodeInfo::new(*id)))
            .collect(),
        edges: edges
            .iter()
            .map(|(from, to)| Edge {
                from: from.to_string(),
                to: to.to_string(),
                ..Default::default()
            })
            .collect(),
        subgraphs,
        ..Default::default()
    }
}

fn node_ids(graph: &DepGraph) -> Vec<&str> {
    graph.nodes.keys().map(|s| s.as_str()).collect()
}

fn edge_pairs(graph: &DepGraph) -> Vec<(&str, &str)> {
    graph
        .edges
        .iter()
        .map(|e| (e.from.as_str(), e.to.as_str()))
        .collect()
}

#[test]
fn slice_empty_graph() {
    let g = DepGraph::default();
    let result = slice(&g, &SliceArgs::default());
    assert!(result.nodes.is_empty());
    assert!(result.edges.is_empty());
    assert!(result.subgraphs.is_empty());
}

#[test]
fn no_subgraphs_preserves_all() {
    let g = make_graph(&["a", "b"], &[("a", "b")], vec![]);
    let result = slice(&g, &SliceArgs::default());
    assert_eq!(node_ids(&result), vec!["a", "b"]);
    assert_eq!(edge_pairs(&result), vec![("a", "b")]);
}

#[test]
fn no_subgraphs_drop_orphans_removes_all() {
    let g = make_graph(&["a", "b"], &[("a", "b")], vec![]);
    let args = SliceArgs {
        drop_orphans: true,
        ..Default::default()
    };
    let result = slice(&g, &args);
    assert!(result.nodes.is_empty());
    assert!(result.edges.is_empty());
}

#[test]
fn cross_subgraph_edges_removed() {
    let sg0 = make_graph(&["a"], &[], vec![]);
    let sg1 = make_graph(&["b"], &[], vec![]);
    let g = make_graph(&[], &[("a", "b")], vec![sg0, sg1]);
    let result = slice(&g, &SliceArgs::default());
    assert!(result.edges.is_empty());
}

#[test]
fn intra_subgraph_edges_preserved() {
    let sg = make_graph(&["a", "b"], &[], vec![]);
    let g = make_graph(&[], &[("a", "b")], vec![sg]);
    let result = slice(&g, &SliceArgs::default());
    assert_eq!(edge_pairs(&result), vec![("a", "b")]);
}

#[test]
fn root_to_subgraph_edges_removed() {
    let sg = make_graph(&["b"], &[], vec![]);
    let g = make_graph(&["a"], &[("a", "b")], vec![sg]);
    let result = slice(&g, &SliceArgs::default());
    assert!(result.edges.is_empty());
    assert_eq!(node_ids(&result), vec!["a"]);
}

#[test]
fn root_nodes_preserved_by_default() {
    let sg = make_graph(&["b"], &[], vec![]);
    let g = make_graph(&["a"], &[], vec![sg]);
    let result = slice(&g, &SliceArgs::default());
    assert_eq!(node_ids(&result), vec!["a"]);
}

#[test]
fn drop_orphans_removes_root_nodes_and_edges() {
    let sg = make_graph(&["b", "c"], &[], vec![]);
    let g = make_graph(&["a"], &[("a", "b"), ("b", "c")], vec![sg]);
    let args = SliceArgs {
        drop_orphans: true,
        ..Default::default()
    };
    let result = slice(&g, &args);
    assert!(result.nodes.is_empty());
    // b->c kept (both in same group), a->b dropped (cross-boundary)
    assert_eq!(edge_pairs(&result), vec![("b", "c")]);
}

#[test]
fn nested_subgraph_toplevel_groups_under_outermost() {
    let inner = make_graph(&["c"], &[], vec![]);
    let outer = make_graph(&["a"], &[], vec![inner]);
    let g = make_graph(&[], &[("a", "c")], vec![outer]);
    let result = slice(&g, &SliceArgs::default());
    // Both a and c belong to the same top-level group
    assert_eq!(edge_pairs(&result), vec![("a", "c")]);
}

#[test]
fn recursive_cuts_within_nested_subgraphs() {
    let inner = make_graph(&["b"], &[], vec![]);
    let outer = make_graph(&["a"], &[("a", "b")], vec![inner]);
    let g = make_graph(&[], &[], vec![outer]);

    // Top-level: a and b both in group 0, edge preserved inside the subgraph
    let result_toplevel = slice(&g, &SliceArgs::default());
    assert_eq!(edge_pairs(&result_toplevel.subgraphs[0]), vec![("a", "b")]);

    // Recursive: at the outer subgraph level, a is root, b is in inner -> cut
    let args = SliceArgs {
        recursive: true,
        ..Default::default()
    };
    let result_recursive = slice(&g, &args);
    assert!(result_recursive.subgraphs[0].edges.is_empty());
}

#[test]
fn recursive_drop_orphans_at_each_level() {
    let inner = make_graph(&["b"], &[], vec![]);
    let outer = make_graph(&["a"], &[("a", "b")], vec![inner]);
    let g = make_graph(&[], &[], vec![outer]);

    let args = SliceArgs {
        recursive: true,
        drop_orphans: true,
    };
    let result = slice(&g, &args);
    // a is an orphan at the outer subgraph level -> dropped
    assert!(result.subgraphs[0].nodes.is_empty());
    assert!(result.subgraphs[0].edges.is_empty());
    // b is in the inner subgraph -> preserved
    assert_eq!(node_ids(&result.subgraphs[0].subgraphs[0]), vec!["b"]);
}

#[test]
fn subgraph_attrs_and_id_preserved() {
    let mut sg = make_graph(&["a"], &[], vec![]);
    sg.id = Some("cluster_0".to_string());
    sg.attrs.insert("color".to_string(), "blue".to_string());
    let g = make_graph(&[], &[], vec![sg]);

    let result = slice(&g, &SliceArgs::default());
    assert_eq!(result.subgraphs[0].id.as_deref(), Some("cluster_0"));
    assert_eq!(
        result.subgraphs[0].attrs.get("color").map(String::as_str),
        Some("blue")
    );
}
