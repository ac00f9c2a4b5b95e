use csvizmo_depgraph::algorithm::query::metrics::{count_cycles, metrics, GraphMetrics};
use csvizmo_depgraph::graph::{DepGraph, Edge, NodeInfo};

fn make_graph(nodes: &[(&str, &str)], edges: &[(&str, &str)]) -> DepGraph {
    DepGraph {
        nodes: nodes
            .iter()
            .map(|(id, label)| (id.to_string(), NodeInfo::new(*label)))
            .collect(),
        edges: edges
            .iter()
            .map(|(from, to)| Edge {
                from: from.to_string(),
                to: to.to_string(),
                ..Default::default()
            })
            .collect(),
        ..Default::default()
    }
}

#[test]
fn metrics_empty_graph() {
    let g = DepGraph::default();
    let m = metrics(&g);
    assert_eq!(m.nodes, 0);
    assert_eq!(m.edges, 0);
    assert_eq!(m.roots, 0);
    assert_eq!(m.leaves, 0);
    assert_eq!(m.max_depth, Some(0));
    assert_eq!(m.max_fan_out, 0);
    assert_eq!(m.max_fan_in, 0);
    assert_eq!(avg_fan_out(&m), 0.0);
    assert_eq!(density(&m), 0.0);
    assert_eq!(m.cycles, 0);
    assert_eq!(m.diamonds, 0);
    assert_eq!(m.components, 0);
}

#[test]
fn metrics_single_node() {
    let g = make_graph(&[("a", "A")], &[]);
    let m = metrics(&g);
    assert_eq!(m.nodes, 1);
    assert_eq!(m.edges, 0);
    assert_eq!(m.roots, 1);
    assert_eq!(m.leaves, 1);
    assert_eq!(m.max_depth, Some(0));
    assert_eq!(density(&m), 0.0);
    assert_eq!(m.components, 1);
}

#[test]
fn chain() {
    // a -> b -> c
    let g = make_graph(
        &[("a", "A"), ("b", "B"), ("c", "C")],
        &[("a", "b"), ("b", "c")],
    );
    let m = metrics(&g);
    assert_eq!(m.nodes, 3);
    assert_eq!(m.edges, 2);
    assert_eq!(m.roots, 1);
    assert_eq!(m.leaves, 1);
    assert_eq!(m.max_depth, Some(2));
    assert_eq!(m.max_fan_out, 1);
    assert_eq!(m.max_fan_in, 1);
    assert!((avg_fan_out(&m) - 2.0 / 3.0).abs() < 1e-9);
    assert!((density(&m) - 2.0 / 6.0).abs() < 1e-9);
    assert_eq!(m.cycles, 0);
    assert_eq!(m.diamonds, 0);
    assert_eq!(m.components, 1);
}

#[test]
fn metrics_diamond() {
    // a -> b, a -> c, b -> d, c -> d
    let g = make_graph(
        &[("a", "A"), ("b", "B"), ("c", "C"), ("d", "D")],
        &[("a", "b"), ("a", "c"), ("b", "d"), ("c", "d")],
    );
    let m = metrics(&g);
    assert_eq!(m.nodes, 4);
    assert_eq!(m.edges, 4);
    assert_eq!(m.roots, 1);
    assert_eq!(m.leaves, 1);
    assert_eq!(m.max_depth, Some(2));
    assert_eq!(m.max_fan_out, 2);
    assert_eq!(m.max_fan_in, 2);
    assert_eq!(m.cycles, 0);
    assert_eq!(m.diamonds, 1);
    assert_eq!(m.components, 1);
}

#[test]
fn cycle_graph() {
    // a -> b -> c -> a
    let g = make_graph(
        &[("a", "A"), ("b", "B"), ("c", "C")],
        &[("a", "b"), ("b", "c"), ("c", "a")],
    );
    let m = metrics(&g);
    assert_eq!(m.cycles, 1);
    assert!(m.max_depth.is_none());
    assert_eq!(m.roots, 0);
    assert_eq!(m.leaves, 0);
}

#[test]
fn disjoint_components() {
    // a -> b, c -> d (two components)
    let g = make_graph(
        &[("a", "A"), ("b", "B"), ("c", "C"), ("d", "D")],
        &[("a", "b"), ("c", "d")],
    );
    let m = metrics(&g);
    assert_eq!(m.components, 2);
    assert_eq!(m.roots, 2);
    assert_eq!(m.leaves, 2);
}

/// Mean out-degree, as the command line reports it.
fn avg_fan_out(m: &GraphMetrics) -> f64 {
    if m.nodes > 0 { m.edges as f64 / m.nodes as f64 } else { 0.0 }
}

/// Edge density, as the command line reports it.
fn density(m: &GraphMetrics) -> f64 {
    if m.nodes > 1 { m.edges as f64 / (m.nodes as f64 * (m.nodes as f64 - 1.0)) } else { 0.0 }
}

#[test]
fn count_cycles_counts_components_of_two_or_more() {
    assert_eq!(count_cycles(&vec![]), 0);
    assert_eq!(count_cycles(&vec![vec![0], vec![1, 2], vec![3], vec![4, 5, 6]]), 2);
}
