use csvizmo_depgraph::algorithm::cluster::{clusters_to_depgraph, Adjacency};
use csvizmo_depgraph::flat::FlatGraphView;
use csvizmo_depgraph::graph::{DepGraph, Edge, NodeInfo};

fn make_graph(nodes: &[(&str, &str)], edges: &[(&str, &str)]) -> DepGraph {
    DepGraph {
        nodes: nodes
            .iter()
            .map(|(id, label)| (id.to_string(), NodeInfo::new(*label)))
            .collect(),
        edges: edges
            .iter()
            .map(|(from, to)| Edge {
                from: from.to_string(),
                to: to.to_string(),
                ..Default::default()
            })
            .collect(),
        ..Default::default()
    }
}

#[test]
fn adjacency_undirected() {
    let g = make_graph(&[("a", "a"), ("b", "b"), ("c", "c")], &[("a", "b")]);
    let view = FlatGraphView::new(&g);
    let adj = Adjacency::new(&view, false);
    // a's neighbors: b (outgoing) -> [b_idx]
    let a_idx = view.id_to_idx["a"];
    let b_idx = view.id_to_idx["b"];
    assert!(adj.neighbors[a_idx].contains(&b_idx));
    // b's neighbors: a (incoming, undirected) -> [a_idx]
    assert!(adj.neighbors[b_idx].contains(&a_idx));
}

#[test]
fn adjacency_directed() {
    let g = make_graph(&[("a", "a"), ("b", "b")], &[("a", "b")]);
    let view = FlatGraphView::new(&g);
    let adj = Adjacency::new(&view, true);
    let a_idx = view.id_to_idx["a"];
    let b_idx = view.id_to_idx["b"];
    // a -> b: a has neighbor b
    assert!(adj.neighbors[a_idx].contains(&b_idx));
    // b has no outgoing edges in directed mode
    assert!(adj.neighbors[b_idx].is_empty());
}

#[test]
fn clusters_to_depgraph_basic() {
    let g = make_graph(
        &[("a", "a"), ("b", "b"), ("c", "c"), ("d", "d")],
        &[("a", "b"), ("c", "d"), ("b", "c")],
    );
    let partition = vec![vec!["a", "b"], vec!["c", "d"]];
    let result = clusters_to_depgraph(&g, &partition);

    assert_eq!(result.subgraphs.len(), 2);
    assert_eq!(result.subgraphs[0].id.as_deref(), Some("cluster_0"));
    assert_eq!(result.subgraphs[0].nodes.len(), 2);
    assert_eq!(result.subgraphs[0].edges.len(), 1); // a->b
    assert_eq!(result.subgraphs[1].id.as_deref(), Some("cluster_1"));
    assert_eq!(result.subgraphs[1].nodes.len(), 2);
    assert_eq!(result.subgraphs[1].edges.len(), 1); // c->d
    // Cross-cluster edge: b->c
    assert_eq!(result.edges.len(), 1);
    assert_eq!(result.edges[0].from, "b");
    assert_eq!(result.edges[0].to, "c");
}

#[test]
fn clusters_to_depgraph_empty() {
    let g = DepGraph::default();
    let partition: Vec<Vec<&str>> = vec![];
    let result = clusters_to_depgraph(&g, &partition);
    assert!(result.subgraphs.is_empty());
    assert!(result.edges.is_empty());
}

#[test]
fn adjacency_parallel_edges_listed_once() {
    let g = make_graph(&[("a", "a"), ("b", "b")], &[("a", "b"), ("a", "b")]);
    let view = FlatGraphView::new(&g);
    let ia = view.id_to_idx["a"];
    let ib = view.id_to_idx["b"];
    let adj = Adjacency::new(&view, false);
    assert_eq!(adj.neighbors[ia], vec![ib]);
    assert_eq!(adj.neighbors[ib], vec![ia]);
    let dir = Adjacency::new(&view, true);
    assert_eq!(dir.neighbors[ia], vec![ib]);
}
