use csvizmo_depgraph::algorithm::diamonds::{diamonds, DiamondsArgs};
use csvizmo_depgraph::graph::{DepGraph, Edge, NodeInfo};

fn make_graph(nodes: &[(&str, &str)], edges: &[(&str, &str)]) -> DepGraph {
    DepGraph {
        nodes: nodes
            .iter()
            .map(|(id, label)| (id.to_string(), NodeInfo::new(*label)))
            .collect(),
        edges: edges
            .iter()
            .map(|(from, to)| Edge {
                from: from.to_string(),
                to: to.to_string(),
                ..Default::default()
            })
            .collect(),
        ..Default::default()
    }
}

fn sorted_node_ids(graph: &DepGraph) -> Vec<&str> {
    let mut ids: Vec<&str> = graph.nodes.keys().map(|s| s.as_str()).collect();
    ids.sort();
    ids
}

fn sorted_edge_pairs(graph: &DepGraph) -> Vec<(&str, &str)> {
    let mut pairs: Vec<(&str, &str)> = graph
        .edges
        .iter()
        .map(|e| (e.from.as_str(), e.to.as_str()))
        .collect();
    pairs.sort();
    pairs
}

#[test]
fn simple_diamond() {
    // A -> B -> D, A -> C -> D
    let g = make_graph(
        &[("A", "A"), ("B", "B"), ("C", "C"), ("D", "D")],
        &[("A", "B"), ("A", "C"), ("B", "D"), ("C", "D")],
    );
    let result = diamonds(&g, &DiamondsArgs::default()).unwrap();

    assert!(result.nodes.is_empty(), "no top-level nodes");
    assert_eq!(result.subgraphs.len(), 1);

    let sg = &result.subgraphs[0];
    assert_eq!(sg.id.as_deref(), Some("A..D"));
    assert_eq!(sorted_node_ids(sg), vec!["A", "B", "C", "D"]);
    assert_eq!(
        sorted_edge_pairs(&result),
        vec![("A", "B"), ("A", "C"), ("B", "D"), ("C", "D")]
    );
}

#[test]
fn no_diamond_chain() {
    // A -> B -> C: no join nodes
    let g = make_graph(
        &[("A", "A"), ("B", "B"), ("C", "C")],
        &[("A", "B"), ("B", "C")],
    );
    let result = diamonds(&g, &DiamondsArgs::default()).unwrap();
    assert!(result.nodes.is_empty());
    assert!(result.edges.is_empty());
    assert!(result.subgraphs.is_empty());
}

#[test]
fn nested_diamonds() {
    // A -> B -> D, A -> C -> D, D -> E -> G, D -> F -> G
    let g = make_graph(
        &[
            ("A", "A"),
            ("B", "B"),
            ("C", "C"),
            ("D", "D"),
            ("E", "E"),
            ("F", "F"),
            ("G", "G"),
        ],
        &[
            ("A", "B"),
            ("A", "C"),
            ("B", "D"),
            ("C", "D"),
            ("D", "E"),
            ("D", "F"),
            ("E", "G"),
            ("F", "G"),
        ],
    );
    let result = diamonds(&g, &DiamondsArgs::default()).unwrap();
    assert_eq!(result.subgraphs.len(), 2);

    let sg_ad = result
        .subgraphs
        .iter()
        .find(|sg| sg.id.as_deref() == Some("A..D"))
        .unwrap();
    let sg_dg = result
        .subgraphs
        .iter()
        .find(|sg| sg.id.as_deref() == Some("D..G"))
        .unwrap();

    assert_eq!(sorted_node_ids(sg_ad), vec!["A", "B", "C", "D"]);
    assert_eq!(sorted_node_ids(sg_dg), vec!["D", "E", "F", "G"]);
}

#[test]
fn multiple_lcas() {
    // A -> X, A -> Y, B -> X, B -> Y, X -> J, Y -> J
    // Both A and B are LCAs for parents X and Y of join node J.
    let g = make_graph(
        &[("A", "A"), ("B", "B"), ("J", "J"), ("X", "X"), ("Y", "Y")],
        &[
            ("A", "X"),
            ("A", "Y"),
            ("B", "X"),
            ("B", "Y"),
            ("X", "J"),
            ("Y", "J"),
        ],
    );
    let result = diamonds(&g, &DiamondsArgs::default()).unwrap();

    // Two diamonds: (A, J) and (B, J), each with its own subgraph.
    assert_eq!(result.subgraphs.len(), 2);

    let sg_aj = result
        .subgraphs
        .iter()
        .find(|sg| sg.id.as_deref() == Some("A..J"))
        .unwrap();
    let sg_bj = result
        .subgraphs
        .iter()
        .find(|sg| sg.id.as_deref() == Some("B..J"))
        .unwrap();

    assert_eq!(sorted_node_ids(sg_aj), vec!["A", "J", "X", "Y"]);
    assert_eq!(sorted_node_ids(sg_bj), vec!["B", "J", "X", "Y"]);
    assert_eq!(
        sorted_edge_pairs(&result),
        vec![
            ("A", "X"),
            ("A", "Y"),
            ("B", "X"),
            ("B", "Y"),
            ("X", "J"),
            ("Y", "J"),
        ]
    );
}

#[test]
fn deduplication_across_parent_pairs() {
    // A -> B, A -> C, A -> D, B -> J, C -> J, D -> J
    // Three parent pairs (B,C), (B,D), (C,D) all find A as LCA.
    // Only one diamond (A, J) should result.
    let g = make_graph(
        &[("A", "A"), ("B", "B"), ("C", "C"), ("D", "D"), ("J", "J")],
        &[
            ("A", "B"),
            ("A", "C"),
            ("A", "D"),
            ("B", "J"),
            ("C", "J"),
            ("D", "J"),
        ],
    );
    let result = diamonds(&g, &DiamondsArgs::default()).unwrap();

    assert_eq!(result.subgraphs.len(), 1);
    let sg = &result.subgraphs[0];
    assert_eq!(sg.id.as_deref(), Some("A..J"));
    assert_eq!(sorted_node_ids(sg), vec!["A", "B", "C", "D", "J"]);
}

#[test]
fn pattern_filtering() {
    // Nested diamonds: (A, D) and (D, G). Pattern "G" keeps only (D, G).
    let g = make_graph(
        &[
            ("A", "A"),
            ("B", "B"),
            ("C", "C"),
            ("D", "D"),
            ("E", "E"),
            ("F", "F"),
            ("G", "G"),
        ],
        &[
            ("A", "B"),
            ("A", "C"),
            ("B", "D"),
            ("C", "D"),
            ("D", "E"),
            ("D", "F"),
            ("E", "G"),
            ("F", "G"),
        ],
    );
    let args = DiamondsArgs::default().pattern("G");
    let result = diamonds(&g, &args).unwrap();

    assert_eq!(result.subgraphs.len(), 1);
    let sg = &result.subgraphs[0];
    assert_eq!(sg.id.as_deref(), Some("D..G"));
    assert_eq!(sorted_node_ids(sg), vec!["D", "E", "F", "G"]);
}

#[test]
fn min_depth_filtering() {
    // Diamond A -> B -> D, A -> C -> D: shortest path is 2 edges.
    let g = make_graph(
        &[("A", "A"), ("B", "B"), ("C", "C"), ("D", "D")],
        &[("A", "B"), ("A", "C"), ("B", "D"), ("C", "D")],
    );

    // min_depth=2: kept
    let args = DiamondsArgs::default().min_depth(2);
    let result = diamonds(&g, &args).unwrap();
    assert_eq!(result.subgraphs.len(), 1);

    // min_depth=3: filtered out
    let args = DiamondsArgs::default().min_depth(3);
    let result = diamonds(&g, &args).unwrap();
    assert!(result.subgraphs.is_empty());
}

#[test]
fn cross_edges_included_by_default() {
    // Two disjoint diamonds with a cross-edge between them.
    // Diamond (A, D): A -> B -> D, A -> C -> D
    // Diamond (E, H): E -> F -> H, E -> G -> H
    // Cross-edge: B -> E (connects diamond nodes across different diamonds)
    let g = make_graph(
        &[
            ("A", "A"),
            ("B", "B"),
            ("C", "C"),
            ("D", "D"),
            ("E", "E"),
            ("F", "F"),
            ("G", "G"),
            ("H", "H"),
        ],
        &[
            ("A", "B"),
            ("A", "C"),
            ("B", "D"),
            ("B", "E"),
            ("C", "D"),
            ("E", "F"),
            ("E", "G"),
            ("F", "H"),
            ("G", "H"),
        ],
    );
    let result = diamonds(&g, &DiamondsArgs::default()).unwrap();

    assert_eq!(result.subgraphs.len(), 2);
    // B -> E is a cross-edge: B is in (A,D), E is in (E,H), but the edge
    // is not internal to either diamond.
    assert!(
        sorted_edge_pairs(&result).contains(&("B", "E")),
        "cross-edge B->E should be included by default"
    );
}

#[test]
fn cross_edges_suppressed() {
    // Same graph as cross_edges_included_by_default, but with no_cross_edges.
    let g = make_graph(
        &[
            ("A", "A"),
            ("B", "B"),
            ("C", "C"),
            ("D", "D"),
            ("E", "E"),
            ("F", "F"),
            ("G", "G"),
            ("H", "H"),
        ],
        &[
            ("A", "B"),
            ("A", "C"),
            ("B", "D"),
            ("B", "E"),
            ("C", "D"),
            ("E", "F"),
            ("E", "G"),
            ("F", "H"),
            ("G", "H"),
        ],
    );
    let args = DiamondsArgs::default().no_cross_edges();
    let result = diamonds(&g, &args).unwrap();

    assert_eq!(result.subgraphs.len(), 2);
    assert!(
        !sorted_edge_pairs(&result).contains(&("B", "E")),
        "cross-edge B->E should be suppressed"
    );
    // Internal edges are still present.
    assert_eq!(
        sorted_edge_pairs(&result),
        vec![
            ("A", "B"),
            ("A", "C"),
            ("B", "D"),
            ("C", "D"),
            ("E", "F"),
            ("E", "G"),
            ("F", "H"),
            ("G", "H"),
        ]
    );
}

#[test]
fn preserves_node_attributes() {
    let mut g = make_graph(
        &[("A", "A-label"), ("B", "B"), ("C", "C"), ("D", "D")],
        &[("A", "B"), ("A", "C"), ("B", "D"), ("C", "D")],
    );
    g.nodes.get_mut("A").unwrap().node_type = Some("lib".to_string());
    g.nodes
        .get_mut("A")
        .unwrap()
        .attrs
        .insert("color".to_string(), "red".to_string());

    let result = diamonds(&g, &DiamondsArgs::default()).unwrap();

    assert_eq!(result.subgraphs.len(), 1);
    let sg = &result.subgraphs[0];
    let a_info = sg.nodes.get("A").unwrap();
    assert_eq!(a_info.label, "A-label");
    assert_eq!(a_info.node_type.as_deref(), Some("lib"));
    assert_eq!(a_info.attrs.get("color").map(String::as_str), Some("red"));
}

#[test]
fn diamonds_empty_graph() {
    let g = DepGraph::default();
    let result = diamonds(&g, &DiamondsArgs::default()).unwrap();
    assert!(result.nodes.is_empty());
    assert!(result.edges.is_empty());
    assert!(result.subgraphs.is_empty());
}
