use csvizmo_depgraph::emit::pathlist::emit;
use csvizmo_depgraph::graph::{DepGraph, Edge, NodeInfo};
use indexmap::IndexMap;



fn emit_to_string(graph: &DepGraph) -> String {
    emit(graph)
}

#[test]
fn pathlist_empty_graph() {
    assert_eq!(emit_to_string(&DepGraph::default()), "");
}

#[test]
fn pathlist_single_node() {
    let graph = DepGraph {
        nodes: IndexMap::from([("readme".into(), NodeInfo::new("README.md"))]),
        ..Default::default()
    };
    assert_eq!(emit_to_string(&graph), "README.md\n");
}

#[test]
fn pathlist_linear_chain() {
    let graph = DepGraph {
        nodes: IndexMap::from([
            ("src".into(), NodeInfo::new("src")),
            ("src/parse".into(), NodeInfo::new("parse")),
            ("src/parse/tgf.rs".into(), NodeInfo::new("tgf.rs")),
        ]),
        edges: vec![
            Edge {
                from: "src".into(),
                to: "src/parse".into(),
                ..Default::default()
            },
            Edge {
                from: "src/parse".into(),
                to: "src/parse/tgf.rs".into(),
                ..Default::default()
            },
        ],
        ..Default::default()
    };
    assert_eq!(emit_to_string(&graph), "src/parse/tgf.rs\n");
}

#[test]
fn branching() {
    let graph = DepGraph {
        nodes: IndexMap::from([
            ("src".into(), NodeInfo::new("src")),
            ("src/a.rs".into(), NodeInfo::new("a.rs")),
            ("src/b.rs".into(), NodeInfo::new("b.rs")),
        ]),
        edges: vec![
            Edge {
                from: "src".into(),
                to: "src/a.rs".into(),
                ..Default::default()
            },
            Edge {
                from: "src".into(),
                to: "src/b.rs".into(),
                ..Default::default()
            },
        ],
        ..Default::default()
    };
    assert_eq!(emit_to_string(&graph), "src/a.rs\nsrc/b.rs\n");
}

#[test]
fn diamond_already_expanded() {
    // a -> b -> d, a -> c -> d
    let graph = DepGraph {
        nodes: IndexMap::from([
            ("a".into(), NodeInfo::new("a")),
            ("b".into(), NodeInfo::new("b")),
            ("c".into(), NodeInfo::new("c")),
            ("d".into(), NodeInfo::new("d")),
        ]),
        edges: vec![
            Edge {
                from: "a".into(),
                to: "b".into(),
                ..Default::default()
            },
            Edge {
                from: "a".into(),
                to: "c".into(),
                ..Default::default()
            },
            Edge {
                from: "b".into(),
                to: "d".into(),
                ..Default::default()
            },
            Edge {
                from: "c".into(),
                to: "d".into(),
                ..Default::default()
            },
        ],
        ..Default::default()
    };
    // d is a leaf with no children; it was already visited but nothing
    // is suppressed, so it appears as a plain leaf both times.
    assert_eq!(emit_to_string(&graph), "a/b/d\na/c/d\n");
}

#[test]
fn pathlist_already_expanded_with_children() {
    // a -> b -> c -> d, a -> c -> d
    // c has children (d), so when revisited under a it's a suppressed subtree.
    let graph = DepGraph {
        nodes: IndexMap::from([
            ("a".into(), NodeInfo::new("a")),
            ("b".into(), NodeInfo::new("b")),
            ("c".into(), NodeInfo::new("c")),
            ("d".into(), NodeInfo::new("d")),
        ]),
        edges: vec![
            Edge {
                from: "a".into(),
                to: "b".into(),
                ..Default::default()
            },
            Edge {
                from: "a".into(),
                to: "c".into(),
                ..Default::default()
            },
            Edge {
                from: "b".into(),
                to: "c".into(),
                ..Default::default()
            },
            Edge {
                from: "c".into(),
                to: "d".into(),
                ..Default::default()
            },
        ],
        ..Default::default()
    };
    // c was expanded under b (showing c/d), so under a it's truncated.
    assert_eq!(emit_to_string(&graph), "a/b/c/d\na/c/\t(*)\n");
}

#[test]
fn pathlist_cycle_marker() {
    // a -> b -> c -> b
    let graph = DepGraph {
        nodes: IndexMap::from([
            ("a".into(), NodeInfo::new("a")),
            ("b".into(), NodeInfo::new("b")),
            ("c".into(), NodeInfo::new("c")),
        ]),
        edges: vec![
            Edge {
                from: "a".into(),
                to: "b".into(),
                ..Default::default()
            },
            Edge {
                from: "b".into(),
                to: "c".into(),
                ..Default::default()
            },
            Edge {
                from: "c".into(),
                to: "b".into(),
                ..Default::default()
            },
        ],
        ..Default::default()
    };
    assert_eq!(emit_to_string(&graph), "a/b/c/b/\t(cycle)\n");
}

#[test]
fn pathlist_falls_back_to_node_id() {
    // Nodes without labels use the node ID as the path component.
    let graph = DepGraph {
        nodes: IndexMap::from([
            ("root".into(), NodeInfo::new("root")),
            ("child".into(), NodeInfo::new("child")),
        ]),
        edges: vec![Edge {
            from: "root".into(),
            to: "child".into(),
            ..Default::default()
        }],
        ..Default::default()
    };
    assert_eq!(emit_to_string(&graph), "root/child\n");
}

#[test]
fn pathlist_sample_graph() {
    // a(alpha) -> b(bravo) -> c, a -> c
    // c has no label, so falls back to node ID "c".
    let graph = sample_graph();
    // c has no children, so no subtree is suppressed -- plain leaf.
    assert_eq!(emit_to_string(&graph), "alpha/bravo/c\nalpha/c\n");
}

#[test]
fn pathlist_multiple_roots() {
    let graph = DepGraph {
        nodes: IndexMap::from([
            ("a".into(), NodeInfo::new("a")),
            ("b".into(), NodeInfo::new("b")),
        ]),
        ..Default::default()
    };
    assert_eq!(emit_to_string(&graph), "a\nb\n");
}

#[test]
fn pathlist_drops_attrs_and_edge_labels() {
    let graph = DepGraph {
        attrs: IndexMap::from([("name".into(), "deps".into())]),
        nodes: IndexMap::from([
            (
                "a".into(),
                NodeInfo {
                    label: "a".into(),
                    node_type: None,
                    attrs: IndexMap::from([("shape".into(), "box".into())]),
                },
            ),
            ("b".into(), NodeInfo::new("b")),
        ]),
        edges: vec![Edge {
            from: "a".into(),
            to: "b".into(),
            label: Some("uses".into()),
            attrs: IndexMap::from([("style".into(), "dashed".into())]),
        }],
        ..Default::default()
    };
    assert_eq!(emit_to_string(&graph), "a/b\n");
}

#[test]
fn roundtrip_simple() {
    let input = "src/a.rs\nsrc/b.rs\n";
    let graph = csvizmo_depgraph::parse::pathlist::parse(input).unwrap();
    assert_eq!(emit_to_string(&graph), input);
}

#[test]
fn roundtrip_nested() {
    let input = "a/b/c\na/b/d\na/e\n";
    let graph = csvizmo_depgraph::parse::pathlist::parse(input).unwrap();
    assert_eq!(emit_to_string(&graph), input);
}

#[test]
fn pathlist_subgraph_nodes_included() {
    let graph = DepGraph {
        nodes: IndexMap::from([("root".into(), NodeInfo::new("root"))]),
        edges: vec![Edge {
            from: "root".into(),
            to: "child".into(),
            ..Default::default()
        }],
        subgraphs: vec![DepGraph {
            nodes: IndexMap::from([("child".into(), NodeInfo::new("child"))]),
            ..Default::default()
        }],
        ..Default::default()
    };
    assert_eq!(emit_to_string(&graph), "root/child\n");
}

fn sample_graph() -> DepGraph {
    let mut nodes = IndexMap::new();
    nodes.insert("a".into(), NodeInfo::new("alpha"));
    nodes.insert("b".into(), NodeInfo::new("bravo"));
    nodes.insert("c".into(), NodeInfo::new("c"));
    DepGraph {
        nodes,
        edges: vec![
            Edge { from: "a".into(), to: "b".into(), label: Some("depends".into()), ..Default::default() },
            Edge { from: "b".into(), to: "c".into(), ..Default::default() },
            Edge { from: "a".into(), to: "c".into(), ..Default::default() },
        ],
        ..Default::default()
    }
}
