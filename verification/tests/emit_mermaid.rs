use csvizmo_depgraph::emit::mermaid::emit;
use csvizmo_depgraph::graph::{DepGraph, Edge, NodeInfo};
use indexmap::IndexMap;


    fn emit_to_string(graph: &DepGraph) -> String {
        emit(graph)
    }







    #[test]
    fn mermaid_empty_graph() {
        let output = emit_to_string(&DepGraph::default());
        assert_eq!(output, "flowchart LR\n");
    }

    #[test]
    fn mermaid_sample() {
        let output = emit_to_string(&sample_graph());
        assert_eq!(
            output,
            "\
flowchart LR
    a[\"alpha\"]
    b[\"bravo\"]
    c[\"c\"]
    a -->|\"depends\"| b
    b --> c
    a --> c
"
        );
    }

    #[test]
    fn mermaid_nodes_only() {
        let mut nodes = IndexMap::new();
        nodes.insert("x".into(), NodeInfo::new("X Node"));
        nodes.insert("y".into(), NodeInfo::new("y"));
        let graph = DepGraph {
            nodes,
            edges: vec![],
            ..Default::default()
        };
        let output = emit_to_string(&graph);
        assert_eq!(
            output,
            "\
flowchart LR
    x[\"X Node\"]
    y[\"y\"]
"
        );
    }

    #[test]
    fn shape_attrs_from_node_types() {
        let mut nodes = IndexMap::new();
        nodes.insert(
            "lib1".into(),
            NodeInfo {
                label: "Library".into(),
                node_type: None,
                attrs: IndexMap::from([("shape".into(), "ellipse".into())]),
            },
        );
        nodes.insert(
            "bin1".into(),
            NodeInfo {
                label: "Binary".into(),
                node_type: None,
                attrs: IndexMap::from([("shape".into(), "box".into())]),
            },
        );
        nodes.insert(
            "pm1".into(),
            NodeInfo {
                label: "Proc Macro".into(),
                node_type: None,
                attrs: IndexMap::from([("shape".into(), "diamond".into())]),
            },
        );
        nodes.insert(
            "bs1".into(),
            NodeInfo {
                label: "Build Script".into(),
                node_type: None,
                attrs: IndexMap::from([("shape".into(), "note".into())]),
            },
        );
        nodes.insert(
            "test1".into(),
            NodeInfo {
                label: "Test".into(),
                node_type: None,
                attrs: IndexMap::from([("shape".into(), "hexagon".into())]),
            },
        );
        let graph = DepGraph {
            nodes,
            ..Default::default()
        };
        let output = emit_to_string(&graph);
        assert!(output.contains("lib1([\"Library\"])"));
        assert!(output.contains("bin1[\"Binary\"]"));
        assert!(output.contains("pm1{\"Proc Macro\"}"));
        assert!(output.contains("bs1[/\"Build Script\"/]"));
        assert!(output.contains("test1{{\"Test\"}}"));
    }

    #[test]
    fn mermaid_emit_edge_labels() {
        let graph = DepGraph {
            nodes: IndexMap::new(),
            edges: vec![
                Edge {
                    from: "a".into(),
                    to: "b".into(),
                    label: Some("uses".into()),
                    ..Default::default()
                },
                Edge {
                    from: "a".into(),
                    to: "c".into(),
                    label: Some("has space".into()),
                    ..Default::default()
                },
            ],
            ..Default::default()
        };
        let output = emit_to_string(&graph);
        assert!(output.contains("a -->|\"uses\"| b"));
        assert!(output.contains("a -->|\"has space\"| c"));
    }

    #[test]
    fn direction_from_rankdir() {
        let graph = DepGraph {
            attrs: IndexMap::from([("rankdir".into(), "TB".into())]),
            nodes: IndexMap::from([("a".into(), NodeInfo::new("a"))]),
            ..Default::default()
        };
        let output = emit_to_string(&graph);
        assert!(output.starts_with("flowchart TB\n"));
    }

    #[test]
    fn direction_from_direction_attr() {
        let graph = DepGraph {
            attrs: IndexMap::from([("direction".into(), "RL".into())]),
            nodes: IndexMap::from([("a".into(), NodeInfo::new("a"))]),
            ..Default::default()
        };
        let output = emit_to_string(&graph);
        assert!(output.starts_with("flowchart RL\n"));
    }

    #[test]
    fn mermaid_subgraph_emitted() {
        let graph = DepGraph {
            nodes: IndexMap::from([("top".into(), NodeInfo::new("top"))]),
            subgraphs: vec![DepGraph {
                id: Some("backend".into()),
                nodes: IndexMap::from([
                    ("api".into(), NodeInfo::new("API Server")),
                    ("db".into(), NodeInfo::new("Database")),
                ]),
                edges: vec![Edge {
                    from: "api".into(),
                    to: "db".into(),
                    ..Default::default()
                }],
                ..Default::default()
            }],
            edges: vec![Edge {
                from: "top".into(),
                to: "api".into(),
                ..Default::default()
            }],
            ..Default::default()
        };
        let output = emit_to_string(&graph);
        assert_eq!(
            output,
            "\
flowchart LR
    subgraph backend
        api[\"API Server\"]
        db[\"Database\"]
        api --> db
    end
    top[\"top\"]
    top --> api
"
        );
    }

    #[test]
    fn mermaid_special_chars_in_ids() {
        let mut nodes = IndexMap::new();
        nodes.insert("my node".into(), NodeInfo::new("my node"));
        nodes.insert("has\"quotes".into(), NodeInfo::new("a \"label\""));
        let graph = DepGraph {
            nodes,
            edges: vec![Edge {
                from: "my node".into(),
                to: "has\"quotes".into(),
                ..Default::default()
            }],
            ..Default::default()
        };
        let output = emit_to_string(&graph);
        assert!(output.contains("my_node[\"my node\"]"));
        assert!(output.contains("has_22quotes[\"a &quot;label&quot;\"]"));
        assert!(output.contains("my_node --> has_22quotes"));
    }

    #[test]
    fn node_attrs_dropped() {
        let mut nodes = IndexMap::new();
        nodes.insert(
            "a".into(),
            NodeInfo {
                label: "Alpha".into(),
                node_type: None,
                attrs: IndexMap::from([
                    ("shape".into(), "box".into()),
                    ("color".into(), "red".into()),
                ]),
            },
        );
        let graph = DepGraph {
            nodes,
            ..Default::default()
        };
        let output = emit_to_string(&graph);
        // Mermaid doesn't support arbitrary attrs in basic syntax, so they're dropped
        assert!(output.contains("a[\"Alpha\"]"));
        assert!(!output.contains("shape"));
        assert!(!output.contains("color"));
    }

    #[test]
    fn edge_attrs_dropped() {
        let graph = DepGraph {
            nodes: IndexMap::new(),
            edges: vec![Edge {
                from: "a".into(),
                to: "b".into(),
                label: Some("uses".into()),
                attrs: IndexMap::from([("style".into(), "dashed".into())]),
            }],
            ..Default::default()
        };
        let output = emit_to_string(&graph);
        assert!(output.contains("a -->|\"uses\"| b"));
        assert!(!output.contains("dashed"));
    }

    #[test]
    fn shape_attrs_mapped_to_mermaid() {
        let mut nodes = IndexMap::new();
        nodes.insert(
            "n1".into(),
            NodeInfo {
                label: "Circle".into(),
                node_type: None,
                attrs: IndexMap::from([("shape".into(), "circle".into())]),
            },
        );
        nodes.insert(
            "n2".into(),
            NodeInfo {
                label: "Diamond".into(),
                node_type: None,
                attrs: IndexMap::from([("shape".into(), "diamond".into())]),
            },
        );
        nodes.insert(
            "n3".into(),
            NodeInfo {
                label: "Hexagon".into(),
                node_type: None,
                attrs: IndexMap::from([("shape".into(), "hexagon".into())]),
            },
        );
        nodes.insert(
            "n4".into(),
            NodeInfo {
                label: "Ellipse".into(),
                node_type: None,
                attrs: IndexMap::from([("shape".into(), "ellipse".into())]),
            },
        );
        nodes.insert(
            "n5".into(),
            NodeInfo {
                label: "Cylinder".into(),
                node_type: None,
                attrs: IndexMap::from([("shape".into(), "cylinder".into())]),
            },
        );
        let graph = DepGraph {
            nodes,
            ..Default::default()
        };
        let output = emit_to_string(&graph);
        assert!(output.contains("n1((\"Circle\"))"));
        assert!(output.contains("n2{\"Diamond\"}"));
        assert!(output.contains("n3{{\"Hexagon\"}}"));
        assert!(output.contains("n4([\"Ellipse\"])"));
        assert!(output.contains("n5[(\"Cylinder\")]"));
    }

    #[test]
    fn explicit_shape_attr_used() {
        let mut nodes = IndexMap::new();
        nodes.insert(
            "lib1".into(),
            NodeInfo {
                label: "Library".into(),
                node_type: None,
                attrs: IndexMap::from([("shape".into(), "box".into())]),
            },
        );
        let graph = DepGraph {
            nodes,
            ..Default::default()
        };
        let output = emit_to_string(&graph);
        // shape=box maps to rectangle brackets
        assert!(output.contains("lib1[\"Library\"]"));
    }

    #[test]
    fn unknown_shape_falls_back_to_rectangle() {
        let mut nodes = IndexMap::new();
        nodes.insert(
            "n1".into(),
            NodeInfo {
                label: "Unknown".into(),
                node_type: None,
                attrs: IndexMap::from([("shape".into(), "trapezium".into())]),
            },
        );
        let graph = DepGraph {
            nodes,
            ..Default::default()
        };
        let output = emit_to_string(&graph);
        // Unknown shape should fall back to rectangle
        assert!(output.contains("n1[\"Unknown\"]"));
    }

/// A small graph: a -> b -> c, a -> c
fn sample_graph() -> DepGraph {
    let mut nodes = IndexMap::new();
    nodes.insert("a".into(), NodeInfo::new("alpha"));
    nodes.insert("b".into(), NodeInfo::new("bravo"));
    nodes.insert("c".into(), NodeInfo::new("c"));
    DepGraph {
        nodes,
        edges: vec![
            Edge { from: "a".into(), to: "b".into(), label: Some("depends".into()), ..Default::default() },
            Edge { from: "b".into(), to: "c".into(), ..Default::default() },
            Edge { from: "a".into(), to: "c".into(), ..Default::default() },
        ],
        ..Default::default()
    }
}
