use csvizmo_depgraph::emit::dot::emit;
use csvizmo_depgraph::graph::{DepGraph, Edge, NodeInfo};
use indexmap::IndexMap;


    fn emit_to_string(graph: &DepGraph) -> String {
        emit(graph)
    }






    #[test]
    fn dot_empty_graph() {
        let output = emit_to_string(&DepGraph::default());
        assert_eq!(output, "digraph {\n}\n");
    }

    #[test]
    fn dot_sample() {
        let output = emit_to_string(&sample_graph());
        assert_eq!(
            output,
            "\
digraph {
    a [label=\"alpha\"];
    b [label=\"bravo\"];
    c;
    a -> b [label=\"depends\"];
    b -> c;
    a -> c;
}
"
        );
    }

    #[test]
    fn dot_nodes_only() {
        let mut nodes = IndexMap::new();
        nodes.insert("x".into(), NodeInfo::new("X Node"));
        nodes.insert("y".into(), NodeInfo::new("y"));
        let graph = DepGraph {
            nodes,
            ..Default::default()
        };
        let output = emit_to_string(&graph);
        assert_eq!(
            output,
            "\
digraph {
    x [label=\"X Node\"];
    y;
}
"
        );
    }

    #[test]
    fn node_attrs() {
        let mut nodes = IndexMap::new();
        nodes.insert(
            "mylib".into(),
            NodeInfo {
                label: "My Library".into(),
                node_type: None,
                attrs: IndexMap::from([
                    ("shape".into(), "box".into()),
                    ("version".into(), "1.0".into()),
                ]),
            },
        );
        let graph = DepGraph {
            nodes,
            ..Default::default()
        };
        let output = emit_to_string(&graph);
        assert_eq!(
            output,
            "\
digraph {
    mylib [label=\"My Library\", shape=\"box\", version=\"1.0\"];
}
"
        );
    }

    #[test]
    fn dot_special_chars_in_ids() {
        let mut nodes = IndexMap::new();
        nodes.insert("my node".into(), NodeInfo::new("my node"));
        nodes.insert("has\"quotes".into(), NodeInfo::new("a \"label\""));
        let graph = DepGraph {
            nodes,
            edges: vec![Edge {
                from: "my node".into(),
                to: "has\"quotes".into(),
                ..Default::default()
            }],
            ..Default::default()
        };
        let output = emit_to_string(&graph);
        assert_eq!(
            output,
            "\
digraph {
    \"my node\";
    \"has\\\"quotes\" [label=\"a \\\"label\\\"\"];
    \"my node\" -> \"has\\\"quotes\";
}
"
        );
    }

    #[test]
    fn bare_ids_not_quoted() {
        let mut nodes = IndexMap::new();
        nodes.insert("foo_bar".into(), NodeInfo::new("foo_bar"));
        nodes.insert("Baz123".into(), NodeInfo::new("Baz123"));
        let graph = DepGraph {
            nodes,
            edges: vec![Edge {
                from: "foo_bar".into(),
                to: "Baz123".into(),
                ..Default::default()
            }],
            ..Default::default()
        };
        let output = emit_to_string(&graph);
        assert_eq!(
            output,
            "\
digraph {
    foo_bar;
    Baz123;
    foo_bar -> Baz123;
}
"
        );
    }

    #[test]
    fn dot_keyword_ids_are_quoted() {
        let mut nodes = IndexMap::new();
        nodes.insert("node".into(), NodeInfo::new("node"));
        nodes.insert("edge".into(), NodeInfo::new("edge"));
        let graph = DepGraph {
            nodes,
            edges: vec![Edge {
                from: "node".into(),
                to: "edge".into(),
                ..Default::default()
            }],
            ..Default::default()
        };
        let output = emit_to_string(&graph);
        assert_eq!(
            output,
            "\
digraph {
    \"node\";
    \"edge\";
    \"node\" -> \"edge\";
}
"
        );
    }

    #[test]
    fn dot_keyword_ids_case_insensitive() {
        let mut nodes = IndexMap::new();
        nodes.insert("Node".into(), NodeInfo::new("Node"));
        nodes.insert("GRAPH".into(), NodeInfo::new("GRAPH"));
        nodes.insert("Subgraph".into(), NodeInfo::new("Subgraph"));
        let graph = DepGraph {
            nodes,
            ..Default::default()
        };
        let output = emit_to_string(&graph);
        assert_eq!(
            output,
            "\
digraph {
    \"Node\";
    \"GRAPH\";
    \"Subgraph\";
}
"
        );
    }

    #[test]
    fn digit_leading_id_is_quoted() {
        let mut nodes = IndexMap::new();
        nodes.insert("1abc".into(), NodeInfo::new("1abc"));
        let graph = DepGraph {
            nodes,
            ..Default::default()
        };
        let output = emit_to_string(&graph);
        assert_eq!(
            output,
            "\
digraph {
    \"1abc\";
}
"
        );
    }

    #[test]
    fn dot_emit_edge_labels() {
        let graph = DepGraph {
            nodes: IndexMap::new(),
            edges: vec![
                Edge {
                    from: "a".into(),
                    to: "b".into(),
                    label: Some("uses".into()),
                    ..Default::default()
                },
                Edge {
                    from: "a".into(),
                    to: "c".into(),
                    label: Some("has space".into()),
                    ..Default::default()
                },
            ],
            ..Default::default()
        };
        let output = emit_to_string(&graph);
        assert_eq!(
            output,
            "\
digraph {
    a -> b [label=\"uses\"];
    a -> c [label=\"has space\"];
}
"
        );
    }

    #[test]
    fn edge_attrs_emitted() {
        let graph = DepGraph {
            nodes: IndexMap::new(),
            edges: vec![Edge {
                from: "a".into(),
                to: "b".into(),
                label: Some("uses".into()),
                attrs: IndexMap::from([
                    ("style".into(), "dashed".into()),
                    ("color".into(), "red".into()),
                ]),
            }],
            ..Default::default()
        };
        let output = emit_to_string(&graph);
        assert_eq!(
            output,
            "\
digraph {
    a -> b [label=\"uses\", style=\"dashed\", color=\"red\"];
}
"
        );
    }

    #[test]
    fn graph_name_emitted() {
        let graph = DepGraph {
            id: Some("deps".into()),
            ..Default::default()
        };
        let output = emit_to_string(&graph);
        assert_eq!(output, "digraph deps {\n}\n");
    }

    #[test]
    fn graph_attrs_emitted() {
        let graph = DepGraph {
            id: Some("deps".into()),
            attrs: IndexMap::from([("rankdir".into(), "LR".into())]),
            ..Default::default()
        };
        let output = emit_to_string(&graph);
        assert_eq!(
            output,
            "\
digraph deps {
    rankdir=\"LR\";
}
"
        );
    }

    #[test]
    fn graph_and_node_and_edge_attrs_combined() {
        let graph = DepGraph {
            id: Some("deps".into()),
            attrs: IndexMap::from([("rankdir".into(), "LR".into())]),
            nodes: IndexMap::from([
                (
                    "a".into(),
                    NodeInfo {
                        label: "A".into(),
                        node_type: None,
                        attrs: IndexMap::from([("shape".into(), "box".into())]),
                    },
                ),
                ("b".into(), NodeInfo::new("b")),
            ]),
            edges: vec![Edge {
                from: "a".into(),
                to: "b".into(),
                attrs: IndexMap::from([
                    ("style".into(), "dashed".into()),
                    ("color".into(), "red".into()),
                ]),
                ..Default::default()
            }],
            ..Default::default()
        };
        let output = emit_to_string(&graph);
        assert_eq!(
            output,
            "\
digraph deps {
    rankdir=\"LR\";
    a [label=\"A\", shape=\"box\"];
    b;
    a -> b [style=\"dashed\", color=\"red\"];
}
"
        );
    }

    #[test]
    fn dot_subgraph_emitted() {
        let graph = DepGraph {
            nodes: IndexMap::from([("top".into(), NodeInfo::new("top"))]),
            subgraphs: vec![DepGraph {
                id: Some("cluster0".into()),
                attrs: IndexMap::from([("label".into(), "Group A".into())]),
                nodes: IndexMap::from([
                    ("a".into(), NodeInfo::new("a")),
                    ("b".into(), NodeInfo::new("b")),
                ]),
                edges: vec![Edge {
                    from: "a".into(),
                    to: "b".into(),
                    ..Default::default()
                }],
                ..Default::default()
            }],
            edges: vec![Edge {
                from: "top".into(),
                to: "a".into(),
                ..Default::default()
            }],
            ..Default::default()
        };
        let output = emit_to_string(&graph);
        assert_eq!(
            output,
            "\
digraph {
    subgraph cluster0 {
        label=\"Group A\";
        a;
        b;
        a -> b;
    }
    top;
    top -> a;
}
"
        );
    }

    #[test]
    fn node_type_emitted() {
        let mut nodes = IndexMap::new();
        nodes.insert(
            "mylib".into(),
            NodeInfo {
                label: "My Library".into(),
                node_type: Some("lib".into()),
                attrs: Default::default(),
            },
        );
        let graph = DepGraph {
            nodes,
            ..Default::default()
        };
        let output = emit_to_string(&graph);
        assert!(output.contains(r#"type="lib""#));
        assert!(output.contains(r#"[label="My Library", type="lib"]"#));
    }

    #[test]
    fn node_type_ordering() {
        let mut nodes = IndexMap::new();
        nodes.insert(
            "mylib".into(),
            NodeInfo {
                label: "My Library".into(),
                node_type: Some("proc-macro".into()),
                attrs: IndexMap::from([
                    ("version".into(), "1.0".into()),
                    ("shape".into(), "diamond".into()),
                ]),
            },
        );
        let graph = DepGraph {
            nodes,
            ..Default::default()
        };
        let output = emit_to_string(&graph);
        // label first, then type, then attrs in insertion order
        assert!(output.contains(
            r#"[label="My Library", type="proc-macro", version="1.0", shape="diamond"]"#
        ));
    }

    #[test]
    fn node_type_none_omitted() {
        let mut nodes = IndexMap::new();
        nodes.insert(
            "mylib".into(),
            NodeInfo {
                label: "My Library".into(),
                node_type: None,
                attrs: IndexMap::from([("version".into(), "1.0".into())]),
            },
        );
        let graph = DepGraph {
            nodes,
            ..Default::default()
        };
        let output = emit_to_string(&graph);
        assert!(!output.contains("type="));
        assert!(output.contains(r#"[label="My Library", version="1.0"]"#));
    }

    #[test]
    fn node_type_with_shape_attrs() {
        let mut nodes = IndexMap::new();
        nodes.insert(
            "pm".into(),
            NodeInfo {
                label: "pm".into(),
                node_type: Some("proc-macro".into()),
                attrs: IndexMap::from([("shape".into(), "diamond".into())]),
            },
        );
        nodes.insert(
            "mybin".into(),
            NodeInfo {
                label: "mybin".into(),
                node_type: Some("bin".into()),
                attrs: IndexMap::from([("shape".into(), "box".into())]),
            },
        );
        nodes.insert(
            "bs".into(),
            NodeInfo {
                label: "bs".into(),
                node_type: Some("build-script".into()),
                attrs: IndexMap::from([("shape".into(), "note".into())]),
            },
        );
        nodes.insert(
            "opt".into(),
            NodeInfo {
                label: "opt".into(),
                node_type: Some("optional".into()),
                attrs: IndexMap::from([("style".into(), "dashed".into())]),
            },
        );
        let graph = DepGraph {
            nodes,
            ..Default::default()
        };
        let output = emit_to_string(&graph);
        assert_eq!(
            output,
            "\
digraph {
    pm [type=\"proc-macro\", shape=\"diamond\"];
    mybin [type=\"bin\", shape=\"box\"];
    bs [type=\"build-script\", shape=\"note\"];
    opt [type=\"optional\", style=\"dashed\"];
}
"
        );
    }

    #[test]
    fn node_type_no_override() {
        let mut nodes = IndexMap::new();
        nodes.insert(
            "pm".into(),
            NodeInfo {
                label: "pm".into(),
                node_type: Some("proc-macro".into()),
                attrs: IndexMap::from([("shape".into(), "box".into())]),
            },
        );
        let graph = DepGraph {
            nodes,
            ..Default::default()
        };
        let output = emit_to_string(&graph);
        // Emitter serializes type and attrs as-is
        assert_eq!(
            output,
            "\
digraph {
    pm [type=\"proc-macro\", shape=\"box\"];
}
"
        );
    }

    #[test]
    fn edge_kind_styled() {
        let graph = DepGraph {
            nodes: IndexMap::new(),
            edges: vec![
                Edge {
                    from: "a".into(),
                    to: "b".into(),
                    attrs: IndexMap::from([
                        ("kind".into(), "dev".into()),
                        ("style".into(), "dashed".into()),
                        ("color".into(), "gray60".into()),
                    ]),
                    ..Default::default()
                },
                Edge {
                    from: "a".into(),
                    to: "c".into(),
                    attrs: IndexMap::from([
                        ("kind".into(), "build".into()),
                        ("style".into(), "dashed".into()),
                    ]),
                    ..Default::default()
                },
                Edge {
                    from: "a".into(),
                    to: "d".into(),
                    attrs: IndexMap::from([
                        ("kind".into(), "normal,build".into()),
                        ("style".into(), "dashed".into()),
                    ]),
                    ..Default::default()
                },
            ],
            ..Default::default()
        };
        let output = emit_to_string(&graph);
        assert_eq!(
            output,
            "\
digraph {
    a -> b [kind=\"dev\", style=\"dashed\", color=\"gray60\"];
    a -> c [kind=\"build\", style=\"dashed\"];
    a -> d [kind=\"normal,build\", style=\"dashed\"];
}
"
        );
    }

    #[test]
    fn edge_kind_no_override() {
        let graph = DepGraph {
            nodes: IndexMap::new(),
            edges: vec![Edge {
                from: "a".into(),
                to: "b".into(),
                attrs: IndexMap::from([
                    ("kind".into(), "dev".into()),
                    ("style".into(), "bold".into()),
                    ("color".into(), "gray60".into()),
                ]),
                ..Default::default()
            }],
            ..Default::default()
        };
        let output = emit_to_string(&graph);
        // Emitter serializes all attrs as-is
        assert_eq!(
            output,
            "\
digraph {
    a -> b [kind=\"dev\", style=\"bold\", color=\"gray60\"];
}
"
        );
    }

    #[test]
    fn no_type_no_styling() {
        let mut nodes = IndexMap::new();
        nodes.insert("plain".into(), NodeInfo::new("Plain"));
        let graph = DepGraph {
            nodes,
            ..Default::default()
        };
        let output = emit_to_string(&graph);
        assert_eq!(
            output,
            "\
digraph {
    plain [label=\"Plain\"];
}
"
        );
        assert!(!output.contains("shape="));
        assert!(!output.contains("style="));
    }

/// A small graph: a -> b -> c, a -> c
fn sample_graph() -> DepGraph {
    let mut nodes = IndexMap::new();
    nodes.insert("a".into(), NodeInfo::new("alpha"));
    nodes.insert("b".into(), NodeInfo::new("bravo"));
    nodes.insert("c".into(), NodeInfo::new("c"));
    DepGraph {
        nodes,
        edges: vec![
            Edge { from: "a".into(), to: "b".into(), label: Some("depends".into()), ..Default::default() },
            Edge { from: "b".into(), to: "c".into(), ..Default::default() },
            Edge { from: "a".into(), to: "c".into(), ..Default::default() },
        ],
        ..Default::default()
    }
}
