use csvizmo_depgraph::emit::tree::emit;
use csvizmo_depgraph::graph::{DepGraph, Edge, NodeInfo};

use indexmap::IndexMap;


    fn emit_to_string(graph: &DepGraph) -> String {
        emit(graph)
    }

    #[test]
    fn tree_empty_graph() {
        assert_eq!(emit_to_string(&DepGraph::default()), "");
    }

    #[test]
    fn single_root() {
        let graph = DepGraph {
            nodes: IndexMap::from([("r".into(), NodeInfo::new("root"))]),
            ..Default::default()
        };
        assert_eq!(emit_to_string(&graph), "root\n");
    }

    #[test]
    fn simple_children() {
        // root -> a, root -> b
        let graph = DepGraph {
            nodes: IndexMap::from([
                ("root".into(), NodeInfo::new("root")),
                ("a".into(), NodeInfo::new("alpha")),
                ("b".into(), NodeInfo::new("bravo")),
            ]),
            edges: vec![
                Edge {
                    from: "root".into(),
                    to: "a".into(),
                    ..Default::default()
                },
                Edge {
                    from: "root".into(),
                    to: "b".into(),
                    ..Default::default()
                },
            ],
            ..Default::default()
        };
        assert_eq!(
            emit_to_string(&graph),
            "\
root
├── alpha
└── bravo
"
        );
    }

    #[test]
    fn nested() {
        // root -> a -> b, root -> c
        let graph = DepGraph {
            nodes: IndexMap::from([
                ("root".into(), NodeInfo::new("root")),
                ("a".into(), NodeInfo::new("a")),
                ("b".into(), NodeInfo::new("b")),
                ("c".into(), NodeInfo::new("c")),
            ]),
            edges: vec![
                Edge {
                    from: "root".into(),
                    to: "a".into(),
                    ..Default::default()
                },
                Edge {
                    from: "root".into(),
                    to: "c".into(),
                    ..Default::default()
                },
                Edge {
                    from: "a".into(),
                    to: "b".into(),
                    ..Default::default()
                },
            ],
            ..Default::default()
        };
        assert_eq!(
            emit_to_string(&graph),
            "\
root
├── a
│   └── b
└── c
"
        );
    }

    #[test]
    fn deep_nesting_continuation() {
        // root -> a -> b -> c, root -> d
        // Verifies continuation columns render correctly at depth 3.
        let graph = DepGraph {
            nodes: IndexMap::from([
                ("root".into(), NodeInfo::new("root")),
                ("a".into(), NodeInfo::new("a")),
                ("b".into(), NodeInfo::new("b")),
                ("c".into(), NodeInfo::new("c")),
                ("d".into(), NodeInfo::new("d")),
            ]),
            edges: vec![
                Edge {
                    from: "root".into(),
                    to: "a".into(),
                    ..Default::default()
                },
                Edge {
                    from: "root".into(),
                    to: "d".into(),
                    ..Default::default()
                },
                Edge {
                    from: "a".into(),
                    to: "b".into(),
                    ..Default::default()
                },
                Edge {
                    from: "b".into(),
                    to: "c".into(),
                    ..Default::default()
                },
            ],
            ..Default::default()
        };
        // a is not last (d follows), so its column draws a vertical bar.
        // b is last child of a, so its column draws spaces.
        assert_eq!(
            emit_to_string(&graph),
            "\
root
├── a
│   └── b
│       └── c
└── d
"
        );
    }

    #[test]
    fn parallel_continuation_bars() {
        // root -> a -> b -> x, a -> c, root -> d
        // Both a and b have siblings after them, so two vertical bars
        // appear in parallel when rendering x at depth 3.
        let graph = DepGraph {
            nodes: IndexMap::from([
                ("root".into(), NodeInfo::new("root")),
                ("a".into(), NodeInfo::new("a")),
                ("b".into(), NodeInfo::new("b")),
                ("c".into(), NodeInfo::new("c")),
                ("d".into(), NodeInfo::new("d")),
                ("x".into(), NodeInfo::new("x")),
            ]),
            edges: vec![
                Edge {
                    from: "root".into(),
                    to: "a".into(),
                    ..Default::default()
                },
                Edge {
                    from: "root".into(),
                    to: "d".into(),
                    ..Default::default()
                },
                Edge {
                    from: "a".into(),
                    to: "b".into(),
                    ..Default::default()
                },
                Edge {
                    from: "a".into(),
                    to: "c".into(),
                    ..Default::default()
                },
                Edge {
                    from: "b".into(),
                    to: "x".into(),
                    ..Default::default()
                },
            ],
            ..Default::default()
        };
        assert_eq!(
            emit_to_string(&graph),
            "\
root
├── a
│   ├── b
│   │   └── x
│   └── c
└── d
"
        );
    }

    #[test]
    fn diamond_leaf_no_marker() {
        // a -> b -> d, a -> c -> d
        // d is a leaf -- no subtree suppressed, no marker.
        let graph = DepGraph {
            nodes: IndexMap::from([
                ("a".into(), NodeInfo::new("a")),
                ("b".into(), NodeInfo::new("b")),
                ("c".into(), NodeInfo::new("c")),
                ("d".into(), NodeInfo::new("d")),
            ]),
            edges: vec![
                Edge {
                    from: "a".into(),
                    to: "b".into(),
                    ..Default::default()
                },
                Edge {
                    from: "a".into(),
                    to: "c".into(),
                    ..Default::default()
                },
                Edge {
                    from: "b".into(),
                    to: "d".into(),
                    ..Default::default()
                },
                Edge {
                    from: "c".into(),
                    to: "d".into(),
                    ..Default::default()
                },
            ],
            ..Default::default()
        };
        assert_eq!(
            emit_to_string(&graph),
            "\
a
├── b
│   └── d
└── c
    └── d
"
        );
    }

    #[test]
    fn tree_already_expanded_with_children() {
        // a -> b, a -> c, b -> c, c -> d
        // c is expanded under b (showing d), then truncated under a.
        let graph = DepGraph {
            nodes: IndexMap::from([
                ("a".into(), NodeInfo::new("a")),
                ("b".into(), NodeInfo::new("b")),
                ("c".into(), NodeInfo::new("c")),
                ("d".into(), NodeInfo::new("d")),
            ]),
            edges: vec![
                Edge {
                    from: "a".into(),
                    to: "b".into(),
                    ..Default::default()
                },
                Edge {
                    from: "a".into(),
                    to: "c".into(),
                    ..Default::default()
                },
                Edge {
                    from: "b".into(),
                    to: "c".into(),
                    ..Default::default()
                },
                Edge {
                    from: "c".into(),
                    to: "d".into(),
                    ..Default::default()
                },
            ],
            ..Default::default()
        };
        assert_eq!(
            emit_to_string(&graph),
            "\
a
├── b
│   └── c
│       └── d
└── c (*)
"
        );
    }

    #[test]
    fn tree_cycle_marker() {
        // a -> b -> c -> b
        let graph = DepGraph {
            nodes: IndexMap::from([
                ("a".into(), NodeInfo::new("a")),
                ("b".into(), NodeInfo::new("b")),
                ("c".into(), NodeInfo::new("c")),
            ]),
            edges: vec![
                Edge {
                    from: "a".into(),
                    to: "b".into(),
                    ..Default::default()
                },
                Edge {
                    from: "b".into(),
                    to: "c".into(),
                    ..Default::default()
                },
                Edge {
                    from: "c".into(),
                    to: "b".into(),
                    ..Default::default()
                },
            ],
            ..Default::default()
        };
        assert_eq!(
            emit_to_string(&graph),
            "\
a
└── b
    └── c
        └── b (cycle)
"
        );
    }

    #[test]
    fn tree_falls_back_to_node_id() {
        let graph = DepGraph {
            nodes: IndexMap::from([
                ("root".into(), NodeInfo::new("root")),
                ("child".into(), NodeInfo::new("child")),
            ]),
            edges: vec![Edge {
                from: "root".into(),
                to: "child".into(),
                ..Default::default()
            }],
            ..Default::default()
        };
        assert_eq!(
            emit_to_string(&graph),
            "\
root
└── child
"
        );
    }

    #[test]
    fn tree_sample_graph() {
        // a(alpha) -> b(bravo) -> c, a -> c
        // c has no label, falls back to "c". c is a leaf, no marker.
        let graph = sample_graph();
        assert_eq!(
            emit_to_string(&graph),
            "\
alpha
├── bravo
│   └── c
└── c
"
        );
    }

    #[test]
    fn tree_multiple_roots() {
        let graph = DepGraph {
            nodes: IndexMap::from([
                ("a".into(), NodeInfo::new("a")),
                ("b".into(), NodeInfo::new("b")),
            ]),
            ..Default::default()
        };
        assert_eq!(emit_to_string(&graph), "a\nb\n");
    }

    #[test]
    fn roundtrip() {
        let input = "\
root
├── a
│   └── b
└── c
";
        let graph = csvizmo_depgraph::parse::tree::parse(input).unwrap();
        assert_eq!(emit_to_string(&graph), input);
    }

    #[test]
    fn tree_drops_attrs_and_edge_labels() {
        let graph = DepGraph {
            attrs: IndexMap::from([("name".into(), "deps".into())]),
            nodes: IndexMap::from([
                (
                    "a".into(),
                    NodeInfo {
                        label: "a".into(),
                        node_type: None,
                        attrs: IndexMap::from([("shape".into(), "box".into())]),
                    },
                ),
                ("b".into(), NodeInfo::new("b")),
            ]),
            edges: vec![Edge {
                from: "a".into(),
                to: "b".into(),
                label: Some("uses".into()),
                attrs: IndexMap::from([("style".into(), "dashed".into())]),
            }],
            ..Default::default()
        };
        assert_eq!(
            emit_to_string(&graph),
            "\
a
└── b
"
        );
    }

fn sample_graph() -> DepGraph {
    let mut nodes = IndexMap::new();
    nodes.insert("a".into(), NodeInfo::new("alpha"));
    nodes.insert("b".into(), NodeInfo::new("bravo"));
    nodes.insert("c".into(), NodeInfo::new("c"));
    DepGraph {
        nodes,
        edges: vec![
            Edge { from: "a".into(), to: "b".into(), label: Some("depends".into()), ..Default::default() },
            Edge { from: "b".into(), to: "c".into(), ..Default::default() },
            Edge { from: "a".into(), to: "c".into(), ..Default::default() },
        ],
        ..Default::default()
    }
}
