use csvizmo_depgraph::emit::tgf::emit;
use csvizmo_depgraph::graph::{DepGraph, Edge, NodeInfo};
use indexmap::IndexMap;


    #[test]
    fn emit_sample() {
        let output = emit(&sample_graph());
        assert_eq!(
            output,
            "a\talpha\nb\tbravo\nc\n#\na\tb\tdepends\nb\tc\na\tc\n"
        );
    }

    #[test]
    fn emit_empty() {
        let output = emit(&DepGraph::default());
        assert_eq!(output, "#\n");
    }

    #[test]
    fn emit_nodes_only() {
        let mut nodes = IndexMap::new();
        nodes.insert("x".into(), NodeInfo::new("xray"));
        let graph = DepGraph {
            nodes,
            edges: vec![],
            ..Default::default()
        };
        let output = emit(&graph);
        assert_eq!(output, "x\txray\n#\n");
    }

    #[test]
    fn rich_graph_drops_attrs() {
        let mut nodes = IndexMap::new();
        nodes.insert(
            "a".into(),
            NodeInfo {
                label: "Alpha".into(),
                node_type: None,
                attrs: IndexMap::from([
                    ("shape".into(), "box".into()),
                    ("color".into(), "red".into()),
                ]),
            },
        );
        nodes.insert("b".into(), NodeInfo::new("b"));
        let graph = DepGraph {
            attrs: IndexMap::from([
                ("name".into(), "deps".into()),
                ("rankdir".into(), "LR".into()),
            ]),
            nodes,
            edges: vec![crate::Edge {
                from: "a".into(),
                to: "b".into(),
                label: Some("uses".into()),
                attrs: IndexMap::from([("style".into(), "dashed".into())]),
            }],
            ..Default::default()
        };
        let output = emit(&graph);
        // TGF only preserves IDs, labels, and edge labels -- all attrs are dropped.
        assert_eq!(output, "a\tAlpha\nb\n#\na\tb\tuses\n");
    }

    #[test]
    fn whitespace_in_ids_replaced_with_underscores() {
        let mut nodes = IndexMap::new();
        nodes.insert("my app v1.0".into(), NodeInfo::new("my app"));
        nodes.insert("lib foo v2.0".into(), NodeInfo::new("lib foo"));
        let graph = DepGraph {
            nodes,
            edges: vec![Edge {
                from: "my app v1.0".into(),
                to: "lib foo v2.0".into(),
                ..Default::default()
            }],
            ..Default::default()
        };
        let output = emit(&graph);
        assert_eq!(
            output,
            "my_app_v1.0\tmy app\nlib_foo_v2.0\tlib foo\n#\nmy_app_v1.0\tlib_foo_v2.0\n"
        );
    }

    #[test]
    fn subgraph_nodes_and_edges_included() {
        let graph = DepGraph {
            nodes: IndexMap::from([("top".into(), NodeInfo::new("top"))]),
            edges: vec![Edge {
                from: "top".into(),
                to: "a".into(),
                ..Default::default()
            }],
            subgraphs: vec![DepGraph {
                nodes: IndexMap::from([
                    ("a".into(), NodeInfo::new("Alpha")),
                    ("b".into(), NodeInfo::new("b")),
                ]),
                edges: vec![Edge {
                    from: "a".into(),
                    to: "b".into(),
                    label: Some("uses".into()),
                    ..Default::default()
                }],
                ..Default::default()
            }],
            ..Default::default()
        };
        let output = emit(&graph);
        assert_eq!(output, "top\na\tAlpha\nb\n#\ntop\ta\na\tb\tuses\n");
    }

/// A small graph: a -> b -> c, a -> c
fn sample_graph() -> DepGraph {
    let mut nodes = IndexMap::new();
    nodes.insert("a".into(), NodeInfo::new("alpha"));
    nodes.insert("b".into(), NodeInfo::new("bravo"));
    nodes.insert("c".into(), NodeInfo::new("c"));
    DepGraph {
        nodes,
        edges: vec![
            Edge { from: "a".into(), to: "b".into(), label: Some("depends".into()), ..Default::default() },
            Edge { from: "b".into(), to: "c".into(), ..Default::default() },
            Edge { from: "a".into(), to: "c".into(), ..Default::default() },
        ],
        ..Default::default()
    }
}
