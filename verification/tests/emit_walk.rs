use csvizmo_depgraph::emit::walk::{walk, VisitStatus};
use csvizmo_depgraph::graph::{DepGraph, Edge, NodeInfo};
use indexmap::IndexMap;



#[derive(Debug, PartialEq)]
struct Visit {
    node: String,
    depth: usize,
    is_last: bool,
    child_count: usize,
    status: VisitStatus,
}

fn v(
    node: &str,
    depth: usize,
    is_last: bool,
    child_count: usize,
    status: VisitStatus,
) -> Visit {
    Visit {
        node: node.to_string(),
        depth,
        is_last,
        child_count,
        status,
    }
}

struct CollectVisitor {
    visits: Vec<Visit>,
}

fn collect(graph: &DepGraph) -> CollectVisitor {
    let visits = walk(graph)
        .into_iter()
        .map(|ctx| Visit {
            node: ctx.node_id,
            depth: ctx.depth,
            is_last: ctx.is_last,
            child_count: ctx.child_count,
            status: ctx.status,
        })
        .collect();
    CollectVisitor { visits }
}

#[test]
fn walk_empty_graph() {
    let visitor = collect(&DepGraph::default());
    assert_eq!(visitor.visits, vec![]);
}

#[test]
fn walk_single_node() {
    let graph = DepGraph {
        nodes: IndexMap::from([(
            "a".into(),
            NodeInfo {
                label: "a".into(),
                node_type: None,
                attrs: Default::default(),
            },
        )]),
        ..Default::default()
    };
    let visitor = collect(&graph);
    assert_eq!(visitor.visits, vec![v("a", 0, true, 0, VisitStatus::First)]);
}

#[test]
fn walk_linear_chain() {
    let graph = DepGraph {
        nodes: IndexMap::from([
            (
                "a".into(),
                NodeInfo {
                    label: "a".into(),
                    node_type: None,
                    attrs: Default::default(),
                },
            ),
            (
                "b".into(),
                NodeInfo {
                    label: "b".into(),
                    node_type: None,
                    attrs: Default::default(),
                },
            ),
            (
                "c".into(),
                NodeInfo {
                    label: "c".into(),
                    node_type: None,
                    attrs: Default::default(),
                },
            ),
        ]),
        edges: vec![
            Edge {
                from: "a".into(),
                to: "b".into(),
                ..Default::default()
            },
            Edge {
                from: "b".into(),
                to: "c".into(),
                ..Default::default()
            },
        ],
        ..Default::default()
    };
    let visitor = collect(&graph);
    assert_eq!(
        visitor.visits,
        vec![
            v("a", 0, true, 1, VisitStatus::First),
            v("b", 1, true, 1, VisitStatus::First),
            v("c", 2, true, 0, VisitStatus::First),
        ]
    );
}

#[test]
fn diamond_dag() {
    // a -> b -> d, a -> c -> d
    // d is expanded under b, then AlreadyExpanded under c.
    let graph = DepGraph {
        nodes: IndexMap::from([
            (
                "a".into(),
                NodeInfo {
                    label: "a".into(),
                    node_type: None,
                    attrs: Default::default(),
                },
            ),
            (
                "b".into(),
                NodeInfo {
                    label: "b".into(),
                    node_type: None,
                    attrs: Default::default(),
                },
            ),
            (
                "c".into(),
                NodeInfo {
                    label: "c".into(),
                    node_type: None,
                    attrs: Default::default(),
                },
            ),
            (
                "d".into(),
                NodeInfo {
                    label: "d".into(),
                    node_type: None,
                    attrs: Default::default(),
                },
            ),
        ]),
        edges: vec![
            Edge {
                from: "a".into(),
                to: "b".into(),
                ..Default::default()
            },
            Edge {
                from: "a".into(),
                to: "c".into(),
                ..Default::default()
            },
            Edge {
                from: "b".into(),
                to: "d".into(),
                ..Default::default()
            },
            Edge {
                from: "c".into(),
                to: "d".into(),
                ..Default::default()
            },
        ],
        ..Default::default()
    };
    let visitor = collect(&graph);
    assert_eq!(
        visitor.visits,
        vec![
            v("a", 0, true, 2, VisitStatus::First),
            v("b", 1, false, 1, VisitStatus::First),
            v("d", 2, true, 0, VisitStatus::First),
            v("c", 1, true, 1, VisitStatus::First),
            v("d", 2, true, 0, VisitStatus::AlreadyExpanded),
        ]
    );
}

#[test]
fn visitor_skips_cycles() {
    // a -> b -> a
    let graph = DepGraph {
        nodes: IndexMap::from([
            (
                "a".into(),
                NodeInfo {
                    label: "a".into(),
                    node_type: None,
                    attrs: Default::default(),
                },
            ),
            (
                "b".into(),
                NodeInfo {
                    label: "b".into(),
                    node_type: None,
                    attrs: Default::default(),
                },
            ),
        ]),
        edges: vec![
            Edge {
                from: "a".into(),
                to: "b".into(),
                ..Default::default()
            },
            Edge {
                from: "b".into(),
                to: "a".into(),
                ..Default::default()
            },
        ],
        ..Default::default()
    };
    let visitor = collect(&graph);
    // Because the root is involved in a cycle, the visitor will never visit any of the nodes
    assert_eq!(visitor.visits, vec![]);
}

#[test]
fn self_loop() {
    // a -> a
    let graph = DepGraph {
        nodes: IndexMap::from([(
            "a".into(),
            NodeInfo {
                label: "a".into(),
                node_type: None,
                attrs: Default::default(),
            },
        )]),
        edges: vec![Edge {
            from: "a".into(),
            to: "a".into(),
            ..Default::default()
        }],
        ..Default::default()
    };
    let visitor = collect(&graph);
    // a has an incoming edge (from itself), so it's not a root.
    // No roots, no visits.
    assert_eq!(visitor.visits, vec![]);
}

#[test]
fn cycle_with_entry() {
    // a -> b -> c -> b (c cycles back to b, a is the root)
    let graph = DepGraph {
        nodes: IndexMap::from([
            (
                "a".into(),
                NodeInfo {
                    label: "a".into(),
                    node_type: None,
                    attrs: Default::default(),
                },
            ),
            (
                "b".into(),
                NodeInfo {
                    label: "b".into(),
                    node_type: None,
                    attrs: Default::default(),
                },
            ),
            (
                "c".into(),
                NodeInfo {
                    label: "c".into(),
                    node_type: None,
                    attrs: Default::default(),
                },
            ),
        ]),
        edges: vec![
            Edge {
                from: "a".into(),
                to: "b".into(),
                ..Default::default()
            },
            Edge {
                from: "b".into(),
                to: "c".into(),
                ..Default::default()
            },
            Edge {
                from: "c".into(),
                to: "b".into(),
                ..Default::default()
            },
        ],
        ..Default::default()
    };
    let visitor = collect(&graph);
    assert_eq!(
        visitor.visits,
        vec![
            v("a", 0, true, 1, VisitStatus::First),
            v("b", 1, true, 1, VisitStatus::First),
            v("c", 2, true, 1, VisitStatus::First),
            v("b", 3, true, 1, VisitStatus::Cycle),
        ]
    );
}

#[test]
fn walk_multiple_roots() {
    // a (isolated), b -> c
    let graph = DepGraph {
        nodes: IndexMap::from([
            (
                "a".into(),
                NodeInfo {
                    label: "a".into(),
                    node_type: None,
                    attrs: Default::default(),
                },
            ),
            (
                "b".into(),
                NodeInfo {
                    label: "b".into(),
                    node_type: None,
                    attrs: Default::default(),
                },
            ),
            (
                "c".into(),
                NodeInfo {
                    label: "c".into(),
                    node_type: None,
                    attrs: Default::default(),
                },
            ),
        ]),
        edges: vec![Edge {
            from: "b".into(),
            to: "c".into(),
            ..Default::default()
        }],
        ..Default::default()
    };
    let visitor = collect(&graph);
    assert_eq!(
        visitor.visits,
        vec![
            v("a", 0, false, 0, VisitStatus::First),
            v("b", 0, true, 1, VisitStatus::First),
            v("c", 1, true, 0, VisitStatus::First),
        ]
    );
}

#[test]
fn shared_across_roots() {
    // a -> c, b -> c (both a and b are roots, c is shared)
    let graph = DepGraph {
        nodes: IndexMap::from([
            (
                "a".into(),
                NodeInfo {
                    label: "a".into(),
                    node_type: None,
                    attrs: Default::default(),
                },
            ),
            (
                "b".into(),
                NodeInfo {
                    label: "b".into(),
                    node_type: None,
                    attrs: Default::default(),
                },
            ),
            (
                "c".into(),
                NodeInfo {
                    label: "c".into(),
                    node_type: None,
                    attrs: Default::default(),
                },
            ),
        ]),
        edges: vec![
            Edge {
                from: "a".into(),
                to: "c".into(),
                ..Default::default()
            },
            Edge {
                from: "b".into(),
                to: "c".into(),
                ..Default::default()
            },
        ],
        ..Default::default()
    };
    let visitor = collect(&graph);
    assert_eq!(
        visitor.visits,
        vec![
            v("a", 0, false, 1, VisitStatus::First),
            v("c", 1, true, 0, VisitStatus::First),
            v("b", 0, true, 1, VisitStatus::First),
            v("c", 1, true, 0, VisitStatus::AlreadyExpanded),
        ]
    );
}

#[test]
fn walk_sample_graph() {
    // a -> b -> c, a -> c
    let graph = sample_graph();
    let visitor = collect(&graph);
    assert_eq!(
        visitor.visits,
        vec![
            v("a", 0, true, 2, VisitStatus::First),
            v("b", 1, false, 1, VisitStatus::First),
            v("c", 2, true, 0, VisitStatus::First),
            v("c", 1, true, 0, VisitStatus::AlreadyExpanded),
        ]
    );
}

#[test]
fn walk_subgraph_nodes_included() {
    let graph = DepGraph {
        nodes: IndexMap::from([(
            "root".into(),
            NodeInfo {
                label: "root".into(),
                node_type: None,
                attrs: Default::default(),
            },
        )]),
        edges: vec![Edge {
            from: "root".into(),
            to: "sub_a".into(),
            ..Default::default()
        }],
        subgraphs: vec![DepGraph {
            nodes: IndexMap::from([
                (
                    "sub_a".into(),
                    NodeInfo {
                        label: "sub_a".into(),
                        node_type: None,
                        attrs: Default::default(),
                    },
                ),
                (
                    "sub_b".into(),
                    NodeInfo {
                        label: "sub_b".into(),
                        node_type: None,
                        attrs: Default::default(),
                    },
                ),
            ]),
            edges: vec![Edge {
                from: "sub_a".into(),
                to: "sub_b".into(),
                ..Default::default()
            }],
            ..Default::default()
        }],
        ..Default::default()
    };
    let visitor = collect(&graph);
    assert_eq!(
        visitor.visits,
        vec![
            v("root", 0, true, 1, VisitStatus::First),
            v("sub_a", 1, true, 1, VisitStatus::First),
            v("sub_b", 2, true, 0, VisitStatus::First),
        ]
    );
}

fn sample_graph() -> DepGraph {
    let mut nodes = IndexMap::new();
    nodes.insert("a".into(), NodeInfo::new("alpha"));
    nodes.insert("b".into(), NodeInfo::new("bravo"));
    nodes.insert("c".into(), NodeInfo::new("c"));
    DepGraph {
        nodes,
        edges: vec![
            Edge { from: "a".into(), to: "b".into(), label: Some("depends".into()), ..Default::default() },
            Edge { from: "b".into(), to: "c".into(), ..Default::default() },
            Edge { from: "a".into(), to: "c".into(), ..Default::default() },
        ],
        ..Default::default()
    }
}
