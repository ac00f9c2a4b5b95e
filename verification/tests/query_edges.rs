use csvizmo_depgraph::algorithm::query::edges::{edges, EdgeSort, EdgesArgs};
use csvizmo_depgraph::algorithm::query::OutputFields;
use csvizmo_depgraph::graph::{DepGraph, Edge, NodeInfo};

fn make_graph(nodes: &[(&str, &str)], edges: &[(&str, &str)]) -> DepGraph {
    DepGraph {
        nodes: nodes
            .iter()
            .map(|(id, label)| (id.to_string(), NodeInfo::new(*label)))
            .collect(),
        edges: edges
            .iter()
            .map(|(from, to)| Edge {
                from: from.to_string(),
                to: to.to_string(),
                ..Default::default()
            })
            .collect(),
        ..Default::default()
    }
}

fn make_graph_with_labels(
    nodes: &[(&str, &str)],
    edge_specs: &[(&str, &str, Option<&str>)],
) -> DepGraph {
    DepGraph {
        nodes: nodes
            .iter()
            .map(|(id, label)| (id.to_string(), NodeInfo::new(*label)))
            .collect(),
        edges: edge_specs
            .iter()
            .map(|(from, to, label)| Edge {
                from: from.to_string(),
                to: to.to_string(),
                label: label.map(|l| l.to_string()),
                ..Default::default()
            })
            .collect(),
        ..Default::default()
    }
}

fn pairs(result: &[(String, String, Option<String>)]) -> Vec<(&str, &str)> {
    result
        .iter()
        .map(|(s, t, _)| (s.as_str(), t.as_str()))
        .collect()
}

#[test]
fn all_edges_default() {
    let g = make_graph(
        &[("a", "A"), ("b", "B"), ("c", "C")],
        &[("a", "b"), ("b", "c")],
    );
    let result = edges(&g, &EdgesArgs::default()).unwrap();
    assert_eq!(pairs(&result), vec![("A", "B"), ("B", "C")]);
}

#[test]
fn include_filter() {
    let g = make_graph(
        &[("a", "alpha"), ("b", "beta"), ("c", "gamma")],
        &[("a", "b"), ("b", "c"), ("a", "c")],
    );
    let args = EdgesArgs {
        included: vec!["alpha".to_string()],
        ..Default::default()
    };
    let result = edges(&g, &args).unwrap();
    // edges where source or target is "alpha": a->b, a->c
    assert_eq!(pairs(&result), vec![("alpha", "beta"), ("alpha", "gamma")]);
}

#[test]
fn exclude_filter() {
    let g = make_graph(
        &[("a", "alpha"), ("b", "beta"), ("c", "gamma")],
        &[("a", "b"), ("b", "c"), ("a", "c")],
    );
    let args = EdgesArgs {
        exclude: vec!["beta".to_string()],
        ..Default::default()
    };
    let result = edges(&g, &args).unwrap();
    // exclude edges touching beta: a->b and b->c removed, only a->c remains
    assert_eq!(pairs(&result), vec![("alpha", "gamma")]);
}

#[test]
fn sort_by_source() {
    let g = make_graph(
        &[("a", "C"), ("b", "A"), ("c", "B")],
        &[("a", "b"), ("c", "a"), ("b", "c")],
    );
    let args = EdgesArgs {
        sort: EdgeSort::Source,
        ..Default::default()
    };
    let result = edges(&g, &args).unwrap();
    assert_eq!(pairs(&result), vec![("A", "B"), ("B", "C"), ("C", "A")]);
}

#[test]
fn sort_by_target() {
    let g = make_graph(
        &[("a", "C"), ("b", "A"), ("c", "B")],
        &[("a", "b"), ("c", "a"), ("b", "c")],
    );
    let args = EdgesArgs {
        sort: EdgeSort::Target,
        ..Default::default()
    };
    let result = edges(&g, &args).unwrap();
    assert_eq!(pairs(&result), vec![("C", "A"), ("A", "B"), ("B", "C")]);
}

#[test]
fn format_id() {
    let g = make_graph(&[("a", "Alpha"), ("b", "Beta")], &[("a", "b")]);
    let args = EdgesArgs {
        format: OutputFields::Id,
        ..Default::default()
    };
    let result = edges(&g, &args).unwrap();
    assert_eq!(pairs(&result), vec![("a", "b")]);
}

#[test]
fn edge_label_included() {
    let g = make_graph_with_labels(&[("a", "A"), ("b", "B")], &[("a", "b", Some("depends"))]);
    let result = edges(&g, &EdgesArgs::default()).unwrap();
    assert_eq!(result[0].2.as_deref(), Some("depends"));
}

#[test]
fn limit_edges() {
    let g = make_graph(
        &[("a", "A"), ("b", "B"), ("c", "C")],
        &[("a", "b"), ("b", "c"), ("a", "c")],
    );
    let args = EdgesArgs {
        limit: Some(2),
        ..Default::default()
    };
    let result = edges(&g, &args).unwrap();
    assert_eq!(result.len(), 2);
}

#[test]
fn reverse_edges() {
    let g = make_graph(
        &[("a", "A"), ("b", "B"), ("c", "C")],
        &[("a", "b"), ("b", "c")],
    );
    let args = EdgesArgs {
        reverse: true,
        ..Default::default()
    };
    let result = edges(&g, &args).unwrap();
    assert_eq!(pairs(&result), vec![("B", "C"), ("A", "B")]);
}

#[test]
fn skips_dangling_edges() {
    let g = DepGraph {
        nodes: [("a".to_string(), NodeInfo::new("A"))]
            .into_iter()
            .collect(),
        edges: vec![Edge {
            from: "a".to_string(),
            to: "missing".to_string(),
            ..Default::default()
        }],
        ..Default::default()
    };
    let result = edges(&g, &EdgesArgs::default()).unwrap();
    assert!(result.is_empty());
}
