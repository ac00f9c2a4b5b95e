use csvizmo_depgraph::algorithm::query::nodes::{nodes, NodeSelection, NodeSort, NodesArgs};
use csvizmo_depgraph::algorithm::MatchKey;
use csvizmo_depgraph::graph::{DepGraph, Edge, NodeInfo};

fn make_graph(nodes: &[(&str, &str)], edges: &[(&str, &str)]) -> DepGraph {
    DepGraph {
        nodes: nodes
            .iter()
            .map(|(id, label)| (id.to_string(), NodeInfo::new(*label)))
            .collect(),
        edges: edges
            .iter()
            .map(|(from, to)| Edge {
                from: from.to_string(),
                to: to.to_string(),
                ..Default::default()
            })
            .collect(),
        ..Default::default()
    }
}

fn labels(result: &[(String, String, Option<usize>)]) -> Vec<&str> {
    result.iter().map(|(_, l, _)| l.as_str()).collect()
}

fn ids(result: &[(String, String, Option<usize>)]) -> Vec<&str> {
    result.iter().map(|(id, _, _)| id.as_str()).collect()
}

fn counts(result: &[(String, String, Option<usize>)]) -> Vec<Option<usize>> {
    result.iter().map(|(_, _, c)| *c).collect()
}

#[test]
fn all_nodes_default() {
    let g = make_graph(
        &[("a", "A"), ("b", "B"), ("c", "C")],
        &[("a", "b"), ("b", "c")],
    );
    let result = nodes(&g, &NodesArgs::default()).unwrap();
    assert_eq!(ids(&result), vec!["a", "b", "c"]);
}

#[test]
fn select_roots() {
    let g = make_graph(
        &[("a", "A"), ("b", "B"), ("c", "C")],
        &[("a", "b"), ("b", "c")],
    );
    let args = NodesArgs {
        select: NodeSelection::Roots,
        ..Default::default()
    };
    let result = nodes(&g, &args).unwrap();
    assert_eq!(ids(&result), vec!["a"]);
}

#[test]
fn select_leaves() {
    let g = make_graph(
        &[("a", "A"), ("b", "B"), ("c", "C")],
        &[("a", "b"), ("b", "c")],
    );
    let args = NodesArgs {
        select: NodeSelection::Leaves,
        ..Default::default()
    };
    let result = nodes(&g, &args).unwrap();
    assert_eq!(ids(&result), vec!["c"]);
}

#[test]
fn include_pattern() {
    let g = make_graph(&[("a", "alpha"), ("b", "beta"), ("c", "gamma")], &[]);
    let args = NodesArgs {
        included: vec!["al*".to_string()],
        ..Default::default()
    };
    let result = nodes(&g, &args).unwrap();
    assert_eq!(labels(&result), vec!["alpha"]);
}

#[test]
fn exclude_pattern() {
    let g = make_graph(&[("a", "alpha"), ("b", "beta"), ("c", "gamma")], &[]);
    let args = NodesArgs {
        exclude: vec!["b*".to_string()],
        ..Default::default()
    };
    let result = nodes(&g, &args).unwrap();
    assert_eq!(labels(&result), vec!["alpha", "gamma"]);
}

#[test]
fn include_and_mode() {
    let g = make_graph(
        &[("a", "foo-alpha"), ("b", "foo-beta"), ("c", "bar-alpha")],
        &[],
    );
    let args = NodesArgs {
        included: vec!["foo*".to_string(), "*alpha".to_string()],
        and: true,
        ..Default::default()
    };
    let result = nodes(&g, &args).unwrap();
    assert_eq!(labels(&result), vec!["foo-alpha"]);
}

#[test]
fn sort_topo() {
    // a -> c, b -> c (a and b are roots, c is leaf)
    let g = make_graph(
        &[("c", "C"), ("a", "A"), ("b", "B")],
        &[("a", "c"), ("b", "c")],
    );
    let args = NodesArgs {
        sort: NodeSort::Topo,
        ..Default::default()
    };
    let result = nodes(&g, &args).unwrap();
    // c must come after a and b
    let c_pos = ids(&result).iter().position(|&x| x == "c").unwrap();
    let a_pos = ids(&result).iter().position(|&x| x == "a").unwrap();
    let b_pos = ids(&result).iter().position(|&x| x == "b").unwrap();
    assert!(a_pos < c_pos);
    assert!(b_pos < c_pos);
}

#[test]
fn sort_out_degree() {
    // a -> b, a -> c, b -> c
    let g = make_graph(
        &[("a", "A"), ("b", "B"), ("c", "C")],
        &[("a", "b"), ("a", "c"), ("b", "c")],
    );
    let args = NodesArgs {
        sort: NodeSort::OutDegree,
        ..Default::default()
    };
    let result = nodes(&g, &args).unwrap();
    // a has out-degree 2, b has 1, c has 0 (descending)
    assert_eq!(ids(&result), vec!["a", "b", "c"]);
    assert_eq!(counts(&result), vec![Some(2), Some(1), Some(0)]);
}

#[test]
fn sort_in_degree() {
    // a -> c, b -> c
    let g = make_graph(
        &[("a", "A"), ("b", "B"), ("c", "C")],
        &[("a", "c"), ("b", "c")],
    );
    let args = NodesArgs {
        sort: NodeSort::InDegree,
        ..Default::default()
    };
    let result = nodes(&g, &args).unwrap();
    // c has in-degree 2, a and b have 0
    assert_eq!(ids(&result)[0], "c");
    assert_eq!(counts(&result), vec![Some(2), Some(0), Some(0)]);
}

#[test]
fn limit() {
    let g = make_graph(
        &[("a", "A"), ("b", "B"), ("c", "C")],
        &[("a", "b"), ("b", "c")],
    );
    let args = NodesArgs {
        sort: NodeSort::Topo,
        limit: Some(2),
        ..Default::default()
    };
    let result = nodes(&g, &args).unwrap();
    assert_eq!(result.len(), 2);
}

#[test]
fn deps_expansion() {
    // a -> b -> c: select roots, then expand deps
    let g = make_graph(
        &[("a", "A"), ("b", "B"), ("c", "C")],
        &[("a", "b"), ("b", "c")],
    );
    let args = NodesArgs {
        select: NodeSelection::Roots,
        deps: true,
        sort: NodeSort::Topo,
        ..Default::default()
    };
    let result = nodes(&g, &args).unwrap();
    assert_eq!(ids(&result), vec!["a", "b", "c"]);
}

#[test]
fn rdeps_expansion() {
    // a -> b -> c: select leaves, then expand rdeps
    let g = make_graph(
        &[("a", "A"), ("b", "B"), ("c", "C")],
        &[("a", "b"), ("b", "c")],
    );
    let args = NodesArgs {
        select: NodeSelection::Leaves,
        rdeps: true,
        sort: NodeSort::Topo,
        ..Default::default()
    };
    let result = nodes(&g, &args).unwrap();
    assert_eq!(ids(&result), vec!["a", "b", "c"]);
}

#[test]
fn depth_limited_expansion() {
    // a -> b -> c -> d: select root a, deps with depth 1
    let g = make_graph(
        &[("a", "A"), ("b", "B"), ("c", "C"), ("d", "D")],
        &[("a", "b"), ("b", "c"), ("c", "d")],
    );
    let args = NodesArgs {
        select: NodeSelection::Roots,
        depth: Some(1),
        sort: NodeSort::Topo,
        ..Default::default()
    };
    let result = nodes(&g, &args).unwrap();
    assert_eq!(ids(&result), vec!["a", "b"]);
}

#[test]
fn reverse_sort() {
    let g = make_graph(
        &[("a", "A"), ("b", "B"), ("c", "C")],
        &[("a", "b"), ("b", "c")],
    );
    let args = NodesArgs {
        sort: NodeSort::Topo,
        reverse: true,
        ..Default::default()
    };
    let result = nodes(&g, &args).unwrap();
    assert_eq!(ids(&result), vec!["c", "b", "a"]);
}

#[test]
fn nodes_match_by_id() {
    let g = make_graph(&[("node1", "Alpha"), ("node2", "Beta")], &[]);
    let args = NodesArgs {
        included: vec!["node1".to_string()],
        key: MatchKey::Id,
        ..Default::default()
    };
    let result = nodes(&g, &args).unwrap();
    assert_eq!(ids(&result), vec!["node1"]);
}
