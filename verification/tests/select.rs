use csvizmo_depgraph::algorithm::select::{select, SelectArgs};
use csvizmo_depgraph::algorithm::MatchKey;
use csvizmo_depgraph::graph::{DepGraph, Edge, NodeInfo};

fn make_graph(
    nodes: &[(&str, &str)],
    edges: &[(&str, &str)],
    subgraphs: Vec<DepGraph>,
) -> DepGraph {
    DepGraph {
        nodes: nodes
            .iter()
            .map(|(id, label)| (id.to_string(), NodeInfo::new(*label)))
            .collect(),
        edges: edges
            .iter()
            .map(|(from, to)| Edge {
                from: from.to_string(),
                to: to.to_string(),
                ..Default::default()
            })
            .collect(),
        subgraphs,
        ..Default::default()
    }
}

fn node_ids(graph: &DepGraph) -> Vec<&str> {
    graph.nodes.keys().map(|s| s.as_str()).collect()
}

fn edge_pairs(graph: &DepGraph) -> Vec<(&str, &str)> {
    graph
        .edges
        .iter()
        .map(|e| (e.from.as_str(), e.to.as_str()))
        .collect()
}

// -- inclusion pattern matching --

#[test]
fn single_glob_pattern() {
    // myapp -> libfoo -> libbar, myapp -> libbar
    let g = make_graph(
        &[
            ("libfoo", "libfoo"),
            ("libbar", "libbar"),
            ("myapp", "myapp"),
        ],
        &[
            ("myapp", "libfoo"),
            ("myapp", "libbar"),
            ("libfoo", "libbar"),
        ],
        vec![],
    );
    let args = SelectArgs::default().included("lib*");
    let result = select(&g, &args).unwrap();
    assert_eq!(node_ids(&result), vec!["libfoo", "libbar"]);
    assert_eq!(edge_pairs(&result), vec![("libfoo", "libbar")]);
}

#[test]
fn select_match_by_id() {
    let g = make_graph(&[("1", "libfoo"), ("2", "libbar")], &[("1", "2")], vec![]);
    let args = SelectArgs::default().included("1").key(MatchKey::Id);
    let result = select(&g, &args).unwrap();
    assert_eq!(node_ids(&result), vec!["1"]);
}

#[test]
fn match_by_label() {
    let g = make_graph(&[("1", "libfoo"), ("2", "libbar")], &[("1", "2")], vec![]);
    let args = SelectArgs::default().included("libbar");
    let result = select(&g, &args).unwrap();
    assert_eq!(node_ids(&result), vec!["2"]);
}

#[test]
fn select_multiple_patterns_or() {
    let g = make_graph(
        &[("a", "a"), ("b", "b"), ("c", "c")],
        &[("a", "b"), ("b", "c")],
        vec![],
    );
    let args = SelectArgs::default().included("a").included("c");
    let result = select(&g, &args).unwrap();
    assert_eq!(node_ids(&result), vec!["a", "c"]);
    assert!(edge_pairs(&result).is_empty());
}

#[test]
fn select_multiple_patterns_and() {
    let g = make_graph(
        &[
            ("libfoo-alpha", "libfoo-alpha"),
            ("libfoo-beta", "libfoo-beta"),
            ("libbar-alpha", "libbar-alpha"),
        ],
        &[],
        vec![],
    );
    let args = SelectArgs::default()
        .included("libfoo*")
        .included("*alpha")
        .and();
    let result = select(&g, &args).unwrap();
    assert_eq!(node_ids(&result), vec!["libfoo-alpha"]);
}

#[test]
fn no_match_produces_empty_graph() {
    let g = make_graph(&[("a", "a"), ("b", "b")], &[("a", "b")], vec![]);
    let args = SelectArgs::default().included("nonexistent");
    let result = select(&g, &args).unwrap();
    assert!(result.nodes.is_empty());
    assert!(result.edges.is_empty());
}

// -- traversal --

#[test]
fn with_deps() {
    // a -> b -> c, a -> c
    let g = make_graph(
        &[("a", "a"), ("b", "b"), ("c", "c")],
        &[("a", "b"), ("b", "c"), ("a", "c")],
        vec![],
    );
    let args = SelectArgs::default().included("a").deps();
    let result = select(&g, &args).unwrap();
    assert_eq!(node_ids(&result), vec!["a", "b", "c"]);
}

#[test]
fn with_rdeps() {
    // a -> b -> c
    let g = make_graph(
        &[("a", "a"), ("b", "b"), ("c", "c")],
        &[("a", "b"), ("b", "c")],
        vec![],
    );
    let args = SelectArgs::default().included("c").rdeps();
    let result = select(&g, &args).unwrap();
    assert_eq!(node_ids(&result), vec!["a", "b", "c"]);
}

#[test]
fn with_depth_limit() {
    // a -> b -> c -> d
    let g = make_graph(
        &[("a", "a"), ("b", "b"), ("c", "c"), ("d", "d")],
        &[("a", "b"), ("b", "c"), ("c", "d")],
        vec![],
    );
    let args = SelectArgs::default().included("a").deps().depth(1);
    let result = select(&g, &args).unwrap();
    assert_eq!(node_ids(&result), vec!["a", "b"]);
    assert_eq!(edge_pairs(&result), vec![("a", "b")]);
}

#[test]
fn with_deps_and_rdeps() {
    // a -> b -> c -> d: select b with both deps and rdeps
    let g = make_graph(
        &[("a", "a"), ("b", "b"), ("c", "c"), ("d", "d")],
        &[("a", "b"), ("b", "c"), ("c", "d")],
        vec![],
    );
    let args = SelectArgs::default().included("b").deps().rdeps();
    let result = select(&g, &args).unwrap();
    assert_eq!(node_ids(&result), vec!["a", "b", "c", "d"]);
    assert_eq!(
        edge_pairs(&result),
        vec![("a", "b"), ("b", "c"), ("c", "d")]
    );
}

#[test]
fn with_deps_and_rdeps_depth_limited() {
    // a -> b -> c -> d -> e: select c with both directions, depth 1
    let g = make_graph(
        &[("a", "a"), ("b", "b"), ("c", "c"), ("d", "d"), ("e", "e")],
        &[("a", "b"), ("b", "c"), ("c", "d"), ("d", "e")],
        vec![],
    );
    let args = SelectArgs::default().included("c").deps().rdeps().depth(1);
    let result = select(&g, &args).unwrap();
    assert_eq!(node_ids(&result), vec!["b", "c", "d"]);
    assert_eq!(edge_pairs(&result), vec![("b", "c"), ("c", "d")]);
}

#[test]
fn no_args_returns_full_graph() {
    let g = make_graph(
        &[("a", "a"), ("b", "b"), ("c", "c"), ("d", "d")],
        &[("a", "b"), ("b", "c"), ("c", "d")],
        vec![],
    );
    let args = SelectArgs::default();
    let result = select(&g, &args).unwrap();
    assert_eq!(node_ids(&result), vec!["a", "b", "c", "d"]);
    assert_eq!(
        edge_pairs(&result),
        vec![("a", "b"), ("b", "c"), ("c", "d")]
    );
}

#[test]
fn depth_without_pattern_seeds_from_roots() {
    // a -> b -> c -> d
    let g = make_graph(
        &[("a", "a"), ("b", "b"), ("c", "c"), ("d", "d")],
        &[("a", "b"), ("b", "c"), ("c", "d")],
        vec![],
    );
    let args = SelectArgs::default().depth(2);
    let result = select(&g, &args).unwrap();
    assert_eq!(node_ids(&result), vec!["a", "b", "c"]);
    assert_eq!(edge_pairs(&result), vec![("a", "b"), ("b", "c")]);
}

#[test]
fn depth_without_pattern_multiple_roots() {
    // a -> c, b -> c
    let g = make_graph(
        &[("a", "a"), ("b", "b"), ("c", "c")],
        &[("a", "c"), ("b", "c")],
        vec![],
    );
    let args = SelectArgs::default().depth(0);
    let result = select(&g, &args).unwrap();
    assert_eq!(node_ids(&result), vec!["a", "b"]);
}

// -- subgraphs --

#[test]
fn preserves_subgraph_structure() {
    // root: a -> b, subgraph: { c }, edge b -> c at root
    // select a with deps keeps all nodes and preserves subgraph
    let g = make_graph(
        &[("a", "a"), ("b", "b")],
        &[("a", "b"), ("b", "c")],
        vec![make_graph(&[("c", "c")], &[], vec![])],
    );
    let args = SelectArgs::default().included("a").deps();
    let result = select(&g, &args).unwrap();
    assert_eq!(node_ids(&result), vec!["a", "b"]);
    assert_eq!(result.subgraphs.len(), 1);
    assert_eq!(node_ids(&result.subgraphs[0]), vec!["c"]);
}

// -- exclude pattern matching --

#[test]
fn exclude_single_pattern() {
    // myapp -> libfoo -> libbar, myapp -> libbar
    let g = make_graph(
        &[
            ("libfoo", "libfoo"),
            ("libbar", "libbar"),
            ("myapp", "myapp"),
        ],
        &[
            ("myapp", "libfoo"),
            ("myapp", "libbar"),
            ("libfoo", "libbar"),
        ],
        vec![],
    );
    let args = SelectArgs::default().exclude("libfoo");
    let result = select(&g, &args).unwrap();
    assert_eq!(node_ids(&result), vec!["libbar", "myapp"]);
    assert_eq!(edge_pairs(&result), vec![("myapp", "libbar")]);
}

#[test]
fn exclude_multiple_patterns_or() {
    let g = make_graph(
        &[("a", "a"), ("b", "b"), ("c", "c")],
        &[("a", "b"), ("b", "c")],
        vec![],
    );
    let args = SelectArgs::default().exclude("a").exclude("b");
    let result = select(&g, &args).unwrap();
    assert_eq!(node_ids(&result), vec!["c"]);
    assert!(edge_pairs(&result).is_empty());
}

#[test]
fn exclude_no_match_returns_unchanged() {
    let g = make_graph(&[("a", "a"), ("b", "b")], &[("a", "b")], vec![]);
    let args = SelectArgs::default().exclude("nonexistent");
    let result = select(&g, &args).unwrap();
    assert_eq!(node_ids(&result), vec!["a", "b"]);
    assert_eq!(edge_pairs(&result), vec![("a", "b")]);
}

// -- exclude with preserve connectivity --

#[test]
fn select_preserve_connectivity_bypass() {
    // a -> b -> c: exclude b, get a -> c
    let g = make_graph(
        &[("a", "a"), ("b", "b"), ("c", "c")],
        &[("a", "b"), ("b", "c")],
        vec![],
    );
    let args = SelectArgs::default().exclude("b").preserve_connectivity();
    let result = select(&g, &args).unwrap();
    assert_eq!(node_ids(&result), vec!["a", "c"]);
    assert_eq!(edge_pairs(&result), vec![("a", "c")]);
}

#[test]
fn preserve_connectivity_chain() {
    // a -> b -> c -> d: exclude b and c, get a -> d
    let g = make_graph(
        &[("a", "a"), ("b", "b"), ("c", "c"), ("d", "d")],
        &[("a", "b"), ("b", "c"), ("c", "d")],
        vec![],
    );
    let args = SelectArgs::default()
        .exclude("b")
        .exclude("c")
        .preserve_connectivity();
    let result = select(&g, &args).unwrap();
    assert_eq!(node_ids(&result), vec!["a", "d"]);
    assert_eq!(edge_pairs(&result), vec![("a", "d")]);
}

#[test]
fn preserve_connectivity_diamond_through_excluded() {
    // a -> b -> d, a -> c -> d: exclude b and c, get single a -> d
    let g = make_graph(
        &[("a", "a"), ("b", "b"), ("c", "c"), ("d", "d")],
        &[("a", "b"), ("a", "c"), ("b", "d"), ("c", "d")],
        vec![],
    );
    let args = SelectArgs::default()
        .exclude("b")
        .exclude("c")
        .preserve_connectivity();
    let result = select(&g, &args).unwrap();
    assert_eq!(node_ids(&result), vec!["a", "d"]);
    assert_eq!(edge_pairs(&result), vec![("a", "d")]);
}

#[test]
fn select_preserve_connectivity_no_self_loops() {
    // a -> b -> a: exclude b, should not create a -> a
    let g = make_graph(&[("a", "a"), ("b", "b")], &[("a", "b"), ("b", "a")], vec![]);
    let args = SelectArgs::default().exclude("b").preserve_connectivity();
    let result = select(&g, &args).unwrap();
    assert_eq!(node_ids(&result), vec!["a"]);
    assert!(edge_pairs(&result).is_empty());
}

#[test]
fn select_preserve_connectivity_no_parallel_edges() {
    // a -> b -> c, a -> c: exclude b, should not duplicate a -> c
    let g = make_graph(
        &[("a", "a"), ("b", "b"), ("c", "c")],
        &[("a", "b"), ("b", "c"), ("a", "c")],
        vec![],
    );
    let args = SelectArgs::default().exclude("b").preserve_connectivity();
    let result = select(&g, &args).unwrap();
    assert_eq!(node_ids(&result), vec!["a", "c"]);
    assert_eq!(edge_pairs(&result), vec![("a", "c")]);
}

// -- exclude with subgraphs --

#[test]
fn exclude_preserves_subgraph_structure() {
    // root: a, subgraph: { b, c, b->c }, edge a->b at root
    // exclude a keeps b, c in subgraph with their edge
    let g = make_graph(
        &[("a", "a")],
        &[("a", "b")],
        vec![make_graph(&[("b", "b"), ("c", "c")], &[("b", "c")], vec![])],
    );
    let args = SelectArgs::default().exclude("a");
    let result = select(&g, &args).unwrap();
    assert!(result.nodes.is_empty());
    assert!(result.edges.is_empty());
    assert_eq!(result.subgraphs.len(), 1);
    assert_eq!(node_ids(&result.subgraphs[0]), vec!["b", "c"]);
    assert_eq!(edge_pairs(&result.subgraphs[0]), vec![("b", "c")]);
}

// -- preserve connectivity with subgraphs --

#[test]
fn preserve_connectivity_bypass_in_subgraph() {
    // subgraph { a -> b -> c }: exclude b, bypass a -> c should be in the subgraph
    let g = make_graph(
        &[],
        &[],
        vec![make_graph(
            &[("a", "a"), ("b", "b"), ("c", "c")],
            &[("a", "b"), ("b", "c")],
            vec![],
        )],
    );
    let args = SelectArgs::default().exclude("b").preserve_connectivity();
    let result = select(&g, &args).unwrap();
    // bypass a -> c should be inside the subgraph, not at root
    assert!(result.edges.is_empty());
    assert_eq!(result.subgraphs.len(), 1);
    let sg = &result.subgraphs[0];
    assert_eq!(node_ids(sg), vec!["a", "c"]);
    assert_eq!(edge_pairs(sg), vec![("a", "c")]);
}

#[test]
fn preserve_connectivity_no_parallel_edges_in_subgraph() {
    // subgraph { a -> b -> c, a -> c }: exclude b, should not duplicate a -> c
    let g = make_graph(
        &[],
        &[],
        vec![make_graph(
            &[("a", "a"), ("b", "b"), ("c", "c")],
            &[("a", "b"), ("b", "c"), ("a", "c")],
            vec![],
        )],
    );
    let args = SelectArgs::default().exclude("b").preserve_connectivity();
    let result = select(&g, &args).unwrap();
    assert!(result.edges.is_empty());
    assert_eq!(result.subgraphs.len(), 1);
    let sg = &result.subgraphs[0];
    assert_eq!(node_ids(sg), vec!["a", "c"]);
    assert_eq!(edge_pairs(sg), vec![("a", "c")]);
}

#[test]
fn preserve_connectivity_cross_subgraph_bypass_at_root() {
    // subgraph1 { a }, subgraph2 { c }, root: b, edges a->b, b->c at root
    // exclude b, bypass a->c should be at root
    let g = make_graph(
        &[("b", "b")],
        &[("a", "b"), ("b", "c")],
        vec![
            make_graph(&[("a", "a")], &[], vec![]),
            make_graph(&[("c", "c")], &[], vec![]),
        ],
    );
    let args = SelectArgs::default().exclude("b").preserve_connectivity();
    let result = select(&g, &args).unwrap();
    assert!(result.nodes.is_empty());
    assert_eq!(edge_pairs(&result), vec![("a", "c")]);
    assert_eq!(result.subgraphs.len(), 2);
}

// -- combined inclusion + exclusion --

#[test]
fn include_with_exclude() {
    // a -> b -> c -> d: select a with deps, then exclude c
    let g = make_graph(
        &[("a", "a"), ("b", "b"), ("c", "c"), ("d", "d")],
        &[("a", "b"), ("b", "c"), ("c", "d")],
        vec![],
    );
    let args = SelectArgs::default().included("a").deps().exclude("c");
    let result = select(&g, &args).unwrap();
    assert_eq!(node_ids(&result), vec!["a", "b", "d"]);
    assert_eq!(edge_pairs(&result), vec![("a", "b")]);
}

#[test]
fn include_with_exclude_preserve_connectivity() {
    // a -> b -> c -> d: select a with deps, exclude c with preserve connectivity
    let g = make_graph(
        &[("a", "a"), ("b", "b"), ("c", "c"), ("d", "d")],
        &[("a", "b"), ("b", "c"), ("c", "d")],
        vec![],
    );
    let args = SelectArgs::default()
        .included("a")
        .deps()
        .exclude("c")
        .preserve_connectivity();
    let result = select(&g, &args).unwrap();
    assert_eq!(node_ids(&result), vec!["a", "b", "d"]);
    assert_eq!(edge_pairs(&result), vec![("a", "b"), ("b", "d")]);
}
