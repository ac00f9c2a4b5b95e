use csvizmo_depgraph::algorithm::sub::{sub, SubKey, Substitution, SubstitutionError};
use csvizmo_depgraph::graph::{DepGraph, Edge, NodeInfo};

fn make_graph(nodes: &[(&str, &str)], edges: &[(&str, &str)], subgraphs: Vec<DepGraph>) -> DepGraph {
    DepGraph {
        nodes: nodes.iter().map(|(id, label)| (id.to_string(), NodeInfo::new(label))).collect(),
        edges: edges
            .iter()
            .map(|(from, to)| Edge { from: from.to_string(), to: to.to_string(), ..Default::default() })
            .collect(),
        subgraphs,
        ..Default::default()
    }
}

fn node_ids(graph: &DepGraph) -> Vec<&str> {
    graph.nodes.keys().map(|s| s.as_str()).collect()
}

fn edge_pairs(graph: &DepGraph) -> Vec<(&str, &str)> {
    graph.edges.iter().map(|e| (e.from.as_str(), e.to.as_str())).collect()
}

// -- Substitution parsing --

#[test]
fn parse_basic() {
    let s = Substitution::parse("s/foo/bar/").unwrap();
    assert_eq!(s.apply("foobar"), "barbar");
}

#[test]
fn parse_alternate_delimiter() {
    let s = Substitution::parse("s|foo|bar|").unwrap();
    assert_eq!(s.apply("foo"), "bar");
}

#[test]
fn parse_no_trailing_delimiter() {
    let s = Substitution::parse("s/foo/bar").unwrap();
    assert_eq!(s.apply("foo"), "bar");
}

#[test]
fn parse_capture_groups() {
    let s = Substitution::parse("s/([^.]+)\\..*/$1/").unwrap();
    assert_eq!(s.apply("acl-native.do_compile"), "acl-native");
}

#[test]
fn parse_empty_replacement() {
    let s = Substitution::parse("s/\\.do_.*//").unwrap();
    assert_eq!(s.apply("acl-native.do_compile"), "acl-native");
}

#[test]
fn parse_escaped_delimiter_in_replacement() {
    // s/a/b\/c/ -- replacement should be b/c, not b\/c
    let s = Substitution::parse("s/a/b\\/c/").unwrap();
    assert_eq!(s.apply("a"), "b/c");
}

#[test]
fn parse_escaped_alt_delimiter_in_replacement() {
    // s|a|b\|c| -- replacement should be b|c
    let s = Substitution::parse("s|a|b\\|c|").unwrap();
    assert_eq!(s.apply("a"), "b|c");
}

#[test]
fn parse_non_delimiter_backslash_preserved_in_replacement() {
    // s/a/b\\nc/ -- \n is not the delimiter, so kept as literal \n
    let s = Substitution::parse("s/a/b\\nc/").unwrap();
    assert_eq!(s.apply("a"), "b\\nc");
}

#[test]
fn parse_invalid_no_s() {
    assert!(Substitution::parse("foo").is_err());
}

// -- SubKey parsing --





// -- sub with id key --

#[test]
fn sub_sub_id_no_collision() {
    let g = make_graph(
        &[("a.do_compile", "A"), ("b.do_build", "B")],
        &[("a.do_compile", "b.do_build")],
        vec![],
    );
    let s = Substitution::parse("s/\\.do_.*//").unwrap();
    let result = sub(&g, &s, &SubKey::Id);
    assert_eq!(node_ids(&result), vec!["a", "b"]);
    assert_eq!(edge_pairs(&result), vec![("a", "b")]);
}

#[test]
fn sub_id_merges_nodes() {
    let g = make_graph(
        &[("a.do_compile", "A"), ("a.do_build", "B")],
        &[("a.do_compile", "a.do_build")],
        vec![],
    );
    let s = Substitution::parse("s/\\.do_.*//").unwrap();
    let result = sub(&g, &s, &SubKey::Id);
    // Both map to "a", merged into one node
    assert_eq!(node_ids(&result), vec!["a"]);
    // Self-loop removed
    assert!(result.edges.is_empty());
    // First node's label wins
    assert_eq!(result.nodes["a"].label, "A");
}

#[test]
fn sub_sub_id_deduplicates_edges() {
    // a.x -> b, a.y -> b: both map to a -> b, should deduplicate
    let g = make_graph(
        &[("a.x", "A"), ("a.y", "A"), ("b", "B")],
        &[("a.x", "b"), ("a.y", "b")],
        vec![],
    );
    let s = Substitution::parse("s/\\..*//").unwrap();
    let result = sub(&g, &s, &SubKey::Id);
    assert_eq!(node_ids(&result), vec!["a", "b"]);
    assert_eq!(edge_pairs(&result), vec![("a", "b")]);
}

#[test]
fn sub_id_subgraph_first_wins() {
    // subgraph has a.x, root has a.y. Both map to "a".
    // Subgraph nodes are processed first in document order (root level first),
    // but here a.y is at root and a.x is in subgraph.
    let sub_g = make_graph(&[("a.x", "SubA")], &[], vec![]);
    let g = make_graph(&[("a.y", "RootA")], &[], vec![sub_g]);
    let s = Substitution::parse("s/\\..*//").unwrap();
    let result = sub(&g, &s, &SubKey::Id);
    // Root level is processed first, so "a" appears at root
    assert_eq!(node_ids(&result), vec!["a"]);
    assert_eq!(result.nodes["a"].label, "RootA");
    // Subgraph should be empty and dropped
    assert!(result.subgraphs.is_empty());
}

#[test]
fn sub_id_drops_empty_subgraphs() {
    let sub_g = make_graph(&[("a.x", "A")], &[], vec![]);
    let g = make_graph(&[("a.y", "A")], &[], vec![sub_g]);
    let s = Substitution::parse("s/\\..*//").unwrap();
    let result = sub(&g, &s, &SubKey::Id);
    assert!(result.subgraphs.is_empty());
}

// -- sub removing nodes (empty ID) --

#[test]
fn sub_id_removes_empty() {
    // b matches the pattern and maps to ""; it should be removed along with its edges.
    let g = make_graph(
        &[("a", "A"), ("b.remove", "B"), ("c", "C")],
        &[("a", "b.remove"), ("b.remove", "c"), ("a", "c")],
        vec![],
    );
    let s = Substitution::parse("s/^b\\..*//").unwrap();
    let result = sub(&g, &s, &SubKey::Id);
    assert_eq!(node_ids(&result), vec!["a", "c"]);
    assert_eq!(edge_pairs(&result), vec![("a", "c")]);
}

#[test]
fn sub_id_removes_all_empty() {
    // All nodes map to "" -- result should be completely empty.
    let g = make_graph(&[("a", "A"), ("b", "B")], &[("a", "b")], vec![]);
    let s = Substitution::parse("s/.*//").unwrap();
    let result = sub(&g, &s, &SubKey::Id);
    assert!(result.nodes.is_empty());
    assert!(result.edges.is_empty());
}

// -- sub with node key --

#[test]
fn sub_sub_node_label() {
    let g = make_graph(&[("a", "hello world"), ("b", "goodbye world")], &[], vec![]);
    let s = Substitution::parse("s/world/earth/").unwrap();
    let result = sub(&g, &s, &SubKey::Node("label".to_string()));
    assert_eq!(result.nodes["a"].label, "hello earth");
    assert_eq!(result.nodes["b"].label, "goodbye earth");
}

#[test]
fn sub_node_attr() {
    let mut g = make_graph(&[("a", "A")], &[], vec![]);
    g.nodes
        .get_mut("a")
        .unwrap()
        .attrs
        .insert("color".to_string(), "red".to_string());
    let s = Substitution::parse("s/red/blue/").unwrap();
    let result = sub(&g, &s, &SubKey::Node("color".to_string()));
    assert_eq!(result.nodes["a"].attrs["color"], "blue");
}

#[test]
fn sub_node_label_resets_to_id_when_empty() {
    let g = make_graph(&[("a", "hello"), ("b", "goodbye")], &[], vec![]);
    let s = Substitution::parse("s/.*//").unwrap();
    let result = sub(&g, &s, &SubKey::Node("label".to_string()));
    assert_eq!(result.nodes["a"].label, "a");
    assert_eq!(result.nodes["b"].label, "b");
}

#[test]
fn sub_node_type_removes_empty() {
    let mut g = make_graph(&[("a", "A")], &[], vec![]);
    g.nodes.get_mut("a").unwrap().node_type = Some("lib".to_string());
    let s = Substitution::parse("s/.*//").unwrap();
    let result = sub(&g, &s, &SubKey::Node("node_type".to_string()));
    assert_eq!(result.nodes["a"].node_type, None);
}

#[test]
fn sub_node_attr_removes_empty() {
    let mut g = make_graph(&[("a", "A")], &[], vec![]);
    g.nodes
        .get_mut("a")
        .unwrap()
        .attrs
        .insert("color".to_string(), "red".to_string());
    let s = Substitution::parse("s/.*//").unwrap();
    let result = sub(&g, &s, &SubKey::Node("color".to_string()));
    assert!(!result.nodes["a"].attrs.contains_key("color"));
}

// -- sub with edge key --

#[test]
fn sub_edge_label() {
    let mut g = make_graph(&[("a", "A"), ("b", "B")], &[], vec![]);
    g.edges.push(Edge {
        from: "a".to_string(),
        to: "b".to_string(),
        label: Some("depends_on".to_string()),
        ..Default::default()
    });
    let s = Substitution::parse("s/depends_on/uses/").unwrap();
    let result = sub(&g, &s, &SubKey::Edge("label".to_string()));
    assert_eq!(result.edges[0].label.as_deref(), Some("uses"));
}

#[test]
fn sub_edge_label_removes_empty() {
    let mut g = make_graph(&[("a", "A"), ("b", "B")], &[], vec![]);
    g.edges.push(Edge {
        from: "a".to_string(),
        to: "b".to_string(),
        label: Some("depends_on".to_string()),
        ..Default::default()
    });
    let s = Substitution::parse("s/.*//").unwrap();
    let result = sub(&g, &s, &SubKey::Edge("label".to_string()));
    assert_eq!(result.edges[0].label, None);
}

#[test]
fn sub_edge_attr_removes_empty() {
    let mut g = make_graph(&[("a", "A"), ("b", "B")], &[], vec![]);
    let mut edge = Edge {
        from: "a".to_string(),
        to: "b".to_string(),
        ..Default::default()
    };
    edge.attrs.insert("style".to_string(), "dashed".to_string());
    g.edges.push(edge);
    let s = Substitution::parse("s/.*//").unwrap();
    let result = sub(&g, &s, &SubKey::Edge("style".to_string()));
    assert!(!result.edges[0].attrs.contains_key("style"));
}

#[test]
fn parse_errors_by_kind() {
    assert!(matches!(Substitution::parse(""), Err(SubstitutionError::MissingS)));
    assert!(matches!(Substitution::parse("s/a"), Err(SubstitutionError::TooShort)));
    assert!(matches!(Substitution::parse("s/abc"), Err(SubstitutionError::MissingDelimiter)));
    assert!(matches!(Substitution::parse("s/(/x/"), Err(SubstitutionError::InvalidRegex(_))));
    assert!(matches!(Substitution::parse("s\u{e9}a\u{e9}b\u{e9}"), Err(SubstitutionError::NonAsciiDelimiter)));
}

#[test]
fn parse_escaped_delimiter_in_pattern() {
    let s = Substitution::parse("s/a\\/b/X/").unwrap();
    assert_eq!(s.apply("a/b a/b"), "X X");
}

#[test]
fn sub_id_keeps_undeclared_edge_endpoints() {
    let g = make_graph(&[("a.x", "A")], &[("a.x", "ext.y")], vec![]);
    let s = Substitution::parse("s/\\..*//").unwrap();
    let result = sub(&g, &s, &SubKey::Id);
    assert_eq!(node_ids(&result), vec!["a"]);
    assert_eq!(edge_pairs(&result), vec![("a", "ext.y")]);
}

#[test]
fn sub_id_merge_fills_type_and_missing_attrs() {
    let mut g = make_graph(&[("a.x", "First"), ("a.y", "Second")], &[], vec![]);
    g.nodes.get_mut("a.x").unwrap().attrs.insert("color".to_string(), "red".to_string());
    g.nodes.get_mut("a.y").unwrap().node_type = Some("lib".to_string());
    g.nodes.get_mut("a.y").unwrap().attrs.insert("color".to_string(), "blue".to_string());
    g.nodes.get_mut("a.y").unwrap().attrs.insert("shape".to_string(), "box".to_string());
    let s = Substitution::parse("s/\\..*//").unwrap();
    let result = sub(&g, &s, &SubKey::Id);
    let a = &result.nodes["a"];
    assert_eq!(a.label, "First");
    assert_eq!(a.node_type.as_deref(), Some("lib"));
    assert_eq!(a.attrs["color"], "red");
    assert_eq!(a.attrs["shape"], "box");
}

#[test]
fn sub_edge_attr_replaced_in_subgraph() {
    let mut inner = make_graph(&[("c", "C"), ("d", "D")], &[], vec![]);
    let mut edge = Edge { from: "c".to_string(), to: "d".to_string(), ..Default::default() };
    edge.attrs.insert("style".to_string(), "dashed".to_string());
    inner.edges.push(edge);
    let g = make_graph(&[("a", "A")], &[], vec![inner]);
    let s = Substitution::parse("s/dash/dott/").unwrap();
    let result = sub(&g, &s, &SubKey::Edge("style".to_string()));
    assert_eq!(result.subgraphs[0].edges[0].attrs["style"], "dotted");
}
