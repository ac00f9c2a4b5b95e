use csvizmo_depgraph::parse::tgf::parse;

#[test]
fn tgf_empty_input() {
    let graph = parse("").unwrap();
    assert!(graph.nodes.is_empty());
    assert!(graph.edges.is_empty());
}

#[test]
fn just_separator() {
    let graph = parse("#\n").unwrap();
    assert!(graph.nodes.is_empty());
    assert!(graph.edges.is_empty());
}

#[test]
fn nodes_with_labels() {
    let graph = parse("1 libfoo\n2 libbar\n#\n").unwrap();
    assert_eq!(graph.nodes.len(), 2);
    assert_eq!(graph.nodes["1"].label, "libfoo");
    assert_eq!(graph.nodes["2"].label, "libbar");
}

#[test]
fn nodes_without_labels() {
    // A node without label text is labelled with its own id.
    let graph = parse("a\nb\n#\n").unwrap();
    assert_eq!(graph.nodes.len(), 2);
    assert_eq!(graph.nodes["a"].label, "a");
    assert_eq!(graph.nodes["b"].label, "b");
}

#[test]
fn edges_with_labels() {
    let graph = parse("a\nb\n#\na b depends on\n").unwrap();
    assert_eq!(graph.edges.len(), 1);
    assert_eq!(graph.edges[0].from, "a");
    assert_eq!(graph.edges[0].to, "b");
    assert_eq!(graph.edges[0].label.as_deref(), Some("depends on"));
}

#[test]
fn edges_without_labels() {
    let graph = parse("a\nb\n#\na b\n").unwrap();
    assert_eq!(graph.edges.len(), 1);
    assert_eq!(graph.edges[0].from, "a");
    assert_eq!(graph.edges[0].to, "b");
    assert_eq!(graph.edges[0].label, None);
}

#[test]
fn tab_separated() {
    let graph = parse("1\tlibfoo\n2\tlibbar\n#\n1\t2\tdepends on\n").unwrap();
    assert_eq!(graph.nodes["1"].label, "libfoo");
    assert_eq!(graph.edges[0].label.as_deref(), Some("depends on"));
}

#[test]
fn multiple_whitespace() {
    let graph = parse("1  libfoo\n2\t\tlibbar\n#\n1  2\n").unwrap();
    assert_eq!(graph.nodes["1"].label, "libfoo");
    assert_eq!(graph.nodes["2"].label, "libbar");
    assert_eq!(graph.edges[0].from, "1");
    assert_eq!(graph.edges[0].to, "2");
}

#[test]
fn tgf_blank_lines_ignored() {
    let graph = parse("\n1 libfoo\n\n2 libbar\n\n#\n\n1 2\n\n").unwrap();
    assert_eq!(graph.nodes.len(), 2);
    assert_eq!(graph.edges.len(), 1);
}

#[test]
fn preserves_node_order() {
    let graph = parse("c C\na A\nb B\n#\n").unwrap();
    let keys: Vec<&str> = graph.nodes.keys().map(|s| s.as_str()).collect();
    assert_eq!(keys, vec!["c", "a", "b"]);
}

#[test]
fn attrs_empty() {
    let graph = parse("1 libfoo\n#\n").unwrap();
    assert!(graph.nodes["1"].attrs.is_empty());
}

#[test]
fn tgf_invalid_edge_line() {
    let err = parse("a\n#\n  a  \n").unwrap_err();
    match err {
        csvizmo_depgraph::parse::ParseError::InvalidEdgeLine(line) => assert_eq!(line, "a"),
        other => panic!("unexpected error {other:?}"),
    }
}

#[test]
fn tgf_duplicate_node_keeps_position_and_takes_last_label() {
    let graph = parse("a first\nb\na second\n#\n").unwrap();
    let keys: Vec<&str> = graph.nodes.keys().map(|s| s.as_str()).collect();
    assert_eq!(keys, vec!["a", "b"]);
    assert_eq!(graph.nodes["a"].label, "second");
}

#[test]
fn tgf_crlf_lines() {
    let graph = parse("1 libfoo\r\n#\r\n1 1 self\r\n").unwrap();
    assert_eq!(graph.nodes["1"].label, "libfoo");
    assert_eq!(graph.edges[0].label.as_deref(), Some("self"));
}
