use csvizmo_depgraph::parse::mermaid::parse;
use csvizmo_depgraph::parse::ParseError;

#[test]
fn empty_flowchart() {
    let graph = parse("flowchart LR\n").unwrap();
    assert!(graph.nodes.is_empty());
    assert!(graph.edges.is_empty());
    assert_eq!(graph.attrs.get("direction").unwrap(), "LR");
}

#[test]
fn node_shapes() {
    // (( )) = doublecircle, { } = diamond, {{ }} = hexagon, [ ] = rectangle
    let input = "flowchart LR\n    A((dcircle))\n    B{diamond}\n    C{{hexagon}}\n    D[rectangle]\n    E([stadium])\n";
    let graph = parse(input).unwrap();

    assert_eq!(graph.nodes["A"].attrs.get("shape").unwrap(), "doublecircle");
    assert_eq!(graph.nodes["B"].attrs.get("shape").unwrap(), "diamond");
    assert_eq!(graph.nodes["C"].attrs.get("shape").unwrap(), "hexagon");
    // Rectangle is default -- no shape attr
    assert!(graph.nodes["D"].attrs.get("shape").is_none());
    assert_eq!(graph.nodes["E"].attrs.get("shape").unwrap(), "stadium");
}

#[test]
fn mermaid_edge_labels() {
    let input = "flowchart LR\n    A -->|uses| B\n    A --> C\n";
    let graph = parse(input).unwrap();

    assert_eq!(graph.edges[0].label.as_deref(), Some("uses"));
    assert_eq!(graph.edges[1].label, None);
}

#[test]
fn edge_styles() {
    let input = "flowchart LR\n    A --> B\n    A -.-> C\n    A ==> D\n";
    let graph = parse(input).unwrap();

    assert!(graph.edges[0].attrs.get("style").is_none());
    assert_eq!(graph.edges[1].attrs.get("style").unwrap(), "dotted");
    assert_eq!(graph.edges[2].attrs.get("style").unwrap(), "thick");
}

#[test]
fn direction_variants() {
    for (input_dir, expected) in [
        ("TD", "TD"),
        ("TB", "TD"), // TB and TD both map to TopDown
        ("LR", "LR"),
        ("RL", "RL"),
        ("BT", "BT"),
    ] {
        let input = format!("flowchart {input_dir}\n    A --> B\n");
        let graph = parse(&input).unwrap();
        assert_eq!(graph.attrs.get("direction").unwrap(), expected, "direction mismatch for {input_dir}");
    }
}

#[test]
fn mermaid_subgraph_nodes_move_out_of_top_level() {
    let input = "flowchart TD\n    subgraph backend [Back End]\n        api[API Server]\n        db\n    end\n    web --> api\n    api --> db\n";
    let graph = parse(input).unwrap();
    assert_eq!(graph.subgraphs.len(), 1);
    let sg = &graph.subgraphs[0];
    assert_eq!(sg.id.as_deref(), Some("backend"));
    assert_eq!(sg.attrs.get("label").map(|s| s.as_str()), Some("Back End"));
    assert_eq!(sg.nodes.len(), 2);
    assert_eq!(sg.nodes["api"].label, "API Server");
    assert!(graph.nodes.contains_key("web"));
    assert!(!graph.nodes.contains_key("api"));
    assert_eq!(graph.edges.len(), 2);
}

#[test]
fn mermaid_top_level_nodes_in_declaration_order() {
    let graph = parse("flowchart LR\n    zeta --> alpha\n    mid\n").unwrap();
    let ids: Vec<&str> = graph.nodes.keys().map(|k| k.as_str()).collect();
    assert_eq!(ids, vec!["zeta", "alpha", "mid"]);
}

#[test]
fn mermaid_rejects_non_mermaid_text() {
    assert!(matches!(parse("this is not a diagram"), Err(ParseError::InvalidMermaid(_))));
}
