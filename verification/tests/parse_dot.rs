use csvizmo_depgraph::emit::dot::emit;
use dot_parser::{ast, canonical};
use csvizmo_depgraph::parse::dot::parse;
use csvizmo_depgraph::parse::ParseError;

#[test]
fn empty_digraph() {
    let graph = parse("digraph {}").unwrap();
    assert!(graph.nodes.is_empty());
    assert!(graph.edges.is_empty());
}

#[test]
fn named_digraph() {
    let graph = parse("digraph deps {}").unwrap();
    assert!(graph.nodes.is_empty());
    assert!(graph.edges.is_empty());
}

#[test]
fn simple_edge() {
    let graph = parse("digraph { a -> b; }").unwrap();
    assert_eq!(graph.nodes.len(), 2);
    assert!(graph.nodes.contains_key("a"));
    assert!(graph.nodes.contains_key("b"));
    assert_eq!(graph.edges.len(), 1);
    assert_eq!(graph.edges[0].from, "a");
    assert_eq!(graph.edges[0].to, "b");
    assert_eq!(graph.edges[0].label, None);
}

#[test]
fn node_labels() {
    let graph = parse(r#"digraph { a [label="Alpha"]; b [label="Bravo"]; a -> b; }"#).unwrap();
    assert_eq!(graph.nodes["a"].label, "Alpha");
    assert_eq!(graph.nodes["b"].label, "Bravo");
}

#[test]
fn dot_edge_labels() {
    let graph = parse(r#"digraph { a -> b [label="depends"]; a -> c [label="uses"]; }"#).unwrap();
    assert_eq!(graph.edges.len(), 2);
    assert_eq!(graph.edges[0].label.as_deref(), Some("depends"));
    assert_eq!(graph.edges[1].label.as_deref(), Some("uses"));
}

#[test]
fn type_attr_in_attrs() {
    let graph = parse(r#"digraph { a [type="lib"]; }"#).unwrap();
    assert_eq!(graph.nodes["a"].attrs.get("type").map(|s| s.as_str()), Some("lib"));
}

#[test]
fn shape_attr_in_attrs() {
    let graph = parse(r#"digraph { a [shape=box]; }"#).unwrap();
    assert_eq!(graph.nodes["a"].attrs.get("shape").map(|s| s.as_str()), Some("box"));
}

#[test]
fn type_and_shape_coexist_in_attrs() {
    let graph = parse(r#"digraph { a [shape=box, type="lib"]; }"#).unwrap();
    assert_eq!(graph.nodes["a"].attrs.get("type").map(|s| s.as_str()), Some("lib"));
    assert_eq!(graph.nodes["a"].attrs.get("shape").map(|s| s.as_str()), Some("box"));
}

#[test]
fn extra_attrs_preserved() {
    let graph = parse(r#"digraph { a [label="A", color="red", style="bold"]; }"#).unwrap();
    assert_eq!(graph.nodes["a"].label, "A");
    assert_eq!(graph.nodes["a"].attrs.get("color").map(|s| s.as_str()), Some("red"));
    assert_eq!(graph.nodes["a"].attrs.get("style").map(|s| s.as_str()), Some("bold"));
}

#[test]
fn implicit_nodes_from_edges() {
    let graph = parse("digraph { a -> b -> c; }").unwrap();
    assert_eq!(graph.nodes.len(), 3);
    assert!(graph.nodes.contains_key("a"));
    assert!(graph.nodes.contains_key("b"));
    assert!(graph.nodes.contains_key("c"));
}

#[test]
fn graph_attrs_captured() {
    let graph = parse(r#"digraph { rankdir=LR; a -> b; }"#).unwrap();
    assert_eq!(graph.edges.len(), 1);
    assert_eq!(graph.attrs.get("rankdir").map(|s| s.as_str()), Some("LR"));
}

#[test]
fn graph_name_captured() {
    let graph = parse("digraph deps { a -> b; }").unwrap();
    assert_eq!(graph.id.as_deref(), Some("deps"));
}

#[test]
fn quoted_ids() {
    let graph = parse(r#"digraph { "my node" [label="My Node"]; "my node" -> "other"; }"#).unwrap();
    assert!(graph.nodes.contains_key("my node"));
    assert_eq!(graph.nodes["my node"].label, "My Node");
}

#[test]
fn edge_attrs_captured() {
    let graph = parse(r#"digraph { a -> b [style="dashed", color="red"]; }"#).unwrap();
    assert_eq!(graph.edges.len(), 1);
    assert_eq!(graph.edges[0].attrs.get("style").map(|s| s.as_str()), Some("dashed"));
    assert_eq!(graph.edges[0].attrs.get("color").map(|s| s.as_str()), Some("red"));
}

#[test]
fn edge_label_and_attrs() {
    let graph = parse(r#"digraph { a -> b [label="uses", style="bold"]; }"#).unwrap();
    assert_eq!(graph.edges[0].label.as_deref(), Some("uses"));
    assert_eq!(graph.edges[0].attrs.get("style").map(|s| s.as_str()), Some("bold"));
}

#[test]
fn escaped_quotes_in_label() {
    let graph = parse(r#"digraph { a [label="say \"hi\""]; }"#).unwrap();
    assert_eq!(graph.nodes["a"].label, r#"say "hi""#);
}

#[test]
fn escaped_quotes_in_label_roundtrip() {
    let input = r#"digraph { a [label="say \"hi\""]; }"#;
    let graph = parse(input).unwrap();
    let output = emit(&graph);
    assert_eq!(output, "digraph {\n    a [label=\"say \\\"hi\\\"\"];\n}\n");
    let graph2 = parse(&output).unwrap();
    assert_eq!(graph2.nodes["a"].label, r#"say "hi""#);
}

#[test]
fn subgraph_basic() {
    let graph = parse(
        r#"digraph {
            top;
            subgraph cluster0 {
                label = "Group A";
                a;
                b;
            }
        }"#,
    )
    .unwrap();
    assert_eq!(graph.nodes.len(), 1);
    assert!(graph.nodes.contains_key("top"));
    assert_eq!(graph.subgraphs.len(), 1);
    assert_eq!(graph.subgraphs[0].id.as_deref(), Some("cluster0"));
    assert_eq!(graph.subgraphs[0].attrs.get("label").map(|s| s.as_str()), Some("Group A"));
    assert_eq!(graph.subgraphs[0].nodes.len(), 2);
    assert!(graph.subgraphs[0].nodes.contains_key("a"));
    assert!(graph.subgraphs[0].nodes.contains_key("b"));
}

#[test]
fn subgraph_nested() {
    let graph = parse(
        r#"digraph {
            subgraph outer {
                x;
                subgraph inner {
                    y;
                }
            }
        }"#,
    )
    .unwrap();
    assert_eq!(graph.subgraphs.len(), 1);
    let outer = &graph.subgraphs[0];
    assert_eq!(outer.id.as_deref(), Some("outer"));
    assert_eq!(outer.nodes.len(), 1);
    assert!(outer.nodes.contains_key("x"));
    assert_eq!(outer.subgraphs.len(), 1);
    let inner = &outer.subgraphs[0];
    assert_eq!(inner.id.as_deref(), Some("inner"));
    assert_eq!(inner.nodes.len(), 1);
    assert!(inner.nodes.contains_key("y"));
}

#[test]
fn subgraph_edges_stay_local() {
    let graph = parse(
        r#"digraph {
            a -> b;
            subgraph cluster0 {
                c -> d;
            }
        }"#,
    )
    .unwrap();
    assert_eq!(graph.edges.len(), 1);
    assert_eq!(graph.edges[0].from, "a");
    assert_eq!(graph.edges[0].to, "b");
    assert_eq!(graph.subgraphs[0].edges.len(), 1);
    assert_eq!(graph.subgraphs[0].edges[0].from, "c");
    assert_eq!(graph.subgraphs[0].edges[0].to, "d");
}

#[test]
fn cross_subgraph_edge_no_duplicate_node() {
    let graph = parse(
        r#"digraph {
            a -> b;
            subgraph cluster0 {
                b [label="B"];
            }
        }"#,
    )
    .unwrap();
    assert_eq!(graph.nodes.len(), 1);
    assert!(graph.nodes.contains_key("a"));
    assert!(!graph.nodes.contains_key("b"));
    assert_eq!(graph.subgraphs[0].nodes.len(), 1);
    assert_eq!(graph.subgraphs[0].nodes["b"].label, "B");
    let all = graph.all_nodes();
    assert_eq!(all.len(), 2);
    assert!(all.contains_key("a"));
    assert!(all.contains_key("b"));
}

#[test]
fn cross_subgraph_edge_forward_reference() {
    let graph = parse(
        r#"digraph {
            subgraph cluster0 {
                a [label="A"];
            }
            a -> b;
        }"#,
    )
    .unwrap();
    assert_eq!(graph.nodes.len(), 1);
    assert!(graph.nodes.contains_key("b"));
    assert!(!graph.nodes.contains_key("a"));
    assert_eq!(graph.subgraphs[0].nodes["a"].label, "A");
}

#[test]
fn cross_subgraph_edge_nested_dedup() {
    let graph = parse(
        r#"digraph {
            a -> b;
            subgraph outer {
                b -> c;
                subgraph inner {
                    b [label="B"];
                    c [label="C"];
                }
            }
        }"#,
    )
    .unwrap();
    assert_eq!(graph.nodes.len(), 1);
    assert!(graph.nodes.contains_key("a"));
    assert_eq!(graph.subgraphs[0].nodes.len(), 0);
    let inner = &graph.subgraphs[0].subgraphs[0];
    assert_eq!(inner.nodes.len(), 2);
    assert_eq!(inner.nodes["b"].label, "B");
    assert_eq!(inner.nodes["c"].label, "C");
    let all = graph.all_nodes();
    assert_eq!(all.len(), 3);
}

#[test]
fn explicit_top_level_node_not_deduped() {
    let graph = parse(
        r#"digraph {
            a [color="red"];
            subgraph cluster0 {
                a [label="A"];
            }
        }"#,
    )
    .unwrap();
    assert_eq!(graph.nodes.len(), 1);
    assert!(graph.nodes.contains_key("a"));
    assert_eq!(graph.nodes["a"].attrs.get("color").map(|s| s.as_str()), Some("red"));
    assert_eq!(graph.subgraphs[0].nodes.len(), 1);
    assert_eq!(graph.subgraphs[0].nodes["a"].label, "A");
}

#[test]
fn all_nodes_flattens() {
    let graph = parse(
        r#"digraph {
            a;
            subgraph s1 {
                b;
                subgraph s2 {
                    c;
                }
            }
        }"#,
    )
    .unwrap();
    let all = graph.all_nodes();
    assert_eq!(all.len(), 3);
    assert!(all.contains_key("a"));
    assert!(all.contains_key("b"));
    assert!(all.contains_key("c"));
}

#[test]
fn all_edges_flattens() {
    let graph = parse(
        r#"digraph {
            a -> b;
            subgraph s1 {
                c -> d;
            }
        }"#,
    )
    .unwrap();
    let all = graph.all_edges();
    assert_eq!(all.len(), 2);
    assert_eq!(all[0].from, "a");
    assert_eq!(all[0].to, "b");
    assert_eq!(all[1].from, "c");
    assert_eq!(all[1].to, "d");
}

#[test]
fn adjacency_list_across_subgraphs() {
    let graph = parse(
        r#"digraph {
            a -> b;
            subgraph s1 {
                b -> c;
                c -> d;
            }
        }"#,
    )
    .unwrap();
    let adj = graph.adjacency_list();
    let targets = |k: &str| adj.get(k).map(|v| v.iter().map(|s| s.as_str()).collect::<Vec<_>>());
    assert_eq!(targets("a"), Some(vec!["b"]));
    assert_eq!(targets("b"), Some(vec!["c"]));
    assert_eq!(targets("c"), Some(vec!["d"]));
}

#[test]
fn dot_nodes_sorted_by_id() {
    let graph = parse("digraph { zeta; beta -> alpha; }").unwrap();
    let ids: Vec<&str> = graph.nodes.keys().map(|k| k.as_str()).collect();
    assert_eq!(ids, vec!["alpha", "beta", "zeta"]);
}

#[test]
fn dot_chain_through_anonymous_subgraph() {
    let graph = parse("digraph { a -> { b c } -> d; }").unwrap();
    let pairs: Vec<(String, String)> =
        graph.edges.iter().map(|e| (e.from.clone(), e.to.clone())).collect();
    let want: Vec<(String, String)> = [("a", "b"), ("a", "c"), ("b", "d"), ("c", "d")]
        .iter()
        .map(|(f, t)| (f.to_string(), t.to_string()))
        .collect();
    assert_eq!(pairs, want);
    assert_eq!(graph.nodes.len(), 4);
}

#[test]
fn dot_redeclared_node_takes_last_declaration() {
    let graph = parse(r#"digraph { a [label="One"]; b; a [color=red]; }"#).unwrap();
    assert_eq!(graph.nodes["a"].label, "a");
    assert_eq!(graph.nodes["a"].attrs.get("color").map(|s| s.as_str()), Some("red"));
    assert_eq!(graph.nodes.len(), 2);
}

#[test]
fn dot_default_attr_statements_ignored() {
    let graph = parse(r#"digraph { node [shape=box]; edge [style=invis]; graph [rankdir=LR]; a; }"#).unwrap();
    assert!(graph.nodes["a"].attrs.is_empty());
    assert_eq!(graph.attrs.get("rankdir").map(|s| s.as_str()), Some("LR"));
    assert_eq!(graph.attrs.len(), 1);
}

#[test]
fn dot_syntax_error_is_reported() {
    let r = parse("digraph { a -> ; ");
    assert!(matches!(r, Err(ParseError::InvalidDot(_))));
    assert!(parse("not a graph").is_err());
}

#[test]
fn dot_parser_behavior() {
    let ast = ast::Graph::try_from(r#"digraph { a [label="My Label"]; "quoted node" -> a; }"#)
        .unwrap();
    let graph = canonical::Graph::from(ast);

    // Attribute value: parser strips outer quotes, gives bare text.
    let (_, node_a) = graph.nodes.set.iter().find(|(id, _)| *id == "a").unwrap();
    let (_, val) = &node_a.attr.elems[0];
    let val_str: String = val.clone().into();
    assert_eq!(val_str, "My Label");

    // Node ID: parser preserves outer quotes on quoted identifiers.
    assert!(graph.nodes.set.contains_key("\"quoted node\""));
    assert!(!graph.nodes.set.contains_key("quoted node"));

    // Edge endpoint: quotes also preserved.
    assert_eq!(graph.edges.set[0].from, "\"quoted node\"");
}

#[test]
fn dot_parser_preserves_escape_sequences() {
    let ast =
        ast::Graph::try_from(r#"digraph { a [label="say \"hi\"", tooltip="path\\here"]; }"#)
            .unwrap();
    let graph = canonical::Graph::from(ast);

    let (_, node) = graph.nodes.set.iter().find(|(id, _)| *id == "a").unwrap();
    let vals: Vec<(String, String)> = node
        .attr
        .elems
        .iter()
        .map(|(k, v)| {
            let k: String = k.clone().into();
            let v: String = v.clone().into();
            (k, v)
        })
        .collect();

    // Escaped quotes: parser gives us the raw escape sequence, NOT unescaped.
    let label_val = &vals.iter().find(|(k, _)| k == "label").unwrap().1;
    assert_eq!(
        label_val, r#"say \"hi\""#,
        "dot-parser preserves \\\" as-is (does not unescape)"
    );

    // Escaped backslash: parser gives us the raw escape sequence.
    let tooltip_val = &vals.iter().find(|(k, _)| k == "tooltip").unwrap().1;
    assert_eq!(
        tooltip_val, r"path\\here",
        "dot-parser preserves \\\\ as-is (does not unescape)"
    );
}
