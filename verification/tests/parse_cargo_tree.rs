use csvizmo_depgraph::parse::cargo_tree::{parse, parse_line, parse_node_text, split_name_version};

fn pl(s: &str) -> Option<(usize, String)> {
    parse_line(s)
}

#[test]
fn cargo_tree_empty_input() {
    let graph = parse("").unwrap();
    assert!(graph.nodes.is_empty());
    assert!(graph.edges.is_empty());
}

#[test]
fn cargo_tree_root_only() {
    let graph = parse("myapp v1.0.0\n").unwrap();
    assert_eq!(graph.nodes.len(), 1);
    let node = &graph.nodes["myapp v1.0.0"];
    assert_eq!(node.label, "myapp");
    assert_eq!(node.attrs.get("version").map(|s| s.as_str()), Some("v1.0.0"));
    assert!(graph.edges.is_empty());
}

#[test]
fn simple_tree() {
    let input = "\
myapp v1.0.0
├── libfoo v0.2.1
└── libbar v0.1.0
";
    let graph = parse(input).unwrap();
    assert_eq!(graph.nodes.len(), 3);
    assert!(graph.nodes.contains_key("myapp v1.0.0"));
    assert!(graph.nodes.contains_key("libfoo v0.2.1"));
    assert!(graph.nodes.contains_key("libbar v0.1.0"));
    assert_eq!(graph.edges.len(), 2);
    assert_eq!(graph.edges[0].from, "myapp v1.0.0");
    assert_eq!(graph.edges[0].to, "libfoo v0.2.1");
    assert_eq!(graph.edges[1].from, "myapp v1.0.0");
    assert_eq!(graph.edges[1].to, "libbar v0.1.0");
}

#[test]
fn nested_tree() {
    let input = "\
myapp v1.0.0
├── libfoo v0.2.1
│   └── libbar v0.1.0
└── libbaz v0.3.0
";
    let graph = parse(input).unwrap();
    assert_eq!(graph.nodes.len(), 4);
    assert_eq!(graph.edges.len(), 3);
    assert_eq!(graph.edges[0].from, "myapp v1.0.0");
    assert_eq!(graph.edges[0].to, "libfoo v0.2.1");
    assert_eq!(graph.edges[1].from, "libfoo v0.2.1");
    assert_eq!(graph.edges[1].to, "libbar v0.1.0");
    assert_eq!(graph.edges[2].from, "myapp v1.0.0");
    assert_eq!(graph.edges[2].to, "libbaz v0.3.0");
}

#[test]
fn duplicate_star_marker() {
    let input = "\
myapp v1.0.0
├── libfoo v0.2.1
│   └── shared v1.0.0
└── libbar v0.1.0
    └── shared v1.0.0 (*)
";
    let graph = parse(input).unwrap();
    assert_eq!(graph.nodes.len(), 4);
    assert!(graph.nodes.contains_key("shared v1.0.0"));
    let shared_edges: Vec<_> = graph.edges.iter().filter(|e| e.to == "shared v1.0.0").collect();
    assert_eq!(shared_edges.len(), 2);
    assert_eq!(shared_edges[0].from, "libfoo v0.2.1");
    assert_eq!(shared_edges[1].from, "libbar v0.1.0");
}

#[test]
fn repeated_leaf_no_star() {
    let input = "\
myapp v1.0.0
├── libfoo v0.2.1
│   └── leaf v1.0.0
└── libbar v0.1.0
    └── leaf v1.0.0
";
    let graph = parse(input).unwrap();
    assert_eq!(graph.nodes.len(), 4);
    let leaf_edges: Vec<_> = graph.edges.iter().filter(|e| e.to == "leaf v1.0.0").collect();
    assert_eq!(leaf_edges.len(), 2);
}

#[test]
fn proc_macro_kind() {
    let input = "\
myapp v1.0.0
└── derive-thing v0.5.0 (proc-macro)
";
    let graph = parse(input).unwrap();
    assert_eq!(graph.nodes.len(), 2);
    let node = &graph.nodes["derive-thing v0.5.0"];
    assert_eq!(node.attrs.get("kind").map(|s| s.as_str()), Some("proc-macro"));
    assert_eq!(node.label, "derive-thing");
    assert_eq!(node.attrs.get("version").map(|s| s.as_str()), Some("v0.5.0"));
}

#[test]
fn local_path_attr() {
    let input = "\
myapp v1.0.0 (my/workspace/path)
└── mylib v0.1.0 (my/workspace/lib)
";
    let graph = parse(input).unwrap();
    assert_eq!(
        graph.nodes["myapp v1.0.0"].attrs.get("path").map(|s| s.as_str()),
        Some("my/workspace/path")
    );
    assert_eq!(
        graph.nodes["mylib v0.1.0"].attrs.get("path").map(|s| s.as_str()),
        Some("my/workspace/lib")
    );
}

#[test]
fn proc_macro_with_path() {
    let input = "\
myapp v1.0.0
└── mymacro v0.1.0 (my/path) (proc-macro)
";
    let graph = parse(input).unwrap();
    let node = &graph.nodes["mymacro v0.1.0"];
    assert_eq!(node.attrs.get("kind").map(|s| s.as_str()), Some("proc-macro"));
    assert_eq!(node.attrs.get("path").map(|s| s.as_str()), Some("my/path"));
}

#[test]
fn dev_dependencies_section() {
    let input = "\
myapp v1.0.0
└── libfoo v0.2.1
[dev-dependencies]
└── testlib v1.0.0
";
    let graph = parse(input).unwrap();
    assert_eq!(graph.nodes.len(), 3);
    assert_eq!(graph.edges.len(), 2);
    assert_eq!(graph.edges[0].from, "myapp v1.0.0");
    assert_eq!(graph.edges[0].to, "libfoo v0.2.1");
    assert_eq!(graph.edges[1].from, "myapp v1.0.0");
    assert_eq!(graph.edges[1].to, "testlib v1.0.0");
}

#[test]
fn build_dependencies_section() {
    let input = "\
myapp v1.0.0
└── libfoo v0.2.1
[build-dependencies]
└── buildlib v1.0.0
";
    let graph = parse(input).unwrap();
    assert_eq!(graph.nodes.len(), 3);
    assert_eq!(graph.edges.len(), 2);
    assert_eq!(graph.edges[1].from, "myapp v1.0.0");
    assert_eq!(graph.edges[1].to, "buildlib v1.0.0");
}

#[test]
fn feature_entries() {
    let input = "\
myapp v1.0.0
├── clap feature \"default\"
│   └── clap v4.5.57
└── clap feature \"derive\"
    └── clap v4.5.57 (*)
";
    let graph = parse(input).unwrap();
    assert!(graph.nodes.contains_key("clap feature \"default\""));
    assert!(graph.nodes.contains_key("clap feature \"derive\""));
    assert!(graph.nodes.contains_key("clap v4.5.57"));
    assert_eq!(graph.nodes.keys().filter(|k| k.starts_with("clap v")).count(), 1);
    let clap_edges: Vec<_> = graph.edges.iter().filter(|e| e.to == "clap v4.5.57").collect();
    assert_eq!(clap_edges.len(), 2);
}

#[test]
fn parse_line_root() {
    assert_eq!(pl("myapp v1.0.0"), Some((0, "myapp v1.0.0".to_string())));
}

#[test]
fn parse_line_unicode_depth() {
    assert_eq!(pl("├── child v1.0.0"), Some((1, "child v1.0.0".to_string())));
    assert_eq!(pl("│   └── grandchild v1.0.0"), Some((2, "grandchild v1.0.0".to_string())));
}

#[test]
fn parse_line_ascii_depth() {
    assert_eq!(pl("|-- child v1.0.0"), Some((1, "child v1.0.0".to_string())));
    assert_eq!(pl("|   `-- grandchild v1.0.0"), Some((2, "grandchild v1.0.0".to_string())));
}

#[test]
fn parse_line_blank_continuation() {
    assert_eq!(pl("    └── child v1.0.0"), Some((2, "child v1.0.0".to_string())));
}

#[test]
fn parse_line_skips_blank() {
    assert_eq!(pl(""), None);
    assert_eq!(pl("   "), None);
}

#[test]
fn parse_line_skips_section_headers() {
    assert_eq!(pl("[dev-dependencies]"), None);
    assert_eq!(pl("[build-dependencies]"), None);
}

#[test]
fn parse_node_text_simple() {
    let (id, is_dup, attrs) = parse_node_text("clap v4.5.57");
    assert_eq!(id, "clap v4.5.57");
    assert!(!is_dup);
    assert_eq!(attrs.get("version").map(|s| s.as_str()), Some("v4.5.57"));
}

#[test]
fn parse_node_text_dup() {
    let (id, is_dup, attrs) = parse_node_text("clap v4.5.57 (*)");
    assert_eq!(id, "clap v4.5.57");
    assert!(is_dup);
    assert_eq!(attrs.get("version").map(|s| s.as_str()), Some("v4.5.57"));
}

#[test]
fn parse_node_text_proc_macro() {
    let (id, is_dup, attrs) = parse_node_text("clap_derive v4.5.55 (proc-macro)");
    assert_eq!(id, "clap_derive v4.5.55");
    assert!(!is_dup);
    assert_eq!(attrs.get("kind").map(|s| s.as_str()), Some("proc-macro"));
    assert_eq!(attrs.get("version").map(|s| s.as_str()), Some("v4.5.55"));
}

#[test]
fn parse_node_text_proc_macro_dup() {
    let (id, is_dup, attrs) = parse_node_text("clap_derive v4.5.55 (proc-macro) (*)");
    assert_eq!(id, "clap_derive v4.5.55");
    assert!(is_dup);
    assert_eq!(attrs.get("kind").map(|s| s.as_str()), Some("proc-macro"));
    assert_eq!(attrs.get("version").map(|s| s.as_str()), Some("v4.5.55"));
}

#[test]
fn parse_node_text_path() {
    let (id, is_dup, attrs) = parse_node_text("myapp v1.0.0 (my/workspace/path)");
    assert_eq!(id, "myapp v1.0.0");
    assert!(!is_dup);
    assert_eq!(attrs.get("path").map(|s| s.as_str()), Some("my/workspace/path"));
    assert_eq!(attrs.get("version").map(|s| s.as_str()), Some("v1.0.0"));
}

#[test]
fn parse_node_text_path_and_proc_macro() {
    let (id, is_dup, attrs) = parse_node_text("mymacro v0.1.0 (my/path) (proc-macro)");
    assert_eq!(id, "mymacro v0.1.0");
    assert!(!is_dup);
    assert_eq!(attrs.get("kind").map(|s| s.as_str()), Some("proc-macro"));
    assert_eq!(attrs.get("path").map(|s| s.as_str()), Some("my/path"));
    assert_eq!(attrs.get("version").map(|s| s.as_str()), Some("v0.1.0"));
}

#[test]
fn parse_node_text_build_kind() {
    let (id, _, attrs) = parse_node_text("cc v1.0.0 (build)");
    assert_eq!(id, "cc v1.0.0");
    assert_eq!(attrs.get("kind").map(|s| s.as_str()), Some("build"));
    assert_eq!(attrs.get("version").map(|s| s.as_str()), Some("v1.0.0"));
}

#[test]
fn parse_node_text_dev_kind() {
    let (id, _, attrs) = parse_node_text("testlib v1.0.0 (dev)");
    assert_eq!(id, "testlib v1.0.0");
    assert_eq!(attrs.get("kind").map(|s| s.as_str()), Some("dev"));
    assert_eq!(attrs.get("version").map(|s| s.as_str()), Some("v1.0.0"));
}

#[test]
fn parse_node_text_feature_entry() {
    let (id, is_dup, attrs) = parse_node_text("clap feature \"default\"");
    assert_eq!(id, "clap feature \"default\"");
    assert!(!is_dup);
    assert!(attrs.get("version").is_none());
}

#[test]
fn split_name_version_cases() {
    assert_eq!(
        split_name_version("serde v1.0.217"),
        Some(("serde".to_string(), "v1.0.217".to_string()))
    );
    assert_eq!(split_name_version("a vb v2"), Some(("a vb".to_string(), "v2".to_string())));
    assert_eq!(split_name_version("name v"), None);
    assert_eq!(split_name_version("plain"), None);
}

#[test]
fn cargo_tree_unknown_annotation_kept_in_id() {
    let (id, _, attrs) = parse_node_text("foo v1.0.0 (weird)");
    assert_eq!(id, "foo v1.0.0 (weird)");
    assert_eq!(attrs.get("version").map(|s| s.as_str()), Some("v1.0.0 (weird)"));
}
