use csvizmo_depgraph::parse::tree::parse;
use csvizmo_depgraph::parse::tree::parse_line;
use csvizmo_depgraph::parse::ParseError;

fn pl(s: &str) -> Option<(usize, String)> {
    parse_line(s)
}

#[test]
fn tree_empty_input() {
    let graph = parse("").unwrap();
    assert!(graph.nodes.is_empty());
    assert!(graph.edges.is_empty());
}

#[test]
fn tree_root_only() {
    let graph = parse("mydir\n").unwrap();
    assert_eq!(graph.nodes.len(), 1);
    assert_eq!(graph.nodes["mydir"].label.as_str(), "mydir");
    assert!(graph.edges.is_empty());
}

#[test]
fn unicode_simple() {
    let input = "\
root
├── alpha
└── bravo
";
    let graph = parse(input).unwrap();
    assert_eq!(graph.nodes.len(), 3);
    assert_eq!(graph.nodes["root"].label.as_str(), "root");
    assert_eq!(graph.nodes["root/alpha"].label.as_str(), "alpha");
    assert_eq!(graph.nodes["root/bravo"].label.as_str(), "bravo");
    assert_eq!(graph.edges.len(), 2);
    assert_eq!(graph.edges[0].from, "root");
    assert_eq!(graph.edges[0].to, "root/alpha");
    assert_eq!(graph.edges[1].from, "root");
    assert_eq!(graph.edges[1].to, "root/bravo");
}

#[test]
fn unicode_nested() {
    let input = "\
root
├── a
│   └── b
└── c
";
    let graph = parse(input).unwrap();
    assert_eq!(graph.nodes.len(), 4);
    assert!(graph.nodes.contains_key("root/a/b"));
    assert_eq!(graph.edges.len(), 3);
    assert_eq!(graph.edges[1].from, "root/a");
    assert_eq!(graph.edges[1].to, "root/a/b");
}

#[test]
fn ascii_simple() {
    let input = "\
root
|-- alpha
`-- bravo
";
    let graph = parse(input).unwrap();
    assert_eq!(graph.nodes.len(), 3);
    assert_eq!(graph.nodes["root/alpha"].label.as_str(), "alpha");
    assert_eq!(graph.nodes["root/bravo"].label.as_str(), "bravo");
    assert_eq!(graph.edges.len(), 2);
}

#[test]
fn ascii_nested() {
    let input = "\
root
|-- a
|   `-- b
`-- c
";
    let graph = parse(input).unwrap();
    assert_eq!(graph.nodes.len(), 4);
    assert!(graph.nodes.contains_key("root/a/b"));
    assert_eq!(graph.edges.len(), 3);
}

#[test]
fn ascii_backslash_last_child() {
    let input = "\
root
\\-- only
";
    let graph = parse(input).unwrap();
    assert_eq!(graph.nodes.len(), 2);
    assert_eq!(graph.nodes["root/only"].label.as_str(), "only");
}

#[test]
fn blank_continuation() {
    let input = "\
root
└── parent
    └── child
";
    let graph = parse(input).unwrap();
    assert_eq!(graph.nodes.len(), 3);
    assert!(graph.nodes.contains_key("root/parent/child"));
    assert_eq!(graph.edges[1].from, "root/parent");
    assert_eq!(graph.edges[1].to, "root/parent/child");
}

#[test]
fn summary_line_skipped() {
    let input = "\
root
└── file.txt

1 directory, 1 file
";
    let graph = parse(input).unwrap();
    assert_eq!(graph.nodes.len(), 2);
    assert!(!graph.nodes.contains_key("1 directory, 1 file"));
}

#[test]
fn summary_plural_skipped() {
    let input = "\
root
├── a
└── b

2 directories, 3 files
";
    let graph = parse(input).unwrap();
    assert_eq!(graph.nodes.len(), 3);
}

#[test]
fn depth_returns_to_root_sibling() {
    let input = "\
root
├── a
│   ├── deep1
│   └── deep2
└── b
";
    let graph = parse(input).unwrap();
    assert_eq!(graph.nodes.len(), 5);
    assert_eq!(graph.edges[3].from, "root");
    assert_eq!(graph.edges[3].to, "root/b");
}

#[test]
fn tree_no_attrs() {
    let input = "\
root
└── child
";
    let graph = parse(input).unwrap();
    assert!(graph.nodes["root"].attrs.is_empty());
    assert!(graph.nodes["root/child"].attrs.is_empty());
}

#[test]
fn tree_strips_star_marker() {
    let input = "\
root
├── a
│   └── shared
├── b
│   └── shared (*)
";
    let graph = parse(input).unwrap();
    assert!(graph.nodes.contains_key("root/a/shared"));
    assert!(graph.nodes.contains_key("root/b/shared"));
    assert_eq!(graph.nodes["root/b/shared"].label.as_str(), "shared");
}

#[test]
fn tree_strips_cycle_marker() {
    let input = "\
root
├── a
│   └── root (cycle)
";
    let graph = parse(input).unwrap();
    assert!(graph.nodes.contains_key("root/a/root"));
    assert_eq!(graph.nodes["root/a/root"].label.as_str(), "root");
}

#[test]
fn parse_line_depth() {
    assert_eq!(pl("root"), Some((0, "root".to_string())));
    assert_eq!(pl("├── child"), Some((1, "child".to_string())));
    assert_eq!(pl("│   └── grandchild"), Some((2, "grandchild".to_string())));
    assert_eq!(pl("|-- child"), Some((1, "child".to_string())));
    assert_eq!(pl("|   `-- grandchild"), Some((2, "grandchild".to_string())));
    assert_eq!(pl(""), None);
}

#[test]
fn parse_line_strips_markers() {
    assert_eq!(pl("├── node (*)"), Some((1, "node".to_string())));
    assert_eq!(pl("└── node (cycle)"), Some((1, "node".to_string())));
    assert_eq!(pl("├── node  (*)"), Some((1, "node".to_string())));
    assert_eq!(pl("├── node"), Some((1, "node".to_string())));
}

#[test]
fn tree_depth_jump_is_error() {
    let input = "root\n│   └── deep\n";
    match parse(input) {
        Err(ParseError::UnexpectedDepthJump(line)) => assert_eq!(line, "│   └── deep"),
        other => panic!("unexpected {other:?}"),
    }
}

#[test]
fn tree_nbsp_continuation() {
    let input = "root\n├── a\n│\u{a0}\u{a0} └── b\n";
    let graph = parse(input).unwrap();
    assert!(graph.nodes.contains_key("root/a/b"));
}
