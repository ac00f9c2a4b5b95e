use csvizmo_depgraph::algorithm::shorten::{build_mapping, build_transforms, remap_graph, shorten, ShortenArgs, ShortenKey};
use csvizmo_depgraph::minpath::PathTransforms;
use csvizmo_depgraph::graph::{DepGraph, Edge, NodeInfo};
use indexmap::IndexMap;

fn make_graph(nodes: &[(&str, &str)], edges: &[(&str, &str)]) -> DepGraph {
    DepGraph {
        nodes: nodes
            .iter()
            .map(|(id, label)| (id.to_string(), NodeInfo::new(label)))
            .collect(),
        edges: edges
            .iter()
            .map(|(from, to)| Edge {
                from: from.to_string(),
                to: to.to_string(),
                ..Default::default()
            })
            .collect(),
        ..Default::default()
    }
}

fn map(pairs: &[(&str, &str)]) -> IndexMap<String, String> {
    pairs.iter().map(|(a, b)| (a.to_string(), b.to_string())).collect()
}

#[test]
fn remap_renames_ids_labels_and_endpoints() {
    let g = make_graph(&[("src/a.rs", "src/a.rs"), ("src/b.rs", "src/b.rs")], &[("src/a.rs", "src/b.rs")]);
    let ids = map(&[("src/a.rs", "a.rs"), ("src/b.rs", "b.rs")]);
    let labels = map(&[("src/a.rs", "a")]);
    let r = remap_graph(&g, &ids, &labels);
    let keys: Vec<&str> = r.nodes.keys().map(|s| s.as_str()).collect();
    assert_eq!(keys, vec!["a.rs", "b.rs"]);
    assert_eq!(r.nodes["a.rs"].label, "a");
    assert_eq!(r.nodes["b.rs"].label, "src/b.rs");
    assert_eq!(r.edges.len(), 1);
    assert_eq!(r.edges[0].from, "a.rs");
    assert_eq!(r.edges[0].to, "b.rs");
}

#[test]
fn remap_collision_keeps_first_and_drops_self_loops() {
    let g = make_graph(&[("x/a", "A"), ("y/a", "B"), ("z", "Z")], &[("x/a", "y/a"), ("x/a", "z"), ("y/a", "z")]);
    let ids = map(&[("x/a", "a"), ("y/a", "a")]);
    let r = remap_graph(&g, &ids, &IndexMap::new());
    let keys: Vec<&str> = r.nodes.keys().map(|s| s.as_str()).collect();
    assert_eq!(keys, vec!["a", "z"]);
    assert_eq!(r.nodes["a"].label, "A");
    let pairs: Vec<(&str, &str)> = r.edges.iter().map(|e| (e.from.as_str(), e.to.as_str())).collect();
    assert_eq!(pairs, vec![("a", "z")]);
}

#[test]
fn remap_drops_emptied_subgraphs() {
    let mut g = make_graph(&[("p/a", "a")], &[]);
    g.subgraphs.push(DepGraph {
        id: Some("cluster".to_string()),
        nodes: [("q/a".to_string(), NodeInfo::new("a"))].into_iter().collect(),
        ..Default::default()
    });
    let ids = map(&[("p/a", "a"), ("q/a", "a")]);
    let r = remap_graph(&g, &ids, &IndexMap::new());
    assert_eq!(r.nodes.len(), 1);
    assert!(r.subgraphs.is_empty());
}

#[test]
fn remap_identity_keeps_graph() {
    let g = make_graph(&[("a", "A"), ("b", "B")], &[("a", "b"), ("a", "b")]);
    let r = remap_graph(&g, &IndexMap::new(), &IndexMap::new());
    assert_eq!(r.nodes.len(), 2);
    // the repeated edge (same endpoints, same label) is dropped
    assert_eq!(r.edges.len(), 1);
}

fn shorten_args() -> ShortenArgs {
    ShortenArgs {
        separator: "/".to_string(),
        key: ShortenKey::default(),
        home_dir: false,
        resolve_relative: false,
        relative_to: None,
        strip_prefix: vec![],
        smart_abbreviate: false,
        strip_common_prefix: false,
        minimal_unique_suffix: false,
        single_letter: false,
    }
}

#[test]
fn build_transforms_defaults_to_common_prefix_and_unique_suffix() {
    let t = build_transforms(&shorten_args());
    assert!(t.strip_common_prefix && t.minimal_unique_suffix);
    assert!(!t.home_dir && !t.resolve_relative && !t.smart_abbreviate && !t.single_letter);
    assert!(t.relative_to.is_none() && t.strip_prefixes.is_empty());
}

#[test]
fn build_transforms_keeps_exactly_the_options_set() {
    let mut args = shorten_args();
    args.single_letter = true;
    args.strip_prefix = vec!["/home/u".to_string()];
    args.relative_to = Some("/src".to_string());
    let t = build_transforms(&args);
    assert!(t.single_letter);
    assert!(!t.strip_common_prefix && !t.minimal_unique_suffix);
    assert_eq!(t.strip_prefixes, vec!["/home/u".to_string()]);
    assert_eq!(t.relative_to.as_deref(), Some("/src"));
    let chained = PathTransforms::new().strip_common_prefix(true).minimal_unique_suffix(true);
    let d = build_transforms(&shorten_args());
    assert_eq!((chained.strip_common_prefix, chained.minimal_unique_suffix), (d.strip_common_prefix, d.minimal_unique_suffix));
}

#[test]
fn build_mapping_keeps_only_changed_entries() {
    let originals = vec!["a::b".to_string(), "c".to_string(), "d::e::f".to_string()];
    let shortened = vec!["b".to_string(), "c".to_string(), "e/f".to_string()];
    let m = build_mapping(&originals, &shortened, "::");
    let pairs: Vec<(&str, &str)> = m.iter().map(|(k, v)| (k.as_str(), v.as_str())).collect();
    assert_eq!(pairs, vec![("a::b", "b"), ("d::e::f", "e::f")]);
}

#[test]
fn shorten_renames_the_chosen_fields() {
    let g = make_graph(&[("crate::foo::bar", "crate::foo::bar"), ("crate::baz", "crate::baz")], &[("crate::foo::bar", "crate::baz")]);
    let short = vec!["foo/bar".to_string(), "baz".to_string()];
    let both = shorten(&g, "::", ShortenKey::Both, &short, &short);
    let ids: Vec<&str> = both.nodes.keys().map(|k| k.as_str()).collect();
    assert_eq!(ids, vec!["foo::bar", "baz"]);
    assert_eq!(both.nodes["foo::bar"].label, "foo::bar");
    assert_eq!((both.edges[0].from.as_str(), both.edges[0].to.as_str()), ("foo::bar", "baz"));
    let ids_only = shorten(&g, "::", ShortenKey::Id, &short, &short);
    assert_eq!(ids_only.nodes["foo::bar"].label, "crate::foo::bar");
    let labels_only = shorten(&g, "::", ShortenKey::Label, &short, &short);
    assert_eq!(labels_only.nodes["crate::foo::bar"].label, "foo::bar");
}
