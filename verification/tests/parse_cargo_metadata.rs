use csvizmo_depgraph::detect::{resolve_input_format, InputFormat};
use csvizmo_depgraph::emit::FormatError;
use csvizmo_depgraph::parse::cargo_metadata::{
    find_feature_for_optional_dep, graph_from_metadata, parse, DepKind, MetaDependency, MetaNode, MetaNodeDep,
    MetaPackage, MetadataModel,
};
use csvizmo_depgraph::parse::{parse_as, ParseError};

const APP: &str = "path+file:///w/app#0.1.0";
const SERDE: &str = "registry+https://github.com/rust-lang/crates.io-index#serde@1.0.0";

fn metadata_json(resolve: bool) -> String {
    let resolve = if resolve {
        format!(
            r#"{{"nodes":[
                {{"id":"{APP}","deps":[{{"name":"serde","pkg":"{SERDE}","dep_kinds":[{{"kind":null,"target":null}},{{"kind":"build","target":null}}]}}],"dependencies":["{SERDE}"],"features":["json"]}},
                {{"id":"{SERDE}","deps":[],"dependencies":[],"features":[]}}
            ],"root":null}}"#
        )
    } else {
        "null".to_string()
    };
    format!(
        r#"{{"packages":[
            {{"name":"app","version":"0.1.0","id":"{APP}","dependencies":[
                {{"name":"serde","req":"^1","kind":null,"optional":true,"uses_default_features":true,"features":[]}}
            ],"targets":[],"features":{{"json":["dep:serde"]}},"manifest_path":"/w/app/Cargo.toml"}},
            {{"name":"serde","version":"1.0.0","id":"{SERDE}","dependencies":[],"targets":[],"features":{{}},"manifest_path":"/r/serde/Cargo.toml"}}
        ],
        "workspace_members":["{APP}"],
        "resolve":{resolve},
        "workspace_root":"/w","target_directory":"/w/target","version":1}}"#
    )
}

#[test]
fn metadata_json_builds_graph() {
    let g = parse(&metadata_json(true)).unwrap();
    let ids: Vec<&str> = g.nodes.keys().map(|k| k.as_str()).collect();
    assert_eq!(ids, vec!["app 0.1.0", "serde 1.0.0"]);
    let app = &g.nodes["app 0.1.0"];
    assert_eq!(app.label, "app");
    assert_eq!(app.attrs.get("version").map(|s| s.as_str()), Some("0.1.0"));
    assert_eq!(app.attrs.get("features").map(|s| s.as_str()), Some("json"));
    let serde = &g.nodes["serde 1.0.0"];
    assert_eq!(serde.label, "serde");
    assert!(serde.attrs.get("features").is_none());
    assert_eq!(g.edges.len(), 1);
    let e = &g.edges[0];
    assert_eq!((e.from.as_str(), e.to.as_str()), ("app 0.1.0", "serde 1.0.0"));
    assert_eq!(e.attrs.get("kind").map(|s| s.as_str()), Some("normal,build"));
    assert_eq!(e.attrs.get("optional").map(|s| s.as_str()), Some("json"));
}

#[test]
fn metadata_without_resolve_is_an_error() {
    assert!(matches!(parse(&metadata_json(false)), Err(ParseError::MissingResolve)));
}

#[test]
fn metadata_that_is_not_json_is_an_error() {
    assert!(matches!(parse("not json"), Err(ParseError::InvalidJson(_))));
}

#[test]
fn parse_as_reads_cargo_metadata() {
    let g = parse_as(InputFormat::CargoMetadata, &metadata_json(true)).unwrap();
    assert_eq!(g.nodes.len(), 2);
    assert_eq!(g.edges.len(), 1);
}

fn package(deps: Vec<(&str, bool)>, features: Vec<(&str, Vec<&str>)>) -> MetaPackage {
    MetaPackage {
        id: "p 1.0.0".to_string(),
        name: "p".to_string(),
        version: "1.0.0".to_string(),
        dependencies: deps.into_iter().map(|(n, o)| MetaDependency { name: n.to_string(), optional: o }).collect(),
        features: features
            .into_iter()
            .map(|(f, items)| (f.to_string(), items.into_iter().map(|s| s.to_string()).collect()))
            .collect(),
    }
}

#[test]
fn optional_dep_found_through_dep_prefix() {
    let p = package(vec![("x", true)], vec![("a", vec!["y"]), ("b", vec!["dep:x"]), ("c", vec!["x"])]);
    assert_eq!(find_feature_for_optional_dep(&p, "x"), Some("b".to_string()));
}

#[test]
fn optional_dep_found_through_its_own_feature() {
    let p = package(vec![("x", true)], vec![("a", vec![]), ("x", vec![])]);
    assert_eq!(find_feature_for_optional_dep(&p, "x"), Some("x".to_string()));
}

#[test]
fn non_optional_dep_has_no_feature() {
    let p = package(vec![("x", false)], vec![("a", vec!["dep:x"])]);
    assert_eq!(find_feature_for_optional_dep(&p, "x"), None);
    let q = package(vec![("x", true)], vec![("a", vec!["y"])]);
    assert_eq!(find_feature_for_optional_dep(&q, "x"), None);
}

#[test]
fn model_graph_keeps_unknown_packages() {
    let m = MetadataModel {
        packages: vec![],
        resolve: Some(vec![
            MetaNode {
                id: "a 1.0.0 (registry+x)".to_string(),
                features: vec![],
                deps: vec![MetaNodeDep { pkg: "b 2.0.0 (registry+x)".to_string(), kinds: vec![DepKind::Development] }],
            },
            MetaNode { id: "b 2.0.0 (registry+x)".to_string(), features: vec![], deps: vec![] },
        ]),
    };
    let g = graph_from_metadata(&m).unwrap();
    assert_eq!(g.nodes["a 1.0.0"].label, "a");
    assert!(g.nodes["a 1.0.0"].attrs.is_empty());
    assert_eq!(g.edges[0].to, "b 2.0.0");
    assert_eq!(g.edges[0].attrs.get("kind").map(|s| s.as_str()), Some("dev"));
    assert!(g.edges[0].attrs.get("optional").is_none());
    let none = MetadataModel { packages: vec![], resolve: None };
    assert!(matches!(graph_from_metadata(&none), Err(ParseError::MissingResolve)));
}

#[test]
fn input_format_flag_then_extension_then_content() {
    assert!(matches!(resolve_input_format(Some(InputFormat::Tree), Some("g.dot"), "a\n#\n"), Ok(InputFormat::Tree)));
    assert!(matches!(resolve_input_format(None, Some("g.dot"), "a\n#\n"), Ok(InputFormat::Dot)));
    assert!(matches!(resolve_input_format(None, Some("g.mmd"), ""), Ok(InputFormat::Mermaid)));
    assert!(matches!(resolve_input_format(None, Some("g.txt"), "a\n#\n"), Ok(InputFormat::Tgf)));
    assert!(matches!(resolve_input_format(None, None, "a\n#\n"), Ok(InputFormat::Tgf)));
}

#[test]
fn input_format_errors() {
    assert!(matches!(resolve_input_format(None, None, ""), Err(FormatError::Undetected)));
    assert!(matches!(resolve_input_format(None, Some("graph"), ""), Err(FormatError::NoExtension(p)) if p == "graph"));
    assert!(matches!(resolve_input_format(None, Some("g.xyz"), ""), Err(FormatError::UnrecognizedExtension(x)) if x == "xyz"));
}

#[test]
fn parse_as_tgf_and_unsupported_depfile() {
    let g = parse_as(InputFormat::Tgf, "a A\nb B\n#\na b\n").unwrap();
    assert_eq!(g.nodes.len(), 2);
    assert_eq!(g.nodes["a"].label, "A");
    assert_eq!(g.edges.len(), 1);
    assert!(matches!(parse_as(InputFormat::Tgf, "a\n#\nlonely\n"), Err(ParseError::InvalidEdgeLine(l)) if l == "lonely"));
    assert!(matches!(parse_as(InputFormat::Depfile, "out: in\n"), Err(ParseError::UnsupportedFormat)));
}
