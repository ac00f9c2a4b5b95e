use csvizmo_depgraph::algorithm::sub::{InvalidSubKey, SubKey};
use csvizmo_depgraph::detect::{detect, InputFormat};
use csvizmo_depgraph::emit::{output_format_for_extension, resolve_output_format, FormatError, OutputFormat};
use csvizmo_depgraph::parse::cargo_metadata::{extract_name_version, extract_package_name};

#[test]
fn subkey_id() {
    assert!(matches!(SubKey::parse("id").unwrap(), SubKey::Id));
}

#[test]
fn subkey_node() {
    match SubKey::parse("node:label").unwrap() {
        SubKey::Node(name) => assert_eq!(name, "label"),
        _ => panic!("expected Node"),
    }
}

#[test]
fn subkey_edge() {
    match SubKey::parse("edge:label").unwrap() {
        SubKey::Edge(name) => assert_eq!(name, "label"),
        _ => panic!("expected Edge"),
    }
}

#[test]
fn subkey_invalid() {
    assert!(SubKey::parse("invalid").is_err());
    match SubKey::parse("nodes") {
        Err(InvalidSubKey(s)) => assert_eq!(s, "nodes"),
        _ => panic!("expected error"),
    }
}

#[test]
fn detect_empty() {
    assert_eq!(detect(""), None);
}

#[test]
fn detect_tgf_separator() {
    assert_eq!(detect("1 a\n  #  \n"), Some(InputFormat::Tgf));
    assert_eq!(detect("a # b\n"), None);
}

#[test]
fn test_extract_name_version() {
    assert_eq!(
        extract_name_version("serde 1.0.217 (registry+https://github.com/rust-lang/crates.io-index)"),
        "serde 1.0.217"
    );
    assert_eq!(
        extract_name_version("my-crate 0.1.0 (path+file:///home/user/project)"),
        "my-crate 0.1.0"
    );
    assert_eq!(extract_name_version("simple 1.0.0"), "simple 1.0.0");
    assert_eq!(
        extract_name_version("registry+https://github.com/rust-lang/crates.io-index#serde@1.0.217"),
        "serde 1.0.217"
    );
    assert_eq!(
        extract_name_version("path+file://~/src/csvizmo/crates/csvizmo-depgraph#0.5.0"),
        "csvizmo-depgraph 0.5.0"
    );
}

#[test]
fn test_extract_package_name() {
    assert_eq!(
        extract_package_name("serde 1.0.217 (registry+https://github.com/rust-lang/crates.io-index)"),
        "serde"
    );
    assert_eq!(
        extract_package_name("my-crate 0.1.0 (path+file:///home/user/project)"),
        "my-crate"
    );
    assert_eq!(extract_package_name("simple"), "simple");
    assert_eq!(extract_package_name("registry+x#serde@1.0.217"), "serde");
    assert_eq!(extract_package_name("path+file://~/a/b#0.5.0"), "b");
}

#[test]
fn output_format_extensions() {
    assert_eq!(output_format_for_extension("gv"), Some(OutputFormat::Dot));
    assert_eq!(output_format_for_extension("mermaid"), Some(OutputFormat::Mermaid));
    assert_eq!(output_format_for_extension("d"), Some(OutputFormat::Depfile));
    assert_eq!(output_format_for_extension("txt"), None);
}

#[test]
fn resolve_output_format_order() {
    assert_eq!(resolve_output_format(Some(OutputFormat::Tgf), Some("x.dot")).unwrap(), OutputFormat::Tgf);
    assert_eq!(resolve_output_format(None, Some("out/graph.mmd")).unwrap(), OutputFormat::Mermaid);
    assert_eq!(resolve_output_format(None, None).unwrap(), OutputFormat::Dot);
    assert!(matches!(resolve_output_format(None, Some("graph")), Err(FormatError::NoExtension(_))));
    match resolve_output_format(None, Some("graph.png")) {
        Err(FormatError::UnrecognizedExtension(e)) => assert_eq!(e, "png"),
        other => panic!("unexpected {other:?}"),
    }
}
