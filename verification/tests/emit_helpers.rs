use csvizmo_depgraph::emit::dot::{is_bare_id, quote, quote_id};
use csvizmo_depgraph::emit::mermaid::{escape_label, sanitize_id};
use csvizmo_depgraph::parse::dot::unquote;

#[test]
fn quote_plain() {
    assert_eq!(quote("hello"), r#""hello""#);
}

#[test]
fn quote_with_quotes() {
    assert_eq!(quote(r#"say "hi""#), r#""say \"hi\"""#);
}

#[test]
fn quote_backslash_preserved() {
    assert_eq!(quote(r"a\nb"), r#""a\nb""#);
    assert_eq!(quote(r"a\\b"), r#""a\\b""#);
}

#[test]
fn quote_backslash_before_quote() {
    assert_eq!(quote(r#"\\"b"#), r#""\\\"b""#);
}

#[test]
fn quote_unquote_roundtrip() {
    let cases = [
        "hello",
        r#"say "hi""#,
        r"path\to\file",
        r"line1\nline2",
        r"a\\b",
        r#"a\\"b"#,
        "",
    ];
    for s in cases {
        let quoted = quote(s);
        let roundtripped = unquote(&quoted);
        assert_eq!(roundtripped, s, "round-trip failed for {s:?}");
    }
}

#[test]
fn dot_bare_ids() {
    assert!(is_bare_id("foo_1"));
    assert!(!is_bare_id("1foo"));
    assert!(!is_bare_id("Graph"));
    assert!(!is_bare_id("a-b"));
    assert!(!is_bare_id(""));
    assert_eq!(quote_id("node"), "\"node\"");
    assert_eq!(quote_id("abc"), "abc");
}

#[test]
fn sanitize_bare_id() {
    assert_eq!(sanitize_id("foo"), "foo");
    assert_eq!(sanitize_id("foo_bar"), "foo_bar");
    assert_eq!(sanitize_id("foo-bar"), "foo-bar");
    assert_eq!(sanitize_id("Foo123"), "Foo123");
}

#[test]
fn sanitize_non_bare_id() {
    assert_eq!(sanitize_id("my node"), "my_node");
    assert_eq!(sanitize_id("has\"quotes"), "has_22quotes");
    assert_eq!(sanitize_id("123abc"), "_123abc");
    assert_eq!(sanitize_id("main.o"), "main.o");
    assert_eq!(sanitize_id("myapp v0.1.0"), "myapp_v0.1.0");
}

#[test]
fn sanitize_multibyte() {
    assert_eq!(sanitize_id("é"), "_c3_a9");
}

#[test]
fn escape_label_basic() {
    assert_eq!(escape_label("hello"), "hello");
}

#[test]
fn escape_label_brackets_preserved() {
    assert_eq!(escape_label("foo[bar]"), "foo[bar]");
}

#[test]
fn escape_label_quotes() {
    assert_eq!(escape_label("say \"hi\""), "say &quot;hi&quot;");
}

#[test]
fn escape_label_ampersand() {
    assert_eq!(escape_label("A & B"), "A &amp; B");
}
