use csvizmo_depgraph::parse::dot::unquote;

#[test]
fn unquote_strips_outer_quotes() {
    assert_eq!(unquote(r#""hello""#), "hello");
}

#[test]
fn unquote_bare_id_unchanged() {
    assert_eq!(unquote("hello"), "hello");
}

#[test]
fn unquote_escaped_quote_with_outer_quotes() {
    assert_eq!(unquote(r#""say \"hi\"""#), r#"say "hi""#);
}

#[test]
fn unquote_escaped_quote_without_outer_quotes() {
    assert_eq!(unquote(r#"say \"hi\""#), r#"say "hi""#);
}

#[test]
fn unquote_backslash_preserved() {
    assert_eq!(unquote(r#""a\\b""#), r"a\\b");
    assert_eq!(unquote(r"a\\b"), r"a\\b");
}

#[test]
fn unquote_formatting_directives_preserved() {
    assert_eq!(unquote(r#""line1\nline2""#), r"line1\nline2");
    assert_eq!(unquote(r"line1\nline2"), r"line1\nline2");
    assert_eq!(unquote(r"line1\lline2"), r"line1\lline2");
    assert_eq!(unquote(r"line1\rline2"), r"line1\rline2");
}

#[test]
fn unquote_escaped_backslash_before_quote() {
    assert_eq!(unquote(r#""a\\\"b""#), r#"a\\"b"#);
    assert_eq!(unquote(r#"a\\\"b"#), r#"a\\"b"#);
}

#[test]
fn unquote_single_quote_char() {
    assert_eq!(unquote("\""), "\"");
}
