use csvizmo_depgraph::minpath::{SmartAbbreviate, StripCommonPrefix};

fn strings(v: &[&str]) -> Vec<String> {
    v.iter().map(|s| s.to_string()).collect()
}

#[test]
fn abbreviates_documents() {
    let tr = SmartAbbreviate::new();
    let result = tr.transform("/home/user/documents/file.txt");
    assert_eq!(result, "/home/user/docs/file.txt");
}

#[test]
fn abbreviates_case_insensitive() {
    let tr = SmartAbbreviate::new();
    let result = tr.transform("/home/user/DOCUMENTS/file.txt");
    assert_eq!(result, "/home/user/docs/file.txt");
}

#[test]
fn abbreviates_multiple_components() {
    let tr = SmartAbbreviate::new();
    let result = tr.transform("/home/user/Documents/Source/lib.rs");
    assert_eq!(result, "/home/user/docs/src/lib.rs");
}

#[test]
fn leaves_unknown_components_unchanged() {
    let tr = SmartAbbreviate::new();
    let result = tr.transform("/home/user/projects/foo/bar.rs");
    assert_eq!(result, "/home/user/projects/foo/bar.rs");
}

#[test]
fn abbreviates_every_table_entry_relative() {
    let tr = SmartAbbreviate::default();
    let result = tr.transform("Application/Configurations/Dependencies/Downloads/Libraries/Library/Pictures/Production/Repository/Sources/Configuration");
    assert_eq!(result, "app/configs/deps/dl/libs/lib/pics/prod/repo/src/config");
}

#[test]
fn abbreviation_matches_whole_components_only() {
    let tr = SmartAbbreviate::new();
    assert_eq!(tr.transform("my_documents/sourcefile"), "my_documents/sourcefile");
    assert_eq!(tr.transform(""), "");
}

#[test]
fn strips_common_absolute_prefix() {
    let tr = StripCommonPrefix;
    let inputs = strings(&[
        "/home/user/project/src/main.rs",
        "/home/user/project/src/lib.rs",
        "/home/user/project/tests/test.rs",
    ]);
    let result = tr.transform(&inputs);
    assert_eq!(result, strings(&["src/main.rs", "src/lib.rs", "tests/test.rs"]));
}

#[test]
fn strips_common_relative_prefix() {
    let tr = StripCommonPrefix;
    let inputs = strings(&["project/src/main.rs", "project/src/lib.rs", "project/tests/test.rs"]);
    let result = tr.transform(&inputs);
    assert_eq!(result, strings(&["src/main.rs", "src/lib.rs", "tests/test.rs"]));
}

#[test]
fn mixed_absolute_and_relative_unchanged() {
    let tr = StripCommonPrefix;
    let inputs = strings(&["/home/user/project/src/main.rs", "local/src/foo.rs"]);
    let result = tr.transform(&inputs);
    assert_eq!(result, inputs);
}

#[test]
fn no_common_prefix_unchanged() {
    let tr = StripCommonPrefix;
    let inputs = strings(&["/home/alice/file.rs", "/opt/bob/file.rs"]);
    let result = tr.transform(&inputs);
    assert_eq!(result, strings(&["home/alice/file.rs", "opt/bob/file.rs"]));
}

#[test]
fn single_path_unchanged() {
    let tr = StripCommonPrefix;
    let inputs = strings(&["/home/user/project/src/main.rs"]);
    let result = tr.transform(&inputs);
    assert_eq!(result, inputs);
}

#[test]
fn strip_whole_path_of_a_prefix_path() {
    let tr = StripCommonPrefix;
    let inputs = strings(&["a/b", "a/b/c", "a/b/d/e"]);
    assert_eq!(tr.transform(&inputs), strings(&["", "c", "d/e"]));
}

#[test]
fn strip_relative_with_nothing_shared_unchanged() {
    let tr = StripCommonPrefix;
    let inputs = strings(&["x//y", "z/w"]);
    assert_eq!(tr.transform(&inputs), inputs);
    assert_eq!(tr.transform(&[]), Vec::<String>::new());
}
