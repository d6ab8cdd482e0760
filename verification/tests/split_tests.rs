use cargo_script::errors::UserError;
use cargo_script::input::Input;
use cargo_script::manifest::split_input;
use cargo_script::split::split_file;

fn file_input(content: &str) -> Input {
    Input::File {
        name: "script".to_string(),
        path: "/tmp/script.rs".to_string(),
        content: content.to_string(),
        modified: 1000,
    }
}

#[test]
fn shebang_is_discarded_and_marker_splits() {
    // The comment line is fragment, the last code-looking line starts the
    // source, and the shebang line lands in neither half.
    let content = "#!/bin/sh\n//cargo-deps: foo=\"1\"\nfn main(){}\n";
    let (frag, src) = split_file(content).unwrap();
    assert_eq!(frag, "//cargo-deps: foo=\"1\"\n");
    assert_eq!(src, "fn main(){}\n");
}

#[test]
fn divider_splits_fragment_from_source() {
    let content = "a = 1\n---\nfn main() {}\n";
    let (frag, src) = split_file(content).unwrap();
    assert_eq!(frag, "a = 1\n");
    assert_eq!(src, "\nfn main() {}\n");
}

#[test]
fn divider_may_mix_whitespace_and_dashes() {
    let content = "a = 1\n - - -- \nfn main() {}\n";
    let (frag, src) = split_file(content).unwrap();
    assert_eq!(frag, "a = 1\n");
    assert_eq!(src, "\nfn main() {}\n");
}

#[test]
fn two_dashes_are_not_a_divider() {
    let content = "--\nfn main() {}\n";
    let (frag, src) = split_file(content).unwrap();
    assert_eq!(frag, "--\n");
    assert_eq!(src, "fn main() {}\n");
}

#[test]
fn no_source_found_without_code_or_divider() {
    let content = "a = 1\nb = 2\n";
    match split_file(content) {
        Err(UserError::NoSourceFound) => {}
        _ => panic!("expected NoSourceFound"),
    }
}

#[test]
fn empty_input_has_no_source() {
    assert!(matches!(split_file(""), Err(UserError::NoSourceFound)));
}

#[test]
fn resplit_of_marker_source_is_identity() {
    // Splitting is idempotent on output: the source half, split again as a
    // whole input, comes back unchanged with an empty fragment.
    let content = "#!/bin/sh\nfoo = \"1\"\nuse x;\nfn main(){}\n";
    let (_, src) = split_file(content).unwrap();
    let (frag2, src2) = split_file(&src).unwrap();
    assert_eq!(frag2, "");
    assert_eq!(src2, src);
}

#[test]
fn resplit_of_divider_source_is_identity() {
    let content = "a = 1\n---\nsome plain text\nmore text\n";
    let (_, src) = split_file(content).unwrap();
    let rewrapped = format!("---{}", src);
    let (frag2, src2) = split_file(&rewrapped).unwrap();
    assert_eq!(frag2, "");
    assert_eq!(src2, src);
}

#[test]
fn last_marker_line_wins() {
    // The scan keeps going: a later code-looking line moves the split.
    let content = "// a comment\nfoo = 1\nfn main() {}\n";
    let (frag, src) = split_file(content).unwrap();
    assert_eq!(frag, "// a comment\nfoo = 1\n");
    assert_eq!(src, "fn main() {}\n");
}

#[test]
fn divider_beats_later_markers() {
    let content = "// note\n---\nfn main() {}\n";
    let (frag, src) = split_file(content).unwrap();
    assert_eq!(frag, "// note\n");
    assert_eq!(src, "\nfn main() {}\n");
}

#[test]
fn split_input_wraps_expression() {
    let input = Input::Expr { content: "1 + 2".to_string() };
    let deps: Vec<(String, String)> = vec![];
    let (mani, src) = split_input(&input, &deps).unwrap();
    assert_eq!(src, "fn main() {\n    println!(\"{:?}\", {\n1 + 2\n    });\n}\n");
    assert!(mani.contains("[package]"));
    assert!(mani.contains("name = \"expr\""));
}

#[test]
fn split_input_wraps_loop_with_and_without_count() {
    let deps: Vec<(String, String)> = vec![];
    let input = Input::Loop { content: "line.len()".to_string(), count: false };
    let (_, src) = split_input(&input, &deps).unwrap();
    assert!(src.contains("|line: &str|"));
    assert!(src.contains("line.len()"));
    let input2 = Input::Loop { content: "line.len()".to_string(), count: true };
    let (_, src2) = split_input(&input2, &deps).unwrap();
    assert!(src2.contains("|line: &str, index: usize|"));
}

#[test]
fn split_input_merges_fragment_over_defaults() {
    let content = "[package]\nname = \"other\"\nfn main() {}\n";
    let input = file_input(content);
    let deps: Vec<(String, String)> = vec![];
    let (mani, src) = split_input(&input, &deps).unwrap();
    // The fragment's package name wins over the default, while the default
    // version it did not restate survives.
    assert!(mani.contains("name = \"other\""));
    assert!(mani.contains("version = \"0.1.0\""));
    assert_eq!(src, "fn main() {}\n");
}

#[test]
fn split_input_renders_dependencies() {
    let input = Input::Expr { content: "0".to_string() };
    let deps = vec![("time".to_string(), "0.1".to_string())];
    let (mani, _) = split_input(&input, &deps).unwrap();
    assert!(mani.contains("[dependencies]"));
    assert!(mani.contains("time = \"0.1\""));
}

#[test]
fn split_input_rejects_bad_fragment() {
    let input = file_input("this is = = not toml\nfn main() {}\n");
    let deps: Vec<(String, String)> = vec![];
    assert!(matches!(split_input(&input, &deps), Err(UserError::InvalidManifest)));
}

#[test]
fn split_input_rejects_fragment_table_over_default_value() {
    // `bin` is a list in the defaults; a table under the same key cannot
    // merge with it.
    let input = file_input("[bin]\nx = 1\nfn main() {}\n");
    let deps: Vec<(String, String)> = vec![];
    assert!(matches!(split_input(&input, &deps), Err(UserError::MergeConflict)));
}

#[test]
fn split_input_rejects_plain_dependencies_key() {
    // The dependency sub-table must land under `dependencies`; a fragment
    // that makes that key a plain value clashes with it.
    let input = file_input("dependencies = 5\nfn main() {}\n");
    let deps: Vec<(String, String)> = vec![("foo".to_string(), "1".to_string())];
    assert!(matches!(split_input(&input, &deps), Err(UserError::MergeConflict)));
}
