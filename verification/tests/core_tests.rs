use cargo_script::errors::UserError;
use cargo_script::ident::ID_DIGEST_LEN_MAX;
use cargo_script::input::Input;
use cargo_script::janitor::{plan_sweep, should_remove_slot};
use cargo_script::manifest::{default_manifest, deps_manifest, parse_deps};
use cargo_script::merge::merge_manifest;
use cargo_script::meta::{
    cache_action_for, current_metadata, decide_action, get_cache_path, get_exe_path,
    get_pkg_metadata_path, metadata_eq, CacheAction, PackageMetadata,
};
use cargo_script::table::{ConfigTable, ConfigValue};
use cargo_script::wrap::{contains_fn_main, script_candidates, script_with_externs};

fn str_table(pairs: &[(&str, &str)]) -> ConfigTable {
    let mut t = ConfigTable::new();
    for (k, v) in pairs {
        t.set(k.to_string(), ConfigValue::Str(v.to_string()));
    }
    t
}

fn get_str<'a>(t: &'a ConfigTable, k: &str) -> &'a str {
    match t.get(k) {
        Some(ConfigValue::Str(s)) => s.as_str(),
        _ => panic!("no string at {}", k),
    }
}

// --- merging ---

#[test]
fn merge_replaces_plain_values_and_keeps_the_rest() {
    let base = str_table(&[("a", "1"), ("b", "2")]);
    let overlay = str_table(&[("b", "3"), ("c", "4")]);
    let m = merge_manifest(base, overlay).unwrap();
    assert_eq!(get_str(&m, "a"), "1");
    assert_eq!(get_str(&m, "b"), "3");
    assert_eq!(get_str(&m, "c"), "4");
}

#[test]
fn merge_combines_top_level_tables_overlay_winning() {
    let mut base = ConfigTable::new();
    base.set("t".to_string(), ConfigValue::Tab(str_table(&[("x", "1"), ("y", "2")])));
    let mut overlay = ConfigTable::new();
    overlay.set("t".to_string(), ConfigValue::Tab(str_table(&[("y", "9"), ("z", "3")])));
    let m = merge_manifest(base, overlay).unwrap();
    match m.get("t") {
        Some(ConfigValue::Tab(sub)) => {
            assert_eq!(get_str(sub, "x"), "1");
            assert_eq!(get_str(sub, "y"), "9");
            assert_eq!(get_str(sub, "z"), "3");
        }
        _ => panic!("t is not a table"),
    }
}

#[test]
fn merge_table_over_plain_value_is_a_conflict() {
    let base = str_table(&[("k", "1")]);
    let mut overlay = ConfigTable::new();
    overlay.set("k".to_string(), ConfigValue::Tab(str_table(&[("x", "1")])));
    assert!(matches!(merge_manifest(base, overlay), Err(UserError::MergeConflict)));
}

#[test]
fn merge_plain_value_replaces_table_outright() {
    let mut base = ConfigTable::new();
    base.set("k".to_string(), ConfigValue::Tab(str_table(&[("x", "1")])));
    let overlay = str_table(&[("k", "flat")]);
    let m = merge_manifest(base, overlay).unwrap();
    assert_eq!(get_str(&m, "k"), "flat");
}

#[test]
fn merge_result_ignores_insertion_order() {
    // The same entries inserted in different orders make the same table,
    // and merging is deterministic over them.
    let a1 = str_table(&[("a", "1"), ("b", "2"), ("c", "3")]);
    let a2 = str_table(&[("c", "3"), ("a", "1"), ("b", "2")]);
    let o = str_table(&[("b", "9")]);
    let o2 = str_table(&[("b", "9")]);
    let m1 = merge_manifest(a1, o).unwrap();
    let m2 = merge_manifest(a2, o2).unwrap();
    assert_eq!(m1.entries.len(), m2.entries.len());
    for (e1, e2) in m1.entries.iter().zip(m2.entries.iter()) {
        assert_eq!(e1.0, e2.0);
    }
    assert_eq!(get_str(&m1, "b"), "9");
    assert_eq!(get_str(&m2, "b"), "9");
}

#[test]
fn merge_is_associative_over_independent_keys() {
    let a = || str_table(&[("a", "1")]);
    let b = || str_table(&[("b", "2")]);
    let c = || str_table(&[("c", "3")]);
    let left = merge_manifest(merge_manifest(a(), b()).unwrap(), c()).unwrap();
    let right = merge_manifest(a(), merge_manifest(b(), c()).unwrap()).unwrap();
    assert_eq!(left.entries.len(), right.entries.len());
    for (e1, e2) in left.entries.iter().zip(right.entries.iter()) {
        assert_eq!(e1.0, e2.0);
    }
    for k in ["a", "b", "c"] {
        assert_eq!(get_str(&left, k), get_str(&right, k));
    }
}

// --- dependency requests ---

#[test]
fn bare_name_becomes_wildcard_and_list_is_sorted() {
    let args = vec!["zlib".to_string(), "abc=1.0".to_string()];
    let deps = parse_deps(&args).unwrap();
    assert_eq!(deps, vec![("abc".to_string(), "1.0".to_string()), ("zlib".to_string(), "*".to_string())]);
}

#[test]
fn duplicate_with_same_version_is_accepted() {
    let args = vec!["foo=1".to_string(), "foo=1".to_string()];
    let deps = parse_deps(&args).unwrap();
    assert_eq!(deps, vec![("foo".to_string(), "1".to_string())]);
}

#[test]
fn conflicting_versions_fail() {
    // `foo` alone means `foo=*`; a second request with another version
    // must fail, never resolve.
    let args = vec!["foo".to_string(), "foo=1.2".to_string(), "bar=2".to_string()];
    match parse_deps(&args) {
        Err(UserError::ConflictingDepVersions { name, existing, requested }) => {
            assert_eq!(name, "foo");
            assert_eq!(existing, "*");
            assert_eq!(requested, "1.2");
        }
        _ => panic!("expected a version conflict"),
    }
}

#[test]
fn empty_name_and_empty_version_fail() {
    assert!(matches!(parse_deps(&vec!["=1".to_string()]), Err(UserError::EmptyDepName)));
    assert!(matches!(parse_deps(&vec!["foo=".to_string()]), Err(UserError::EmptyDepVersion)));
}

#[test]
fn version_keeps_later_equals_signs() {
    let deps = parse_deps(&vec!["foo=a=b".to_string()]).unwrap();
    assert_eq!(deps, vec![("foo".to_string(), "a=b".to_string())]);
}

// --- manifests ---

#[test]
fn default_manifest_is_keyed_by_safe_name() {
    let input = Input::Expr { content: "1".to_string() };
    let t = default_manifest(&input);
    match t.get("package") {
        Some(ConfigValue::Tab(pkg)) => {
            assert_eq!(get_str(pkg, "name"), "expr");
            assert_eq!(get_str(pkg, "version"), "0.1.0");
        }
        _ => panic!("package is not a table"),
    }
    match t.get("bin") {
        Some(ConfigValue::Arr(bins)) => match &bins[0] {
            ConfigValue::Tab(b) => {
                assert_eq!(get_str(b, "name"), "expr");
                assert_eq!(get_str(b, "path"), "expr.rs");
            }
            _ => panic!("bin entry is not a table"),
        },
        _ => panic!("bin is not a list"),
    }
}

#[test]
fn deps_manifest_holds_plain_and_braced_versions() {
    let deps = vec![
        ("plain".to_string(), "1.0".to_string()),
        ("local".to_string(), "{ path = \"/tmp/x\" }".to_string()),
    ];
    let t = deps_manifest(&deps).unwrap();
    match t.get("dependencies") {
        Some(ConfigValue::Tab(d)) => {
            assert_eq!(get_str(d, "plain"), "1.0");
            match d.get("local") {
                Some(ConfigValue::Tab(sub)) => assert_eq!(get_str(sub, "path"), "/tmp/x"),
                _ => panic!("braced version did not become a table"),
            }
        }
        _ => panic!("dependencies is not a table"),
    }
}

#[test]
fn deps_manifest_rejects_bad_braced_version() {
    let deps = vec![("x".to_string(), "{ not valid".to_string())];
    match deps_manifest(&deps) {
        Err(UserError::InvalidDepVersion { name, version }) => {
            assert_eq!(name, "x");
            assert_eq!(version, "{ not valid");
        }
        _ => panic!("expected InvalidDepVersion"),
    }
}

// --- identity ---

#[test]
fn identity_is_a_pure_function() {
    let deps = vec![("foo".to_string(), "1".to_string())];
    let input = Input::Expr { content: "1 + 2".to_string() };
    let a = input.compute_id(&deps, false);
    let b = input.compute_id(&deps, false);
    assert_eq!(a, b);
}

#[test]
fn expression_identity_tracks_dependency_versions() {
    let input = Input::Expr { content: "1 + 2".to_string() };
    let d1 = vec![("foo".to_string(), "1".to_string())];
    let d2 = vec![("foo".to_string(), "2".to_string())];
    assert_ne!(input.compute_id(&d1, false), input.compute_id(&d2, false));
}

#[test]
fn file_identity_ignores_dependencies_and_content() {
    let mk = |content: &str| Input::File {
        name: "tool".to_string(),
        path: "/abs/tool.rs".to_string(),
        content: content.to_string(),
        modified: 5,
    };
    let d1 = vec![];
    let d2 = vec![("foo".to_string(), "1".to_string())];
    let a = mk("fn main() {}").compute_id(&d1, false);
    let b = mk("fn main() { other(); }").compute_id(&d2, false);
    assert_eq!(a, b);
    assert!(a.starts_with("file-tool-"));
    assert_eq!(a.len(), "file-tool-".len() + ID_DIGEST_LEN_MAX);
}

#[test]
fn expression_identity_uses_the_digest_of_its_text() {
    // With no dependencies the hashed text is the expression itself; the
    // digest of this text is pinned by the hashing library.
    let input = Input::Expr { content: "hello world".to_string() };
    let deps = vec![];
    let id = input.compute_id(&deps, false);
    assert_eq!(id, "expr-2aae6c35c94fcfb4");
}

#[test]
fn stub_hashing_uses_the_stub_word() {
    let input = Input::Loop { content: "x".to_string(), count: true };
    let id = input.compute_id(&vec![], true);
    assert_eq!(id, "loop-stub");
}

#[test]
fn loop_identity_tracks_count_flag() {
    let a = Input::Loop { content: "x".to_string(), count: true }.compute_id(&vec![], false);
    let b = Input::Loop { content: "x".to_string(), count: false }.compute_id(&vec![], false);
    assert_ne!(a, b);
}

// --- metadata and the cache decision ---

fn meta() -> PackageMetadata {
    PackageMetadata {
        path: Some("/abs/tool.rs".to_string()),
        modified: Some(10),
        debug: false,
        deps: vec![("foo".to_string(), "1".to_string())],
    }
}

#[test]
fn matching_metadata_and_artifact_execute() {
    let current = meta();
    let stored = meta();
    assert_eq!(decide_action(false, &current, Some(&stored), true), CacheAction::Execute);
}

#[test]
fn any_field_mismatch_compiles() {
    let current = meta();
    let mut stored = meta();
    stored.modified = Some(11);
    assert_eq!(decide_action(false, &current, Some(&stored), true), CacheAction::Compile);
    let mut stored = meta();
    stored.debug = true;
    assert_eq!(decide_action(false, &current, Some(&stored), true), CacheAction::Compile);
    let mut stored = meta();
    stored.path = None;
    assert_eq!(decide_action(false, &current, Some(&stored), true), CacheAction::Compile);
    let mut stored = meta();
    stored.deps[0].1 = "2".to_string();
    assert_eq!(decide_action(false, &current, Some(&stored), true), CacheAction::Compile);
}

#[test]
fn missing_metadata_artifact_or_force_compile() {
    let current = meta();
    assert_eq!(decide_action(false, &current, None, true), CacheAction::Compile);
    let stored = meta();
    assert_eq!(decide_action(false, &current, Some(&stored), false), CacheAction::Compile);
    assert_eq!(decide_action(true, &current, Some(&stored), true), CacheAction::Compile);
}

#[test]
fn metadata_equality_is_field_wise() {
    assert!(metadata_eq(&meta(), &meta()));
    let mut other = meta();
    other.deps.push(("bar".to_string(), "*".to_string()));
    assert!(!metadata_eq(&meta(), &other));
}

#[test]
fn cache_action_for_computes_slot_and_metadata() {
    let input = Input::Expr { content: "1".to_string() };
    let (action, pkg_path, m) = cache_action_for(
        &input,
        false,
        true,
        vec![],
        true,
        "/cache/script-cache",
        None,
        false,
    );
    assert_eq!(action, CacheAction::Compile);
    assert_eq!(pkg_path, "/cache/script-cache/expr-stub");
    assert_eq!(m.path, None);
    assert_eq!(m.modified, None);
    assert!(m.debug);
}

#[test]
fn current_metadata_snapshots_file_facts() {
    let input = Input::File {
        name: "t".to_string(),
        path: "/a/t.rs".to_string(),
        content: "fn main(){}".to_string(),
        modified: 77,
    };
    let m = current_metadata(&input, false, vec![]);
    assert_eq!(m.path.as_deref(), Some("/a/t.rs"));
    assert_eq!(m.modified, Some(77));
}

// --- paths ---

#[test]
fn path_helpers_join_as_expected() {
    assert_eq!(get_pkg_metadata_path("/c/slot"), "/c/slot/metadata.json");
    assert_eq!(get_cache_path("/home/u/.cache/Cargo"), "/home/u/.cache/Cargo/script-cache");
    let input = Input::Expr { content: "1".to_string() };
    let m = current_metadata(&input, true, vec![]);
    assert_eq!(get_exe_path(&input, "/c/slot", &m, ""), "/c/slot/target/debug/expr");
    let m2 = current_metadata(&input, false, vec![]);
    assert_eq!(get_exe_path(&input, "/c/slot", &m2, ".exe"), "/c/slot/target/release/expr.exe");
}

// --- the janitor ---

#[test]
fn slot_exactly_at_the_cutoff_is_retained() {
    // strict "older than": at now - max_age the slot stays.
    let now = 10_000;
    let max_age = 1_000;
    assert!(!should_remove_slot(Some(9_000), now, max_age));
    assert!(should_remove_slot(Some(8_999), now, max_age));
    assert!(!should_remove_slot(Some(9_001), now, max_age));
    assert!(should_remove_slot(None, now, max_age));
}

#[test]
fn zero_age_sweep_deletes_every_slot() {
    // Three slots, only one with valid recent metadata: a zero allowed age
    // removes them all.
    let now = 50_000;
    let slots = vec![
        ("slot-a".to_string(), Some(49_999)),
        ("slot-b".to_string(), Some(10)),
        ("slot-c".to_string(), None),
    ];
    let gone = plan_sweep(slots, now, 0);
    assert_eq!(gone, vec!["slot-a".to_string(), "slot-b".to_string(), "slot-c".to_string()]);
}

#[test]
fn aged_sweep_keeps_fresh_slots() {
    let now = 50_000;
    let slots = vec![
        ("old".to_string(), Some(10)),
        ("fresh".to_string(), Some(49_999)),
        ("broken".to_string(), None),
    ];
    let gone = plan_sweep(slots, now, 1_000);
    assert_eq!(gone, vec!["old".to_string(), "broken".to_string()]);
}

// --- wrapping sources without an entry point ---

#[test]
fn detects_an_entry_point_textually() {
    assert!(contains_fn_main("fn main() {}"));
    assert!(contains_fn_main("mod x;\nfn main() { x::go() }"));
    // The check is purely textual, so a longer name still matches.
    assert!(contains_fn_main("fn mainly() {}"));
    assert!(!contains_fn_main("fn run() {}"));
    assert!(!contains_fn_main(""));
}

#[test]
fn wraps_source_with_extern_imports() {
    let libs = vec!["alpha".to_string(), "beta".to_string()];
    let out = script_with_externs("  do_it();  ", &libs);
    assert_eq!(
        out,
        "extern crate alpha;\nextern crate beta;\n\nfn main() {\ndo_it();\n}"
    );
}

#[test]
fn script_candidates_respect_an_existing_extension() {
    assert_eq!(script_candidates("dir/tool.rs"), vec!["dir/tool.rs".to_string()]);
    assert_eq!(
        script_candidates("dir/tool"),
        vec!["dir/tool".to_string(), "dir/tool.crs".to_string(), "dir/tool.rs".to_string()]
    );
}
