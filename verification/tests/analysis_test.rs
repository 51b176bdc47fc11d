use tracegrep::analysis::is_test_file;
use tracegrep::analysis::codepaths::sources::language_for_path;
use tracegrep::analysis::codepaths::types::Language;
use tracegrep::analysis::codepaths::parsing::module_name_from_path;

#[test]
fn detects_test_paths() {
    assert!(is_test_file("tests/foo.rs"));
    assert!(is_test_file("src/test/bar.py"));
    assert!(is_test_file("src/__tests__/baz.ts"));
    assert!(is_test_file("src/foo_test.rs"));
    assert!(is_test_file("src/foo.spec.ts"));
    assert!(is_test_file("tests/test_foo.py"));
}

#[test]
fn ignores_non_test_paths() {
    assert!(!is_test_file("src/main.rs"));
    assert!(!is_test_file("src/latest.rs"));
    assert!(!is_test_file("Cargo.toml"));
}

#[test]
fn test_file_edge_cases() {
    assert!(is_test_file("/tests/a.rs"));
    assert!(is_test_file("pkg/widget_spec.rb"));
    assert!(is_test_file("ui/button.test.tsx"));
    assert!(!is_test_file(".gitignore"));
    assert!(!is_test_file("src/contest.rs"));
}

#[test]
fn dot_first_names_have_an_empty_stem() {
    assert!(!is_test_file(".test"));
    assert!(!is_test_file("dir/.spec"));
    assert!(!is_test_file("src/._spec"));
    assert!(is_test_file("a.test.ts"));
    assert!(is_test_file("src/.x.test.js"));
}

#[test]
fn languages_follow_extensions() {
    assert!(matches!(language_for_path("src/main.rs"), Some(Language::Rust)));
    assert!(matches!(language_for_path("app.py"), Some(Language::Python)));
    assert!(matches!(language_for_path("a/b.js"), Some(Language::JavaScript)));
    assert!(matches!(language_for_path("Button.jsx"), Some(Language::Jsx)));
    assert!(matches!(language_for_path("Button.svelte"), Some(Language::Svelte)));
    assert!(matches!(language_for_path("ui.ts"), Some(Language::TypeScript)));
    assert!(matches!(language_for_path("ui.tsx"), Some(Language::Tsx)));
    assert!(language_for_path("README.md").is_none());
    assert!(language_for_path("Makefile").is_none());
}

#[test]
fn module_names_come_from_file_or_directory() {
    assert_eq!(module_name_from_path("src/graph_cache.rs"), "graph_cache");
    assert_eq!(module_name_from_path("src/sdk/mod.rs"), "sdk");
    assert_eq!(module_name_from_path("src/lib.rs"), "src");
    assert_eq!(module_name_from_path("main.rs"), "");
    assert_eq!(module_name_from_path("pkg/app.py"), "app");
}

#[test]
fn language_names_and_cache_keys() {
    assert_eq!(Language::Rust.display_name(), "Rust");
    assert_eq!(Language::Rust.cache_key(), "rust");
    assert_eq!(Language::all().len(), 7);
}
