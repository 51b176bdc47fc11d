use tracegrep::analysis::codepaths::sources::SourceFile;
use tracegrep::analysis::codepaths::types::Language;
use tracegrep::graph_cache::{
    build_language_plans, cache_dir, language_outcome, reused_meta, full_state, can_reuse_query_cache, committed_diff_base, file_artifact, graph_cache_path,
    hex_hash, merge_mode, parse_name_status_z, parse_untracked_z, query_cache_metadata_path, query_cache_path,
    query_cache_verdict, query_cache_metadata_from, repo_cache_dir, shared_previous_head, state_cache_path,
    state_metadata_path, LanguageCacheAction, LanguageCachePlan, LoadGraphMode, QueryCacheVerdict, RepoStatusSnapshot, StateMetadata,
    SCHEMA_VERSION,
};

fn strings(v: &[&str]) -> Vec<String> {
    v.iter().map(|s| s.to_string()).collect()
}

fn meta(language: Language, head: &str) -> StateMetadata {
    StateMetadata {
        schema_version: SCHEMA_VERSION,
        repo_path: "/repo".to_string(),
        include_tests: false,
        language,
        head: head.to_string(),
        content_fingerprint: "f".to_string(),
        file_count: 1,
    }
}

fn snapshot(current: &str, previous: Option<&str>, committed: &[u8], dirty: &[u8], untracked: &[u8]) -> RepoStatusSnapshot {
    RepoStatusSnapshot::from_git_output(current, previous, committed, dirty, untracked)
}

fn no_files() -> Vec<Vec<SourceFile>> {
    (0..7).map(|_| Vec::new()).collect()
}

fn no_metas() -> Vec<Option<StateMetadata>> {
    (0..7).map(|_| None).collect()
}

fn rust_plans(state_head: &str, snap: &RepoStatusSnapshot) -> Vec<LanguageCachePlan> {
    let mut files = no_files();
    files[0] = vec![SourceFile { relative: "src/main.rs".to_string(), path: "/repo/src/main.rs".to_string() }];
    let mut metas = no_metas();
    metas[0] = Some(meta(Language::Rust, state_head));
    let plans = build_language_plans("/repo", false, &snap.current_head, &files, &metas, snap);
    assert_eq!(plans.len(), 7);
    for plan in &plans[1..] {
        assert!(matches!(plan.action, LanguageCacheAction::Skip));
    }
    plans
}

#[test]
fn plan_reuses_same_head_when_clean() {
    let snap = snapshot("h1", None, b"", b"", b"");
    assert!(matches!(rust_plans("h1", &snap)[0].action, LanguageCacheAction::Reuse));
}

#[test]
fn plan_refreshes_head_on_docs_only_change() {
    let snap = snapshot("h2", Some("h1"), b"M\0README.md\0", b"", b"");
    assert_eq!(snap.committed_paths, strings(&["README.md"]));
    assert!(matches!(rust_plans("h1", &snap)[0].action, LanguageCacheAction::RefreshHeadOnly));
}

#[test]
fn plan_updates_modified_untracked_and_deleted_files() {
    let snap = snapshot("h1", None, b"", b"M\0src/lib.rs\0D\0src/old.rs\0", b"src/new.rs\0notes.txt\0");
    match &rust_plans("h1", &snap)[0].action {
        LanguageCacheAction::Incremental { changed_files } => {
            assert_eq!(*changed_files, strings(&["src/lib.rs", "src/new.rs", "src/old.rs"]));
        }
        _ => panic!("expected an incremental update"),
    }
}

#[test]
fn production_plan_ignores_test_only_changes() {
    let snap = snapshot("h1", None, b"", b"M\0tests/it.rs\0", b"");
    assert!(matches!(rust_plans("h1", &snap)[0].action, LanguageCacheAction::Reuse));
}

#[test]
fn plan_rebuilds_when_the_cache_head_is_unknown() {
    let snap = snapshot("h3", Some("h2"), b"", b"", b"");
    assert!(matches!(rust_plans("h1", &snap)[0].action, LanguageCacheAction::FullRebuild));
}

#[test]
fn plans_without_cache_rebuild_or_skip() {
    let snap = snapshot("h1", None, b"", b"", b"");
    let mut files = no_files();
    files[1] = vec![SourceFile { relative: "app.py".to_string(), path: "/repo/app.py".to_string() }];
    let metas = no_metas();
    let plans = build_language_plans("/repo", false, "h1", &files, &metas, &snap);
    assert!(matches!(plans[0].action, LanguageCacheAction::Skip));
    assert!(matches!(plans[1].action, LanguageCacheAction::FullRebuild));
    assert_eq!(plans[1].language, Language::Python);
    assert!(!can_reuse_query_cache(&plans));
    let mut metas = no_metas();
    metas[0] = Some(meta(Language::Python, "h1"));
    let plans = build_language_plans("/repo", false, "h1", &no_files(), &metas, &snap);
    // A summary written for another language is not used.
    assert!(plans[0].state_meta.is_none());
    assert!(can_reuse_query_cache(&plans));
}

#[test]
fn name_status_records() {
    let out = b"M\0src/a.rs\0R100\0src/old.rs\0src/new.rs\0A\0b.py\0C75\0x.rs\0";
    assert_eq!(parse_name_status_z(out), strings(&["src/a.rs", "src/old.rs", "src/new.rs", "b.py"]));
    assert!(parse_name_status_z(b"").is_empty());
}

#[test]
fn untracked_paths_keep_utf8_only() {
    let out = b"a.rs\0\0\xff\xfe.rs\0dir/b.ts";
    assert_eq!(parse_untracked_z(out), strings(&["a.rs", "dir/b.ts"]));
}

#[test]
fn committed_diff_needed_only_across_heads() {
    assert_eq!(committed_diff_base(Some("h1"), "h2"), Some("h1".to_string()));
    assert_eq!(committed_diff_base(Some("h2"), "h2"), None);
    assert_eq!(committed_diff_base(None, "h2"), None);
    let snap = snapshot("h2", Some("h2"), b"M\0src/a.rs\0", b"", b"");
    assert!(snap.committed_paths.is_empty());
}

#[test]
fn shared_head_of_the_caches() {
    let metas = vec![Some(meta(Language::Rust, "h1")), None, Some(meta(Language::Python, "h1")), Some(meta(Language::Svelte, "h2"))];
    assert_eq!(shared_previous_head(&metas, "h2"), Some("h1".to_string()));
    let metas = vec![Some(meta(Language::Rust, "h1")), Some(meta(Language::Python, "h0"))];
    assert_eq!(shared_previous_head(&metas, "h2"), None);
    assert_eq!(shared_previous_head(&Vec::new(), "h2"), None);
}

#[test]
fn cache_file_names() {
    assert_eq!(graph_cache_path("/c", false, Language::Rust), "/c/codepaths.v5.rust.prod.graph");
    assert_eq!(state_cache_path("/c", true, Language::Tsx), "/c/codepaths.v5.tsx.with-tests.state.json");
    assert_eq!(state_metadata_path("/c", false, Language::Python), "/c/codepaths.v5.python.prod.state-meta.json");
    assert_eq!(query_cache_path("/c", false), "/c/query-cache.v5.prod.bin");
    assert_eq!(query_cache_metadata_path("/c", true), "/c/query-cache.v5.with-tests.meta.json");
}

#[test]
fn cache_dir_can_be_overridden() {
    assert_eq!(cache_dir(None, "/work/repo", Some("repo")), "/work/repo/.git/tracegrep");
    assert_eq!(cache_dir(Some(""), "/work/repo", Some("repo")), "/work/repo/.git/tracegrep");
    let dir = cache_dir(Some("/tmp/tg"), "abc", Some("proj"));
    assert_eq!(dir, "/tmp/tg/proj-ba7816bf8f01cfea");
    assert_eq!(
        graph_cache_path(&cache_dir(None, "/work/repo", Some("repo")), false, Language::Rust),
        "/work/repo/.git/tracegrep/codepaths.v5.rust.prod.graph"
    );
}

#[test]
fn hashes_and_repo_dirs() {
    assert_eq!(hex_hash(b""), "e3b0c44298fc1c149afbf4c8996fb92427ae41e4649b934ca495991b7852b855");
    assert_eq!(hex_hash(b"abc"), "ba7816bf8f01cfea414140de5dae2223b00361a396177a9cb410ff61f20015ad");
    let dir = repo_cache_dir("/c", "abc", Some("proj"));
    assert_eq!(dir, "/c/proj-ba7816bf8f01cfea");
    assert_eq!(repo_cache_dir("/c", "abc", None), "/c/repo-ba7816bf8f01cfea");
}

#[test]
fn modes_merge_to_the_heavier() {
    assert_eq!(merge_mode(LoadGraphMode::Reused, LoadGraphMode::Incremental), LoadGraphMode::Incremental);
    assert_eq!(merge_mode(LoadGraphMode::FullRebuild, LoadGraphMode::Incremental), LoadGraphMode::FullRebuild);
    assert_eq!(merge_mode(LoadGraphMode::Reused, LoadGraphMode::Reused), LoadGraphMode::Reused);
}

#[test]
fn query_cache_freshness() {
    let m = query_cache_metadata_from("/repo", false, "h1", "fp".to_string());
    assert_eq!(query_cache_verdict(&m, "/repo", false, "fp", "h1"), QueryCacheVerdict::Fresh { rewrite_head: false });
    assert_eq!(query_cache_verdict(&m, "/repo", false, "fp", "h2"), QueryCacheVerdict::Fresh { rewrite_head: true });
    assert_eq!(query_cache_verdict(&m, "/repo", true, "fp", "h1"), QueryCacheVerdict::Stale);
    assert_eq!(query_cache_verdict(&m, "/repo", false, "other", "h1"), QueryCacheVerdict::Stale);
}

#[test]
fn file_artifact_hash_is_the_hex_digest() {
    let source = "fn main() { hello(); }\nfn hello() {}\n";
    let artifact = file_artifact(source, "src/main.rs", false, Language::Rust).unwrap();
    assert_eq!(artifact.source_hash, hex_hash(source.as_bytes()));
    assert_eq!(artifact.functions.len(), 2);
}

#[test]
fn name_status_paths_replace_invalid_utf8() {
    assert_eq!(parse_name_status_z(b"M\0a\xffb.rs\0"), vec!["a\u{FFFD}b.rs".to_string()]);
}

fn sources(paths: &[&str]) -> Vec<SourceFile> {
    paths.iter().map(|p| SourceFile { relative: p.to_string(), path: format!("/repo/{p}") }).collect()
}

#[test]
fn load_outcomes_follow_the_plan() {
    let current = sources(&["src/a.rs", "src/b.rs"]);
    let o = language_outcome(&LanguageCacheAction::Reuse, false, &current).unwrap();
    assert_eq!(o.mode, LoadGraphMode::Reused);
    assert!(o.changed_files.is_empty());
    let o = language_outcome(&LanguageCacheAction::RefreshHeadOnly, false, &current).unwrap();
    assert_eq!(o.mode, LoadGraphMode::Reused);
    let action = LanguageCacheAction::Incremental { changed_files: strings(&["src/b.rs"]) };
    let o = language_outcome(&action, false, &current).unwrap();
    assert_eq!(o.mode, LoadGraphMode::Incremental);
    assert_eq!(o.changed_files, strings(&["src/b.rs"]));
    let o = language_outcome(&action, true, &current).unwrap();
    assert_eq!(o.mode, LoadGraphMode::FullRebuild);
    assert_eq!(o.changed_files, strings(&["src/a.rs", "src/b.rs"]));
    let o = language_outcome(&LanguageCacheAction::FullRebuild, false, &current).unwrap();
    assert_eq!(o.mode, LoadGraphMode::FullRebuild);
    assert_eq!(o.changed_files, strings(&["src/a.rs", "src/b.rs"]));
    assert!(language_outcome(&LanguageCacheAction::Skip, false, &current).is_none());
}

#[test]
fn refreshed_summaries_move_to_the_current_head() {
    let m = meta(Language::Rust, "h1");
    assert_eq!(reused_meta(&m, &LanguageCacheAction::RefreshHeadOnly, "h2").head, "h2");
    assert_eq!(reused_meta(&m, &LanguageCacheAction::Reuse, "h2").head, "h1");
    let state = full_state("/repo", false, Language::Python, "h3", Vec::new());
    assert_eq!(state.head, "h3");
    assert_eq!(state.schema_version, SCHEMA_VERSION);
    assert_eq!(state.language, Language::Python);
}
