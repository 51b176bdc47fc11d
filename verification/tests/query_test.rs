use tracegrep::analysis::codepaths::graph::InternalFile;
use tracegrep::analysis::codepaths::types::{CallGraph, Language};
use tracegrep::analysis::codepaths::{build_graph_from_artifacts, merge_graphs};
use tracegrep::commands::query::{enrich_match, Colors, ColorChoice, JsonContext, MatchContext, MatchEnrichment, QueryState, rg_exit_ok};
use tracegrep::graph_cache::file_artifact;
use tracegrep::query_data::QueryCachePayload;

const DEFAULT_DEPTH: usize = 1;
const DEFAULT_MAX_CONTEXT: usize = 5;

const QUERY_TEST_MAIN: &str = r#"fn main() {
    router("GET");
    register_handler(validate_body);
}

fn router(method: &str) {
    if method == "POST" {
        validate_body();
    }
    handle(method);
}

fn validate_body() {
    println!("validating");
}

fn register_handler(_handler: fn()) {}

fn handle(method: &str) {}
"#;

const QUERY_TEST_INTEGRATION: &str = r#"fn test_validate_body() {
    validate_body();
}
"#;

/// The query payload of some files, one graph per language merged in the
/// order of the languages.
fn payload(files: &[(&str, &str, Language)], include_tests: bool) -> QueryCachePayload {
    let mut graphs: Vec<CallGraph> = Vec::new();
    for language in [Language::Rust, Language::Python, Language::JavaScript, Language::Jsx, Language::Svelte,
        Language::TypeScript, Language::Tsx] {
        let mut artifacts = Vec::new();
        for (path, source, l) in files {
            if *l == language {
                if let Some(artifact) = file_artifact(source, path, include_tests, language) {
                    artifacts.push(InternalFile { path: path.to_string(), artifact });
                }
            }
        }
        if !artifacts.is_empty() {
            graphs.push(build_graph_from_artifacts(&artifacts));
        }
    }
    QueryCachePayload::from_graph(merge_graphs(&graphs))
}

fn query_test_payload(include_tests: bool) -> QueryCachePayload {
    let mut files = vec![("src/main.rs", QUERY_TEST_MAIN, Language::Rust)];
    if include_tests {
        files.push(("tests/integration.rs", QUERY_TEST_INTEGRATION, Language::Rust));
    }
    payload(&files, include_tests)
}

fn json_context(p: &QueryCachePayload, e: &MatchEnrichment, max: usize, include_test_callers: bool) -> JsonContext {
    let m = MatchContext::new(&e.callers, &e.references, max);
    JsonContext::new(&e.callers, &e.references, &m, include_test_callers)
}

fn caller_names(j: &JsonContext) -> Vec<String> {
    j.callers.iter().map(|c| c.function.clone()).collect()
}

#[test]
fn test_query_json_output() {
    let p = query_test_payload(false);
    // "validate_body" matches lines 3, 8, 13 of src/main.rs.
    let mut enriched = 0;
    for line in [3, 8, 13] {
        if let Some(e) = enrich_match(&p, "src/main.rs", line, DEFAULT_DEPTH) {
            enriched += 1;
            let node = &p.graph.nodes[e.node];
            assert_eq!(node.language, Language::Rust);
        }
    }
    assert_eq!(enriched, 3);
}

#[test]
fn test_query_shows_branch_conditions() {
    let p = query_test_payload(false);
    let e = enrich_match(&p, "src/main.rs", 13, DEFAULT_DEPTH).unwrap();
    let j = json_context(&p, &e, DEFAULT_MAX_CONTEXT, false);
    let router = j.callers.iter().find(|c| c.function == "router").expect("router caller");
    assert!(!router.conditions.is_empty());
    assert_eq!(router.conditions, vec!["method == \"POST\"".to_string()]);
}

#[test]
fn test_query_json_output_includes_function_line() {
    let p = query_test_payload(false);
    // "validating" is on line 14, inside validate_body.
    let e = enrich_match(&p, "src/main.rs", 14, DEFAULT_DEPTH).unwrap();
    let node = &p.graph.nodes[e.node];
    assert_eq!(node.name, "validate_body");
    assert_eq!(node.line, 13);
}

#[test]
fn test_query_location_header_includes_function_definition_line() {
    let p = query_test_payload(false);
    let e = enrich_match(&p, "src/main.rs", 14, DEFAULT_DEPTH).unwrap();
    let node = &p.graph.nodes[e.node];
    let colors = Colors::new(ColorChoice::Never, false);
    let location = colors.format_location("src/main.rs", &node.name, node.line);
    assert!(location.contains("src/main.rs:validate_body:13"), "{location}");
}

#[test]
fn test_query_hides_test_callers_by_default() {
    let p = query_test_payload(true);
    let e = enrich_match(&p, "src/main.rs", 13, DEFAULT_DEPTH).unwrap();
    let hidden = json_context(&p, &e, DEFAULT_MAX_CONTEXT, false);
    assert!(!caller_names(&hidden).contains(&"test_validate_body".to_string()));
    assert_eq!(hidden.hidden_test_callers, Some(1));
    let shown = json_context(&p, &e, DEFAULT_MAX_CONTEXT, true);
    assert!(caller_names(&shown).contains(&"test_validate_body".to_string()));
    assert_eq!(shown.hidden_test_callers, Some(0));
}

#[test]
fn test_query_shows_references_separately_from_callers() {
    let p = query_test_payload(false);
    let e = enrich_match(&p, "src/main.rs", 13, DEFAULT_DEPTH).unwrap();
    let j = json_context(&p, &e, DEFAULT_MAX_CONTEXT, false);
    assert_eq!(caller_names(&j), vec!["router".to_string()]);
    assert_eq!(j.references.len(), 1);
    assert_eq!(j.references[0].function, "main");
    assert_eq!(j.references[0].context.as_deref(), Some("passed to register_handler"));
}

#[test]
fn unmatched_lines_are_not_enriched() {
    let p = query_test_payload(false);
    assert!(enrich_match(&p, "src/main.rs", 5, DEFAULT_DEPTH).is_none());
    assert!(enrich_match(&p, "src/other.rs", 13, DEFAULT_DEPTH).is_none());
}

const HOT_SOURCE: &str = r#"fn target() {}

fn caller_1() { target(); }
fn caller_2() { target(); }
fn caller_3() { target(); }
fn caller_4() { target(); }
fn caller_5() { target(); }
fn caller_6() { target(); }

fn feeder_1() { caller_6(); }
fn feeder_2() { caller_6(); }

fn sink(_f: fn()) {}
fn register_1() { sink(target); }
fn register_2() { sink(target); }
fn register_3() { sink(target); }
fn register_4() { sink(target); }
fn register_5() { sink(target); }
fn register_6() { sink(target); }

fn ref_feeder_1() { register_6(); }
fn ref_feeder_2() { register_6(); }
"#;

#[test]
fn test_query_limits_context_by_default_and_prefers_hotter_entries() {
    let p = payload(&[("src/main.rs", HOT_SOURCE, Language::Rust)], false);
    let e = enrich_match(&p, "src/main.rs", 1, DEFAULT_DEPTH).unwrap();
    let j = json_context(&p, &e, DEFAULT_MAX_CONTEXT, false);
    assert_eq!(j.callers.len(), 5);
    assert_eq!(j.references.len(), 5);
    assert_eq!(j.hidden_callers, Some(1));
    assert_eq!(j.hidden_references, Some(1));
    assert_eq!(j.callers[0].function, "caller_6");
    assert_eq!(j.references[0].function, "register_6");
}

const MORE_SOURCE: &str = r#"fn target() {}

fn caller_1() { target(); }
fn caller_2() { target(); }
fn caller_3() { target(); }
fn caller_4() { target(); }
fn caller_5() { target(); }
fn caller_6() { target(); }

fn sink(_f: fn()) {}
fn register_1() { sink(target); }
fn register_2() { sink(target); }
fn register_3() { sink(target); }
fn register_4() { sink(target); }
fn register_5() { sink(target); }
fn register_6() { sink(target); }
"#;

#[test]
fn test_query_can_show_more_context_with_max_context() {
    let p = payload(&[("src/main.rs", MORE_SOURCE, Language::Rust)], false);
    let e = enrich_match(&p, "src/main.rs", 1, DEFAULT_DEPTH).unwrap();
    let j = json_context(&p, &e, 10, false);
    assert_eq!(j.callers.len(), 6);
    assert_eq!(j.references.len(), 6);
    assert!(j.hidden_callers.is_none());
    assert!(j.hidden_references.is_none());
}

#[test]
fn test_query_does_not_cross_resolve_languages() {
    let py = "def shared():\n    return \"py\"\n";
    let ts = "function shared() {\n  return \"ts\";\n}\n\nfunction render() {\n  shared();\n}\n";
    let p = payload(&[("app.py", py, Language::Python), ("app.ts", ts, Language::TypeScript)], false);
    let e = enrich_match(&p, "app.py", 1, DEFAULT_DEPTH).unwrap();
    let j = json_context(&p, &e, DEFAULT_MAX_CONTEXT, false);
    assert!(j.callers.is_empty());
    let e = enrich_match(&p, "app.ts", 1, DEFAULT_DEPTH).unwrap();
    let j = json_context(&p, &e, DEFAULT_MAX_CONTEXT, false);
    assert!(caller_names(&j).contains(&"render".to_string()));
}

#[test]
fn test_query_finds_calls_inside_macro_invocations() {
    let source = r#"fn run() {
    tokio::select! {
        result = async_op() => {
            handle_result(result);
        }
        _ = shutdown() => {
            cleanup();
        }
    }
}

fn async_op() {}
fn handle_result(_r: ()) {}
fn shutdown() {}
fn cleanup() {}
"#;
    let p = payload(&[("src/main.rs", source, Language::Rust)], false);
    // "handle_result" matches lines 4 and 13; the definition is what has callers.
    let e = enrich_match(&p, "src/main.rs", 13, DEFAULT_DEPTH).unwrap();
    let j = json_context(&p, &e, DEFAULT_MAX_CONTEXT, false);
    assert!(caller_names(&j).contains(&"run".to_string()));
}

#[test]
fn test_query_finds_calls_inside_assert_macro() {
    let source = r#"fn check() {
    assert!(validate());
    assert_eq!(compute(), 42);
}

fn validate() -> bool { true }
fn compute() -> i32 { 42 }
"#;
    let p = payload(&[("src/main.rs", source, Language::Rust)], false);
    let e = enrich_match(&p, "src/main.rs", 6, DEFAULT_DEPTH).unwrap();
    let j = json_context(&p, &e, DEFAULT_MAX_CONTEXT, false);
    assert!(caller_names(&j).contains(&"check".to_string()));
}

#[test]
fn deeper_walks_reach_callers_of_callers() {
    let p = query_test_payload(false);
    let e = enrich_match(&p, "src/main.rs", 13, 2).unwrap();
    let j = json_context(&p, &e, DEFAULT_MAX_CONTEXT, false);
    let names = caller_names(&j);
    assert_eq!(names[0], "router");
    assert!(names.contains(&"main".to_string()));
    let main = j.callers.iter().find(|c| c.function == "main").unwrap();
    assert_eq!(main.depth, 2);
}

#[test]
fn each_match_is_shown_once_with_its_context() {
    let mut state = QueryState::new();
    let mut blocks = Vec::new();
    assert!(state.on_context("a.rs", 1, "before", 1).is_none());
    blocks.extend(state.on_match("a.rs", 2, "first".to_string(), 1, "a.rs".to_string(), Vec::new()));
    assert!(state.on_context("a.rs", 3, "after", 1).is_none());
    blocks.extend(state.on_match("a.rs", 4, "second".to_string(), 1, "a.rs".to_string(), Vec::new()));
    if let Some(b) = state.on_context("b.rs", 9, "other file", 1) {
        blocks.push(b);
    }
    blocks.extend(state.on_match("b.rs", 10, "third".to_string(), 1, "b.rs".to_string(), Vec::new()));
    if let Some(b) = state.finish() {
        blocks.push(b);
    }
    let positions: Vec<(&str, usize)> = blocks.iter().map(|b| (b.file.as_str(), b.match_line_number)).collect();
    assert_eq!(positions, vec![("a.rs", 2), ("a.rs", 4), ("b.rs", 10)]);
    let first: Vec<usize> = blocks[0].code_lines.iter().map(|l| l.line_number).collect();
    assert_eq!(first, vec![1, 2, 3]);
    // Line 3 was shown after the first match, so the second shows only itself.
    let second: Vec<usize> = blocks[1].code_lines.iter().map(|l| l.line_number).collect();
    assert_eq!(second, vec![4]);
    let third: Vec<usize> = blocks[2].code_lines.iter().map(|l| l.line_number).collect();
    assert_eq!(third, vec![9, 10]);
}

#[test]
fn ripgrep_exit_codes() {
    assert!(rg_exit_ok(true, Some(0)));
    assert!(rg_exit_ok(false, Some(1)));
    assert!(!rg_exit_ok(false, Some(2)));
    assert!(!rg_exit_ok(false, None));
}

#[test]
fn callers_are_found_at_their_least_depth() {
    // A and B call target; B also calls A; C calls B.
    let source = "fn target() {}\nfn a() { target(); }\nfn b() { target(); a(); }\nfn c() { b(); }\n";
    let p = payload(&[("src/main.rs", source, Language::Rust)], false);
    let e = enrich_match(&p, "src/main.rs", 1, 2).unwrap();
    let j = json_context(&p, &e, 10, false);
    let by_depth: Vec<(String, usize)> = e.callers.primary.iter().map(|c| (c.function.clone(), c.depth)).collect();
    assert!(by_depth.contains(&("a".to_string(), 1)));
    assert!(by_depth.contains(&("b".to_string(), 1)));
    assert!(by_depth.contains(&("c".to_string(), 2)));
    assert_eq!(j.callers.len(), 3);
}
