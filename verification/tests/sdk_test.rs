use tracegrep::analysis::codepaths::build_graph_from_artifacts;
use tracegrep::analysis::codepaths::graph::InternalFile;
use tracegrep::analysis::codepaths::types::Language;
use tracegrep::graph_cache::{file_artifact, LoadGraphMode, LoadGraphOutcome, LoadQueryResult};
use tracegrep::query_data::QueryCachePayload;
use tracegrep::sdk::graph::repo_root_verdict;
use tracegrep::sdk::{Caller, Error, Graph, GraphBuilder, NodeId, Reference};

#[test]
fn error_is_send_sync_and_displays() {
    fn assert_send_sync<T: Send + Sync>() {}
    assert_send_sync::<Error>();

    let err = Error::RepoNotFound {
        path: "/nonexistent".into(),
    };
    let msg = err.message();
    assert!(msg.contains("/nonexistent"), "msg: {msg}");
}

#[test]
fn node_id_is_copy_and_debug() {
    fn assert_copy_debug<T: Copy + std::fmt::Debug>() {}
    assert_copy_debug::<NodeId>();
}

#[test]
fn caller_and_reference_have_expected_fields() {
    let caller = Caller {
        file: "src/main.rs".into(),
        function: "main".into(),
        qualified_name: "main".into(),
        line: 1,
        is_test: false,
        depth: 1,
        conditions: vec!["method == POST".into()],
    };
    assert_eq!(caller.file, "src/main.rs");
    assert_eq!(caller.depth, 1);

    let reference = Reference {
        file: "src/main.rs".into(),
        function: "register".into(),
        qualified_name: "register".into(),
        line: 5,
        is_test: false,
        context: Some("passed to register_handler".into()),
    };
    assert!(reference.context.is_some());
}

#[test]
fn error_messages_name_what_went_wrong() {
    assert_eq!(Error::NotGitRepo { path: "/tmp/x".into() }.message(), "not a git repository: /tmp/x");
    assert_eq!(Error::IndexBuild { reason: "boom".into() }.message(), "failed to build call graph: boom");
    assert_eq!(Error::ParseError { path: "a.rs".into() }.message(), "failed to parse source file: a.rs");
    assert_eq!(Error::Io("disk full".into()).message(), "disk full");
    assert_eq!(Error::from_anyhow("oops".into()).message(), "internal error: oops");
}

#[test]
fn builder_defaults_to_production_code() {
    let builder = GraphBuilder::new("/repo".to_string());
    assert_eq!(builder.repo_path(), "/repo");
    assert!(!builder.includes_tests());
    let builder = builder.include_tests(true);
    assert!(builder.includes_tests());
    assert_eq!(builder.repo_path(), "/repo");
}

const SDK_SOURCE: &str = r#"fn main() {
    router("GET");
    register_handler(validate_body);
}

fn router(method: &str) {
    if method == "POST" {
        validate_body();
    }
    handle(method);
}

fn validate_body() {
    println!("validating");
}

fn register_handler(_handler: fn()) {}

fn handle(method: &str) {}

fn orphan() {}
"#;

fn sdk_graph() -> Graph {
    let artifact = file_artifact(SDK_SOURCE, "src/main.rs", false, Language::Rust).unwrap();
    let files = vec![InternalFile { path: "src/main.rs".to_string(), artifact }];
    let payload = QueryCachePayload::from_graph(build_graph_from_artifacts(&files));
    let loaded = LoadQueryResult {
        payload,
        outcome: LoadGraphOutcome { mode: LoadGraphMode::FullRebuild, changed_files: vec!["src/main.rs".to_string()] },
    };
    Graph::from_load("/repo".to_string(), loaded).unwrap()
}

#[test]
fn graph_answers_callers_and_references() {
    let g = sdk_graph();
    assert_eq!(g.node_count(), 6);
    let v = g.functions_by_name("validate_body")[0];
    assert_eq!(g.function_at("src/main.rs", 14), Some(v));
    assert_eq!(g.function_line(v), 13);
    assert_eq!(g.function_end_line(v), 15);
    let callers = g.callers(v, 1);
    assert_eq!(callers.len(), 1);
    assert_eq!(callers[0].function, "router");
    assert_eq!(callers[0].conditions, vec!["method == \"POST\"".to_string()]);
    let deeper = g.callers(v, 2);
    assert_eq!(deeper.len(), 2);
    assert_eq!(deeper[1].function, "main");
    assert_eq!(deeper[1].depth, 2);
    assert!(g.callers(v, 0).is_empty());
    let refs = g.references(v);
    assert_eq!(refs.len(), 1);
    assert_eq!(refs[0].function, "main");
    assert_eq!(g.fan_in(v), 1);
    let router = g.functions_by_name("router")[0];
    assert_eq!(g.fan_out(router), 2);
}

#[test]
fn graph_lists_unreachable_functions() {
    let g = sdk_graph();
    let names: Vec<&str> = g.unreachable_functions().into_iter().map(|n| g.function_name(n)).collect();
    assert_eq!(names, vec!["orphan"]);
}

#[test]
fn repo_roots_are_checked() {
    assert!(repo_root_verdict("/repo", true, None).is_ok());
    assert!(repo_root_verdict("/repo", false, Some("/repo")).is_ok());
    match repo_root_verdict("/repo/src", false, Some("/repo")) {
        Err(e) => assert_eq!(e.message(), "not a git repository: /repo/src"),
        Ok(()) => panic!("a subdirectory is not the root"),
    }
    assert!(repo_root_verdict("/tmp", false, None).is_err());
}

#[test]
fn callers_come_at_least_depth_breadth_first() {
    // a and b call s; b also calls a; c calls b.
    let source = "fn s() {}\nfn a() { s(); }\nfn b() { s(); a(); }\nfn c() { b(); }\n";
    let artifact = file_artifact(source, "src/lib.rs", false, Language::Rust).unwrap();
    let files = vec![InternalFile { path: "src/lib.rs".to_string(), artifact }];
    let payload = QueryCachePayload::from_graph(build_graph_from_artifacts(&files));
    let loaded = LoadQueryResult {
        payload,
        outcome: LoadGraphOutcome { mode: LoadGraphMode::FullRebuild, changed_files: Vec::new() },
    };
    let g = Graph::from_load("/repo".to_string(), loaded).unwrap();
    let s = g.functions_by_name("s")[0];
    let callers: Vec<(String, usize)> = g.callers(s, 2).into_iter().map(|c| (c.function, c.depth)).collect();
    assert_eq!(callers, vec![("a".to_string(), 1), ("b".to_string(), 1), ("c".to_string(), 2)]);
}

#[test]
fn payloads_of_one_graph_have_the_same_indexes() {
    let build = || {
        let artifact = file_artifact(SDK_SOURCE, "src/main.rs", false, Language::Rust).unwrap();
        let files = vec![InternalFile { path: "src/main.rs".to_string(), artifact }];
        QueryCachePayload::from_graph(build_graph_from_artifacts(&files))
    };
    let p1 = build();
    let p2 = build();
    assert_eq!(p1.backward_calls, p2.backward_calls);
    assert_eq!(p1.backward_references, p2.backward_references);
    assert_eq!(p1.function_index.files, p2.function_index.files);
    assert_eq!(p1.function_index.files, vec!["src/main.rs".to_string()]);
    assert_eq!(p1.function_index.by_file.get("src/main.rs"), p2.function_index.by_file.get("src/main.rs"));
    assert_eq!(p1.function_index.by_file.get("src/main.rs").unwrap().len(), 6);
    for line in 0..25 {
        assert_eq!(p1.function_index.lookup("./src/main.rs", line), p2.function_index.lookup("src/main.rs", line));
    }
}
