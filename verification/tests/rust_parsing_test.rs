use tracegrep::analysis::codepaths::parsing::rust::extract;
use tracegrep::analysis::codepaths::parsing::syntax::parse_tree;
use tracegrep::analysis::codepaths::parsing::ParseContext;
use tracegrep::analysis::codepaths::types::{FunctionArtifact, Language};

fn parse_rust_calls(source: &str) -> Vec<FunctionArtifact> {
    let tree = parse_tree(Language::Rust, source).unwrap();
    let ctx = ParseContext {
        language: Language::Rust,
        module_name: "test".to_string(),
        file_is_test: false,
        include_tests: false,
    };
    extract(&tree, source.as_bytes(), &ctx).functions
}

fn callee_names(fns: &[FunctionArtifact], fn_name: &str) -> Vec<String> {
    fns.iter()
        .find(|f| f.name == fn_name)
        .map(|f| f.call_sites.iter().map(|c| c.callee_name.clone()).collect())
        .unwrap_or_default()
}

#[test]
fn test_calls_inside_macro_select_are_found() {
    let source = r#"
fn run() {
    tokio::select! {
        result = async_op() => {
            handle_result(result);
        }
        _ = shutdown() => {
            cleanup();
        }
    }
}

fn async_op() {}
fn handle_result(_r: ()) {}
fn shutdown() {}
fn cleanup() {}
"#;
    let fns = parse_rust_calls(source);
    let callees = callee_names(&fns, "run");
    assert!(
        callees.contains(&"async_op".to_string()),
        "expected async_op in callees of run(), got: {callees:?}"
    );
    assert!(
        callees.contains(&"handle_result".to_string()),
        "expected handle_result in callees of run(), got: {callees:?}"
    );
    assert!(
        callees.contains(&"cleanup".to_string()),
        "expected cleanup in callees of run(), got: {callees:?}"
    );
}

#[test]
fn test_calls_inside_assert_macro_are_found() {
    let source = r#"
fn check() {
    assert!(validate());
    assert_eq!(compute(), 42);
}

fn validate() -> bool { true }
fn compute() -> i32 { 42 }
"#;
    let fns = parse_rust_calls(source);
    let callees = callee_names(&fns, "check");
    assert!(
        callees.contains(&"validate".to_string()),
        "expected validate in callees of check(), got: {callees:?}"
    );
    assert!(
        callees.contains(&"compute".to_string()),
        "expected compute in callees of check(), got: {callees:?}"
    );
}

#[test]
fn test_calls_outside_macro_still_work() {
    let source = r#"
fn main() {
    hello();
    world();
}

fn hello() {}
fn world() {}
"#;
    let fns = parse_rust_calls(source);
    let callees = callee_names(&fns, "main");
    assert!(callees.contains(&"hello".to_string()));
    assert!(callees.contains(&"world".to_string()));
}

#[test]
fn test_nested_macro_calls_are_found() {
    let source = r#"
fn process() {
    println!("{}", format_data());
    vec![create_item()];
}

fn format_data() -> String { String::new() }
fn create_item() -> i32 { 0 }
"#;
    let fns = parse_rust_calls(source);
    let callees = callee_names(&fns, "process");
    assert!(
        callees.contains(&"format_data".to_string()),
        "expected format_data in callees of process(), got: {callees:?}"
    );
    assert!(
        callees.contains(&"create_item".to_string()),
        "expected create_item in callees of process(), got: {callees:?}"
    );
}

#[test]
fn rust_functions_carry_lines_conditions_and_references() {
    let source = "fn main() {\n    register_handler(validate_body);\n}\n\nfn router(method: &str) {\n    if method == \"POST\" {\n        validate_body();\n    } else {\n        reject();\n    }\n}\n\nfn validate_body() {\n}\n";
    let fns = parse_rust_calls(source);
    let names: Vec<&str> = fns.iter().map(|f| f.name.as_str()).collect();
    assert_eq!(names, vec!["main", "router", "validate_body"]);
    let main = &fns[0];
    assert_eq!(main.qualified_name, "test::main");
    assert_eq!((main.line, main.end_line), (1, 3));
    assert_eq!(main.reference_sites.len(), 1);
    assert_eq!(main.reference_sites[0].target_name, "validate_body");
    assert_eq!(main.reference_sites[0].context.as_deref(), Some("passed to register_handler"));
    let router = &fns[1];
    assert_eq!(router.call_sites.len(), 2);
    assert_eq!(router.call_sites[0].callee_name, "validate_body");
    assert_eq!(router.call_sites[0].conditions, vec!["method == \"POST\"".to_string()]);
    assert_eq!(router.call_sites[1].callee_name, "reject");
    assert_eq!(router.call_sites[1].conditions, vec!["!(method == \"POST\")".to_string()]);
}

#[test]
fn rust_test_functions_are_left_out_unless_kept() {
    let source = "fn real() { helper(); }\n\n#[test]\nfn checks() { real(); }\n\n#[cfg(test)]\nmod tests {\n    fn inner() {}\n}\n";
    let fns = parse_rust_calls(source);
    let names: Vec<&str> = fns.iter().map(|f| f.name.as_str()).collect();
    assert_eq!(names, vec!["real"]);

    let tree = parse_tree(Language::Rust, source).unwrap();
    let ctx = ParseContext {
        language: Language::Rust,
        module_name: String::new(),
        file_is_test: false,
        include_tests: true,
    };
    let all = extract(&tree, source.as_bytes(), &ctx).functions;
    let names: Vec<(&str, bool)> = all.iter().map(|f| (f.name.as_str(), f.is_test)).collect();
    assert_eq!(names, vec![("real", false), ("checks", true), ("inner", true)]);
    assert_eq!(all[0].qualified_name, "real");
}

#[test]
fn rust_if_let_and_match_conditions() {
    let source = "fn f(x: Option<u8>) {\n    if let Some(v) = x {\n        match v {\n            1 => one(),\n            _ => other(),\n        }\n    }\n}\n";
    let fns = parse_rust_calls(source);
    let f = &fns[0];
    assert_eq!(f.call_sites[0].callee_name, "one");
    assert_eq!(f.call_sites[0].conditions, vec!["x is Some(v)".to_string(), "1".to_string()]);
    assert_eq!(f.call_sites[1].callee_name, "other");
    assert_eq!(f.call_sites[1].conditions, vec!["x is Some(v)".to_string()]);
}
