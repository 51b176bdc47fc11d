use tracegrep::analysis::codepaths::parsing::extract_from_source;
use tracegrep::analysis::codepaths::types::{FunctionArtifact, Language};
use tracegrep::graph_cache::file_artifact;
use tracegrep::analysis::codepaths::build_graph_from_artifacts;
use tracegrep::analysis::codepaths::graph::InternalFile;

fn functions(source: &str, path: &str, language: Language) -> Vec<FunctionArtifact> {
    extract_from_source(source, path, false, language).unwrap().functions
}

fn callees(f: &FunctionArtifact) -> Vec<String> {
    f.call_sites.iter().map(|c| c.callee_name.clone()).collect()
}

#[test]
fn python_functions_calls_conditions_and_references() {
    let source = "def router(method):\n    if method == 'POST':\n        validate_body()\n\ndef main():\n    register_handler(validate_body)\n\nclass Api:\n    def handle(self):\n        helper()\n";
    let fns = functions(source, "pkg/app.py", Language::Python);
    let names: Vec<&str> = fns.iter().map(|f| f.name.as_str()).collect();
    assert_eq!(names, vec!["router", "main", "handle"]);
    assert_eq!(fns[0].qualified_name, "app::router");
    assert_eq!(callees(&fns[0]), vec!["validate_body".to_string()]);
    assert_eq!(fns[0].call_sites[0].conditions, vec!["method == 'POST'".to_string()]);
    assert_eq!(fns[1].reference_sites.len(), 1);
    assert_eq!(fns[1].reference_sites[0].target_name, "validate_body");
    assert_eq!(fns[1].reference_sites[0].context.as_deref(), Some("passed to register_handler"));
    assert_eq!(fns[2].qualified_name, "app::Api::handle");
    assert_eq!((fns[2].line, fns[2].end_line), (9, 10));
}

#[test]
fn python_nested_functions_come_first_and_tests_are_dropped() {
    let source = "def outer():\n    def inner():\n        pass\n    inner()\n\ndef test_outer():\n    outer()\n";
    let fns = functions(source, "pkg/util.py", Language::Python);
    let names: Vec<&str> = fns.iter().map(|f| f.qualified_name.as_str()).collect();
    assert_eq!(names, vec!["util::outer::inner", "util::outer"]);
    let all = extract_from_source(source, "pkg/util.py", true, Language::Python).unwrap().functions;
    assert_eq!(all.len(), 3);
    assert!(all[2].is_test);
}

#[test]
fn typescript_arrow_functions_are_functions() {
    let source = "const helper = () => {\n  return 1;\n};\n\nfunction render() {\n  helper();\n}\n";
    let fns = functions(source, "ui.ts", Language::TypeScript);
    let names: Vec<&str> = fns.iter().map(|f| f.name.as_str()).collect();
    assert_eq!(names, vec!["helper", "render"]);
    assert_eq!(callees(&fns[1]), vec!["helper".to_string()]);
    assert_eq!(fns[1].qualified_name, "ui::render");
}

#[test]
fn javascript_switch_and_object_methods() {
    let source = "const api = {\n  save() { store(); },\n};\nfunction route(kind) {\n  switch (kind) {\n    case 'a':\n      first();\n      break;\n    default:\n      other();\n  }\n}\n";
    let fns = functions(source, "app.js", Language::JavaScript);
    let names: Vec<&str> = fns.iter().map(|f| f.qualified_name.as_str()).collect();
    assert_eq!(names, vec!["app::api::save", "app::route"]);
    let route = &fns[1];
    assert_eq!(route.call_sites[0].callee_name, "first");
    assert_eq!(route.call_sites[0].conditions, vec!["'a'".to_string()]);
    assert_eq!(route.call_sites[1].callee_name, "other");
    assert_eq!(route.call_sites[1].conditions, vec!["default".to_string()]);
}

#[test]
fn jsx_inline_handlers_belong_to_the_component() {
    let source = "function Button() {\n  return <button onClick={() => submitForm()}>Go</button>;\n}\n";
    let fns = functions(source, "Button.jsx", Language::Jsx);
    assert_eq!(fns.len(), 1);
    assert_eq!(fns[0].name, "Button");
    assert_eq!(callees(&fns[0]), vec!["submitForm".to_string()]);
}

#[test]
fn svelte_scripts_and_template_calls() {
    let source = "<script>\nfunction submitForm() {\n  save();\n}\n</script>\n\n<button on:click={() => submitForm()}>Go</button>\n";
    let fns = functions(source, "Button.svelte", Language::Svelte);
    let names: Vec<&str> = fns.iter().map(|f| f.name.as_str()).collect();
    assert_eq!(names, vec!["submitForm", "template"]);
    // The script's text is read trimmed, from the row its element opens on.
    assert_eq!(fns[0].line, 1);
    assert_eq!(callees(&fns[0]), vec!["save".to_string()]);
    assert_eq!(callees(&fns[1]), vec!["submitForm".to_string()]);
    assert_eq!(fns[1].qualified_name, "Button::template");
}

#[test]
fn file_artifacts_carry_the_source_hash() {
    let artifact = file_artifact("fn hello() {}\n", "src/main.rs", false, Language::Rust).unwrap();
    assert_eq!(artifact.functions.len(), 1);
    assert_eq!(artifact.functions[0].qualified_name, "src::hello");
    assert_eq!(artifact.source_hash.len(), 64);
    let empty = file_artifact("", "src/empty.rs", false, Language::Rust).unwrap();
    assert_eq!(empty.source_hash, "e3b0c44298fc1c149afbf4c8996fb92427ae41e4649b934ca495991b7852b855");
    assert!(empty.functions.is_empty());
}

#[test]
fn extracted_functions_carry_the_file_language() {
    let svelte = "<script>\nfunction submitForm() {\n  save();\n}\n</script>\n\n<button on:click={() => submitForm()}>Go</button>\n";
    let fns = functions(svelte, "Button.svelte", Language::Svelte);
    assert_eq!(fns.len(), 2);
    assert!(fns.iter().all(|f| f.language == Language::Svelte));
    let tsx = functions("function render() {\n  helper();\n}\n", "ui.tsx", Language::Tsx);
    assert!(!tsx.is_empty());
    assert!(tsx.iter().all(|f| f.language == Language::Tsx));
    let py = functions("def a():\n    b()\n\ndef b():\n    pass\n", "m.py", Language::Python);
    assert_eq!(py.len(), 2);
    assert!(py.iter().all(|f| f.language == Language::Python));
}

#[test]
fn one_language_graph_joins_only_that_language() {
    let a = file_artifact("def a():\n    b()\n", "pkg/a.py", false, Language::Python).unwrap();
    let b = file_artifact("def b():\n    pass\n", "pkg/b.py", false, Language::Python).unwrap();
    let files = vec![
        InternalFile { path: "pkg/a.py".to_string(), artifact: a },
        InternalFile { path: "pkg/b.py".to_string(), artifact: b },
    ];
    let g = build_graph_from_artifacts(&files);
    assert_eq!(g.nodes.len(), 2);
    assert!(g.nodes.iter().all(|n| n.language == Language::Python));
    assert_eq!(g.edges.len(), 1);
    assert_eq!((g.edges[0].caller, g.edges[0].callee), (0, 1));
}
