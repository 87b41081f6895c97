use tree_worm::index::{build_index, is_source_file};
use tree_worm::parser::{get_language, parse_file};
use tree_worm::types::FileParseResult;

fn parse_all(files: &[(&str, &str)]) -> Vec<FileParseResult> {
    files
        .iter()
        .map(|(path, code)| parse_file(path, code).unwrap())
        .collect()
}

#[test]
fn index_empty_workspace() {
    let (graph, symbols) = build_index(&[]).unwrap();
    assert!(symbols.is_empty());
    assert!(graph.get_symbol_context("anything").defined_in.is_empty());
}

#[test]
fn index_workspace_with_js_files() {
    let files = parse_all(&[(
        "app.js",
        "function hello() { return 'world'; }\nfunction greet(name) { return hello() + name; }",
    )]);
    let (graph, symbols) = build_index(&files).unwrap();

    let found: Vec<&str> = symbols.iter().map(|s| s.name.as_str()).collect();
    assert_eq!(found, vec!["hello", "greet"]);

    // Graph should have call relationship
    let ctx = graph.get_symbol_context("hello");
    assert!(!ctx.defined_in.is_empty());
    assert_eq!(ctx.called_by, vec!["app.js"]);
}

#[test]
fn index_workspace_with_ts_files() {
    let files = parse_all(&[(
        "utils.ts",
        "function add(a: number, b: number): number { return a + b; }",
    )]);
    let (_graph, symbols) = build_index(&files).unwrap();
    assert_eq!(symbols.iter().filter(|s| s.name == "add").count(), 1);
}

#[test]
fn index_workspace_ignores_non_js_ts_files() {
    for extension in ["md", "py", "css", "JS", "mjs", ""] {
        assert!(!is_source_file(Some(extension)));
    }
    assert!(!is_source_file(None));
    for extension in ["js", "ts", "jsx", "tsx"] {
        assert!(is_source_file(Some(extension)));
    }
}

#[test]
fn index_workspace_with_nested_dirs() {
    let files = parse_all(&[(
        "src/components/Button.jsx",
        "function Button() { return <button>Click</button>; }",
    )]);
    let (_graph, symbols) = build_index(&files).unwrap();
    assert_eq!(symbols.len(), 1);
    assert_eq!(symbols[0].name, "Button");
    assert_eq!(symbols[0].file_path, "src/components/Button.jsx");
}

#[test]
fn index_workspace_multiple_files_with_calls() {
    let utils = ("utils.js", "function validate(x) { return x > 0; }");
    let app = ("app.js", "function run() { validate(42); }");
    // The order of the files does not matter.
    for files in [[utils, app], [app, utils]] {
        let (graph, _symbols) = build_index(&parse_all(&files)).unwrap();
        let ctx = graph.get_symbol_context("validate");
        assert_eq!(ctx.defined_in, vec!["utils.js"]);
        // "validate" is called from app.js
        assert_eq!(ctx.called_by, vec!["app.js"]);
    }
}

#[test]
fn symbols_are_collected_file_by_file() {
    let files = parse_all(&[
        ("b.js", "function two() {}\nfunction one() {}"),
        ("a.js", "function two() { unknown(); }"),
    ]);
    let (graph, symbols) = build_index(&files).unwrap();
    let found: Vec<(&str, &str)> = symbols
        .iter()
        .map(|s| (s.file_path.as_str(), s.name.as_str()))
        .collect();
    assert_eq!(found, vec![("b.js", "two"), ("b.js", "one"), ("a.js", "two")]);
    assert_eq!(graph.get_symbol_context("two").defined_in, vec!["a.js"]);
    assert!(graph.get_symbol_context("unknown").called_by.is_empty());
}

#[test]
fn every_indexed_file_has_a_grammar() {
    for extension in ["js", "ts", "jsx", "tsx"] {
        assert!(is_source_file(Some(extension)));
        assert!(get_language(&format!("dir/file.{}", extension)).is_some());
    }
}

#[test]
fn exactly_the_calling_files_are_callers() {
    let files = parse_all(&[
        ("a.js", "function f() { g(); h(); }"),
        ("b.js", "f(); h();"),
        ("c.js", "function g() {}"),
    ]);
    let (graph, symbols) = build_index(&files).unwrap();
    assert_eq!(graph.get_symbol_context("f").called_by, vec!["b.js"]);
    assert_eq!(graph.get_symbol_context("g").called_by, vec!["a.js"]);
    // A name is known exactly if there is a symbol of that name.
    for name in ["f", "g", "h", "unknown"] {
        let known = !graph.get_symbol_context(name).defined_in.is_empty();
        assert_eq!(known, symbols.iter().any(|s| s.name == name));
    }
    assert!(graph.get_symbol_context("h").called_by.is_empty());
}
