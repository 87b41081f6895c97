use tree_worm::parser::{file_outcome, get_language, parse_file, traverse, ParseError};
use tree_worm::syntax::{Grammar, SyntaxNode};
use tree_worm::types::FileParseResult;

#[test]
fn parse_unsupported_file_returns_empty() {
    let result = parse_file("main.rs", "fn main() {}").unwrap();
    assert_eq!(result.file_path, "main.rs");
    assert!(result.symbols.is_empty());
    assert!(result.calls.is_empty());
    assert!(result.imports.is_empty());
}

#[test]
fn parse_js_function_declaration() {
    let code = "function greet(name) { return 'Hello ' + name; }";
    let result = parse_file("app.js", code).unwrap();
    assert_eq!(result.symbols.len(), 1);
    assert_eq!(result.symbols[0].name, "greet");
    assert_eq!(result.symbols[0].symbol_type, "function_declaration");
    assert_eq!(result.symbols[0].file_path, "app.js");
    assert_eq!(result.symbols[0].start_line, 0);
}

#[test]
fn parse_ts_function() {
    let code = "function add(a: number, b: number): number { return a + b; }";
    let result = parse_file("math.ts", code).unwrap();
    assert_eq!(result.symbols.len(), 1);
    assert_eq!(result.symbols[0].name, "add");
}

#[test]
fn parse_jsx_file() {
    let code = r#"function App() { return <div>Hello</div>; }"#;
    let result = parse_file("App.jsx", code).unwrap();
    assert_eq!(result.symbols.len(), 1);
    assert_eq!(result.symbols[0].name, "App");
}

#[test]
fn parse_tsx_file() {
    let code = r#"function App(): JSX.Element { return <div>Hello</div>; }"#;
    let result = parse_file("App.tsx", code).unwrap();
    assert_eq!(result.symbols.len(), 1);
    assert_eq!(result.symbols[0].name, "App");
}

#[test]
fn parse_arrow_function_in_variable() {
    let code = "const greet = (name) => { return 'Hello ' + name; };";
    let result = parse_file("app.js", code).unwrap();
    assert_eq!(result.symbols.len(), 1);
    assert_eq!(result.symbols[0].name, "greet");
    assert_eq!(result.symbols[0].symbol_type, "arrow_function");
}

#[test]
fn parse_class_declaration() {
    let code = "class UserService { constructor() {} getUser() { return null; } }";
    let result = parse_file("service.js", code).unwrap();
    // class + method_definition(s)
    let class_syms: Vec<_> = result
        .symbols
        .iter()
        .filter(|s| s.symbol_type == "class_declaration")
        .collect();
    assert_eq!(class_syms.len(), 1);
    assert_eq!(class_syms[0].name, "UserService");

    let methods: Vec<_> = result
        .symbols
        .iter()
        .filter(|s| s.symbol_type == "method_definition")
        .collect();
    assert!(methods.len() >= 1); // at least getUser
}

#[test]
fn parse_call_expressions() {
    let code = "function main() { console.log('hello'); fetch('/api'); }";
    let result = parse_file("app.js", code).unwrap();
    assert!(result.calls.contains(&"console.log".to_string()));
    assert!(result.calls.contains(&"fetch".to_string()));
}

#[test]
fn parse_import_statements() {
    let code = r#"import express from 'express';
import { Router } from 'express';
function app() {}"#;
    let result = parse_file("server.js", code).unwrap();
    assert!(result.imports.contains(&"express".to_string()));
}

#[test]
fn parse_ts_import() {
    let code = r#"import { join } from 'path';
export function resolve() { return join('a', 'b'); }"#;
    let result = parse_file("utils.ts", code).unwrap();
    assert!(!result.imports.is_empty());
    assert!(result.imports.iter().any(|i| i == "path"));
}

#[test]
fn parse_multiple_functions() {
    let code = r#"
function a() { return 1; }
function b() { return 2; }
function c() { return a() + b(); }
"#;
    let result = parse_file("multi.js", code).unwrap();
    assert_eq!(result.symbols.len(), 3);
    let names: Vec<&str> = result.symbols.iter().map(|s| s.name.as_str()).collect();
    assert!(names.contains(&"a"));
    assert!(names.contains(&"b"));
    assert!(names.contains(&"c"));
    // c calls a and b
    assert!(result.calls.contains(&"a".to_string()));
    assert!(result.calls.contains(&"b".to_string()));
}

#[test]
fn parse_empty_file() {
    let result = parse_file("empty.js", "").unwrap();
    assert!(result.symbols.is_empty());
    assert!(result.calls.is_empty());
    assert!(result.imports.is_empty());
}

#[test]
fn parse_file_path_preserved() {
    let code = "function x() {}";
    let result = parse_file("src/deep/nested/file.js", code).unwrap();
    assert_eq!(result.file_path, "src/deep/nested/file.js");
    assert_eq!(result.symbols[0].file_path, "src/deep/nested/file.js");
}

#[test]
fn parse_symbol_line_numbers() {
    let code = "\n\nfunction foo() {\n  return 42;\n}";
    let result = parse_file("lines.js", code).unwrap();
    assert_eq!(result.symbols.len(), 1);
    assert_eq!(result.symbols[0].start_line, 2);
    assert_eq!(result.symbols[0].end_line, 4);
}

#[test]
fn parse_symbol_code_captured() {
    let code = "function hello() { return 'world'; }";
    let result = parse_file("code.js", code).unwrap();
    assert_eq!(result.symbols[0].code, code);
}

#[test]
fn get_language_returns_none_for_unsupported() {
    assert!(get_language("file.py").is_none());
    assert!(get_language("file.rs").is_none());
    assert!(get_language("file.go").is_none());
    assert!(get_language("file").is_none());
}

#[test]
fn get_language_returns_some_for_supported() {
    assert!(get_language("file.js").is_some());
    assert!(get_language("file.jsx").is_some());
    assert!(get_language("file.ts").is_some());
    assert!(get_language("file.tsx").is_some());
}

#[test]
fn get_language_selects_the_grammar_by_extension() {
    assert_eq!(get_language("a.js"), Some(Grammar::JavaScript));
    assert_eq!(get_language("a.jsx"), Some(Grammar::JavaScript));
    assert_eq!(get_language("a.ts"), Some(Grammar::TypeScript));
    assert_eq!(get_language("a.tsx"), Some(Grammar::Tsx));
    assert_eq!(get_language(".js"), Some(Grammar::JavaScript));
    assert_eq!(get_language("js"), None);
    assert_eq!(get_language(""), None);
    assert_eq!(get_language("a.JS"), None);
    assert_eq!(get_language("a.ts.map"), None);
}

#[test]
fn grammars_differ() {
    // A type annotation is no JavaScript, and an element is no plain TypeScript.
    let typed = "const f = (a: number): number => a;";
    let found = parse_file("a.ts", typed).unwrap();
    assert_eq!(found.symbols.len(), 1);
    assert_eq!(found.symbols[0].name, "f");
    assert_eq!(found.symbols[0].code, "(a: number): number => a");

    let element = "function App() { return <div>{render()}</div>; }";
    assert_eq!(parse_file("a.tsx", element).unwrap().calls, vec!["render"]);
    assert_eq!(parse_file("a.jsx", element).unwrap().calls, vec!["render"]);
}

#[test]
fn everything_in_a_file_is_found_in_order() {
    let code = "import a from \"m1\";\nimport 'm2';\nclass C { m() { f(g()); } }\nconst h = function k() {};\n(() => {})();\nlet x = () => o.p();";
    let found = parse_file("dir/all.js", code).unwrap();
    assert_eq!(found.file_path, "dir/all.js");
    assert_eq!(found.imports, vec!["m1", "m2"]);
    assert_eq!(found.calls, vec!["f", "g", "(() => {})", "o.p"]);
    let symbols: Vec<(String, String, usize, usize)> = found
        .symbols
        .iter()
        .map(|s| (s.name.clone(), s.symbol_type.clone(), s.start_line, s.end_line))
        .collect();
    assert_eq!(
        symbols,
        vec![
            ("C".to_string(), "class_declaration".to_string(), 2, 2),
            ("m".to_string(), "method_definition".to_string(), 2, 2),
            ("k".to_string(), "function_expression".to_string(), 3, 3),
            ("x".to_string(), "arrow_function".to_string(), 5, 5),
        ]
    );
    assert!(found.symbols.iter().all(|s| s.file_path == "dir/all.js"));
    assert_eq!(found.symbols[1].code, "m() { f(g()); }");
    assert_eq!(found.symbols[3].code, "() => o.p()");
}

#[test]
fn texts_with_wide_characters_are_cut_at_the_right_bytes() {
    let code = "// \u{e9}\u{1f600}\nfunction gr\u{fc}n() { return '\u{65e5}'; }\ngr\u{fc}n();";
    let found = parse_file("wide.js", code).unwrap();
    assert_eq!(found.symbols.len(), 1);
    assert_eq!(found.symbols[0].name, "gr\u{fc}n");
    assert_eq!(found.symbols[0].code, "function gr\u{fc}n() { return '\u{65e5}'; }");
    assert_eq!(found.symbols[0].start_line, 1);
    assert_eq!(found.calls, vec!["gr\u{fc}n"]);
}

#[test]
fn nested_arrow_functions_take_the_name_of_their_own_variable() {
    let code = "const outer = () => { const inner = () => 1; return [() => 2]; };";
    let found = parse_file("a.js", code).unwrap();
    let names: Vec<&str> = found.symbols.iter().map(|s| s.name.as_str()).collect();
    assert_eq!(names, vec!["outer", "inner"]);
}

#[test]
fn broken_source_still_gives_what_can_be_read() {
    let found = parse_file("a.js", "function ok() { call(); }\nfunction (").unwrap();
    assert!(found.symbols.iter().any(|s| s.name == "ok"));
    assert!(found.calls.contains(&"call".to_string()));
}

#[test]
fn only_outer_strings_are_modules() {
    let code = "import d from 'x' with { type: 'json' };";
    let found = parse_file("a.js", code).unwrap();
    assert_eq!(found.imports, vec!["x"]);
}

fn node(kind: &str, depth: usize, text: &str) -> SyntaxNode {
    SyntaxNode {
        kind: kind.into(),
        depth,
        text: Some(text.into()),
        rows: (depth, depth + 1),
        name: None,
        function: None,
    }
}

fn named(kind: &str, depth: usize, text: &str, name: &str) -> SyntaxNode {
    SyntaxNode {
        name: Some(Some(name.into())),
        ..node(kind, depth, text)
    }
}

#[test]
fn a_tree_given_by_hand_is_walked() {
    let nodes = vec![
        node("program", 0, "all"),
        node("import_statement", 1, "import"),
        node("string", 2, "\"'m'\""),
        node("import_clause", 2, "clause"),
        node("string", 3, "'deep'"),
        node("string", 1, "'outside'"),
        named("variable_declarator", 1, "v = ..", "v"),
        node("arrow_function", 2, "() => 1"),
        SyntaxNode {
            function: Some(Some("f".into())),
            ..node("call_expression", 2, "f()")
        },
    ];
    let mut result = FileParseResult {
        file_path: "kept".into(),
        symbols: vec![],
        calls: vec!["earlier".into()],
        imports: vec![],
    };
    traverse(&nodes, "p", &mut result);
    assert_eq!(result.file_path, "kept");
    assert_eq!(result.imports, vec!["m"]);
    assert_eq!(result.calls, vec!["earlier", "f"]);
    assert_eq!(result.symbols.len(), 1);
    assert_eq!(result.symbols[0].name, "v");
    assert_eq!(result.symbols[0].symbol_type, "arrow_function");
    assert_eq!(result.symbols[0].file_path, "p");
    assert_eq!(result.symbols[0].code, "() => 1");
    assert_eq!((result.symbols[0].start_line, result.symbols[0].end_line), (2, 3));
}

#[test]
fn a_node_without_text_is_no_symbol() {
    let nodes = vec![SyntaxNode {
        text: None,
        ..named("class_declaration", 0, "", "C")
    }];
    let mut result = FileParseResult::default();
    traverse(&nodes, "p", &mut result);
    assert!(result.symbols.is_empty());

    let nodes = vec![SyntaxNode {
        name: Some(None),
        ..node("class_declaration", 0, "class")
    }];
    traverse(&nodes, "p", &mut result);
    assert!(result.symbols.is_empty());
}

#[test]
fn outcomes_follow_what_the_parser_made() {
    let tree = || Some(vec![named("class_declaration", 0, "class C {}", "C")]);

    let error = file_outcome("a.js", false, tree()).unwrap_err();
    assert_eq!(error, ParseError::Language);
    assert_eq!(error.message(), "Failed to set tree-sitter language");

    let error = file_outcome("a.js", true, None).unwrap_err();
    assert_eq!(error, ParseError::Source);
    assert_eq!(error.message(), "Failed to parse source file");

    let found = file_outcome("a.js", true, tree()).unwrap();
    assert_eq!(found.symbols.len(), 1);
    assert_eq!(found.file_path, "a.js");

    // A file of another language is not looked at.
    let found = file_outcome("a.py", false, None).unwrap();
    assert_eq!(found.file_path, "a.py");
    assert!(found.symbols.is_empty());
}

#[test]
fn quotes_are_trimmed_double_first() {
    let import = |text: &str| {
        let nodes = vec![node("import_declaration", 0, "import"), node("string", 1, text)];
        let mut result = FileParseResult::default();
        traverse(&nodes, "p", &mut result);
        result.imports[0].clone()
    };
    assert_eq!(import("\"a\""), "a");
    assert_eq!(import("'a'"), "a");
    assert_eq!(import("\"\"'a'\"\""), "a");
    assert_eq!(import("'\"a\"'"), "\"a\"");
    assert_eq!(import("''"), "");
    assert_eq!(import("'it''s'"), "it''s");
}

#[test]
fn what_is_found_grows_with_the_tree() {
    let found = |count: usize| {
        let mut nodes = vec![
            named("class_declaration", 0, "class C {}", "C"),
            node("import_statement", 0, "import"),
            node("string", 1, "'m'"),
            named("method_definition", 0, "d() {}", "d"),
        ];
        nodes.truncate(count);
        let mut result = FileParseResult::default();
        traverse(&nodes, "p", &mut result);
        let names: Vec<String> = result.symbols.iter().map(|s| s.name.clone()).collect();
        (names, result.imports)
    };
    assert_eq!(found(0), (vec![], vec![]));
    assert_eq!(found(2), (vec!["C".to_string()], vec![]));
    assert_eq!(found(3), (vec!["C".to_string()], vec!["m".to_string()]));
    assert_eq!(
        found(4),
        (vec!["C".to_string(), "d".to_string()], vec!["m".to_string()])
    );
}

/// Sources that are hard on line numbers.
fn tricky_sources() -> Vec<String> {
    let mut sources: Vec<String> = vec![
        "",
        "\n",
        "\u{feff}\nfunction a() {\n}\nfunction b() {}",
        "function a() {\r\n  b();\r\n}\r\n",
        "function a() {\r  b();\r}",
        "function a() { /* \u{2028}\n\u{65e5}\n */ }\n\nconst b = () => `x\n${() => {\n}}\n`;",
        "let a = () => 1\u{2003}\nlet b = () => {\n}\n",
        "function a( {\n function b() {\n }\n",
        "class A {\n  m() {\n    n(\n      function k() {\n\n      })\n  }\n\n",
        "const s = 'unterminated\nfunction b() {\n}",
        "function a() {\0\n}\nfunction b() {}\0",
        "@#$\n%^&\nfunction a() {\n}\n)))\n",
        "/* open\nfunction a() {}\n",
    ]
    .into_iter()
    .map(String::from)
    .collect();
    // A token that is far from the one before it, and a long one.
    sources.push(format!("function a() {{{}}}\nfunction b() {{}}", "\n".repeat(300)));
    sources.push(format!("function a() {{ `{}` }}\nfunction b() {{}}", "x\n".repeat(300)));
    sources
}

#[test]
fn symbols_span_the_lines_of_their_code() {
    let mut checked = 0;
    for path in ["a.js", "a.jsx", "a.ts", "a.tsx"] {
        for source in tricky_sources() {
            let found = parse_file(path, &source).unwrap();
            let mut line = 0;
            for symbol in &found.symbols {
                let breaks = symbol.code.matches('\n').count();
                assert_eq!(symbol.end_line, symbol.start_line + breaks, "{:?}", source);
                assert!(symbol.start_line >= line, "{:?}", source);
                line = symbol.start_line;
                assert!(source.contains(&symbol.code));
                assert!(source.contains(&symbol.name));
                let at_its_line = source
                    .match_indices(&symbol.code)
                    .any(|(at, _)| source[..at].matches('\n').count() == symbol.start_line);
                assert!(at_its_line, "{:?}", source);
                checked += 1;
            }
            assert!(found.calls.iter().all(|call| source.contains(call)));
        }
    }
    assert!(checked > 40, "{}", checked);
}

#[test]
fn the_path_is_only_carried_along() {
    for source in tricky_sources() {
        let js = parse_file("a.js", &source).unwrap();
        let jsx = parse_file("dir/b.jsx", &source).unwrap();
        assert_eq!(js.file_path, "a.js");
        assert_eq!(jsx.file_path, "dir/b.jsx");
        assert_eq!(js.calls, jsx.calls);
        assert_eq!(js.imports, jsx.imports);
        assert_eq!(js.symbols.len(), jsx.symbols.len());
        for (one, other) in js.symbols.iter().zip(&jsx.symbols) {
            assert_eq!(one.file_path, "a.js");
            assert_eq!(other.file_path, "dir/b.jsx");
            assert_eq!(one.name, other.name);
            assert_eq!(one.symbol_type, other.symbol_type);
            assert_eq!(one.start_line, other.start_line);
            assert_eq!(one.end_line, other.end_line);
            assert_eq!(one.code, other.code);
        }
    }
}
