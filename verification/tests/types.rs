use tree_worm::types::{FileParseResult, ParsedSymbol};

#[test]
fn parsed_symbol_clone_and_debug() {
    let sym = ParsedSymbol {
        name: "foo".into(),
        symbol_type: "function_declaration".into(),
        file_path: "src/lib.rs".into(),
        start_line: 1,
        end_line: 5,
        code: "fn foo() {}".into(),
    };
    let cloned = sym.clone();
    assert_eq!(cloned.name, "foo");
    assert_eq!(cloned.symbol_type, "function_declaration");
    assert_eq!(cloned.file_path, "src/lib.rs");
    assert_eq!(cloned.start_line, 1);
    assert_eq!(cloned.end_line, 5);
    assert_eq!(cloned.code, "fn foo() {}");
    // Debug trait works
    let debug_str = format!("{:?}", cloned);
    assert!(debug_str.contains("foo"));
}

#[test]
fn file_parse_result_default() {
    let result = FileParseResult::default();
    assert!(result.file_path.is_empty());
    assert!(result.symbols.is_empty());
    assert!(result.calls.is_empty());
    assert!(result.imports.is_empty());
}
