use tree_worm::graph::CallGraphEngine;
use tree_worm::types::ParsedSymbol;

fn make_symbol(name: &str, file: &str) -> ParsedSymbol {
    ParsedSymbol {
        name: name.into(),
        symbol_type: "function_declaration".into(),
        file_path: file.into(),
        start_line: 0,
        end_line: 5,
        code: format!("function {}() {{}}", name),
    }
}

#[test]
fn new_engine_is_empty() {
    let engine = CallGraphEngine::new();
    let ctx = engine.get_symbol_context("nonexistent");
    assert_eq!(ctx.symbol, "nonexistent");
    assert!(ctx.defined_in.is_empty());
    assert!(ctx.called_by.is_empty());
}

#[test]
fn add_file_data_registers_symbols() {
    let mut engine = CallGraphEngine::new();
    let sym = make_symbol("hello", "src/a.js");
    engine.add_file_data("src/a.js", &[sym], &[], &[]);

    let ctx = engine.get_symbol_context("hello");
    assert_eq!(ctx.symbol, "hello");
    assert_eq!(ctx.defined_in, vec!["src/a.js"]);
    assert!(ctx.called_by.is_empty());
}

#[test]
fn resolve_calls_links_caller_to_symbol() {
    let mut engine = CallGraphEngine::new();

    // File a.js defines "greet"
    let sym = make_symbol("greet", "src/a.js");
    engine.add_file_data("src/a.js", &[sym], &[], &[]);

    // File b.js calls "greet"
    engine.add_file_data("src/b.js", &[], &["greet".into()], &[]);

    engine.resolve_calls();

    let ctx = engine.get_symbol_context("greet");
    assert_eq!(ctx.defined_in, vec!["src/a.js"]);
    assert_eq!(ctx.called_by, vec!["src/b.js"]);
}

#[test]
fn multiple_callers_resolved() {
    let mut engine = CallGraphEngine::new();

    let sym = make_symbol("utils", "src/utils.js");
    engine.add_file_data("src/utils.js", &[sym], &[], &[]);

    engine.add_file_data("src/a.js", &[], &["utils".into()], &[]);
    engine.add_file_data("src/b.js", &[], &["utils".into()], &[]);
    engine.add_file_data("src/c.js", &[], &["utils".into()], &[]);

    engine.resolve_calls();

    let ctx = engine.get_symbol_context("utils");
    assert_eq!(ctx.defined_in, vec!["src/utils.js"]);
    assert_eq!(ctx.called_by.len(), 3);
    assert!(ctx.called_by.contains(&"src/a.js".to_string()));
    assert!(ctx.called_by.contains(&"src/b.js".to_string()));
    assert!(ctx.called_by.contains(&"src/c.js".to_string()));
}

#[test]
fn unresolved_call_returns_empty_context() {
    let mut engine = CallGraphEngine::new();
    engine.add_file_data("src/a.js", &[], &["nonexistent".into()], &[]);
    engine.resolve_calls();

    let ctx = engine.get_symbol_context("nonexistent");
    assert!(ctx.defined_in.is_empty());
    assert!(ctx.called_by.is_empty());
}

#[test]
fn imports_do_not_affect_call_graph() {
    let mut engine = CallGraphEngine::new();
    let sym = make_symbol("handler", "src/handler.js");
    engine.add_file_data(
        "src/handler.js",
        &[sym],
        &[],
        &["express".into(), "lodash".into()],
    );

    let ctx = engine.get_symbol_context("handler");
    assert_eq!(ctx.defined_in, vec!["src/handler.js"]);
    assert!(ctx.called_by.is_empty());
}

#[test]
fn same_file_reused_for_multiple_add_file_data() {
    let mut engine = CallGraphEngine::new();
    let sym1 = make_symbol("a", "src/main.js");
    engine.add_file_data("src/main.js", &[sym1], &[], &[]);

    let sym2 = make_symbol("b", "src/main.js");
    engine.add_file_data("src/main.js", &[sym2], &["a".into()], &[]);

    engine.resolve_calls();

    let ctx_a = engine.get_symbol_context("a");
    // "a" is defined in src/main.js and called from src/main.js
    assert_eq!(ctx_a.defined_in, vec!["src/main.js"]);
    assert_eq!(ctx_a.called_by, vec!["src/main.js"]);
}

#[test]
fn last_definition_wins_for_duplicate_symbol_names() {
    let mut engine = CallGraphEngine::new();
    let sym1 = make_symbol("dup", "src/a.js");
    engine.add_file_data("src/a.js", &[sym1], &[], &[]);

    let sym2 = make_symbol("dup", "src/b.js");
    engine.add_file_data("src/b.js", &[sym2], &[], &[]);

    let ctx = engine.get_symbol_context("dup");
    assert_eq!(ctx.defined_in, vec!["src/b.js"]);
}

#[test]
fn resolve_calls_idempotent() {
    let mut engine = CallGraphEngine::new();
    let sym = make_symbol("foo", "src/a.js");
    engine.add_file_data("src/a.js", &[sym], &[], &[]);
    engine.add_file_data("src/b.js", &[], &["foo".into()], &[]);

    engine.resolve_calls();
    engine.resolve_calls(); // second call should not double edges

    let ctx = engine.get_symbol_context("foo");
    // May have duplicate edges but callers should still include b.js
    assert!(ctx.called_by.contains(&"src/b.js".to_string()));
}

#[test]
fn resolving_twice_is_resolving_once() {
    let mut engine = CallGraphEngine::new();
    engine.add_file_data("src/a.js", &[make_symbol("foo", "src/a.js")], &[], &[]);
    engine.add_file_data("src/b.js", &[], &["foo".into()], &[]);
    engine.resolve_calls();
    engine.resolve_calls();
    assert_eq!(engine.get_symbol_context("foo").called_by, vec!["src/b.js"]);

    engine.add_file_data("src/c.js", &[], &["foo".into()], &[]);
    assert_eq!(engine.get_symbol_context("foo").called_by, vec!["src/b.js"]);
    for _ in 0..3 {
        assert!(engine.has_room_to_resolve());
        engine.resolve_calls();
        let ctx = engine.get_symbol_context("foo");
        assert_eq!(ctx.defined_in, vec!["src/a.js"]);
        assert_eq!(ctx.called_by, vec!["src/c.js", "src/b.js"]);
    }
}

#[test]
fn callers_come_in_the_order_of_the_calls() {
    let mut engine = CallGraphEngine::new();
    engine.add_file_data("src/a.js", &[make_symbol("foo", "src/a.js")], &[], &[]);
    engine.add_file_data("src/b.js", &[], &["foo".into()], &[]);
    engine.add_file_data("src/c.js", &[], &["foo".into()], &[]);
    engine.resolve_calls();
    engine.resolve_calls();
    assert_eq!(engine.get_symbol_context("foo").called_by, vec!["src/b.js", "src/c.js"]);
}

#[test]
fn a_new_definition_gets_every_call_again() {
    let mut engine = CallGraphEngine::new();
    engine.add_file_data("a.js", &[make_symbol("foo", "a.js")], &["foo".into()], &[]);
    engine.add_file_data("b.js", &[], &["foo".into(), "foo".into()], &[]);
    engine.resolve_calls();
    engine.add_file_data("c.js", &[make_symbol("foo", "c.js")], &["foo".into()], &[]);
    engine.resolve_calls();
    engine.resolve_calls();
    let ctx = engine.get_symbol_context("foo");
    assert_eq!(ctx.defined_in, vec!["c.js"]);
    assert_eq!(ctx.called_by, vec!["a.js", "b.js", "b.js", "c.js"]);
}

#[test]
fn a_caller_is_listed_once_for_each_call() {
    let mut engine = CallGraphEngine::new();
    engine.add_file_data(
        "src/b.js",
        &[],
        &["foo".into(), "bar".into(), "foo".into()],
        &[],
    );
    engine.add_file_data("src/a.js", &[make_symbol("foo", "src/a.js")], &["foo".into()], &[]);
    engine.resolve_calls();
    let ctx = engine.get_symbol_context("foo");
    assert_eq!(ctx.called_by, vec!["src/b.js", "src/b.js", "src/a.js"]);
    assert!(engine.get_symbol_context("bar").called_by.is_empty());
}

#[test]
fn callers_stay_with_the_definition_they_were_linked_to() {
    let mut engine = CallGraphEngine::new();
    engine.add_file_data("src/a.js", &[make_symbol("dup", "src/a.js")], &["dup".into()], &[]);
    engine.resolve_calls();
    assert_eq!(engine.get_symbol_context("dup").called_by, vec!["src/a.js"]);

    // A new definition starts without callers, until the calls are linked again.
    engine.add_file_data("src/b.js", &[make_symbol("dup", "src/b.js")], &[], &[]);
    let ctx = engine.get_symbol_context("dup");
    assert_eq!(ctx.defined_in, vec!["src/b.js"]);
    assert!(ctx.called_by.is_empty());
    engine.resolve_calls();
    assert_eq!(engine.get_symbol_context("dup").called_by, vec!["src/a.js"]);
}

#[test]
fn a_name_can_be_defined_called_and_imported() {
    let mut engine = CallGraphEngine::new();
    engine.add_file_data(
        "x",
        &[make_symbol("x", "x"), make_symbol("x", "x")],
        &["x".into()],
        &["x".into()],
    );
    engine.resolve_calls();
    let ctx = engine.get_symbol_context("x");
    assert_eq!(ctx.defined_in, vec!["x"]);
    assert_eq!(ctx.called_by, vec!["x"]);
}

#[test]
fn adding_a_file_keeps_other_contexts() {
    let mut engine = CallGraphEngine::new();
    engine.add_file_data("a.js", &[make_symbol("foo", "a.js")], &["foo".into()], &[]);
    engine.resolve_calls();
    engine.add_file_data(
        "b.js",
        &[make_symbol("bar", "b.js")],
        &["foo".into()],
        &["foo".into()],
    );
    let ctx = engine.get_symbol_context("foo");
    assert_eq!(ctx.defined_in, vec!["a.js"]);
    assert_eq!(ctx.called_by, vec!["a.js"]);
}

#[test]
fn recording_in_pieces_is_recording_at_once() {
    let mut pieces = CallGraphEngine::new();
    pieces.add_file_data("a.js", &[make_symbol("f", "a.js")], &["g".into()], &[]);
    pieces.add_file_data("a.js", &[make_symbol("g", "a.js")], &["f".into()], &["m".into()]);
    pieces.resolve_calls();

    let mut whole = CallGraphEngine::new();
    whole.add_file_data(
        "a.js",
        &[make_symbol("f", "a.js"), make_symbol("g", "a.js")],
        &["g".into(), "f".into()],
        &["m".into()],
    );
    whole.resolve_calls();

    for name in ["f", "g", "m"] {
        let one = pieces.get_symbol_context(name);
        let other = whole.get_symbol_context(name);
        assert_eq!(one.defined_in, other.defined_in);
        assert_eq!(one.called_by, other.called_by);
    }
}

#[test]
fn small_graphs_have_room() {
    let mut engine = CallGraphEngine::new();
    let symbols = [make_symbol("f", "a.js")];
    assert!(engine.has_room_for("a.js", &symbols, &["f".into()], &["m".into()]));
    engine.add_file_data("a.js", &symbols, &["f".into()], &["m".into()]);
    assert!(engine.has_room_to_resolve());
    engine.resolve_calls();
    assert_eq!(engine.get_symbol_context("f").called_by, vec!["a.js"]);
}
