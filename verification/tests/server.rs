use tree_worm::graph::CallGraphEngine;
use tree_worm::server::{
    analyze, error_reply, plan, refusal, settle, IndexState, IndexingOutcome, ToolAction,
    ToolRequest, INSTRUCTIONS,
};
use tree_worm::types::{ParsedSymbol, SearchResult};

fn requests() -> Vec<ToolRequest> {
    vec![
        ToolRequest::SearchCode {
            query: "anything".into(),
        },
        ToolRequest::GetSymbol {
            name: "anything".into(),
        },
        ToolRequest::GetCallGraph {
            symbol: "anything".into(),
        },
        ToolRequest::AnalyzeBug {
            query: "anything".into(),
        },
    ]
}

fn reply(action: ToolAction) -> String {
    match action {
        ToolAction::Reply(reply) => reply,
        action => panic!("no reply: {:?}", action),
    }
}

#[test]
fn server_pending_returns_indexing_message() {
    let state: IndexState<()> = IndexState::Pending;
    for request in requests() {
        let result = reply(plan(&state, request));
        assert!(result.contains("Indexing in progress"));
        assert_eq!(result, r#"{"error": "Indexing in progress, please retry"}"#);
    }
}

#[test]
fn server_failed_returns_error_message() {
    let state: IndexState<()> = IndexState::Failed("SQLite connection refused".into());
    for request in requests() {
        let result = reply(plan(&state, request));
        assert!(result.contains("Indexing failed"));
        assert!(result.contains("SQLite connection refused"));
        assert_eq!(
            result,
            r#"{"error": "Indexing failed: SQLite connection refused"}"#
        );
    }
}

#[test]
fn server_get_info() {
    assert!(INSTRUCTIONS.contains("Code intelligence"));
}

#[test]
fn requests_are_answered_once_there_is_an_index() {
    let state = IndexState::Ready(1);
    assert!(refusal(&state).is_none());
    let actions: Vec<ToolAction> = requests().into_iter().map(|r| plan(&state, r)).collect();
    assert!(matches!(&actions[0], ToolAction::Search { query, top_k: 10 } if query == "anything"));
    assert!(matches!(&actions[1], ToolAction::LookUp { name } if name == "anything"));
    assert!(matches!(&actions[2], ToolAction::TellContext { symbol } if symbol == "anything"));
    assert!(matches!(&actions[3], ToolAction::Analyze { query, top_k: 3 } if query == "anything"));
}

#[test]
fn errors_are_wrapped() {
    assert_eq!(error_reply("no such table"), r#"{"error": "no such table"}"#);
    assert_eq!(error_reply(""), r#"{"error": ""}"#);
}

#[test]
fn indexing_settles() {
    assert!(matches!(settle(IndexingOutcome::Completed(7)), IndexState::Ready(7)));
    let state: IndexState<u8> = settle(IndexingOutcome::Failed("disk full".into()));
    assert!(matches!(&state, IndexState::Failed(message) if message == "disk full"));
    let state: IndexState<u8> = settle(IndexingOutcome::Panicked("task 1 panicked".into()));
    assert!(
        matches!(&state, IndexState::Failed(message) if message == "Indexing task panicked: task 1 panicked")
    );
}

fn hit(name: &str, score: f64) -> SearchResult {
    SearchResult {
        file: "src/utils.js".into(),
        name: name.into(),
        symbol_type: "function_declaration".into(),
        start_line: 1,
        end_line: 2,
        text: format!("code of {}", name),
        score_bits: score.to_bits(),
    }
}

#[test]
fn analysis_adds_the_call_graph_to_each_hit() {
    let mut graph = CallGraphEngine::new();
    let symbol = ParsedSymbol {
        name: "calculate".into(),
        symbol_type: "function_declaration".into(),
        file_path: "src/utils.js".into(),
        start_line: 1,
        end_line: 2,
        code: "code".into(),
    };
    graph.add_file_data("src/utils.js", &[symbol], &["lost".into()], &[]);
    graph.add_file_data("src/app.js", &[], &["calculate".into()], &[]);
    graph.resolve_calls();

    let hits = [hit("calculate", -1.5), hit("lost", 0.85), hit("", 0.0)];
    let result = analyze(&graph, "calculate returns wrong value".to_string(), &hits);
    assert_eq!(result.query, "calculate returns wrong value");
    assert_eq!(result.analysis_context.len(), 3);

    let chunk = &result.analysis_context[0];
    assert_eq!(chunk.file, "src/utils.js");
    assert_eq!(chunk.symbol.as_deref(), Some("calculate"));
    assert_eq!(chunk.code_snippet, "code of calculate");
    assert_eq!(f64::from_bits(chunk.score_bits), -1.5);
    let context = chunk.graph_context.as_ref().unwrap();
    assert_eq!(context.symbol, "calculate");
    assert_eq!(context.defined_in, vec!["src/utils.js"]);
    assert_eq!(context.called_by, vec!["src/app.js"]);

    // A name that nothing defines has no context, and an empty name is no symbol.
    let chunk = &result.analysis_context[1];
    assert_eq!(chunk.symbol.as_deref(), Some("lost"));
    assert!(chunk.graph_context.is_none());
    let chunk = &result.analysis_context[2];
    assert!(chunk.symbol.is_none());
    assert!(chunk.graph_context.is_none());
}

#[test]
fn analysis_of_no_hits_is_empty() {
    let graph = CallGraphEngine::new();
    let result = analyze(&graph, "completely_unrelated_bug_xyz".to_string(), &[]);
    assert_eq!(result.query, "completely_unrelated_bug_xyz");
    assert!(result.analysis_context.is_empty());
}
