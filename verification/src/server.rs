//! What the server answers: which requests it refuses while there is no index, what each request
//! asks for once there is one, and the analysis of a bug report.

use vstd::prelude::*;

use crate::call_graph;
use crate::call_graph::CallGraph;
use crate::graph::CallGraphEngine;
use crate::types;
use crate::types::{
    AnalysisChunk, AnalysisChunkView, AnalysisResult, AnalysisResultView, GraphContext,
    GraphContextView, SearchResult, SearchResultView,
};

verus! {

/// What the server tells a client about itself.
pub const INSTRUCTIONS: &'static str = "Code intelligence server. Indexes JS/TS and exposes search, symbols, and call graphs.";

/// How many hits a search returns.
pub const SEARCH_LIMIT: usize = 10;

/// How many hits the analysis of a bug report starts from.
pub const ANALYSIS_LIMIT: usize = 3;

// The state of the index

/// How far the indexing of the workspace is. `T` is what there is to answer requests from.
#[derive(Debug)]
pub enum IndexState<T> {
    /// Indexing has not yet completed.
    Pending,
    /// Indexing succeeded.
    Ready(T),
    /// Indexing failed permanently, with this error message.
    Failed(String),
}

/// How the indexing of the workspace ended.
#[derive(Debug)]
pub enum IndexingOutcome<T> {
    /// It succeeded.
    Completed(T),
    /// It returned an error, with this message.
    Failed(String),
    /// It panicked, with this message.
    Panicked(String),
}

/// The message that is kept of an indexing task that panicked.
pub open spec fn panic_message(message: Seq<char>) -> Seq<char> {
    "Indexing task panicked: "@ + message
}

/// The state of the index once the indexing has ended.
pub fn settle<T>(outcome: IndexingOutcome<T>) -> (state: IndexState<T>)
    ensures
        match outcome {
            IndexingOutcome::Completed(index) => state == IndexState::Ready(index),
            IndexingOutcome::Failed(message) => state == IndexState::<T>::Failed(message),
            IndexingOutcome::Panicked(message) => state matches IndexState::Failed(kept)
                && kept@ == panic_message(message@),
        },
{
    match outcome {
        IndexingOutcome::Completed(index) => IndexState::Ready(index),
        IndexingOutcome::Failed(message) => IndexState::Failed(message),
        IndexingOutcome::Panicked(message) => {
            let mut kept = "Indexing task panicked: ".to_string();
            kept.append(message.as_str());
            IndexState::Failed(kept)
        },
    }
}

// Replies

/// The reply that carries an error message.
pub open spec fn error_reply_of(message: Seq<char>) -> Seq<char> {
    "{\"error\": \""@ + message + "\"}"@
}

/// The reply that carries an error message.
pub fn error_reply(message: &str) -> (reply: String)
    ensures
        reply@ == error_reply_of(message@),
{
    let mut reply = "{\"error\": \"".to_string();
    reply.append(message);
    reply.append("\"}");
    reply
}

/// The error message with which requests are refused: none where there is an index.
pub open spec fn refusal_of<T>(state: IndexState<T>) -> Option<Seq<char>> {
    match state {
        IndexState::Pending => Some("Indexing in progress, please retry"@),
        IndexState::Ready(index) => None,
        IndexState::Failed(message) => Some("Indexing failed: "@ + message@),
    }
}

/// The reply with which requests are refused: none where there is an index.
pub fn refusal<T>(state: &IndexState<T>) -> (reply: Option<String>)
    ensures
        reply is Some <==> refusal_of(*state) is Some,
        reply matches Some(reply) ==> reply@ == error_reply_of(refusal_of(*state)->0),
{
    match state {
        IndexState::Pending => Some(error_reply("Indexing in progress, please retry")),
        IndexState::Ready(_) => None,
        IndexState::Failed(message) => {
            let mut text = "Indexing failed: ".to_string();
            text.append(message.as_str());
            Some(error_reply(text.as_str()))
        },
    }
}

// Requests

/// A call of one of the server's tools.
#[derive(Debug)]
pub enum ToolRequest {
    /// Search over the indexed repository.
    SearchCode { query: String },
    /// The details of a specific symbol.
    GetSymbol { name: String },
    /// The callers and definitions of a symbol.
    GetCallGraph { symbol: String },
    /// Search and graph traversal, to find likely sources of a bug.
    AnalyzeBug { query: String },
}

/// What is done about a request.
#[derive(Debug)]
pub enum ToolAction {
    /// Reply this, and no more.
    Reply(String),
    /// Search for at most so many hits, and reply them.
    Search { query: String, top_k: usize },
    /// Look up the symbols with this name, and reply them.
    LookUp { name: String },
    /// Reply the call graph context of this symbol.
    TellContext { symbol: String },
    /// Search for at most so many hits, and reply the analysis of them.
    Analyze { query: String, top_k: usize },
}

/// Whether an action is the answer to a request: a refusal where there is no index, else what
/// the request asks for.
pub open spec fn answers<T>(action: ToolAction, state: IndexState<T>, request: ToolRequest) -> bool {
    match refusal_of(state) {
        Some(message) => action matches ToolAction::Reply(reply) && reply@ == error_reply_of(
            message,
        ),
        None => match request {
            ToolRequest::SearchCode { query } => action == (ToolAction::Search {
                query,
                top_k: SEARCH_LIMIT,
            }),
            ToolRequest::GetSymbol { name } => action == (ToolAction::LookUp { name }),
            ToolRequest::GetCallGraph { symbol } => action == (ToolAction::TellContext { symbol }),
            ToolRequest::AnalyzeBug { query } => action == (ToolAction::Analyze {
                query,
                top_k: ANALYSIS_LIMIT,
            }),
        },
    }
}

/// Decides what is done about a request.
pub fn plan<T>(state: &IndexState<T>, request: ToolRequest) -> (action: ToolAction)
    ensures
        answers(action, *state, request),
{
    match refusal(state) {
        Some(reply) => ToolAction::Reply(reply),
        None => match request {
            ToolRequest::SearchCode { query } => ToolAction::Search { query, top_k: SEARCH_LIMIT },
            ToolRequest::GetSymbol { name } => ToolAction::LookUp { name },
            ToolRequest::GetCallGraph { symbol } => ToolAction::TellContext { symbol },
            ToolRequest::AnalyzeBug { query } => ToolAction::Analyze {
                query,
                top_k: ANALYSIS_LIMIT,
            },
        },
    }
}

// Analysis

/// The context of a name in an analysis: none for an empty name, nor for one of which the call
/// graph knows neither a definition nor a caller.
pub open spec fn known_context(graph: CallGraph, name: Seq<char>) -> Option<GraphContextView> {
    let context = graph.context(name);
    if name.len() == 0 || (context.defined_in.len() == 0 && context.called_by.len() == 0) {
        None
    } else {
        Some(context)
    }
}

/// The chunk of an analysis for a search hit.
pub open spec fn chunk_of(graph: CallGraph, hit: SearchResultView) -> AnalysisChunkView {
    AnalysisChunkView {
        file: hit.file,
        symbol: if hit.name.len() == 0 {
            None
        } else {
            Some(hit.name)
        },
        code_snippet: hit.text,
        score_bits: hit.score_bits,
        graph_context: known_context(graph, hit.name),
    }
}

/// The analysis of a bug report, given the search hits for it: a chunk for each hit, in order.
pub open spec fn analysis_of(
    graph: CallGraph,
    query: Seq<char>,
    hits: Seq<SearchResultView>,
) -> AnalysisResultView {
    AnalysisResultView {
        query,
        analysis_context: hits.map_values(|hit: SearchResultView| chunk_of(graph, hit)),
    }
}

/// The chunk of an analysis for a search hit.
fn chunk(graph: &CallGraphEngine, hit: &SearchResult) -> (chunk: AnalysisChunk)
    requires
        graph.wf(),
    ensures
        chunk@ == chunk_of(graph@, hit@),
{
    let mut symbol: Option<String> = None;
    let mut graph_context: Option<GraphContext> = None;
    if !hit.name.as_str().is_empty() {
        symbol = Some(hit.name.clone());
        let context = graph.get_symbol_context(hit.name.as_str());
        if context.defined_in.len() > 0 || context.called_by.len() > 0 {
            graph_context = Some(context);
        }
    }
    AnalysisChunk {
        file: hit.file.clone(),
        symbol,
        code_snippet: hit.text.clone(),
        score_bits: hit.score_bits,
        graph_context,
    }
}

/// Analyzes a bug report, given the search hits for it: adds to each hit what the call graph
/// knows of its symbol.
pub fn analyze(graph: &CallGraphEngine, query: String, hits: &[SearchResult]) -> (result:
    AnalysisResult)
    requires
        graph.wf(),
    ensures
        result@ == analysis_of(graph@, query@, types::hit_views(hits@)),
{
    let mut chunks: Vec<AnalysisChunk> = Vec::new();
    let mut i: usize = 0;
    while i < hits.len()
        invariant
            graph.wf(),
            0 <= i <= hits.len(),
            chunks.len() == i,
            forall|k: int| 0 <= k < i ==> (#[trigger] chunks[k])@ == chunk_of(graph@, hits[k]@),
        decreases hits.len() - i,
    {
        let chunk = chunk(graph, &hits[i]);
        chunks.push(chunk);
        i += 1;
    }
    let result = AnalysisResult { query, analysis_context: chunks };
    assert(result@ =~= analysis_of(graph@, query@, types::hit_views(hits@)));
    result
}

// Laws of the server

/// While there is no index every request is refused: whatever it asks for, it is answered with
/// the same error, and nothing is searched or looked up. Once there is an index no request is
/// refused.
pub proof fn law_requests_without_index_are_refused<T>(
    state: IndexState<T>,
    request: ToolRequest,
    action: ToolAction,
)
    requires
        answers(action, state, request),
    ensures
        action is Reply <==> !(state is Ready),
        state is Pending ==> action->Reply_0@ == error_reply_of(
            "Indexing in progress, please retry"@,
        ),
        state matches IndexState::Failed(message) ==> action->Reply_0@ == error_reply_of(
            "Indexing failed: "@ + message@,
        ),
{
}

/// A chunk of an analysis has a context only if it has a symbol, and the context is that of its
/// symbol: a file is named as a caller only if it calls the symbol, and as the place of the
/// definition only if it defines the symbol.
pub proof fn law_analysis_is_sound(
    graph: CallGraph,
    query: Seq<char>,
    hits: Seq<SearchResultView>,
    i: int,
    file: Seq<char>,
)
    requires
        graph.valid(),
        0 <= i < hits.len(),
    ensures
        analysis_of(graph, query, hits).analysis_context.len() == hits.len(),
        ({
            let chunk = analysis_of(graph, query, hits).analysis_context[i];
            chunk.graph_context matches Some(context) ==> {
                &&& chunk.symbol == Some(context.symbol)
                &&& context.called_by.contains(file) ==> graph.calls.contains(
                    (file, context.symbol),
                )
                &&& context.defined_in.contains(file) ==> graph.definitions.contains(
                    (file, context.symbol),
                )
            }
        }),
{
    call_graph::law_context_is_sound(graph, hits[i].name, file);
}

/// Once there is an index, each request leads to what it asks for: a search for ten hits, a
/// lookup, a call graph context, or the analysis of three hits, for what the client named.
pub proof fn law_requests_lead_to_what_they_ask_for<T>(
    index: T,
    text: String,
    action: ToolAction,
)
    ensures
        answers(action, IndexState::Ready(index), ToolRequest::SearchCode { query: text })
            ==> action == (ToolAction::Search { query: text, top_k: 10 }),
        answers(action, IndexState::Ready(index), ToolRequest::GetSymbol { name: text })
            ==> action == (ToolAction::LookUp { name: text }),
        answers(action, IndexState::Ready(index), ToolRequest::GetCallGraph { symbol: text })
            ==> action == (ToolAction::TellContext { symbol: text }),
        answers(action, IndexState::Ready(index), ToolRequest::AnalyzeBug { query: text })
            ==> action == (ToolAction::Analyze { query: text, top_k: 3 }),
{
}

/// An error reply holds the whole message: between `{"error": "` and `"}`, in every case.
pub proof fn law_replies_hold_their_message<T>(message: Seq<char>, kept: String)
    ensures
        error_reply_of(message) == "{\"error\": \""@ + message + "\"}"@,
        panic_message(message) == "Indexing task panicked: "@ + message,
        refusal_of(IndexState::<T>::Pending) == Some("Indexing in progress, please retry"@),
        refusal_of(IndexState::<T>::Failed(kept)) == Some("Indexing failed: "@ + kept@),
{
}

/// An analysis holds its query and one chunk for each hit, in order. The chunk carries the file,
/// the text and the score of the hit, and its symbol where it has a name. It has the call graph's
/// context of that name exactly if some file defines the name, though no file calls it.
pub proof fn law_analysis_tells_what_is_known(
    graph: CallGraph,
    query: Seq<char>,
    hits: Seq<SearchResultView>,
    i: int,
)
    requires
        graph.valid(),
        0 <= i < hits.len(),
    ensures
        analysis_of(graph, query, hits).query == query,
        analysis_of(graph, query, hits).analysis_context.len() == hits.len(),
        ({
            let hit = hits[i];
            let chunk = analysis_of(graph, query, hits).analysis_context[i];
            let defined = exists|k: int|
                0 <= k < graph.definitions.len() && (#[trigger] graph.definitions[k]).1 == hit.name;
            &&& chunk.file == hit.file
            &&& chunk.code_snippet == hit.text
            &&& chunk.score_bits == hit.score_bits
            &&& hit.name.len() == 0 ==> chunk.symbol is None && chunk.graph_context is None
            &&& hit.name.len() > 0 ==> chunk.symbol == Some(hit.name)
            &&& hit.name.len() > 0 && defined ==> chunk.graph_context == Some(
                graph.context(hit.name),
            )
            &&& !defined ==> chunk.graph_context is None
        }),
{
    let name = hits[i].name;
    let all = graph.definitions;
    call_graph::lemma_last_mention(all, name);
    if exists|k: int| 0 <= k < all.len() && (#[trigger] all[k]).1 == name {
        let k = choose|k: int| 0 <= k < all.len() && (#[trigger] all[k]).1 == name;
        call_graph::lemma_last_mention_found(all, name, k);
    } else if graph.defines(name) {
        assert(all[call_graph::last_mention(all, name)].1 == name);
    }
}

} // verus!
