//! The values that pass between the parser, the store, the call graph and the server, and the
//! mathematical values that stand for them in contracts.

use vstd::prelude::*;

verus! {

// Parsing types

/// A symbol extracted from a source file.
#[derive(Debug)]
pub struct ParsedSymbol {
    pub name: String,
    /// The kind of the syntax node: `function_declaration`, `class_declaration` and so on.
    pub symbol_type: String,
    pub file_path: String,
    pub start_line: usize,
    pub end_line: usize,
    pub code: String,
}

/// The content of a `ParsedSymbol`.
pub struct ParsedSymbolView {
    pub name: Seq<char>,
    pub symbol_type: Seq<char>,
    pub file_path: Seq<char>,
    pub start_line: nat,
    pub end_line: nat,
    pub code: Seq<char>,
}

impl View for ParsedSymbol {
    type V = ParsedSymbolView;

    open spec fn view(&self) -> ParsedSymbolView {
        ParsedSymbolView {
            name: self.name@,
            symbol_type: self.symbol_type@,
            file_path: self.file_path@,
            start_line: self.start_line as nat,
            end_line: self.end_line as nat,
            code: self.code@,
        }
    }
}

impl Clone for ParsedSymbol {
    fn clone(&self) -> (copy: Self)
        ensures
            copy@ == self@,
            copy.name@ == self.name@,
            copy.symbol_type@ == self.symbol_type@,
            copy.file_path@ == self.file_path@,
            copy.start_line == self.start_line,
            copy.end_line == self.end_line,
            copy.code@ == self.code@,
    {
        ParsedSymbol {
            name: self.name.clone(),
            symbol_type: self.symbol_type.clone(),
            file_path: self.file_path.clone(),
            start_line: self.start_line,
            end_line: self.end_line,
            code: self.code.clone(),
        }
    }
}

/// The contents of a list of symbols.
pub open spec fn symbol_views(symbols: Seq<ParsedSymbol>) -> Seq<ParsedSymbolView> {
    symbols.map_values(|symbol: ParsedSymbol| symbol@)
}

/// The contents of a list of strings.
pub open spec fn string_views(strings: Seq<String>) -> Seq<Seq<char>> {
    strings.map_values(|string: String| string@)
}

/// Results from parsing a single file.
#[derive(Debug)]
pub struct FileParseResult {
    pub file_path: String,
    pub symbols: Vec<ParsedSymbol>,
    pub calls: Vec<String>,
    pub imports: Vec<String>,
}

/// The content of a `FileParseResult`.
#[verifier::ext_equal]
pub struct FileParseResultView {
    pub file_path: Seq<char>,
    pub symbols: Seq<ParsedSymbolView>,
    pub calls: Seq<Seq<char>>,
    pub imports: Seq<Seq<char>>,
}

impl View for FileParseResult {
    type V = FileParseResultView;

    open spec fn view(&self) -> FileParseResultView {
        FileParseResultView {
            file_path: self.file_path@,
            symbols: symbol_views(self.symbols@),
            calls: string_views(self.calls@),
            imports: string_views(self.imports@),
        }
    }
}

impl FileParseResultView {
    /// What is found in a file that holds nothing of interest.
    pub open spec fn nothing_in(file_path: Seq<char>) -> FileParseResultView {
        FileParseResultView {
            file_path,
            symbols: Seq::empty(),
            calls: Seq::empty(),
            imports: Seq::empty(),
        }
    }
}

impl Default for FileParseResult {
    fn default() -> (result: Self)
        ensures
            result@ == FileParseResultView::nothing_in(Seq::empty()),
            result.file_path@.len() == 0,
            result.symbols@.len() == 0,
            result.calls@.len() == 0,
            result.imports@.len() == 0,
    {
        let result = FileParseResult {
            file_path: String::new(),
            symbols: Vec::new(),
            calls: Vec::new(),
            imports: Vec::new(),
        };
        assert(result@ =~= FileParseResultView::nothing_in(Seq::empty()));
        result
    }
}

// Answers to requests

/// A search hit.
#[derive(Debug, Clone)]
pub struct SearchResult {
    pub file: String,
    pub name: String,
    pub symbol_type: String,
    pub start_line: u32,
    pub end_line: u32,
    pub text: String,
    /// The bits of the score, a double-precision floating-point number. They are carried along,
    /// never read.
    pub score_bits: u64,
}

/// The content of a `SearchResult`.
pub struct SearchResultView {
    pub file: Seq<char>,
    pub name: Seq<char>,
    pub symbol_type: Seq<char>,
    pub start_line: nat,
    pub end_line: nat,
    pub text: Seq<char>,
    pub score_bits: u64,
}

impl View for SearchResult {
    type V = SearchResultView;

    open spec fn view(&self) -> SearchResultView {
        SearchResultView {
            file: self.file@,
            name: self.name@,
            symbol_type: self.symbol_type@,
            start_line: self.start_line as nat,
            end_line: self.end_line as nat,
            text: self.text@,
            score_bits: self.score_bits,
        }
    }
}

/// The contents of a list of search hits.
pub open spec fn hit_views(hits: Seq<SearchResult>) -> Seq<SearchResultView> {
    hits.map_values(|hit: SearchResult| hit@)
}

/// A symbol lookup result.
#[derive(Debug, Clone)]
pub struct SymbolResult {
    pub file: String,
    pub name: String,
    pub symbol_type: String,
    pub start_line: u32,
    pub end_line: u32,
    pub text: String,
}

/// The content of a `SymbolResult`.
pub struct SymbolResultView {
    pub file: Seq<char>,
    pub name: Seq<char>,
    pub symbol_type: Seq<char>,
    pub start_line: nat,
    pub end_line: nat,
    pub text: Seq<char>,
}

impl View for SymbolResult {
    type V = SymbolResultView;

    open spec fn view(&self) -> SymbolResultView {
        SymbolResultView {
            file: self.file@,
            name: self.name@,
            symbol_type: self.symbol_type@,
            start_line: self.start_line as nat,
            end_line: self.end_line as nat,
            text: self.text@,
        }
    }
}

/// Call graph context for a symbol.
#[derive(Debug, Clone)]
pub struct GraphContext {
    pub symbol: String,
    pub defined_in: Vec<String>,
    pub called_by: Vec<String>,
}

/// The content of a `GraphContext`.
#[verifier::ext_equal]
pub struct GraphContextView {
    pub symbol: Seq<char>,
    pub defined_in: Seq<Seq<char>>,
    pub called_by: Seq<Seq<char>>,
}

impl View for GraphContext {
    type V = GraphContextView;

    open spec fn view(&self) -> GraphContextView {
        GraphContextView {
            symbol: self.symbol@,
            defined_in: string_views(self.defined_in@),
            called_by: string_views(self.called_by@),
        }
    }
}

/// A chunk of an analysis: a search hit together with the call graph context of its symbol.
#[derive(Debug, Clone)]
pub struct AnalysisChunk {
    pub file: String,
    pub symbol: Option<String>,
    pub code_snippet: String,
    /// The bits of the score, a double-precision floating-point number.
    pub score_bits: u64,
    pub graph_context: Option<GraphContext>,
}

/// The content of an `AnalysisChunk`.
pub struct AnalysisChunkView {
    pub file: Seq<char>,
    pub symbol: Option<Seq<char>>,
    pub code_snippet: Seq<char>,
    pub score_bits: u64,
    pub graph_context: Option<GraphContextView>,
}

impl View for AnalysisChunk {
    type V = AnalysisChunkView;

    open spec fn view(&self) -> AnalysisChunkView {
        AnalysisChunkView {
            file: self.file@,
            symbol: match self.symbol {
                Some(symbol) => Some(symbol@),
                None => None,
            },
            code_snippet: self.code_snippet@,
            score_bits: self.score_bits,
            graph_context: match self.graph_context {
                Some(context) => Some(context@),
                None => None,
            },
        }
    }
}

/// The result of an analysis.
#[derive(Debug, Clone)]
pub struct AnalysisResult {
    pub query: String,
    pub analysis_context: Vec<AnalysisChunk>,
}

/// The content of an `AnalysisResult`.
#[verifier::ext_equal]
pub struct AnalysisResultView {
    pub query: Seq<char>,
    pub analysis_context: Seq<AnalysisChunkView>,
}

impl View for AnalysisResult {
    type V = AnalysisResultView;

    open spec fn view(&self) -> AnalysisResultView {
        AnalysisResultView {
            query: self.query@,
            analysis_context: self.analysis_context@.map_values(|chunk: AnalysisChunk| chunk@),
        }
    }
}

// Laws of contents

/// The content of symbols and strings is what they hold.
pub proof fn law_content_of_symbols(
    symbols: Seq<ParsedSymbol>,
    strings: Seq<String>,
    i: int,
    k: int,
)
    requires
        0 <= i < symbols.len(),
        0 <= k < strings.len(),
    ensures
        symbol_views(symbols).len() == symbols.len(),
        symbol_views(symbols)[i].name == symbols[i].name@,
        symbol_views(symbols)[i].symbol_type == symbols[i].symbol_type@,
        symbol_views(symbols)[i].file_path == symbols[i].file_path@,
        symbol_views(symbols)[i].start_line == symbols[i].start_line,
        symbol_views(symbols)[i].end_line == symbols[i].end_line,
        symbol_views(symbols)[i].code == symbols[i].code@,
        string_views(strings).len() == strings.len(),
        string_views(strings)[k] == strings[k]@,
{
}

/// The content of answers is what they hold.
pub proof fn law_content_of_answers(
    hits: Seq<SearchResult>,
    i: int,
    result: SymbolResult,
    context: GraphContext,
)
    requires
        0 <= i < hits.len(),
    ensures
        hit_views(hits).len() == hits.len(),
        hit_views(hits)[i].file == hits[i].file@,
        hit_views(hits)[i].name == hits[i].name@,
        hit_views(hits)[i].symbol_type == hits[i].symbol_type@,
        hit_views(hits)[i].start_line == hits[i].start_line,
        hit_views(hits)[i].end_line == hits[i].end_line,
        hit_views(hits)[i].text == hits[i].text@,
        hit_views(hits)[i].score_bits == hits[i].score_bits,
        result@.file == result.file@,
        result@.name == result.name@,
        result@.symbol_type == result.symbol_type@,
        result@.start_line == result.start_line,
        result@.end_line == result.end_line,
        result@.text == result.text@,
        context@.symbol == context.symbol@,
        context@.defined_in == string_views(context.defined_in@),
        context@.called_by == string_views(context.called_by@),
{
}

/// The content of an analysis is what it holds.
pub proof fn law_content_of_an_analysis(result: AnalysisResult, i: int)
    requires
        0 <= i < result.analysis_context.len(),
    ensures
        result@.query == result.query@,
        result@.analysis_context.len() == result.analysis_context.len(),
        ({
            let chunk = result.analysis_context[i];
            let content = result@.analysis_context[i];
            &&& content.file == chunk.file@
            &&& content.code_snippet == chunk.code_snippet@
            &&& content.score_bits == chunk.score_bits
            &&& content.symbol is Some <==> chunk.symbol is Some
            &&& chunk.symbol matches Some(symbol) ==> content.symbol == Some(symbol@)
            &&& content.graph_context is Some <==> chunk.graph_context is Some
            &&& chunk.graph_context matches Some(context) ==> content.graph_context == Some(
                context@,
            )
        }),
{
}

} // verus!
