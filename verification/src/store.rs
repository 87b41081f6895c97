//! What the search index holds and how it is asked: the rows that stand for symbols, the
//! statements of the database, and the search strategy. The database itself is not touched here:
//! a search is a sequence of steps, each of which says what to ask the database next.

use vstd::prelude::*;
use vstd::utf8;

use crate::query;
use crate::query::Classified;
use crate::types;
use crate::types::{
    ParsedSymbol, ParsedSymbolView, SearchResult, SearchResultView, SymbolResult, SymbolResultView,
};

verus! {

// Statements

/// Enables write-ahead logging, for better concurrent read performance.
pub const ENABLE_WAL: &'static str = "PRAGMA journal_mode=WAL;";

/// Drops what an earlier run left and creates the table of chunks, the full-text index of names
/// and code, and the trigram index of names.
pub const CREATE_TABLES: &'static str = "
            DROP TABLE IF EXISTS chunks_trigram;
            DROP TABLE IF EXISTS chunks_fts;
            DROP TABLE IF EXISTS chunks;

            CREATE TABLE chunks (
                id INTEGER PRIMARY KEY AUTOINCREMENT,
                file TEXT NOT NULL,
                name TEXT NOT NULL,
                type TEXT NOT NULL,
                start_line INTEGER NOT NULL,
                end_line INTEGER NOT NULL,
                text TEXT NOT NULL
            );

            CREATE VIRTUAL TABLE chunks_fts USING fts5(
                name,
                text,
                content='chunks',
                content_rowid='id'
            );

            CREATE TRIGGER chunks_ai AFTER INSERT ON chunks BEGIN
                INSERT INTO chunks_fts(rowid, name, text)
                VALUES (new.id, new.name, new.text);
            END;

            CREATE VIRTUAL TABLE chunks_trigram USING fts5(
                name,
                content='chunks',
                content_rowid='id',
                tokenize='trigram case_sensitive 0'
            );

            CREATE TRIGGER chunks_trigram_ai AFTER INSERT ON chunks BEGIN
                INSERT INTO chunks_trigram(rowid, name)
                VALUES (new.id, new.name);
            END;
        ";

/// Inserts a chunk.
pub const INSERT_CHUNK: &'static str = "INSERT INTO chunks (file, name, type, start_line, end_line, text)
                 VALUES (?1, ?2, ?3, ?4, ?5, ?6)";

/// Selects the chunks of which name and code match a query, the best matches first. A match in
/// the name counts ten times as much as one in the code.
pub const MATCH_TEXT: &'static str = "SELECT c.file, c.name, c.type, c.start_line, c.end_line, c.text,
                    bm25(chunks_fts, 10.0, 1.0) as score
             FROM chunks_fts
             JOIN chunks c ON c.id = chunks_fts.rowid
             WHERE chunks_fts MATCH ?1
             ORDER BY score
             LIMIT ?2";

/// Selects the chunks of which the name holds a phrase.
pub const MATCH_NAMES: &'static str = "SELECT c.file, c.name, c.type, c.start_line, c.end_line, c.text, 0.0 as score
             FROM chunks_trigram
             JOIN chunks c ON c.id = chunks_trigram.rowid
             WHERE chunks_trigram MATCH ?1
             LIMIT ?2";

/// Selects the chunks with a name.
pub const CHUNKS_BY_NAME: &'static str = "SELECT file, name, type, start_line, end_line, text
             FROM chunks
             WHERE name = ?1";

// Rows

/// A row of the table of chunks.
#[derive(Debug)]
pub struct ChunkRow {
    pub file: String,
    pub name: String,
    pub symbol_type: String,
    pub start_line: u32,
    pub end_line: u32,
    pub text: String,
}

/// The content of a `ChunkRow`.
pub struct ChunkRowView {
    pub file: Seq<char>,
    pub name: Seq<char>,
    pub symbol_type: Seq<char>,
    pub start_line: nat,
    pub end_line: nat,
    pub text: Seq<char>,
}

impl View for ChunkRow {
    type V = ChunkRowView;

    open spec fn view(&self) -> ChunkRowView {
        ChunkRowView {
            file: self.file@,
            name: self.name@,
            symbol_type: self.symbol_type@,
            start_line: self.start_line as nat,
            end_line: self.end_line as nat,
            text: self.text@,
        }
    }
}

/// The contents of a list of rows.
pub open spec fn row_views(rows: Seq<ChunkRow>) -> Seq<ChunkRowView> {
    rows.map_values(|row: ChunkRow| row@)
}

/// The low 32 bits of a number.
pub open spec fn low_bits(n: nat) -> nat {
    n % 0x1_0000_0000
}

/// The low 32 bits of a number.
fn low_u32(n: usize) -> (low: u32)
    ensures
        low == low_bits(n as nat),
{
    let wide: u64 = n as u64;
    let low: u32 = wide as u32;
    assert(low as u64 == wide % 0x1_0000_0000u64) by (bit_vector)
        requires
            low == wide as u32,
    ;
    low
}

/// The row for a symbol. Line numbers keep their low 32 bits.
pub open spec fn row_of(symbol: ParsedSymbolView) -> ChunkRowView {
    ChunkRowView {
        file: symbol.file_path,
        name: symbol.name,
        symbol_type: symbol.symbol_type,
        start_line: low_bits(symbol.start_line),
        end_line: low_bits(symbol.end_line),
        text: symbol.code,
    }
}

/// The rows for some symbols.
pub open spec fn rows_of(symbols: Seq<ParsedSymbolView>) -> Seq<ChunkRowView> {
    symbols.map_values(|symbol: ParsedSymbolView| row_of(symbol))
}

/// The rows that one transaction is to insert for some symbols, in order. There is nothing to do
/// where there are no symbols.
pub fn rows_to_insert(symbols: &[ParsedSymbol]) -> (rows: Option<Vec<ChunkRow>>)
    ensures
        rows is None <==> symbols@.len() == 0,
        rows matches Some(rows) ==> row_views(rows@) == rows_of(types::symbol_views(symbols@)),
{
    if symbols.len() == 0 {
        return None;
    }
    let mut rows: Vec<ChunkRow> = Vec::new();
    let mut i: usize = 0;
    while i < symbols.len()
        invariant
            0 <= i <= symbols.len(),
            rows.len() == i,
            forall|k: int| 0 <= k < i ==> (#[trigger] rows[k])@ == row_of(symbols[k]@),
        decreases symbols.len() - i,
    {
        let symbol = &symbols[i];
        let row = ChunkRow {
            file: symbol.file_path.clone(),
            name: symbol.name.clone(),
            symbol_type: symbol.symbol_type.clone(),
            start_line: low_u32(symbol.start_line),
            end_line: low_u32(symbol.end_line),
            text: symbol.code.clone(),
        };
        rows.push(row);
        i += 1;
    }
    assert(row_views(rows@) =~= rows_of(types::symbol_views(symbols@)));
    Some(rows)
}

/// The lookup result for a row.
pub open spec fn result_of(row: ChunkRowView) -> SymbolResultView {
    SymbolResultView {
        file: row.file,
        name: row.name,
        symbol_type: row.symbol_type,
        start_line: row.start_line,
        end_line: row.end_line,
        text: row.text,
    }
}

/// The lookup result for a row.
pub fn symbol_result(row: ChunkRow) -> (result: SymbolResult)
    ensures
        result@ == result_of(row@),
{
    SymbolResult {
        file: row.file,
        name: row.name,
        symbol_type: row.symbol_type,
        start_line: row.start_line,
        end_line: row.end_line,
        text: row.text,
    }
}

/// The search hit for a row with a score.
pub open spec fn hit_of(row: ChunkRowView, score_bits: u64) -> SearchResultView {
    SearchResultView {
        file: row.file,
        name: row.name,
        symbol_type: row.symbol_type,
        start_line: row.start_line,
        end_line: row.end_line,
        text: row.text,
        score_bits,
    }
}

/// The search hit for a row with a score.
pub fn search_result(row: ChunkRow, score_bits: u64) -> (hit: SearchResult)
    ensures
        hit@ == hit_of(row@, score_bits),
{
    SearchResult {
        file: row.file,
        name: row.name,
        symbol_type: row.symbol_type,
        start_line: row.start_line,
        end_line: row.end_line,
        text: row.text,
        score_bits,
    }
}

// Search

/// The index that a query is for.
#[derive(Debug, Clone, Copy, PartialEq, Eq, Structural)]
pub enum SearchIndex {
    /// The full-text index of names and code.
    Text,
    /// The trigram index of names.
    Names,
}

impl SearchIndex {
    /// The statement that asks the index; its parameters are the query and the limit.
    pub open spec fn statement_of(self) -> Seq<char> {
        match self {
            SearchIndex::Text => MATCH_TEXT@,
            SearchIndex::Names => MATCH_NAMES@,
        }
    }

    /// The statement that asks the index; its parameters are the query and the limit.
    pub fn statement(&self) -> (statement: &'static str)
        ensures
            statement@ == self.statement_of(),
    {
        match self {
            SearchIndex::Text => MATCH_TEXT,
            SearchIndex::Names => MATCH_NAMES,
        }
    }
}

/// What to ask the database.
#[derive(Debug)]
pub struct Attempt {
    pub index: SearchIndex,
    pub query: String,
    /// The most hits to return.
    pub limit: u32,
}

/// The content of an `Attempt`.
pub struct AttemptView {
    pub index: SearchIndex,
    pub query: Seq<char>,
    pub limit: nat,
}

impl View for Attempt {
    type V = AttemptView;

    open spec fn view(&self) -> AttemptView {
        AttemptView { index: self.index, query: self.query@, limit: self.limit as nat }
    }
}

/// The contents of a list of attempts.
pub open spec fn attempt_views(attempts: Seq<Attempt>) -> Seq<AttemptView> {
    attempts.map_values(|attempt: Attempt| attempt@)
}

/// A search under way: the attempts that are left, should the one that was made find nothing.
#[derive(Debug)]
pub struct PendingSearch {
    pub attempts: Vec<Attempt>,
}

/// The next step of a search.
#[derive(Debug)]
pub enum SearchStep {
    /// Make an attempt, and resume the search with what it found.
    Ask(Attempt, PendingSearch),
    /// The search is over, with these hits.
    Finished(Vec<SearchResult>),
}

/// The content of a `SearchStep`.
#[verifier::ext_equal]
pub enum SearchStepView {
    Ask(AttemptView, Seq<AttemptView>),
    Finished(Seq<SearchResultView>),
}

impl View for SearchStep {
    type V = SearchStepView;

    open spec fn view(&self) -> SearchStepView {
        match self {
            SearchStep::Ask(attempt, pending) => SearchStepView::Ask(
                attempt@,
                attempt_views(pending.attempts@),
            ),
            SearchStep::Finished(hits) => SearchStepView::Finished(types::hit_views(hits@)),
        }
    }
}

/// The first of the attempts, or the end of the search where none is left.
pub open spec fn next_step(attempts: Seq<AttemptView>) -> SearchStepView {
    if attempts.len() == 0 {
        SearchStepView::Finished(Seq::empty())
    } else {
        SearchStepView::Ask(attempts[0], attempts.skip(1))
    }
}

/// The step after an attempt: hits end the search.
pub open spec fn step_after(pending: Seq<AttemptView>, hits: Seq<SearchResultView>) -> SearchStepView {
    if hits.len() > 0 {
        SearchStepView::Finished(hits)
    } else {
        next_step(pending)
    }
}

/// The attempts for a query, in order: that every word matches, that any word matches, and,
/// for a query of three bytes or more, that the query is part of a name. A query without words
/// is not tried at all.
pub open spec fn attempts_for(query: Seq<Classified>, limit: nat) -> Seq<AttemptView> {
    let trimmed = query::trimmed(query);
    let text = query::chars_only(trimmed);
    let every = AttemptView { index: SearchIndex::Text, query: query::and_query(trimmed), limit };
    let any = AttemptView { index: SearchIndex::Text, query: query::or_query(trimmed), limit };
    let part = AttemptView { index: SearchIndex::Names, query: query::phrase_of(text), limit };
    if query::words(trimmed).len() == 0 {
        Seq::empty()
    } else if utf8::encode_utf8(text).len() >= 3 {
        seq![every, any, part]
    } else {
        seq![every, any]
    }
}

/// Takes the first of the attempts.
fn take_step(attempts: Vec<Attempt>) -> (step: SearchStep)
    ensures
        step@ == next_step(attempt_views(attempts@)),
{
    if attempts.len() == 0 {
        let step = SearchStep::Finished(Vec::new());
        assert(step@ =~= next_step(attempt_views(attempts@)));
        return step;
    }
    let ghost all = attempts@;
    let mut attempts = attempts;
    let attempt = attempts.remove(0);
    assert(attempt_views(attempts@) =~= attempt_views(all).skip(1));
    SearchStep::Ask(attempt, PendingSearch { attempts })
}

/// Starts a search for a query of which the characters are classified.
pub fn start_search(query: &[Classified], top_k: usize) -> (step: SearchStep)
    ensures
        step@ == next_step(attempts_for(query@, low_bits(top_k as nat))),
{
    let trimmed = query::trim(query);
    let limit = low_u32(top_k);
    let (and_query, or_query) = query::fuzzy_queries(trimmed.as_slice());
    proof {
        query::law_queries_are_empty_without_words(trimmed@);
    }
    let mut attempts: Vec<Attempt> = Vec::new();
    if !and_query.as_str().is_empty() {
        attempts.push(Attempt { index: SearchIndex::Text, query: and_query, limit });
        attempts.push(Attempt { index: SearchIndex::Text, query: or_query, limit });
        let text = query::text_of(trimmed.as_slice());
        if text.as_str().as_bytes().len() >= 3 {
            let phrase = query::quoted_phrase(text.as_str());
            attempts.push(Attempt { index: SearchIndex::Names, query: phrase, limit });
        }
    }
    assert(attempt_views(attempts@) =~= attempts_for(query@, low_bits(top_k as nat)));
    take_step(attempts)
}

/// Starts a search for what a user typed, for at most `top_k` hits.
pub fn search(query: &str, top_k: usize) -> (step: SearchStep)
    ensures
        step@ == next_step(attempts_for(query::classes_of(query@), low_bits(top_k as nat))),
{
    let classified = query::classify(query);
    start_search(classified.as_slice(), top_k)
}

impl PendingSearch {
    /// Goes on with a search after an attempt found `hits`.
    pub fn resume(self, hits: Vec<SearchResult>) -> (step: SearchStep)
        ensures
            step@ == step_after(attempt_views(self.attempts@), types::hit_views(hits@)),
    {
        if hits.len() > 0 {
            SearchStep::Finished(hits)
        } else {
            take_step(self.attempts)
        }
    }
}

// Laws of the store

/// What a search comes to, given what the database answers to each attempt.
pub open spec fn search_outcome(
    step: SearchStepView,
    answers: spec_fn(AttemptView) -> Seq<SearchResultView>,
) -> Seq<SearchResultView>
    decreases
            match step {
                SearchStepView::Ask(attempt, pending) => pending.len() + 1,
                SearchStepView::Finished(hits) => 0,
            },
{
    match step {
        SearchStepView::Ask(attempt, pending) => search_outcome(
            step_after(pending, answers(attempt)),
            answers,
        ),
        SearchStepView::Finished(hits) => hits,
    }
}

/// A search falls back from the most precise strategy to the broadest: it returns the hits for
/// every word if there are any, else those for any word, else, for a query of three bytes or
/// more, those for part of a name. Every hit comes from the database, and each attempt asks for
/// at most the wanted number of hits.
pub proof fn law_search_falls_back(
    query: Seq<Classified>,
    limit: nat,
    answers: spec_fn(AttemptView) -> Seq<SearchResultView>,
)
    ensures
        ({
            let trimmed = query::trimmed(query);
            let text = query::chars_only(trimmed);
            let every = answers(
                AttemptView {
                    index: SearchIndex::Text,
                    query: query::and_query(trimmed),
                    limit,
                },
            );
            let any = answers(
                AttemptView { index: SearchIndex::Text, query: query::or_query(trimmed), limit },
            );
            let part = answers(
                AttemptView { index: SearchIndex::Names, query: query::phrase_of(text), limit },
            );
            search_outcome(next_step(attempts_for(query, limit)), answers) == if query::words(
                trimmed,
            ).len() == 0 {
                Seq::empty()
            } else if every.len() > 0 {
                every
            } else if any.len() > 0 {
                any
            } else if utf8::encode_utf8(text).len() >= 3 {
                part
            } else {
                Seq::empty()
            }
        }),
        forall|i: int|
            0 <= i < attempts_for(query, limit).len() ==> (#[trigger] attempts_for(
                query,
                limit,
            )[i]).limit == limit,
{
    reveal_with_fuel(search_outcome, 4);
    let attempts = attempts_for(query, limit);
    if attempts.len() > 0 {
        assert(attempts.skip(1)[0] == attempts[1]);
        if attempts.len() == 3 {
            assert(attempts.skip(1).skip(1)[0] == attempts[2]);
        }
    }
}

/// A search returns at most `top_k` hits, if the database heeds the limit of each attempt.
pub proof fn law_search_respects_top_k(
    query: Seq<Classified>,
    top_k: usize,
    answers: spec_fn(AttemptView) -> Seq<SearchResultView>,
)
    requires
        forall|attempt: AttemptView| (#[trigger] answers(attempt)).len() <= attempt.limit,
    ensures
        search_outcome(next_step(attempts_for(query, low_bits(top_k as nat))), answers).len()
            <= top_k,
{
    law_search_falls_back(query, low_bits(top_k as nat), answers);
}

/// A query of white space alone, or without a word, finds nothing, and the database is not
/// asked.
pub proof fn law_search_without_words(query: Seq<Classified>, limit: nat)
    requires
        forall|i: int| 0 <= i < query.len() ==> !((#[trigger] query[i]).1 is Word),
    ensures
        next_step(attempts_for(query, limit)) == SearchStepView::Finished(Seq::empty()),
{
    query::lemma_trimmed_part(query);
    query::lemma_no_words(query::trimmed(query));
}

/// What a user typed as white space alone finds nothing, and the database is not asked.
pub proof fn law_blank_queries_ask_nothing(text: Seq<char>, limit: nat)
    requires
        forall|i: int| 0 <= i < text.len() ==> query::is_white_space(#[trigger] text[i]),
    ensures
        next_step(attempts_for(query::classes_of(text), limit)) == SearchStepView::Finished(
            Seq::empty(),
        ),
{
    let query = query::classes_of(text);
    assert forall|i: int| 0 <= i < query.len() implies !((#[trigger] query[i]).1 is Word) by {
        assert(query::is_white_space(text[i]));
    }
    law_search_without_words(query, limit);
}

/// The rows with a name.
pub open spec fn rows_named(rows: Seq<ChunkRowView>, name: Seq<char>) -> Seq<ChunkRowView> {
    rows.filter(|row: ChunkRowView| row.name == name)
}

/// Among the rows for some symbols, those with a name are the rows for the symbols with that
/// name, in the order of the symbols.
pub proof fn law_rows_of_a_name(symbols: Seq<ParsedSymbolView>, name: Seq<char>)
    ensures
        rows_named(rows_of(symbols), name) == rows_of(
            symbols.filter(|symbol: ParsedSymbolView| symbol.name == name),
        ),
    decreases symbols.len(),
{
    reveal(Seq::filter);
    let rows = rows_of(symbols);
    let wanted = |symbol: ParsedSymbolView| symbol.name == name;
    if symbols.len() == 0 {
        assert(rows_named(rows, name) =~= rows_of(symbols.filter(wanted)));
    } else {
        law_rows_of_a_name(symbols.drop_last(), name);
        assert(rows.drop_last() =~= rows_of(symbols.drop_last()));
        assert(rows_named(rows, name) =~= rows_of(symbols.filter(wanted)));
    }
}

/// What a lookup is to tell of a symbol.
pub open spec fn details_of(symbol: ParsedSymbolView) -> SymbolResultView {
    SymbolResultView {
        file: symbol.file_path,
        name: symbol.name,
        symbol_type: symbol.symbol_type,
        start_line: symbol.start_line,
        end_line: symbol.end_line,
        text: symbol.code,
    }
}

/// A symbol that was turned into a row and read back is the same symbol, if its line numbers
/// are 32-bit numbers.
pub proof fn law_row_gives_back_its_symbol(symbol: ParsedSymbolView)
    requires
        symbol.start_line <= u32::MAX,
        symbol.end_line <= u32::MAX,
    ensures
        result_of(row_of(symbol)) == details_of(symbol),
{
}

/// A lookup gives back what was inserted: where the table holds the rows for some symbols, the
/// results for the rows with a name are the details of the symbols with that name, each of them
/// and no other, in the order in which they were inserted.
pub proof fn law_lookup_gives_back_the_symbols(symbols: Seq<ParsedSymbolView>, name: Seq<char>)
    requires
        forall|i: int|
            0 <= i < symbols.len() ==> (#[trigger] symbols[i]).start_line <= u32::MAX
                && symbols[i].end_line <= u32::MAX,
    ensures
        rows_named(rows_of(symbols), name).map_values(|row: ChunkRowView| result_of(row))
            == symbols.filter(|symbol: ParsedSymbolView| symbol.name == name).map_values(
            |symbol: ParsedSymbolView| details_of(symbol),
        ),
{
    let wanted = |symbol: ParsedSymbolView| symbol.name == name;
    let found = symbols.filter(wanted);
    law_rows_of_a_name(symbols, name);
    assert forall|i: int| 0 <= i < found.len() implies result_of(row_of(#[trigger] found[i]))
        == details_of(found[i]) by {
        symbols.lemma_filter_contains_rev(wanted, found[i]);
    }
    assert(rows_named(rows_of(symbols), name).map_values(|row: ChunkRowView| result_of(row))
        =~= found.map_values(|symbol: ParsedSymbolView| details_of(symbol)));
}

/// Whether hits are at most `limit` rows of a table, each at another position, with scores in
/// order.
pub open spec fn are_hits_in(
    hits: Seq<SearchResultView>,
    rows: Seq<ChunkRowView>,
    limit: nat,
    in_order: spec_fn(u64, u64) -> bool,
) -> bool {
    &&& hits.len() <= limit
    &&& exists|positions: Seq<int>| #[trigger] stand_at(hits, rows, positions)
    &&& forall|i: int, j: int|
        0 <= i < j < hits.len() ==> in_order(
            (#[trigger] hits[i]).score_bits,
            (#[trigger] hits[j]).score_bits,
        )
}

/// Whether hits are the rows of a table at these positions, each at another.
pub open spec fn stand_at(
    hits: Seq<SearchResultView>,
    rows: Seq<ChunkRowView>,
    positions: Seq<int>,
) -> bool {
    &&& positions.len() == hits.len()
    &&& positions.no_duplicates()
    &&& forall|i: int|
        0 <= i < hits.len() ==> {
            &&& 0 <= #[trigger] positions[i] < rows.len()
            &&& hits[i] == hit_of(rows[positions[i]], hits[i].score_bits)
        }
}

/// A search adds nothing to what the database answers and leaves nothing out of it: where the
/// database answers each attempt with rows of the table, each once, at most as many as asked
/// for, with scores in order, so does the search.
pub proof fn law_search_answers_as_the_database_does(
    query: Seq<Classified>,
    top_k: usize,
    rows: Seq<ChunkRowView>,
    in_order: spec_fn(u64, u64) -> bool,
    answers: spec_fn(AttemptView) -> Seq<SearchResultView>,
)
    requires
        forall|attempt: AttemptView|
            are_hits_in(#[trigger] answers(attempt), rows, attempt.limit, in_order),
    ensures
        are_hits_in(
            search_outcome(next_step(attempts_for(query, low_bits(top_k as nat))), answers),
            rows,
            top_k as nat,
            in_order,
        ),
{
    let none = Seq::<SearchResultView>::empty();
    assert(stand_at(none, rows, Seq::empty()));
    law_search_falls_back(query, low_bits(top_k as nat), answers);
}

/// A hit on the row of a symbol carries what a lookup tells of the symbol, if its line numbers
/// are 32-bit numbers.
pub proof fn law_hit_carries_its_symbol(symbol: ParsedSymbolView, score_bits: u64)
    requires
        symbol.start_line <= u32::MAX,
        symbol.end_line <= u32::MAX,
    ensures
        hit_of(row_of(symbol), score_bits) == (SearchResultView {
            file: symbol.file_path,
            name: symbol.name,
            symbol_type: symbol.symbol_type,
            start_line: symbol.start_line,
            end_line: symbol.end_line,
            text: symbol.code,
            score_bits,
        }),
{
}

/// A row carries its symbol, field by field.
pub proof fn law_row_carries_its_symbol(symbols: Seq<ParsedSymbolView>, i: int)
    requires
        0 <= i < symbols.len(),
    ensures
        rows_of(symbols).len() == symbols.len(),
        ({
            let symbol = symbols[i];
            let row = rows_of(symbols)[i];
            &&& row.file == symbol.file_path
            &&& row.name == symbol.name
            &&& row.symbol_type == symbol.symbol_type
            &&& row.text == symbol.code
            &&& symbol.start_line <= u32::MAX ==> row.start_line == symbol.start_line
            &&& symbol.end_line <= u32::MAX ==> row.end_line == symbol.end_line
        }),
{
}

/// A lookup result and a search hit carry their row, field by field.
pub proof fn law_results_carry_their_row(row: ChunkRowView, score_bits: u64)
    ensures
        result_of(row).file == row.file,
        result_of(row).name == row.name,
        result_of(row).symbol_type == row.symbol_type,
        result_of(row).start_line == row.start_line,
        result_of(row).end_line == row.end_line,
        result_of(row).text == row.text,
        hit_of(row, score_bits).file == row.file,
        hit_of(row, score_bits).name == row.name,
        hit_of(row, score_bits).symbol_type == row.symbol_type,
        hit_of(row, score_bits).start_line == row.start_line,
        hit_of(row, score_bits).end_line == row.end_line,
        hit_of(row, score_bits).text == row.text,
        hit_of(row, score_bits).score_bits == score_bits,
{
}

/// The content of rows and attempts is what they hold.
pub proof fn law_content_of_rows_and_attempts(
    rows: Seq<ChunkRow>,
    attempts: Seq<Attempt>,
    i: int,
    k: int,
)
    requires
        0 <= i < rows.len(),
        0 <= k < attempts.len(),
    ensures
        row_views(rows).len() == rows.len(),
        row_views(rows)[i].file == rows[i].file@,
        row_views(rows)[i].name == rows[i].name@,
        row_views(rows)[i].symbol_type == rows[i].symbol_type@,
        row_views(rows)[i].start_line == rows[i].start_line,
        row_views(rows)[i].end_line == rows[i].end_line,
        row_views(rows)[i].text == rows[i].text@,
        attempt_views(attempts).len() == attempts.len(),
        attempt_views(attempts)[k].index == attempts[k].index,
        attempt_views(attempts)[k].query == attempts[k].query@,
        attempt_views(attempts)[k].limit == attempts[k].limit,
{
}

/// Numbers that fit in 32 bits are kept, and what does not fit wraps around.
pub proof fn law_low_bits(n: nat)
    ensures
        n <= u32::MAX ==> low_bits(n) == n,
        low_bits(n + 0x1_0000_0000) == low_bits(n),
        low_bits(n) <= u32::MAX,
{
}

/// A query is tried exactly if it has a word.
pub proof fn law_no_attempt_without_words(query: Seq<Classified>, limit: nat)
    ensures
        attempts_for(query, limit).len() == 0 <==> query::words(query::trimmed(query)).len() == 0,
{
}

/// Each attempt asks for `top_k` hits. The first asks the full-text index for every word, the
/// second for any word, and the third, for a query of three bytes or more, asks the index of
/// names for the query as a phrase.
pub proof fn law_attempts_of_a_search(query: Seq<Classified>, top_k: usize)
    requires
        top_k <= u32::MAX,
        query::words(query::trimmed(query)).len() > 0,
    ensures
        ({
            let attempts = attempts_for(query, low_bits(top_k as nat));
            let trimmed = query::trimmed(query);
            let text = query::chars_only(trimmed);
            &&& attempts.len() == if utf8::encode_utf8(text).len() >= 3 {
                3nat
            } else {
                2
            }
            &&& forall|i: int| 0 <= i < attempts.len() ==> (#[trigger] attempts[i]).limit == top_k
            &&& attempts[0].index is Text && attempts[0].query == query::and_query(trimmed)
            &&& attempts[1].index is Text && attempts[1].query == query::or_query(trimmed)
            &&& attempts.len() == 3 ==> attempts[2].index is Names && attempts[2].query
                == query::phrase_of(text)
        }),
{
    law_low_bits(top_k as nat);
}

/// Hits end a search, with all of them and no others; an attempt without hits leads to the next
/// one, and the last of them to the end.
pub proof fn law_steps_of_a_search(
    attempt: AttemptView,
    pending: Seq<AttemptView>,
    hits: Seq<SearchResultView>,
)
    ensures
        hits.len() > 0 ==> step_after(pending, hits) == SearchStepView::Finished(hits),
        step_after(Seq::empty(), Seq::empty()) == SearchStepView::Finished(Seq::empty()),
        step_after(seq![attempt] + pending, Seq::empty()) == SearchStepView::Ask(attempt, pending),
        next_step(Seq::empty()) == SearchStepView::Finished(Seq::empty()),
        next_step(seq![attempt] + pending) == SearchStepView::Ask(attempt, pending),
{
    assert((seq![attempt] + pending).skip(1) =~= pending);
}

/// The content of a step is what it holds.
pub proof fn law_content_of_a_step(attempt: Attempt, pending: PendingSearch, hits: Vec<SearchResult>)
    ensures
        SearchStep::Ask(attempt, pending)@ == SearchStepView::Ask(
            attempt@,
            attempt_views(pending.attempts@),
        ),
        SearchStep::Finished(hits)@ == SearchStepView::Finished(types::hit_views(hits@)),
        SearchIndex::Text.statement_of() == MATCH_TEXT@,
        SearchIndex::Names.statement_of() == MATCH_NAMES@,
{
}

} // verus!
