use rusqlite::{Connection, Row};

use tree_worm::index::build_index;
use tree_worm::parser::parse_file;
use tree_worm::query::CharClass;
use tree_worm::store::{
    rows_to_insert, search, search_result, start_search, symbol_result, Attempt, ChunkRow,
    SearchIndex, SearchStep, CHUNKS_BY_NAME, CREATE_TABLES, INSERT_CHUNK,
};
use tree_worm::types::{ParsedSymbol, SearchResult, SymbolResult};

/// A store in memory, driven by the statements, rows and steps of the library.
struct Store {
    conn: Connection,
}

fn chunk_row(row: &Row<'_>) -> rusqlite::Result<ChunkRow> {
    Ok(ChunkRow {
        file: row.get(0)?,
        name: row.get(1)?,
        symbol_type: row.get(2)?,
        start_line: row.get(3)?,
        end_line: row.get(4)?,
        text: row.get(5)?,
    })
}

impl Store {
    fn rebuild(&self) {
        self.conn.execute_batch(CREATE_TABLES).unwrap();
    }

    fn add_symbols(&self, symbols: &[ParsedSymbol]) {
        let rows = match rows_to_insert(symbols) {
            Some(rows) => rows,
            None => return,
        };
        let mut stmt = self.conn.prepare(INSERT_CHUNK).unwrap();
        for row in rows {
            let inserted = stmt
                .execute((
                    row.file,
                    row.name,
                    row.symbol_type,
                    row.start_line,
                    row.end_line,
                    row.text,
                ))
                .unwrap();
            assert_eq!(inserted, 1);
        }
    }

    fn ask(&self, attempt: &Attempt) -> Vec<SearchResult> {
        let mut stmt = self.conn.prepare(attempt.index.statement()).unwrap();
        let hits = stmt
            .query_map((&attempt.query, attempt.limit), |row| {
                let score: f64 = row.get(6)?;
                Ok(search_result(chunk_row(row)?, score.to_bits()))
            })
            .unwrap()
            .collect::<Result<Vec<_>, _>>()
            .unwrap();
        hits
    }

    fn search_counting(&self, query: &str, top_k: usize) -> (Vec<SearchResult>, Vec<SearchIndex>) {
        let mut asked = vec![];
        let mut step = search(query, top_k);
        loop {
            match step {
                SearchStep::Ask(attempt, pending) => {
                    asked.push(attempt.index);
                    step = pending.resume(self.ask(&attempt));
                }
                SearchStep::Finished(hits) => return (hits, asked),
            }
        }
    }

    fn search(&self, query: &str, top_k: usize) -> Vec<SearchResult> {
        self.search_counting(query, top_k).0
    }

    fn get_symbol(&self, name: &str) -> Vec<SymbolResult> {
        let mut stmt = self.conn.prepare(CHUNKS_BY_NAME).unwrap();
        let results = stmt
            .query_map((name,), |row| Ok(symbol_result(chunk_row(row)?)))
            .unwrap()
            .collect::<Result<Vec<_>, _>>()
            .unwrap();
        results
    }
}

fn make_store() -> Store {
    let store = Store {
        conn: Connection::open_in_memory().unwrap(),
    };
    store.rebuild();
    store
}

fn make_symbol(name: &str, file: &str, code: &str) -> ParsedSymbol {
    ParsedSymbol {
        name: name.into(),
        symbol_type: "function_declaration".into(),
        file_path: file.into(),
        start_line: 1,
        end_line: 5,
        code: code.into(),
    }
}

#[test]
fn new_store_creates_db() {
    let store = make_store();
    // Should be able to search empty store
    let results = store.search("anything", 10);
    assert!(results.is_empty());
}

#[test]
fn add_symbols_empty_vec() {
    let store = make_store();
    assert!(rows_to_insert(&[]).is_none());
    store.add_symbols(&[]);
}

#[test]
fn add_and_search_symbols() {
    let store = make_store();
    let syms = vec![
        make_symbol(
            "calculateTotal",
            "src/math.js",
            "function calculateTotal() { return 42; }",
        ),
        make_symbol(
            "formatPrice",
            "src/format.js",
            "function formatPrice(p) { return '$' + p; }",
        ),
    ];
    store.add_symbols(&syms);

    let results = store.search("calculateTotal", 10);
    assert!(!results.is_empty());
    assert_eq!(results[0].name, "calculateTotal");
    assert_eq!(results[0].file, "src/math.js");
    assert_eq!(results[0].symbol_type, "function_declaration");
}

#[test]
fn search_by_code_content() {
    let store = make_store();
    let syms = vec![make_symbol(
        "auth",
        "src/auth.js",
        "function auth() { validateToken(); checkPermissions(); }",
    )];
    store.add_symbols(&syms);

    let results = store.search("validateToken", 10);
    assert!(!results.is_empty());
    assert_eq!(results[0].name, "auth");
}

#[test]
fn search_respects_top_k() {
    let store = make_store();
    let syms: Vec<ParsedSymbol> = (0..20)
        .map(|i| {
            make_symbol(
                &format!("handler{}", i),
                "src/app.js",
                &format!("function handler{}() {{ process(); }}", i),
            )
        })
        .collect();
    store.add_symbols(&syms);

    let results = store.search("handler", 5);
    assert!(results.len() <= 5);
}

#[test]
fn search_empty_query() {
    let store = make_store();
    let syms = vec![make_symbol("foo", "a.js", "function foo() {}")];
    store.add_symbols(&syms);

    let results = store.search("", 10);
    assert!(results.is_empty());
}

#[test]
fn search_whitespace_only_query() {
    let store = make_store();
    let syms = vec![make_symbol("foo", "a.js", "function foo() {}")];
    store.add_symbols(&syms);

    let results = store.search("   ", 10);
    assert!(results.is_empty());
}

#[test]
fn get_symbol_by_exact_name() {
    let store = make_store();
    let syms = vec![
        make_symbol("myFunction", "src/a.js", "function myFunction() {}"),
        make_symbol("otherFunction", "src/b.js", "function otherFunction() {}"),
    ];
    store.add_symbols(&syms);

    let results = store.get_symbol("myFunction");
    assert_eq!(results.len(), 1);
    assert_eq!(results[0].name, "myFunction");
    assert_eq!(results[0].file, "src/a.js");
}

#[test]
fn get_symbol_not_found() {
    let store = make_store();
    let syms = vec![make_symbol("foo", "a.js", "function foo() {}")];
    store.add_symbols(&syms);

    let results = store.get_symbol("nonexistent");
    assert!(results.is_empty());
}

#[test]
fn get_symbol_multiple_definitions() {
    let store = make_store();
    let syms = vec![
        make_symbol("render", "src/a.js", "function render() { /* a */ }"),
        make_symbol("render", "src/b.js", "function render() { /* b */ }"),
    ];
    store.add_symbols(&syms);

    let results = store.get_symbol("render");
    assert_eq!(results.len(), 2);
}

#[test]
fn store_rebuilt_on_new() {
    let store = make_store();
    let syms = vec![make_symbol("old", "a.js", "function old() {}")];
    store.add_symbols(&syms);
    assert_eq!(store.get_symbol("old").len(), 1);

    // Creating the tables again starts fresh (tables dropped)
    store.rebuild();
    let results = store.get_symbol("old");
    assert!(results.is_empty());
}

#[test]
fn search_with_special_characters() {
    let store = make_store();
    let syms = vec![make_symbol(
        "foo",
        "a.js",
        "function foo() { return a + b; }",
    )];
    store.add_symbols(&syms);

    let results = store.search("foo", 10);
    assert!(!results.is_empty());
}

#[test]
fn special_characters_in_a_query_are_no_error() {
    let store = make_store();
    store.add_symbols(&[make_symbol("foo", "a.js", "function foo() {}")]);
    for query in ["\"foo\" (", "foo* \"", "^foo:", "-foo +"] {
        assert_eq!(store.search(query, 10).len(), 1);
    }
    assert!(store.search("bar\" {name}:", 10).is_empty());
    assert!(store.search("\"*\"", 10).is_empty());
}

#[test]
fn search_result_has_score() {
    let store = make_store();
    let syms = vec![make_symbol(
        "findUser",
        "a.js",
        "function findUser() { return db.query(); }",
    )];
    store.add_symbols(&syms);

    let results = store.search("findUser", 10);
    assert!(!results.is_empty());
    // BM25 rank is typically negative (lower = better match)
    assert!(f64::from_bits(results[0].score_bits) != 0.0);
}

#[test]
fn search_or_prefix_finds_partial_match() {
    let store = make_store();
    let syms = vec![make_symbol(
        "authenticateUser",
        "src/auth.js",
        "function authenticateUser(token) { verify(token); }",
    )];
    store.add_symbols(&syms);
    let results = store.search("auth", 10);
    assert!(!results.is_empty());
    assert_eq!(results[0].name, "authenticateUser");
}

#[test]
fn search_multi_word_or() {
    let store = make_store();
    let syms = vec![
        make_symbol(
            "authMiddleware",
            "src/auth.js",
            "function authMiddleware(req, res, next) {}",
        ),
        make_symbol(
            "validateInput",
            "src/validate.js",
            "function validateInput(data) {}",
        ),
    ];
    store.add_symbols(&syms);
    let results = store.search("auth middleware", 10);
    assert!(!results.is_empty());
}

#[test]
fn search_trigram_fallback() {
    let store = make_store();
    let syms = vec![make_symbol(
        "authMiddleware",
        "src/auth.js",
        "function authMiddleware() {}",
    )];
    store.add_symbols(&syms);
    // "Middleware" as substring of name — trigram fallback should find it
    let (results, asked) = store.search_counting("Middleware", 10);
    assert!(!results.is_empty());
    assert_eq!(results[0].name, "authMiddleware");
    assert_eq!(
        asked,
        vec![SearchIndex::Text, SearchIndex::Text, SearchIndex::Names]
    );
}

#[test]
fn search_bm25_name_boost() {
    let store = make_store();
    let syms = vec![
        make_symbol(
            "validate",
            "src/validate.js",
            "function validate(x) { return x > 0; }",
        ),
        make_symbol(
            "process",
            "src/process.js",
            "function process(data) { validate(data); return data; }",
        ),
    ];
    store.add_symbols(&syms);
    let results = store.search("validate", 10);
    assert!(!results.is_empty());
    // Name-matched "validate" should rank higher than text-matched "process"
    assert_eq!(results[0].name, "validate");
}

#[test]
fn search_short_query_skips_trigram() {
    let store = make_store();
    let syms = vec![make_symbol("ab", "a.js", "function ab() {}")];
    store.add_symbols(&syms);
    // 2-char query: trigram requires >=3 chars, so only unicode61 FTS5 is tried
    let results = store.search("ab", 10);
    assert!(!results.is_empty());
    let (results, asked) = store.search_counting("xy", 10);
    assert!(results.is_empty());
    assert_eq!(asked, vec![SearchIndex::Text, SearchIndex::Text]);
}

#[test]
fn a_lookup_gives_back_what_was_inserted() {
    let store = make_store();
    let symbol = ParsedSymbol {
        name: "say \"hi\"; --".into(),
        symbol_type: "method_definition".into(),
        file_path: "src/'a'.js".into(),
        start_line: 7,
        end_line: u32::MAX as usize,
        code: "line\n\u{65e5}".into(),
    };
    store.add_symbols(&[symbol.clone(), make_symbol("other", "b.js", "other")]);
    let results = store.get_symbol(&symbol.name);
    assert_eq!(results.len(), 1);
    assert_eq!(results[0].file, symbol.file_path);
    assert_eq!(results[0].name, symbol.name);
    assert_eq!(results[0].symbol_type, symbol.symbol_type);
    assert_eq!(results[0].start_line, 7);
    assert_eq!(results[0].end_line, u32::MAX);
    assert_eq!(results[0].text, symbol.code);
}

#[test]
fn rows_keep_the_low_bits_of_line_numbers() {
    let symbol = ParsedSymbol {
        start_line: 0x1_0000_0002,
        end_line: 0x2_ffff_ffff,
        ..make_symbol("f", "a.js", "code")
    };
    let rows = rows_to_insert(&[symbol]).unwrap();
    assert_eq!(rows.len(), 1);
    assert_eq!(rows[0].file, "a.js");
    assert_eq!(rows[0].name, "f");
    assert_eq!(rows[0].symbol_type, "function_declaration");
    assert_eq!(rows[0].start_line, 2);
    assert_eq!(rows[0].end_line, u32::MAX);
    assert_eq!(rows[0].text, "code");
}

/// The attempts that a search makes where each finds nothing.
fn attempts(mut step: SearchStep) -> Vec<(SearchIndex, String, u32)> {
    let mut made = vec![];
    loop {
        match step {
            SearchStep::Ask(attempt, pending) => {
                made.push((attempt.index, attempt.query, attempt.limit));
                step = pending.resume(vec![]);
            }
            SearchStep::Finished(hits) => {
                assert!(hits.is_empty());
                return made;
            }
        }
    }
}

#[test]
fn attempts_go_from_precise_to_broad() {
    assert_eq!(
        attempts(search("  auth \"x  ", 10)),
        vec![
            (SearchIndex::Text, "auth* AND x*".to_string(), 10),
            (SearchIndex::Text, "auth* OR x*".to_string(), 10),
            (SearchIndex::Names, "\"auth \"\"x\"".to_string(), 10),
        ]
    );
    assert_eq!(
        attempts(search(" ab ", 0x1_0000_0003)),
        vec![
            (SearchIndex::Text, "ab*".to_string(), 3),
            (SearchIndex::Text, "ab*".to_string(), 3),
        ]
    );
    // Bytes are counted, not characters.
    assert_eq!(attempts(search("\u{e9}\u{e9}", 1)).len(), 3);
    assert!(attempts(search("?!", 10)).is_empty());
    assert!(attempts(search("", 10)).is_empty());
    let query = [('-', CharClass::Other), ('-', CharClass::Word)];
    assert_eq!(
        attempts(start_search(&query, 2)),
        vec![
            (SearchIndex::Text, "-*".to_string(), 2),
            (SearchIndex::Text, "-*".to_string(), 2),
        ]
    );
}

#[test]
fn hits_end_a_search() {
    let hit = || {
        search_result(
            ChunkRow {
                file: "a.js".into(),
                name: "f".into(),
                symbol_type: "t".into(),
                start_line: 1,
                end_line: 2,
                text: "code".into(),
            },
            9,
        )
    };
    match search("query", 10) {
        SearchStep::Ask(_, pending) => match pending.resume(vec![hit()]) {
            SearchStep::Finished(hits) => {
                assert_eq!(hits.len(), 1);
                assert_eq!(hits[0].file, "a.js");
                assert_eq!(hits[0].name, "f");
                assert_eq!(hits[0].symbol_type, "t");
                assert_eq!((hits[0].start_line, hits[0].end_line), (1, 2));
                assert_eq!(hits[0].text, "code");
                assert_eq!(hits[0].score_bits, 9);
            }
            step => panic!("not finished: {:?}", step),
        },
        step => panic!("nothing asked: {:?}", step),
    }
}

#[test]
fn every_symbol_of_every_file_can_be_looked_up() {
    let store = make_store();
    let files = [
        parse_file("b.js", "function f() {\n}\nclass C { f() {} }").unwrap(),
        parse_file("a.ts", "\nconst f = () => 1;").unwrap(),
    ];
    let (_graph, symbols) = build_index(&files).unwrap();
    store.add_symbols(&symbols);
    let mut found: Vec<(String, String, u32, u32, String)> = store
        .get_symbol("f")
        .into_iter()
        .map(|r| (r.file, r.symbol_type, r.start_line, r.end_line, r.text))
        .collect();
    found.sort();
    let row = |file: &str, kind: &str, start, end, text: &str| {
        (file.to_string(), kind.to_string(), start, end, text.to_string())
    };
    assert_eq!(
        found,
        vec![
            row("a.ts", "arrow_function", 1, 1, "() => 1"),
            row("b.js", "function_declaration", 0, 1, "function f() {\n}"),
            row("b.js", "method_definition", 2, 2, "f() {}"),
        ]
    );
    assert_eq!(store.get_symbol("C").len(), 1);
}

#[test]
fn hits_are_rows_of_the_table_best_first() {
    let store = make_store();
    let syms: Vec<ParsedSymbol> = (0..6)
        .map(|i| {
            let code = format!("function handler{}() {{ {} }}", i, "other(); ".repeat(i));
            ParsedSymbol {
                start_line: 10 * i,
                end_line: 10 * i + 1,
                ..make_symbol(&format!("handler{}", i), "src/app.js", &code)
            }
        })
        .collect();
    store.add_symbols(&syms);
    let hits = store.search("handler", 4);
    assert_eq!(hits.len(), 4);
    let mut seen = vec![];
    for hit in &hits {
        let symbol = syms.iter().find(|s| s.name == hit.name).unwrap();
        assert_eq!(hit.file, symbol.file_path);
        assert_eq!(hit.symbol_type, symbol.symbol_type);
        assert_eq!(hit.start_line as usize, symbol.start_line);
        assert_eq!(hit.end_line as usize, symbol.end_line);
        assert_eq!(hit.text, symbol.code);
        assert!(!seen.contains(&hit.name));
        seen.push(hit.name.clone());
    }
    for i in 1..hits.len() {
        let earlier = f64::from_bits(hits[i - 1].score_bits);
        assert!(earlier <= f64::from_bits(hits[i].score_bits));
    }
    // Searching changes nothing.
    assert!(syms.iter().all(|s| store.get_symbol(&s.name).len() == 1));
}
