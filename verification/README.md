# Tree-Worm

Local code intelligence for JavaScript and TypeScript, offered to MCP clients over stdio. The
server parses a workspace with Tree-sitter, keeps the symbols in an SQLite full-text index and
the calls in an in-memory call graph, and answers four requests: search, symbol lookup, call
graph and bug analysis.

The logic is a library that Verus verifies. What talks to the outside world is ordinary Rust
around it.

## Layout

- `src/call_graph.rs`: what a call graph is, mathematically, and the laws it obeys.
- `src/graph.rs`: the call graph engine, a petgraph graph with its indexes.
- `src/digraph.rs`: the operations of petgraph that the engine relies on, with their contracts.
- `src/syntax.rs`: syntax trees as plain values, read from Tree-sitter.
- `src/parser.rs`: which symbols, calls and imports a syntax tree holds.
- `src/index.rs`: which files are indexed, and what their symbols and call graph are.
- `src/query.rs`: full-text queries for what a user types.
- `src/store.rs`: the statements and rows of the database, and the search strategy.
- `src/server.rs`: refusals, requests and the analysis of bug reports.
- `src/types.rs`, `src/text.rs`: the values that are passed around, and operations on text.
- `tests/`: tests of the library.
- `app/`: the program: command line, workspace walk, database, MCP transport.

Contracts speak of views: each type has a `...View` (or a mathematical type such as `CallGraph`)
that holds its content. Functions named `law_...` state what holds of several functions together.

The contracts in `src/digraph.rs` and `src/syntax.rs`, and those of a few functions of the
standard library in `src/text.rs`, `src/query.rs` and `src/syntax.rs`, are taken from the
documentation and the source of the functions they describe. Everything else is proved.
