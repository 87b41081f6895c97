//! Code intelligence for JavaScript and TypeScript: parses source files into symbols, calls and
//! imports, keeps a call graph of them, and decides how the search index is asked and how the
//! requests of clients are answered.

pub mod call_graph;
pub mod digraph;
pub mod graph;
pub mod index;
pub mod parser;
pub mod query;
pub mod server;
pub mod store;
pub mod syntax;
pub mod text;
pub mod types;
