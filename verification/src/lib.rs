//! Lint-Owl: a taint analyzer whose result is the data-flow path from an untrusted source
//! to a dangerous sink, not a flat list of warnings.
//!
//! It reads a Python subset: assignments and expressions, with calls, chained method calls,
//! concatenations and f-strings; statements led by a keyword, several to a line, and calls
//! that run over several lines. Data is followed forward, in a single scope and without
//! control flow.
//!
//! - `text`, `lexer`, `parser`, `statements`: from a text to its statements.
//! - `grammar`: that expressions are read as they are written.
//! - `rules`: what counts as a source and as a sink.
//! - `taint`: the engine that follows the data.
//! - `flow`: what it means that data flows to a sink, and that the engine reports it.
//! - `provenance`, `script`: what each expression, statement and line adds to that.
//! - `analysis`, `finding`, `display`: the findings of a text, and how they are shown.
//! - `mcp`, `json`, `server`: the decisions of the tool server and of the HTTP service.

pub mod analysis;
pub mod display;
pub mod finding;
pub mod flow;
pub mod grammar;
pub mod json;
pub mod lexer;
pub mod mcp;
pub mod parser;
pub mod provenance;
pub mod rules;
pub mod script;
pub mod server;
pub mod statements;
pub mod taint;
pub mod text;

pub use analysis::analyze;
pub use display::render;
pub use finding::Finding;
