//! A lexical analyzer for INI-style configuration text.
//!
//! The library turns a source text and a configurable comment-introducer
//! character into a stream of typed tokens. Two disciplines coexist:
//!
//! * the semantic lexer ([`semantic::Parser`]) recognizes whole logical
//!   constructs — section headers, key-value pairs, comments, line ends —
//!   and discards the whitespace between them;
//! * the flat lexer ([`flat::lex_flat`]) emits every distinguishable
//!   lexical unit, separators and whitespace runs included, keeping enough
//!   information to reconstruct the formatting of the input.
//!
//! Both are driven by the single-character-lookahead cursor
//! [`reader::StringReader`].

pub mod chars;
pub mod flat;
pub mod reader;
pub mod scan;
pub mod semantic;
pub mod trim;
