//! A small Lisp-like data notation: nested lists, integers, floats,
//! strings with escape sequences, bare symbols, and `:keyword` tokens
//! that label a following value as a named argument within a list.
//!
//! `parser::parse` turns source text into a sequence of [`data::Data`]
//! values, `Data::repr` renders a value back as canonical text, and the
//! proofs in `laws` show that re-parsing rendered output reproduces the
//! original value tree.

pub mod data;
pub mod export;
pub mod laws;
pub mod model;
pub mod parser;

pub use data::Data;
pub use data::KeywordMap;
pub use export::data_vec_for_file;
pub use parser::{parse, ParserResult, GrammarError, BuildError, Token};
