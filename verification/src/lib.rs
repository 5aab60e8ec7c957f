//! The core of a front end for a small ML-style language: source positions,
//! a rewindable lexer, the position-guided syntax tree walk behind type
//! queries and completion, and diagnostics that quote the offending line.

pub mod ast;
pub mod completion;
pub mod error;
pub mod interner;
pub mod lexer;
pub mod pos;
pub mod relex;
pub mod scan;
pub mod scoped_map;
pub mod text;
pub mod token;
pub mod types;
pub mod walk;
