//! Parsing, validation and token estimation for TOON, an
//! indentation-structured text format, with a shared in-memory value model.
//!
//! The pipeline: text is parsed into a [`Value`] tree, the tree is checked
//! for structural invariants (declared-vs-actual table row counts, per-row
//! schema consistency), and a token-count estimate is computed over it.

pub mod error;
pub mod number;
pub mod parser;
pub mod text;
pub mod token_estimator;
pub mod toon_parser;
pub mod validator;
pub mod value;

pub use error::TqError;
pub use parser::{InputFormat, Parser};
pub use toon_parser::ToonParser;
pub use token_estimator::{TokenBreakdown, TokenEstimator};
pub use validator::Validator;
pub use value::{Entries, Table, Value};
