//! A lexical scanner and recursive-descent expression parser.
//!
//! The scanner turns raw source text into a classified token sequence and a
//! list of lexical diagnostics; the parser turns that token sequence into an
//! expression tree honoring the usual arithmetic and relational precedence,
//! together with a list of syntax diagnostics. Neither pass aborts on the
//! first fault: diagnostics are collected as values and the best-effort
//! result is still returned.

pub mod error_handling;
pub mod expressions;
pub mod laws;
pub mod parser;
pub mod scanner;
pub mod token_type;
