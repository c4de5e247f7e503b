//! The evaluation core of a small command shell: a line is split into
//! commands joined by `;` and `&&`, parsed into an expression tree, and
//! evaluated step by step against outcomes that the caller reports.
pub mod error;
pub mod eval;
pub mod parser;
pub mod tokenizer;
