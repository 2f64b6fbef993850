//! A small backtracking regular-expression engine: a pattern parser, an
//! executor that searches an input for the longest match, and a `$N`
//! substitution template.

pub mod error;
pub mod ordered;
pub mod text;
pub mod parser;
pub mod executor;
pub mod replace;
