//! A template micro-language: a source string mixes literal text with
//! permutation placeholders (lists of alternatives or exact decimal ranges)
//! and named variables shared across placeholder sites.  The library parses
//! such a string into a statement tree, renders it back to its source text,
//! and expands it into the ordered list of all fully resolved strings.

pub mod text;
pub mod decimal;
pub mod expression;
pub mod grammar;
pub mod statement;
