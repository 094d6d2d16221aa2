//! A small-language front end: a lexical scanner that turns source text into
//! positioned tokens, and a recursive-descent parser that builds an abstract
//! syntax tree for a tiny expression language with integer and float literals,
//! identifiers, parenthesized grouping, single-argument function binding
//! (`fn x expr`), arithmetic operators and equality.

pub mod lexer;
pub mod parser;
pub mod render;
