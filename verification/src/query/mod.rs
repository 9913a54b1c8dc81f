//! The query language: tokens, patterns, parsing and matching.
pub mod lexer;
pub mod matcher;
pub mod model;
pub mod parser;
pub mod resolver;
pub mod variables;
