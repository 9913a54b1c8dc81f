//! Structural search and rules for Python source code.
pub mod cache;
pub mod cli;
pub mod double;
pub mod files;
pub mod find;
pub mod number;
pub mod query;
pub mod query_parser;
pub mod regex_support;
pub mod report;
pub mod rewrite;
pub mod runs;
pub mod rules;
pub mod search;
pub mod syntax;
pub mod text;
pub mod ts;
pub mod words;
