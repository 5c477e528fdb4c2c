//! A per-directory, trust-on-first-use environment loader: a store of
//! approvals bound to file content, a parser for environment directive files
//! and a compiler from directives to shell text.

pub mod config;
pub mod executor;
pub mod parser;
