//! Zoll markup language: a verified line parser, merger, incremental
//! document and byte-span engine.

pub mod ast;
pub mod engine;
pub mod incremental;
pub mod parser;
pub mod viewport;
