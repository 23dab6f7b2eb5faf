//! Line parser: `parse_line` turns one line into a `LineAST`, `merge`
//! assembles the lines into a `MarkupDoc`.

pub mod chars;
pub mod line;
pub mod merge;

pub use line::{parse_inline, parse_line};
pub use merge::{merge, parse_full};
