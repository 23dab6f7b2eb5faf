//! Incremental document: the text, its line starts, one AST per line and the
//! merged AST; an edit reparses only the lines it touched.

pub mod doc;
pub mod text;

pub use doc::IncrementalDoc;
pub use text::build_line_starts;
