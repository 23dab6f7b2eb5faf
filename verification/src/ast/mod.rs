//! Syntax tree of the zoll markup: nodes, per-line trees and the document.

pub mod doc;
pub mod line;
pub mod markers;
pub mod node;
pub mod style;

pub use doc::MarkupDoc;
pub use line::{BlockType, LineAST};
pub use markers::{markers, MarkerDef};
pub use node::MarkupNode;
pub use style::MarkupStyle;
