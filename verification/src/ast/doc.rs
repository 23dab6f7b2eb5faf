//! The document: root of the syntax tree.

use vstd::prelude::*;
use crate::ast::node::{MarkupNode, Node, models};

verus! {

/// The document: root of the syntax tree.
#[derive(Debug, PartialEq)]
pub struct MarkupDoc {
    pub children: Vec<MarkupNode>,
}

impl MarkupDoc {
    /// The document's top-level nodes, as mathematical values.
    pub open spec fn model(&self) -> Seq<Node> {
        models(self.children@)
    }
}

} // verus!
