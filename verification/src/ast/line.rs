//! Syntax tree of one line.

use vstd::prelude::*;
use crate::ast::node::{MarkupNode, Node, models, rows_model, opt_model, copy_nodes, copy_rows, copy_opt_string};

verus! {

/// Kind of a block-level marker.
#[derive(Debug, Clone, Copy, PartialEq, Eq, Structural)]
pub enum BlockType {
    Comment,
    Formula,
    Spoiler,
}

/// Syntax tree of one line; `merge` assembles the lines into a document.
#[derive(Debug, PartialEq)]
pub enum LineAST {
    /// Blank line.
    Empty,
    /// Text with inline markers.
    Paragraph(Vec<MarkupNode>),
    /// `%%` comment up to the end of the line.
    Comment(Vec<MarkupNode>),
    /// `$$` formula up to the end of the line.
    Formula(Vec<MarkupNode>),
    /// `!!` spoiler up to the end of the line, with an optional title.
    Spoiler(Option<String>, Vec<MarkupNode>),
    /// `#N#` header.
    Header(u32, Vec<MarkupNode>),
    /// List item (ordered, number, children).
    ListItem(bool, u32, Vec<MarkupNode>),
    /// `>` quote.
    Quote(Vec<MarkupNode>),
    /// Table row `| a | b |`.
    TableRow(Vec<Vec<MarkupNode>>),
    /// Tag `#:name`.
    Tag(String),
    /// Thematic break.
    ThematicBreak,
    /// `%%%` / `$$$` / `!!!`: `merge` decides between open and close.
    BlockMarker(BlockType),
    /// `!!!title:` opens a spoiler block.
    SpoilerBlockOpen(Option<String>),
    /// Raw line inside a code block.
    CodeLine(String),
    /// Raw line inside a comment block.
    CommentLine(String),
    /// Raw line inside a formula block.
    FormulaLine(String),
    /// Line inside a spoiler block.
    SpoilerLine(Vec<MarkupNode>),
}

/// Mathematical model of a line.
pub enum Line {
    Empty,
    Paragraph(Seq<Node>),
    Comment(Seq<Node>),
    Formula(Seq<Node>),
    Spoiler(Option<Seq<char>>, Seq<Node>),
    Header(u32, Seq<Node>),
    ListItem(bool, u32, Seq<Node>),
    Quote(Seq<Node>),
    TableRow(Seq<Seq<Node>>),
    Tag(Seq<char>),
    ThematicBreak,
    BlockMarker(BlockType),
    SpoilerBlockOpen(Option<Seq<char>>),
    CodeLine(Seq<char>),
    CommentLine(Seq<char>),
    FormulaLine(Seq<char>),
    SpoilerLine(Seq<Node>),
}

impl LineAST {
    /// The line as a mathematical value.
    pub open spec fn model(&self) -> Line {
        match self {
            LineAST::Empty => Line::Empty,
            LineAST::Paragraph(c) => Line::Paragraph(models(c@)),
            LineAST::Comment(c) => Line::Comment(models(c@)),
            LineAST::Formula(c) => Line::Formula(models(c@)),
            LineAST::Spoiler(t, c) => Line::Spoiler(opt_model(*t), models(c@)),
            LineAST::Header(l, c) => Line::Header(*l, models(c@)),
            LineAST::ListItem(o, n, c) => Line::ListItem(*o, *n, models(c@)),
            LineAST::Quote(c) => Line::Quote(models(c@)),
            LineAST::TableRow(r) => Line::TableRow(rows_model(r@)),
            LineAST::Tag(s) => Line::Tag(s@),
            LineAST::ThematicBreak => Line::ThematicBreak,
            LineAST::BlockMarker(b) => Line::BlockMarker(*b),
            LineAST::SpoilerBlockOpen(t) => Line::SpoilerBlockOpen(opt_model(*t)),
            LineAST::CodeLine(s) => Line::CodeLine(s@),
            LineAST::CommentLine(s) => Line::CommentLine(s@),
            LineAST::FormulaLine(s) => Line::FormulaLine(s@),
            LineAST::SpoilerLine(c) => Line::SpoilerLine(models(c@)),
        }
    }
}

/// Models of a sequence of lines.
pub open spec fn line_models(v: Seq<LineAST>) -> Seq<Line> {
    Seq::new(v.len(), |i: int| v[i].model())
}

/// A deep copy of a line.
pub fn copy_line(l: &LineAST) -> (r: LineAST)
    ensures
        r.model() == l.model(),
{
    match l {
        LineAST::Empty => LineAST::Empty,
        LineAST::Paragraph(c) => LineAST::Paragraph(copy_nodes(c)),
        LineAST::Comment(c) => LineAST::Comment(copy_nodes(c)),
        LineAST::Formula(c) => LineAST::Formula(copy_nodes(c)),
        LineAST::Spoiler(t, c) => LineAST::Spoiler(copy_opt_string(t), copy_nodes(c)),
        LineAST::Header(lv, c) => LineAST::Header(*lv, copy_nodes(c)),
        LineAST::ListItem(o, n, c) => LineAST::ListItem(*o, *n, copy_nodes(c)),
        LineAST::Quote(c) => LineAST::Quote(copy_nodes(c)),
        LineAST::TableRow(r) => LineAST::TableRow(copy_rows(r)),
        LineAST::Tag(s) => LineAST::Tag(s.clone()),
        LineAST::ThematicBreak => LineAST::ThematicBreak,
        LineAST::BlockMarker(b) => LineAST::BlockMarker(*b),
        LineAST::SpoilerBlockOpen(t) => LineAST::SpoilerBlockOpen(copy_opt_string(t)),
        LineAST::CodeLine(s) => LineAST::CodeLine(s.clone()),
        LineAST::CommentLine(s) => LineAST::CommentLine(s.clone()),
        LineAST::FormulaLine(s) => LineAST::FormulaLine(s.clone()),
        LineAST::SpoilerLine(c) => LineAST::SpoilerLine(copy_nodes(c)),
    }
}

} // verus!
