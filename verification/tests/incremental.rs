use zoll::ast::{MarkupNode, MarkupStyle};
use zoll::incremental::IncrementalDoc;
use zoll::viewport::Viewport;

#[test]
fn new_doc_creates_lines() {
    let doc = IncrementalDoc::new("hello\nworld");
    assert_eq!(doc.line_starts.len(), 2);
    assert_eq!(doc.line_asts.len(), 2);
}

#[test]
fn edit_single_line() {
    let mut doc = IncrementalDoc::new("hello world");
    doc.edit(0, 5, "hi");
    assert_eq!(doc.source, "hi world");
}

#[test]
fn edit_preserves_ast() {
    let mut doc = IncrementalDoc::new("**bold** text");
    doc.edit(9, 13, "content");
    let has_bold = doc.merged_ast.children.iter().any(|n| {
        matches!(n, MarkupNode::Formatted { style, .. } if *style == MarkupStyle::bold())
    });
    assert!(has_bold, "Bold formatting should be preserved after edit");
}

#[test]
fn edit_preserves_line_count() {
    let mut doc = IncrementalDoc::new("line1\nline2\nline3");
    assert_eq!(doc.num_lines(), 3);
    doc.edit(0, 0, "X");
    assert_eq!(doc.num_lines(), 3);
}

#[test]
fn edit_adds_newlines() {
    let mut doc = IncrementalDoc::new("hello world");
    doc.edit(6, 6, "\nnew\nlines\n");
    assert!(doc.num_lines() >= 3, "should have at least 3 lines, got {}", doc.num_lines());
    assert_eq!(doc.source, "hello \nnew\nlines\nworld");
}

#[test]
fn edit_removes_lines() {
    let mut doc = IncrementalDoc::new("a\nb\nc\nd");
    doc.edit(2, 5, "");
    assert_eq!(doc.source, "a\n\nd");
}

#[test]
fn simple_text_parse() {
    let doc = IncrementalDoc::new("hello world");
    assert_eq!(doc.merged_ast.children.len(), 1);
}

#[test]
fn empty_source() {
    let doc = IncrementalDoc::new("");
    assert_eq!(doc.line_starts.len(), 1);
    assert_eq!(doc.merged_ast.children.len(), 0);
}

#[test]
fn doc_header_in_doc() {
    let doc = IncrementalDoc::new("#1# Title\ncontent");
    assert_eq!(doc.merged_ast.children.len(), 2);
    assert!(matches!(&doc.merged_ast.children[0], MarkupNode::Header { level: 1, .. }));
}

#[test]
fn multiline_paragraph() {
    let doc = IncrementalDoc::new("line1\nline2\n\nline3");
    assert!(doc.merged_ast.children.len() >= 2);
}

#[test]
fn edit_visible_only_parses_viewport() {
    let mut doc = IncrementalDoc::new(
        "%%%\n\
         hidden\n\
         %%%\n\
         visible **bold** text\n\
         more visible\n\
         hidden2\n\
         hidden3"
    );
    let viewport = Viewport { first_line: 3, last_line: 4 };
    doc.edit_visible(15, 15, "X", &viewport);
    let has_bold = doc.merged_ast.children.iter().any(|n| {
        matches!(n, MarkupNode::Formatted { style, .. } if *style == MarkupStyle::bold())
    });
    assert!(has_bold, "Bold should be preserved in visible area");
}

