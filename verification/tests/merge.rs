use zoll::ast::{BlockType, LineAST, MarkupNode};
use zoll::parser::merge;

#[test]
fn plain_text_paragraph() {
    let lines = vec![
        LineAST::Paragraph(vec![MarkupNode::Text("hello".to_string())]),
    ];
    let doc = merge(&lines);
    assert_eq!(doc.children.len(), 1);
    assert_eq!(doc.children[0], MarkupNode::Text("hello".to_string()));
}

#[test]
fn multi_line_paragraph() {
    let lines = vec![
        LineAST::Paragraph(vec![MarkupNode::Text("line 1".to_string())]),
        LineAST::Paragraph(vec![MarkupNode::Text("line 2".to_string())]),
    ];
    let doc = merge(&lines);
    assert_eq!(doc.children.len(), 3);
    assert_eq!(doc.children[0], MarkupNode::Text("line 1".to_string()));
    assert_eq!(doc.children[1], MarkupNode::Text("\n".to_string()));
    assert_eq!(doc.children[2], MarkupNode::Text("line 2".to_string()));
}

#[test]
fn merge_header_in_doc() {
    let lines = vec![
        LineAST::Header(1, vec![MarkupNode::Text("Title".to_string())]),
        LineAST::Paragraph(vec![MarkupNode::Text("content".to_string())]),
    ];
    let doc = merge(&lines);
    assert_eq!(doc.children.len(), 2);
    assert_eq!(doc.children[0], MarkupNode::Header {
        level: 1,
        children: vec![MarkupNode::Text("Title".to_string())],
    });
}

#[test]
fn block_comment() {
    let lines = vec![
        LineAST::BlockMarker(BlockType::Comment),
        LineAST::Paragraph(vec![MarkupNode::Text("hidden".to_string())]),
        LineAST::BlockMarker(BlockType::Comment),
    ];
    let doc = merge(&lines);
    assert_eq!(doc.children.len(), 1);
    assert_eq!(doc.children[0], MarkupNode::Comment(vec![
        MarkupNode::Text("hidden".to_string()),
        MarkupNode::Text("\n".to_string()),
    ]));
}

#[test]
fn merge_block_spoiler_with_title() {
    let lines = vec![
        LineAST::SpoilerBlockOpen(Some("spoil".to_string())),
        LineAST::Paragraph(vec![MarkupNode::Text("content".to_string())]),
        LineAST::BlockMarker(BlockType::Spoiler),
    ];
    let doc = merge(&lines);
    assert_eq!(doc.children.len(), 1);
    assert_eq!(doc.children[0], MarkupNode::Spoiler {
        title: Some("spoil".to_string()),
        children: vec![
            MarkupNode::Text("content".to_string()),
            MarkupNode::Text("\n".to_string()),
        ],
    });
}

#[test]
fn list_grouping() {
    let lines = vec![
        LineAST::ListItem(false, 0, vec![MarkupNode::Text("one".to_string())]),
        LineAST::ListItem(false, 0, vec![MarkupNode::Text("two".to_string())]),
        LineAST::ListItem(false, 0, vec![MarkupNode::Text("three".to_string())]),
    ];
    let doc = merge(&lines);
    assert_eq!(doc.children.len(), 3);
    for item in &doc.children {
        assert!(matches!(item, MarkupNode::ListItem { ordered: false, .. }));
    }
}

#[test]
fn empty_lines_separate_paragraphs() {
    let lines = vec![
        LineAST::Paragraph(vec![MarkupNode::Text("p1".to_string())]),
        LineAST::Empty,
        LineAST::Paragraph(vec![MarkupNode::Text("p2".to_string())]),
    ];
    let doc = merge(&lines);
    assert_eq!(doc.children.len(), 2);
    assert_eq!(doc.children[0], MarkupNode::Text("p1".to_string()));
    assert_eq!(doc.children[1], MarkupNode::Text("p2".to_string()));
}

