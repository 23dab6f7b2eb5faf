use zoll::engine::api::{CallLog, SinkCall};
use zoll::engine::parser::Engine;
use zoll::engine::SyntaxKind;

#[test]
fn parse_basic() {
    let engine = Engine::parse("**жирный))".as_bytes());
    assert_eq!(engine.spans().len(), 1);
    assert_eq!(engine.spans()[0].kind, SyntaxKind::Bold);
    assert_eq!(engine.revision, 0);
}

#[test]
fn reparse_bumps_revision() {
    let mut engine = Engine::parse(b"hello");
    engine.reparse(b"hello world");
    assert_eq!(engine.revision, 1);
}

#[test]
fn reparse_creates_new_spans() {
    let mut engine = Engine::parse(b"plain");
    assert!(engine.spans().is_empty());
    engine.reparse(b"**bold))");
    assert_eq!(engine.spans().len(), 1);
    assert_eq!(engine.spans()[0].kind, SyntaxKind::Bold);
}

#[test]
fn line_at_after_reparse() {
    let mut engine = Engine::parse(b"a\nb");
    engine.reparse(b"a\nc\nb");
    assert_eq!(engine.line_at(3), 1);
}

#[test]
fn dependencies_tracked() {
    let engine = Engine::parse(b"**a)) **b))");
    assert_eq!(engine.dependencies.len(), 2);
}

#[test]
fn marker_across_block_boundary() {
    let text = format!("{}**bold))", "a".repeat(31));
    let engine = Engine::parse(text.as_bytes());
    assert_eq!(engine.spans().len(), 1);
    assert_eq!(engine.spans()[0].kind, SyntaxKind::Bold);
    assert_eq!((engine.spans()[0].start, engine.spans()[0].end), (31, 39));
}

#[test]
fn triple_marker_across_block_boundary() {
    let text = format!("{}\n%%%блок\n}}", "a".repeat(30));
    let engine = Engine::parse(text.as_bytes());
    assert_eq!(engine.spans().len(), 1);
    assert_eq!(engine.spans()[0].kind, SyntaxKind::CommentBlock);
    assert_eq!((engine.spans()[0].start, engine.spans()[0].end), (31, 44));
}

#[test]
fn line_map_built_in_one_pass() {
    let engine = Engine::parse(b"a\nb\nc");
    assert_eq!(engine.line_map.num_lines(), 3);
    assert_eq!(engine.line_map.newline_positions, vec![1, 3]);
}

#[test]
fn many_markers_on_one_line() {
    let mut text = String::new();
    for _ in 0..150 {
        text.push_str("**жирный)) ");
    }
    let engine = Engine::parse(text.as_bytes());
    assert_eq!(engine.spans().len(), 150);
    assert!(engine.spans().iter().all(|s| s.kind == SyntaxKind::Bold));
}

#[test]
fn document_entirely_markers() {
    let text = "**bold)) //italic))\n$$formula}\n%%comment}\n---\n";
    let engine = Engine::parse(text.as_bytes());
    let kinds: Vec<SyntaxKind> = engine.spans().iter().map(|s| s.kind).collect();
    assert!(kinds.contains(&SyntaxKind::Bold));
    assert!(kinds.contains(&SyntaxKind::Italic));
    assert!(kinds.contains(&SyntaxKind::FormulaLine));
    assert!(kinds.contains(&SyntaxKind::CommentLine));
    assert!(kinds.contains(&SyntaxKind::ThematicBreak));
}

#[test]
fn empty_document_parse_into() {
    let mut sink = CallLog::new();
    let engine = Engine::parse_into(b"", &mut sink);
    assert_eq!(engine.spans().len(), 0);
}

#[test]
fn stream_span_order_at_block_boundaries() {
    let mut sink = CallLog::new();
    Engine::parse_into("%%%\n%%скрыто}\n}".as_bytes(), &mut sink);
    assert_eq!(
        comment_kinds(&sink),
        vec![SyntaxKind::CommentLine, SyntaxKind::CommentBlock]
    );
}


fn comment_kinds(log: &CallLog) -> Vec<SyntaxKind> {
    let mut kinds: Vec<SyntaxKind> = Vec::new();
    for call in &log.received {
        if let SinkCall::Span(span) = call {
            if span.kind == SyntaxKind::CommentLine || span.kind == SyntaxKind::CommentBlock {
                kinds.push(span.kind);
            }
        }
    }
    kinds
}
