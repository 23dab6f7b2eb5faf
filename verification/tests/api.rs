use zoll::engine::api::{CallLog, EngineHandle, SinkCall};
use zoll::engine::parser::Engine;
use zoll::engine::{SyntaxKind, SyntaxSpan};

fn batches(log: &CallLog) -> Vec<(u64, Vec<SyntaxSpan>)> {
    let mut out: Vec<(u64, Vec<SyntaxSpan>)> = Vec::new();
    for call in &log.received {
        match call {
            SinkCall::Begin(revision) => out.push((*revision, Vec::new())),
            SinkCall::Span(span) => out.last_mut().expect("a span before any batch").1.push(*span),
            SinkCall::End => {}
        }
    }
    out
}

#[test]
fn parse_into_dispatches_once() {
    let mut sink = CallLog::new();
    let engine = Engine::parse_into("**жирный))".as_bytes(), &mut sink);
    assert_eq!(batches(&sink).len(), 1);
    assert_eq!(batches(&sink)[0].0, 0);
    assert_eq!(batches(&sink)[0].1.len(), 1);
    assert_eq!(batches(&sink)[0].1[0].kind, SyntaxKind::Bold);
    assert_eq!(engine.spans().len(), 1);
}

#[test]
fn reparse_dispatches_with_bumped_revision() {
    let mut sink = CallLog::new();
    let mut handle = EngineHandle::parse(b"plain");
    handle.reparse(b"**bold))", &mut sink);
    assert_eq!(batches(&sink).len(), 1);
    assert_eq!(batches(&sink)[0].0, 1);
    assert_eq!(batches(&sink)[0].1[0].kind, SyntaxKind::Bold);
}

#[test]
fn reparse_empty_dispatches_with_bumped_revision() {
    let mut sink = CallLog::new();
    let mut handle = EngineHandle::parse(b"**bold))");
    handle.reparse(b"", &mut sink);
    assert_eq!(batches(&sink).len(), 1);
    assert_eq!(batches(&sink)[0].0, 1);
    assert!(batches(&sink)[0].1.is_empty());
}

#[test]
fn engine_handle_roundtrip() {
    let mut sink = CallLog::new();
    let mut handle = EngineHandle::parse(b"**a))");
    handle.reparse(b"**a)) b", &mut sink);
    assert_eq!(handle.revision(), 1);
    assert_eq!(batches(&sink).len(), 1);
    assert_eq!(batches(&sink)[0].0, 1);
    assert_eq!(handle.spans_in(0, 8).len(), 1);
}

#[test]
fn typed_handles_receive_own_kind() {
    let mut sink = CallLog::new();
    Engine::parse_into(
        "#1 Заголовок\n%скрыто))\n%%скрыто}\n%%%\nблок\n}\n`код))\n``строка}\n```\nблок\n}\n"
            .as_bytes(),
        &mut sink,
    );
    let kinds: Vec<SyntaxKind> = batches(&sink)[0].1.iter().map(|span| span.kind).collect();
    assert_eq!(
        kinds,
        vec![
            SyntaxKind::Header(1),
            SyntaxKind::CommentInline,
            SyntaxKind::CommentLine,
            SyntaxKind::CommentBlock,
            SyntaxKind::CodeInline,
            SyntaxKind::CodeLine,
            SyntaxKind::CodeBlock,
        ]
    );
}

#[test]
fn stream_block_arrives_after_inner_spans() {
    let mut sink = CallLog::new();
    Engine::parse_into("%%%\n%%скрыто}\n}".as_bytes(), &mut sink);
    let kinds: Vec<SyntaxKind> = batches(&sink)[0].1.iter().map(|span| span.kind).collect();
    assert_eq!(
        kinds,
        vec![SyntaxKind::CommentLine, SyntaxKind::CommentBlock]
    );
}

#[test]
fn stream_line_close_flushed_at_eol() {
    let mut sink = CallLog::new();
    Engine::parse_into("%%скрыто\n".as_bytes(), &mut sink);
    assert_eq!(batches(&sink)[0].1.len(), 1);
    assert_eq!(batches(&sink)[0].1[0].kind, SyntaxKind::CommentLine);
    assert_eq!(
        (batches(&sink)[0].1[0].start, batches(&sink)[0].1[0].end),
        (0, 14)
    );
}

#[test]
fn stream_empty_document() {
    let mut sink = CallLog::new();
    Engine::parse_into(b"", &mut sink);
    assert_eq!(batches(&sink).len(), 1);
    assert_eq!(batches(&sink)[0].0, 0);
    assert!(batches(&sink)[0].1.is_empty());
}

#[test]
fn stream_matches_batch_order() {
    let text = "#1 Заголовок\n**жирный)) %%скрыто}\n%%%\nблок\n}\n";
    let mut sink = CallLog::new();
    Engine::parse_into(text.as_bytes(), &mut sink);
    let streamed: Vec<SyntaxSpan> = batches(&sink)[0].1.clone();
    let batched = Engine::parse(text.as_bytes()).spans().to_vec();
    assert_eq!(streamed, batched);
}

