use zoll::ast::{LineAST, MarkupNode};
use zoll::engine::parser::Engine;
use zoll::engine::SyntaxKind;
use zoll::engine::simd::{build_tables, positions_of, scan, scan_scalar};
use zoll::incremental::{build_line_starts, IncrementalDoc};
use zoll::parser::{merge, parse_full, parse_line};
use zoll::engine::collector::{collect, Marker};
use zoll::engine::simd::Event;
use zoll::viewport::Viewport;

fn fresh_line_asts(text: &str) -> Vec<LineAST> {
    IncrementalDoc::new(text).line_asts
}

fn assert_synced(doc: &IncrementalDoc) {
    let fresh = fresh_line_asts(&doc.source);
    assert_eq!(doc.line_starts, build_line_starts(&doc.source));
    for (i, ast) in fresh.iter().enumerate() {
        assert_eq!(&doc.line_asts[i], ast, "line {}", i);
    }
    for ast in &doc.line_asts[fresh.len()..] {
        assert_eq!(ast, &LineAST::Empty);
    }
}

#[test]
fn edits_keep_line_asts_equal_to_a_fresh_parse() {
    let mut doc = IncrementalDoc::new("a\n**b**\nc\n#1# d\n- e");
    assert_synced(&doc);
    doc.edit(2, 2, "x");
    assert_synced(&doc);
    doc.edit(0, 4, "new\nlines\n");
    assert_synced(&doc);
    let len = doc.source.len();
    doc.edit(len, len, "\n> tail");
    assert_synced(&doc);
    doc.edit(3, 9, "");
    assert_synced(&doc);
    assert_eq!(doc.line_asts.len(), doc.line_starts.len());
}

#[test]
fn edit_of_multibyte_text() {
    let mut doc = IncrementalDoc::new("привет\n**мир**");
    doc.edit(0, 12, "пока");
    assert_eq!(doc.source, "пока\n**мир**");
    assert_eq!(doc.line_starts, vec![0, 9]);
    assert_synced(&doc);
}

#[test]
fn edit_that_removes_a_newline_joins_lines() {
    let mut doc = IncrementalDoc::new("ab\ncd\nef");
    doc.edit(1, 4, "");
    assert_eq!(doc.source, "ad\nef");
    assert_eq!(doc.line_starts, vec![0, 3]);
    assert_synced(&doc);
}

#[test]
fn edit_merges_from_the_start_of_its_block() {
    let mut doc = IncrementalDoc::new("%%%\nhidden\n%%%\nafter");
    doc.edit(5, 5, "X");
    let whole = merge(&doc.line_asts);
    assert_eq!(doc.merged_ast, whole);
}

#[test]
fn edit_below_viewport_keeps_merged_ast() {
    let mut doc = IncrementalDoc::new("**a**\nb\nc\nd");
    let before = merge(&doc.line_asts);
    assert_eq!(doc.merged_ast, before);
    let vp = Viewport::new(0, 0);
    doc.edit_visible(6, 6, "X", &vp);
    assert_eq!(doc.source, "**a**\nXb\nc\nd");
    assert_eq!(doc.merged_ast, before);
    assert_eq!(doc.line_asts[0], fresh_line_asts("**a**")[0]);
    assert_eq!(doc.line_asts[1], LineAST::Empty);
    assert_eq!(doc.line_asts[2], fresh_line_asts("c")[0]);
    assert_eq!(doc.line_asts[3], fresh_line_asts("d")[0]);
    assert_eq!(doc.line_asts.len(), 4);
}

#[test]
fn edit_visible_parses_up_to_the_last_visible_line() {
    let mut doc = IncrementalDoc::new("a\nb\nc\nd");
    let vp = Viewport::new(0, 1);
    doc.edit_visible(0, 0, "**x** ", &vp);
    assert_eq!(doc.line_asts[0], fresh_line_asts("**x** a")[0]);
    assert_eq!(doc.line_asts[1], fresh_line_asts("b")[0]);
    assert_eq!(doc.line_asts[2], fresh_line_asts("c")[0]);
    assert_eq!(doc.line_asts[3], fresh_line_asts("d")[0]);
    assert_eq!(doc.merged_ast, merge(&doc.line_asts[..2]));
}

#[test]
fn line_number_and_count() {
    let doc = IncrementalDoc::new("ab\ncd\n");
    assert_eq!(doc.num_lines(), 3);
    assert_eq!(doc.line_number(0), 0);
    assert_eq!(doc.line_number(2), 0);
    assert_eq!(doc.line_number(3), 1);
    assert_eq!(doc.line_number(6), 2);
    assert_eq!(doc.line_number(100), 2);
}

#[test]
fn line_starts_are_after_each_newline() {
    assert_eq!(build_line_starts(""), vec![0]);
    assert_eq!(build_line_starts("a\n\nbc\n"), vec![0, 2, 3, 6]);
    assert_eq!(build_line_starts("ж\nя"), vec![0, 3]);
}

#[test]
fn new_doc_merges_like_the_full_parser() {
    let text = "#1# Title\nsome **bold** text\n\n- item\n- item 2\n%%%\nhidden\n%%%";
    let doc = IncrementalDoc::new(text);
    assert_eq!(doc.merged_ast, parse_full(text));
}

fn is_inline(kind: SyntaxKind) -> bool {
    matches!(
        kind,
        SyntaxKind::Bold
            | SyntaxKind::Italic
            | SyntaxKind::Underline
            | SyntaxKind::Strikethrough
            | SyntaxKind::Highlight
            | SyntaxKind::Insertion
            | SyntaxKind::Deletion
            | SyntaxKind::Superscript
            | SyntaxKind::Subscript
            | SyntaxKind::FormulaInline
            | SyntaxKind::CommentInline
            | SyntaxKind::SpoilerInline
            | SyntaxKind::CodeInline
    )
}

#[test]
fn spans_lie_in_the_document() {
    let texts = [
        "**a)) //b)) %%c}\n%%%\nx\n}\n#2 h\n> q}\n- l\n1; n\n---\n|t\n$$f\n``c}\n@@\nm\n}",
        "**unclosed\n)) %%open\n}",
        "",
        ")))))}}}}",
    ];
    for text in texts {
        let engine = Engine::parse(text.as_bytes());
        for span in engine.spans() {
            assert!(span.start <= span.end && span.end <= text.len(), "{:?}", span);
            if is_inline(span.kind) {
                assert!(!text.as_bytes()[span.start..span.end].contains(&b'\n'), "{:?}", span);
            }
        }
    }
}

#[test]
fn reparse_gives_what_parse_gives() {
    let a = "**a)) b\n%%c}";
    let b = "#1 x\n> y";
    let mut engine = Engine::parse(a.as_bytes());
    engine.reparse(b.as_bytes());
    let fresh = Engine::parse(b.as_bytes());
    assert_eq!(engine.spans(), fresh.spans());
    assert_eq!(engine.line_map.newline_positions, fresh.line_map.newline_positions);
}

#[test]
fn scan_positions_are_the_target_bytes() {
    let text = "a*b**c))d\n0123456789abcdef*x))\u{444}**".as_bytes();
    let targets = b"*)\n";
    let naive: Vec<usize> = (0..text.len()).filter(|&i| targets.contains(&text[i])).collect();
    assert_eq!(positions_of(text, targets), naive);
    assert_eq!(scan(text, targets), scan_scalar(text, targets));
    for (offset, mask) in scan(text, targets) {
        assert_eq!(offset % 16, 0);
        assert_ne!(mask, 0);
    }
}

#[test]
fn tables_only_for_ascii_targets() {
    assert!(build_tables(b"*/").is_some());
    assert!(build_tables(b"").is_some());
    assert!(build_tables(b"*\x80").is_none());
    let (e, bit) = build_tables(b"*").unwrap();
    assert_eq!(e[0x2a & 15], 1 << 2);
    assert_eq!(bit[3], 1 << 3);
    assert_eq!(bit[8], 0);
}

#[test]
fn merge_of_no_lines_is_empty() {
    assert!(merge(&[]).children.is_empty());
    assert!(parse_full("").children.is_empty());
}

#[test]
fn paragraph_lines_keep_input_order() {
    let t = |s: &str| MarkupNode::Text(s.to_string());
    let lines = vec![
        LineAST::Paragraph(vec![t("A")]),
        LineAST::Paragraph(vec![t("B")]),
        LineAST::Paragraph(vec![t("C")]),
    ];
    let doc = merge(&lines);
    assert_eq!(doc.children, vec![t("A"), t("\n"), t("B"), t("\n"), t("C")]);
}

#[test]
fn quote_lines_keep_input_order() {
    let t = |s: &str| MarkupNode::Text(s.to_string());
    let lines = vec![
        LineAST::Quote(vec![t("a")]),
        LineAST::Quote(vec![t("b")]),
        LineAST::Quote(vec![t("c")]),
    ];
    let doc = merge(&lines);
    assert_eq!(
        doc.children,
        vec![MarkupNode::Quote(vec![t("a"), t("\n"), t("b"), t("\n"), t("c")])]
    );
}

#[test]
fn edit_merges_like_a_full_reparse() {
    let mut doc = IncrementalDoc::new("line1\nline2");
    doc.edit(6, 6, "X");
    assert_eq!(
        doc.merged_ast.children,
        vec![
            MarkupNode::Text("line1".to_string()),
            MarkupNode::Text("\n".to_string()),
            MarkupNode::Text("Xline2".to_string()),
        ]
    );
    assert_eq!(doc.merged_ast, parse_full("line1\nXline2"));
}

#[test]
fn edit_of_a_second_line_keeps_the_join() {
    let mut doc = IncrementalDoc::new("a\nb");
    doc.edit(2, 3, "c");
    assert_eq!(doc.source, "a\nc");
    assert_eq!(doc.merged_ast, merge(&doc.line_asts));
    assert_eq!(doc.merged_ast, IncrementalDoc::new("a\nc").merged_ast);
    let t = |s: &str| MarkupNode::Text(s.to_string());
    assert_eq!(doc.merged_ast.children, vec![t("a"), t("\n"), t("c")]);
}

#[test]
fn edit_visible_keeps_lines_outside_the_viewport() {
    let mut doc = IncrementalDoc::new("a\nb\nc");
    doc.edit_visible(0, 0, "X", &Viewport::new(0, 0));
    let t = |s: &str| MarkupNode::Text(s.to_string());
    assert_eq!(doc.source, "Xa\nb\nc");
    assert_eq!(
        doc.line_asts,
        vec![
            LineAST::Paragraph(vec![t("Xa")]),
            LineAST::Paragraph(vec![t("b")]),
            LineAST::Paragraph(vec![t("c")]),
        ]
    );
    assert_eq!(doc.merged_ast.children, vec![t("Xa")]);
}

#[test]
fn edit_pads_missing_line_asts() {
    let mut doc = IncrementalDoc::new("a\nb\nc");
    doc.line_asts.clear();
    doc.edit(0, 0, "X");
    assert_eq!(doc.source, "Xa\nb\nc");
    assert_eq!(doc.line_asts.len(), 3);
    assert_eq!(doc.merged_ast, merge(&doc.line_asts));
}

#[test]
fn edit_after_a_blank_line_merges_like_the_whole() {
    let mut doc = IncrementalDoc::new("line1\n\nline2");
    doc.edit(7, 7, "X");
    assert_eq!(doc.merged_ast, merge(&doc.line_asts));
    assert_eq!(doc.merged_ast, parse_full("line1\n\nXline2"));
}

#[test]
fn raw_lines_outside_blocks_are_inert() {
    let t = |s: &str| MarkupNode::Text(s.to_string());
    let with_raw = vec![
        LineAST::Paragraph(vec![t("a")]),
        LineAST::CodeLine("x".to_string()),
        LineAST::Paragraph(vec![t("b")]),
        LineAST::CommentLine("y".to_string()),
        LineAST::FormulaLine("z".to_string()),
        LineAST::Quote(vec![t("c")]),
        LineAST::SpoilerLine(vec![t("w")]),
        LineAST::Quote(vec![t("d")]),
    ];
    let without = vec![
        LineAST::Paragraph(vec![t("a")]),
        LineAST::Paragraph(vec![t("b")]),
        LineAST::Quote(vec![t("c")]),
        LineAST::Quote(vec![t("d")]),
    ];
    assert_eq!(merge(&with_raw), merge(&without));
    assert_eq!(
        merge(&with_raw).children,
        vec![
            t("a"),
            t("\n"),
            t("b"),
            MarkupNode::Quote(vec![t("c"), t("\n"), t("d")]),
        ]
    );
}

#[test]
fn parse_line_ignores_leading_whitespace() {
    assert_eq!(parse_line("   > q"), parse_line("> q"));
    assert_eq!(parse_line("\t#1# h"), parse_line("#1# h"));
    assert_eq!(parse_line("  text"), parse_line("text"));
    assert_eq!(parse_line(" \t "), LineAST::Empty);
    assert_eq!(parse_line(""), LineAST::Empty);
}

#[test]
fn collect_gives_maximal_runs() {
    let ev = |position: usize, byte: u8| Event { position, byte };
    let events = vec![ev(0, b'*'), ev(1, b'*'), ev(3, b'*'), ev(4, b'/'), ev(5, b'/'), ev(6, b'*')];
    let runs = collect(&events);
    assert_eq!(
        runs,
        vec![
            Marker { start: 0, end: 2, byte: b'*' },
            Marker { start: 3, end: 4, byte: b'*' },
            Marker { start: 4, end: 6, byte: b'/' },
            Marker { start: 6, end: 7, byte: b'*' },
        ]
    );
}

#[test]
fn every_edit_merges_like_a_full_parse() {
    let mut doc = IncrementalDoc::new("> q1\n> q2\npara\n- a\n- b\n%%%\nhidden\n%%%\ntail");
    let edits: Vec<(usize, usize, &str)> = vec![
        (0, 0, "x"),
        (6, 6, "\n> q3"),
        (3, 9, ""),
        (0, 0, "%%%\n"),
        (5, 5, "**b**\n\n"),
    ];
    for (from, to, text) in edits {
        doc.edit(from, to, text);
        assert_eq!(doc.merged_ast, parse_full(&doc.source), "after edit at {}", from);
        assert_eq!(doc.merged_ast, IncrementalDoc::new(&doc.source).merged_ast);
    }
}
