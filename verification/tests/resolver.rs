use zoll::engine::parser::Engine;
use zoll::engine::{SyntaxKind, SyntaxSpan};

fn parse_spans(text: &str) -> Vec<SyntaxSpan> {
    Engine::parse(text.as_bytes()).spans().to_vec()
}

#[test]
fn bold_closed() {
    let spans = parse_spans("**жирный))");
    assert_eq!(
        spans,
        vec![SyntaxSpan {
            start: 0,
            end: 16,
            kind: SyntaxKind::Bold
        }]
    );
}

#[test]
fn bold_italic_layered_same_text() {
    let spans = parse_spans("**//текст))");
    assert_eq!(
        spans,
        vec![
            SyntaxSpan {
                start: 2,
                end: 16,
                kind: SyntaxKind::Italic
            },
            SyntaxSpan {
                start: 0,
                end: 16,
                kind: SyntaxKind::Bold
            },
        ]
    );
}

#[test]
fn no_close_discarded() {
    assert!(parse_spans("**жирный").is_empty());
}

#[test]
fn space_before_close_not_a_closer() {
    assert!(parse_spans("**жирный ))").is_empty());
}

#[test]
fn space_after_open_not_an_open() {
    assert!(parse_spans("** жирный))").is_empty());
}

#[test]
fn code_inline_closed() {
    let spans = parse_spans("`code))");
    assert_eq!(
        spans,
        vec![SyntaxSpan {
            start: 0,
            end: 7,
            kind: SyntaxKind::CodeInline
        }]
    );
}

#[test]
fn code_inline_mid_line() {
    let spans = parse_spans("a `code))");
    assert_eq!(
        spans,
        vec![SyntaxSpan {
            start: 2,
            end: 9,
            kind: SyntaxKind::CodeInline
        }]
    );
}

#[test]
fn code_inline_unclosed_discarded() {
    assert!(parse_spans("`code").is_empty());
}

#[test]
fn code_inline_space_after_open_invalid() {
    assert!(parse_spans("` code))").is_empty());
}

#[test]
fn close_without_open_discarded() {
    assert!(parse_spans("просто )) текст").is_empty());
}

#[test]
fn inline_reset_on_newline() {
    let spans = parse_spans("**незакрыто\n))");
    assert!(spans.is_empty());
}

#[test]
fn header_span() {
    let spans = parse_spans("#1 Заголовок");
    assert_eq!(
        spans,
        vec![SyntaxSpan {
            start: 0,
            end: 21,
            kind: SyntaxKind::Header(1)
        }]
    );
}

#[test]
fn header_requires_space() {
    assert!(parse_spans("#1Заголовок").is_empty());
}

#[test]
fn resolver_comment_line() {
    let spans = parse_spans("%%скрыто}");
    assert_eq!(
        spans,
        vec![SyntaxSpan {
            start: 0,
            end: 15,
            kind: SyntaxKind::CommentLine
        }]
    );
}

#[test]
fn comment_unclosed_to_end_of_line() {
    let spans = parse_spans("%%скрыто");
    assert_eq!(spans.len(), 1);
    assert_eq!(spans[0].kind, SyntaxKind::CommentLine);
}

#[test]
fn comment_mid_line_ignored() {
    assert!(parse_spans("Текст %%комментарий}").is_empty());
}

#[test]
fn comment_space_after_marker_invalid() {
    assert!(parse_spans("%% скрыто}").is_empty());
}

#[test]
fn code_line() {
    let spans = parse_spans("``код}");
    assert_eq!(
        spans,
        vec![SyntaxSpan {
            start: 0,
            end: 9,
            kind: SyntaxKind::CodeLine
        }]
    );
}

#[test]
fn code_line_unclosed_to_end_of_line() {
    let spans = parse_spans("``код");
    assert_eq!(spans.len(), 1);
    assert_eq!(spans[0].kind, SyntaxKind::CodeLine);
}

#[test]
fn code_line_space_after_marker_invalid() {
    assert!(parse_spans("`` код}").is_empty());
}

#[test]
fn comment_space_before_close_goes_to_eol() {
    let spans = parse_spans("%%скрыто }");
    assert_eq!(spans.len(), 1);
    assert_eq!(spans[0].kind, SyntaxKind::CommentLine);
}

#[test]
fn resolver_spoiler_line() {
    let spans = parse_spans("!!спойлер: текст}");
    assert!(
        spans
            .iter()
            .any(|span| span.kind == SyntaxKind::SpoilerLine)
    );
}

#[test]
fn spoiler_mid_line_ignored() {
    assert!(parse_spans("Текст !!скрытое содержимое}").is_empty());
}

#[test]
fn resolver_formula_line() {
    let spans = parse_spans("$$sqrt(x)}");
    assert!(
        spans
            .iter()
            .any(|span| span.kind == SyntaxKind::FormulaLine)
    );
}

#[test]
fn brace_without_open_discarded() {
    assert!(parse_spans("просто } текст").is_empty());
}

#[test]
fn line_close_lifo_on_same_line() {
    let spans = parse_spans("%%a $$b} x");
    assert_eq!(
        spans,
        vec![SyntaxSpan {
            start: 0,
            end: 8,
            kind: SyntaxKind::CommentLine
        }]
    );
}

#[test]
fn brace_mid_line_does_not_close_previous_line() {
    let spans = parse_spans("%%a\nb }");
    assert_eq!(spans.len(), 1);
    assert_eq!((spans[0].start, spans[0].end), (0, 3));
}

#[test]
fn quote_and_list() {
    let spans = parse_spans("> цитата\n- элемент");
    let kinds: Vec<SyntaxKind> = spans.iter().map(|span| span.kind).collect();
    assert_eq!(kinds, vec![SyntaxKind::Quote, SyntaxKind::ListItem]);
}

#[test]
fn quote_closed_with_brace() {
    let spans = parse_spans(">цитата}");
    assert_eq!(
        spans,
        vec![SyntaxSpan {
            start: 0,
            end: 14,
            kind: SyntaxKind::Quote
        }]
    );
}

#[test]
fn quote_unclosed_to_end_of_line() {
    let spans = parse_spans(">цитата\nдальше");
    assert_eq!(spans.len(), 1);
    assert_eq!(spans[0].kind, SyntaxKind::Quote);
    assert_eq!((spans[0].start, spans[0].end), (0, 13));
}

#[test]
fn quote_mid_line_ignored() {
    assert!(parse_spans("текст > цитата").is_empty());
}

#[test]
fn quote_with_space() {
    let spans = parse_spans("> text");
    assert_eq!(spans.len(), 1);
    assert_eq!(spans[0].kind, SyntaxKind::Quote);
    assert_eq!((spans[0].start, spans[0].end), (0, 6));
}

#[test]
fn quote_space_before_close_goes_to_eol() {
    let spans = parse_spans(">цитата }");
    assert_eq!(spans.len(), 1);
    assert_eq!(spans[0].kind, SyntaxKind::Quote);
    assert_eq!((spans[0].start, spans[0].end), (0, 15));
}

#[test]
fn tag_at_line_start() {
    let spans = parse_spans("#:важно");
    assert_eq!(
        spans,
        vec![SyntaxSpan {
            start: 0,
            end: 12,
            kind: SyntaxKind::Tag
        }]
    );
}

#[test]
fn hash_mid_line_not_header() {
    let spans = parse_spans("код *100#");
    assert!(
        !spans
            .iter()
            .any(|span| matches!(span.kind, SyntaxKind::Header(_) | SyntaxKind::Tag))
    );
}

#[test]
fn resolver_thematic_break() {
    let spans = parse_spans("---");
    assert_eq!(
        spans,
        vec![SyntaxSpan {
            start: 0,
            end: 3,
            kind: SyntaxKind::ThematicBreak
        }]
    );
}

#[test]
fn full_inline_palette() {
    let cases: &[(&str, SyntaxKind)] = &[
        ("**жирный))", SyntaxKind::Bold),
        ("//курсив))", SyntaxKind::Italic),
        ("__подчёркивание))", SyntaxKind::Underline),
        ("~~зачёркивание))", SyntaxKind::Strikethrough),
        ("==подсветка))", SyntaxKind::Highlight),
        ("++вставка))", SyntaxKind::Insertion),
        ("--удаление))", SyntaxKind::Deletion),
        ("''верхний))", SyntaxKind::Superscript),
        (",,нижний))", SyntaxKind::Subscript),
        ("$x+y))", SyntaxKind::FormulaInline),
        ("%комментарий))", SyntaxKind::CommentInline),
        ("!скрыто))", SyntaxKind::SpoilerInline),
        ("`код))", SyntaxKind::CodeInline),
    ];
    for (text, expected) in cases {
        let spans = parse_spans(text);
        assert_eq!(spans.len(), 1, "текст: {text}");
        assert_eq!(spans[0].kind, *expected, "текст: {text}");
    }
}

#[test]
fn full_line_level_palette() {
    let cases: &[(&str, SyntaxKind)] = &[
        ("%%комментарий}", SyntaxKind::CommentLine),
        ("$$sqrt(x)}", SyntaxKind::FormulaLine),
        ("!!спойлер}", SyntaxKind::SpoilerLine),
        ("!!заголовок:текст}", SyntaxKind::SpoilerLine),
        ("``код}", SyntaxKind::CodeLine),
    ];
    for (text, expected) in cases {
        let spans = parse_spans(text);
        assert_eq!(spans.len(), 1, "текст: {text}");
        assert_eq!(spans[0].kind, *expected, "текст: {text}");
    }
}

#[test]
fn full_line_start_palette() {
    let cases: &[(&str, SyntaxKind)] = &[
        ("#1 Заголовок", SyntaxKind::Header(1)),
        ("#:тег", SyntaxKind::Tag),
        ("- элемент", SyntaxKind::ListItem),
        ("1; элемент", SyntaxKind::ListItem),
        ("> текст", SyntaxKind::Quote),
        ("---", SyntaxKind::ThematicBreak),
        ("| cell | cell |", SyntaxKind::TableRow),
    ];
    for (text, expected) in cases {
        let spans = parse_spans(text);
        assert!(
            spans.iter().any(|span| span.kind == *expected),
            "текст: {text}, спаны: {spans:?}"
        );
    }
}

#[test]
fn header_level_bounds() {
    let cases: &[(&str, u8)] = &[
        ("#1 Заголовок", 1),
        ("#12 Заголовок", 12),
        ("#255 Заголовок", 255),
    ];
    for (text, expected) in cases {
        let spans = parse_spans(text);
        assert_eq!(spans.len(), 1, "текст: {text}");
        assert_eq!(
            spans[0].kind,
            SyntaxKind::Header(*expected),
            "текст: {text}"
        );
    }
}

#[test]
fn header_level_out_of_bounds_not_header() {
    let cases = [
        "#256 Заголовок",
        "#1234 Заголовок",
        "#abc Заголовок",
        "#1a Заголовок",
    ];
    for text in cases {
        let spans = parse_spans(text);
        assert!(
            spans.iter().all(|span| span.kind != SyntaxKind::Header(0)),
            "текст: {text}"
        );
    }
}

#[test]
fn semicolon_list_any_number() {
    let cases = ["1; элемент", "42; элемент", "123456789; элемент"];
    for text in cases {
        let spans = parse_spans(text);
        assert!(
            spans.iter().any(|span| span.kind == SyntaxKind::ListItem),
            "текст: {text}"
        );
    }
}

#[test]
fn semicolon_not_list() {
    let cases = ["1;элемент", "a; элемент", "; элемент"];
    for text in cases {
        let spans = parse_spans(text);
        assert!(
            spans.iter().all(|span| span.kind != SyntaxKind::ListItem),
            "текст: {text}"
        );
    }
}

#[test]
fn nested_inline_layers() {
    let spans = parse_spans("**//текст))");
    let kinds: Vec<SyntaxKind> = spans.iter().map(|span| span.kind).collect();
    assert_eq!(kinds, vec![SyntaxKind::Italic, SyntaxKind::Bold]);
}

#[test]
fn real_document_example() {
    let text = "#1 Что такое Zoll?\n\n\
        Zoll — это **язык разметки)) с поддержкой //курсива)), \
        __подчёркивания)) и ~~зачёркивания)).\n\n\
        ==Важно:)) этот текст подсвечен.\n\n\
        %%эта часть не видна}\n\n\
        !!а это спойлер до конца строки}\n\n\
        $$sqrt(x)}\n";
    let spans = parse_spans(text);
    let kinds: Vec<SyntaxKind> = spans.iter().map(|span| span.kind).collect();
    assert!(kinds.contains(&SyntaxKind::Header(1)));
    assert!(kinds.contains(&SyntaxKind::Bold));
    assert!(kinds.contains(&SyntaxKind::Italic));
    assert!(kinds.contains(&SyntaxKind::Underline));
    assert!(kinds.contains(&SyntaxKind::Strikethrough));
    assert!(kinds.contains(&SyntaxKind::Highlight));
    assert!(kinds.contains(&SyntaxKind::CommentLine));
    assert!(kinds.contains(&SyntaxKind::SpoilerLine));
    assert!(kinds.contains(&SyntaxKind::FormulaLine));
}

#[test]
fn block_comment_multiline() {
    let spans = parse_spans("%%%\nскрыто\n}");
    assert_eq!(spans.len(), 1);
    assert_eq!(spans[0].kind, SyntaxKind::CommentBlock);
}

#[test]
fn block_formula_multiline() {
    let spans = parse_spans("$$$\nx^2\n}");
    assert_eq!(spans.len(), 1);
    assert_eq!(spans[0].kind, SyntaxKind::FormulaBlock);
}

#[test]
fn resolver_block_spoiler_with_title() {
    let spans = parse_spans("!!!спойлер:\nскрыто\n}");
    assert_eq!(spans.len(), 1);
    assert_eq!(spans[0].kind, SyntaxKind::SpoilerBlock);
}

#[test]
fn block_unclosed_discarded() {
    assert!(parse_spans("%%%\nскрыто").is_empty());
}

#[test]
fn block_close_without_open_discarded() {
    assert!(parse_spans("текст\n}").is_empty());
}

#[test]
fn block_open_mid_line_ignored() {
    assert!(parse_spans("текст %%%\nскрыто\n}").is_empty());
}

#[test]
fn block_open_indented_ignored() {
    assert!(parse_spans(" %%%\nскрыто\n}").is_empty());
}

#[test]
fn block_close_indented_ignored() {
    assert!(parse_spans("%%%\nскрыто\n }").is_empty());
}

#[test]
fn code_block_multiline() {
    let spans = parse_spans("```\nкод\n}");
    assert_eq!(spans.len(), 1);
    assert_eq!(spans[0].kind, SyntaxKind::CodeBlock);
}

#[test]
fn code_block_unclosed_discarded() {
    assert!(parse_spans("```\nкод").is_empty());
}

#[test]
fn code_block_open_mid_line_ignored() {
    assert!(parse_spans("текст ```\nкод\n}").is_empty());
}

#[test]
fn code_block_open_indented_ignored() {
    assert!(parse_spans(" ```\nкод\n}").is_empty());
}

#[test]
fn block_and_line_level_coexist() {
    let spans = parse_spans("%%%\n%%скрыто}\n}");
    let kinds: Vec<SyntaxKind> = spans.iter().map(|span| span.kind).collect();
    assert_eq!(
        kinds,
        vec![SyntaxKind::CommentLine, SyntaxKind::CommentBlock]
    );
}

#[test]
fn block_survives_multiple_lines() {
    let spans = parse_spans("%%%\nстрока 1\nстрока 2\n}");
    assert_eq!(spans.len(), 1);
    assert_eq!(spans[0].kind, SyntaxKind::CommentBlock);
}

#[test]
fn percent_inline_comment() {
    let spans = parse_spans("Текст %скрыто))");
    assert!(
        spans
            .iter()
            .any(|span| span.kind == SyntaxKind::CommentInline)
    );
}

#[test]
fn exclamation_inline_spoiler() {
    let spans = parse_spans("Текст !скрыто))");
    assert!(
        spans
            .iter()
            .any(|span| span.kind == SyntaxKind::SpoilerInline)
    );
}

#[test]
fn stray_percent_harmless() {
    assert!(parse_spans("50% текст").is_empty());
}

#[test]
fn stray_exclamation_harmless() {
    assert!(parse_spans("Привет!").is_empty());
}

#[test]
fn line_close_mid_line_unclosed_to_eol_ignored() {
    assert!(parse_spans("Текст %%скрыто").is_empty());
}

#[test]
fn metadata_block() {
    let spans = parse_spans("@@\ntitle: Документ\n}");
    assert_eq!(spans.len(), 1);
    assert_eq!(spans[0].kind, SyntaxKind::Metadata);
}

#[test]
fn metadata_unclosed_discarded() {
    assert!(parse_spans("@@\ntitle: Документ").is_empty());
}

#[test]
fn metadata_indented_ignored() {
    assert!(parse_spans(" @@\ntitle: Документ\n}").is_empty());
}

#[test]
fn metadata_mid_line_ignored() {
    assert!(parse_spans("текст @@\ntitle: Документ\n}").is_empty());
}

#[test]
fn single_at_not_marker() {
    assert!(parse_spans("почта user@example.com").is_empty());
    assert!(parse_spans("@@@\nтекст\n}").is_empty());
}

