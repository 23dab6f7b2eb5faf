use zoll::ast::{BlockType, LineAST, MarkupNode, MarkupStyle};
use zoll::parser::parse_line;

#[test]
fn plain_text() {
    let ast = parse_line("hello world");
    assert_eq!(
        ast,
        LineAST::Paragraph(vec![MarkupNode::Text("hello world".to_string())])
    );
}

#[test]
fn bold_text() {
    let ast = parse_line("**hello**");
    assert_eq!(
        ast,
        LineAST::Paragraph(vec![MarkupNode::Formatted {
            style: MarkupStyle::bold(),
            children: vec![MarkupNode::Text("hello".to_string())],
        }])
    );
}

#[test]
fn italic_text() {
    let ast = parse_line("//hello//");
    assert_eq!(
        ast,
        LineAST::Paragraph(vec![MarkupNode::Formatted {
            style: MarkupStyle::italic(),
            children: vec![MarkupNode::Text("hello".to_string())],
        }])
    );
}

#[test]
fn nested_formatting() {
    let ast = parse_line("**//bold italic//**");
    assert_eq!(
        ast,
        LineAST::Paragraph(vec![MarkupNode::Formatted {
            style: MarkupStyle::bold(),
            children: vec![MarkupNode::Formatted {
                style: MarkupStyle::italic(),
                children: vec![MarkupNode::Text("bold italic".to_string())],
            }],
        }])
    );
}

#[test]
fn mixed_text_and_formatting() {
    let ast = parse_line("hello **world**");
    assert_eq!(
        ast,
        LineAST::Paragraph(vec![
            MarkupNode::Text("hello ".to_string()),
            MarkupNode::Formatted {
                style: MarkupStyle::bold(),
                children: vec![MarkupNode::Text("world".to_string())],
            },
        ])
    );
}

#[test]
fn header() {
    let ast = parse_line("#1# Title");
    assert_eq!(ast, LineAST::Header(1, vec![MarkupNode::Text("Title".to_string())]));
}

#[test]
fn header_level_3() {
    let ast = parse_line("#3# Sub Section");
    assert_eq!(ast, LineAST::Header(3, vec![MarkupNode::Text("Sub Section".to_string())]));
}

#[test]
fn line_comment_line() {
    let ast = parse_line("%% this is hidden");
    assert_eq!(
        ast,
        LineAST::Comment(vec![MarkupNode::Text("this is hidden".to_string())])
    );
}

#[test]
fn comment_mid_line() {
    let ast = parse_line("visible %% hidden");
    assert_eq!(
        ast,
        LineAST::Comment(vec![MarkupNode::Text("hidden".to_string())])
    );
}

#[test]
fn line_formula_line() {
    let ast = parse_line("$$ x = 5");
    assert_eq!(ast, LineAST::Formula(vec![MarkupNode::Text("x = 5".to_string())]));
}

#[test]
fn line_spoiler_line() {
    let ast = parse_line("!! hidden content");
    assert_eq!(
        ast,
        LineAST::Spoiler(None, vec![MarkupNode::Text("hidden content".to_string())])
    );
}

#[test]
fn spoiler_with_title() {
    let ast = parse_line("!!title: hidden");
    assert_eq!(
        ast,
        LineAST::Spoiler(
            Some("title".to_string()),
            vec![MarkupNode::Text("hidden".to_string())]
        )
    );
}

#[test]
fn line_thematic_break() {
    assert_eq!(parse_line("---"), LineAST::ThematicBreak);
    assert_eq!(parse_line("___"), LineAST::ThematicBreak);
    assert_eq!(parse_line("***"), LineAST::ThematicBreak);
}

#[test]
fn unordered_list() {
    let ast = parse_line("- item");
    assert_eq!(ast, LineAST::ListItem(false, 0, vec![MarkupNode::Text("item".to_string())]));
}

#[test]
fn unordered_list_with_star() {
    let ast = parse_line("* item");
    assert_eq!(ast, LineAST::ListItem(false, 0, vec![MarkupNode::Text("item".to_string())]));
}

#[test]
fn ordered_list() {
    let ast = parse_line("1. first");
    assert_eq!(ast, LineAST::ListItem(true, 1, vec![MarkupNode::Text("first".to_string())]));
}

#[test]
fn star_not_confused_with_bold() {
    let ast = parse_line("**bold**");
    assert!(matches!(ast, LineAST::Paragraph(_)));
}

#[test]
fn block_marker_comment() {
    assert_eq!(parse_line("%%%"), LineAST::BlockMarker(BlockType::Comment));
}

#[test]
fn block_marker_formula() {
    assert_eq!(parse_line("$$$"), LineAST::BlockMarker(BlockType::Formula));
}

#[test]
fn block_marker_spoiler() {
    assert_eq!(parse_line("!!!"), LineAST::BlockMarker(BlockType::Spoiler));
}

#[test]
fn quote() {
    let ast = parse_line("> quoted text");
    assert_eq!(ast, LineAST::Quote(vec![MarkupNode::Text("quoted text".to_string())]));
}

#[test]
fn table_row() {
    let ast = parse_line("| a | b | c |");
    if let LineAST::TableRow(cells) = ast {
        assert_eq!(cells.len(), 3);
        assert_eq!(cells[0], vec![MarkupNode::Text("a".to_string())]);
        assert_eq!(cells[1], vec![MarkupNode::Text("b".to_string())]);
        assert_eq!(cells[2], vec![MarkupNode::Text("c".to_string())]);
    } else {
        panic!("expected TableRow");
    }
}

#[test]
fn empty_line() {
    assert_eq!(parse_line(""), LineAST::Empty);
    assert_eq!(parse_line("   "), LineAST::Empty);
}

#[test]
fn escape_char() {
    let ast = parse_line(r"\**not bold**");
    assert_eq!(
        ast,
        LineAST::Paragraph(vec![
            MarkupNode::Text("*".to_string()),
            MarkupNode::Text("*not bold**".to_string()),
        ])
    );
}

#[test]
fn spoiler_block_open_with_title() {
    let ast = parse_line("!!!spoiler block:");
    assert_eq!(ast, LineAST::SpoilerBlockOpen(Some("spoiler block".to_string())));
}

#[test]
fn mixed_on_line() {
    let ast = parse_line("text %% comment");
    assert_eq!(
        ast,
        LineAST::Comment(vec![MarkupNode::Text("comment".to_string())])
    );
}

