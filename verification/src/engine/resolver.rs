//! Classification of markers: turns runs of marker bytes into syntax spans
//! (`SyntaxSpan { start, end, kind }`) in byte offsets.
//!
//! - Inline (`**`, `//`, `%`, `$`, `!`, ...) anywhere in a line, closed by
//!   `))`, which closes every open inline marker at once; never past the line.
//! - Line-close (`%%`, `$$`, `!!`, `` `` ``, `>`) at the start of a line,
//!   closed by `}` or at the end of the line.
//! - Line (`#N`, `#:`, `-`, `N;`, `---`, `|`) at the start of a line, up to
//!   the end of the line.
//! - Block (`%%%`, `$$$`, `!!!`, `` ``` ``, `@@`) at the start of a line,
//!   closed by `}` at the start of a line.
//!
//! No space after an opening marker (except the quote `>`), none before a
//! closing one.

use vstd::prelude::*;
use crate::engine::bytes::{
    SPACE, STAR, SLASH, UNDERSCORE, TILDE, EQUALS, PLUS, MINUS, APOSTROPHE, COMMA, DOLLAR, PERCENT,
    BANG, BACKTICK, DIGIT_0, DIGIT_9, AT, GREATER, HASH, COLON, PIPE, RPAREN, RBRACE, SEMICOLON,
    NEWLINE,
};

verus! {

/// Kind of a syntax construct.
#[derive(Debug, Clone, Copy, PartialEq, Eq, Structural)]
pub enum SyntaxKind {
    // Inline
    Bold,
    Italic,
    Underline,
    Strikethrough,
    Highlight,
    Insertion,
    Deletion,
    Superscript,
    Subscript,
    FormulaInline,
    CommentInline,
    SpoilerInline,
    CodeInline,
    // Line
    Header(u8),
    Tag,
    Quote,
    ListItem,
    TableRow,
    ThematicBreak,
    FormulaLine,
    CommentLine,
    SpoilerLine,
    CodeLine,
    // Block
    FormulaBlock,
    CommentBlock,
    SpoilerBlock,
    CodeBlock,
    Metadata,
}

/// Syntax span in byte offsets: `[start, end)`.
#[derive(Debug, Clone, Copy, PartialEq, Eq, Structural)]
pub struct SyntaxSpan {
    pub start: usize,
    pub end: usize,
    pub kind: SyntaxKind,
}

// ─── Model ───────────────────────────────────────────────────

/// State of the classification.
pub struct RState {
    /// Bounds of the current line.
    pub line_start: usize,
    pub line_end: usize,
    /// Spans built so far, in order of creation.
    pub spans: Seq<SyntaxSpan>,
    /// Open inline markers (kind, position).
    pub inline: Seq<(SyntaxKind, usize)>,
    /// Open blocks (kind, position).
    pub blocks: Seq<(SyntaxKind, usize)>,
    /// Open line-close marker of the current line.
    pub pending: Option<(SyntaxKind, usize)>,
}

/// Kind of an inline marker of two equal bytes.
pub open spec fn inline2_kind(b: u8) -> Option<SyntaxKind> {
    if b == STAR {
        Some(SyntaxKind::Bold)
    } else if b == SLASH {
        Some(SyntaxKind::Italic)
    } else if b == UNDERSCORE {
        Some(SyntaxKind::Underline)
    } else if b == TILDE {
        Some(SyntaxKind::Strikethrough)
    } else if b == EQUALS {
        Some(SyntaxKind::Highlight)
    } else if b == PLUS {
        Some(SyntaxKind::Insertion)
    } else if b == MINUS {
        Some(SyntaxKind::Deletion)
    } else if b == APOSTROPHE {
        Some(SyntaxKind::Superscript)
    } else if b == COMMA {
        Some(SyntaxKind::Subscript)
    } else {
        None
    }
}

/// Kind of an inline marker of one byte.
pub open spec fn inline1_kind(b: u8) -> Option<SyntaxKind> {
    if b == DOLLAR {
        Some(SyntaxKind::FormulaInline)
    } else if b == PERCENT {
        Some(SyntaxKind::CommentInline)
    } else if b == BANG {
        Some(SyntaxKind::SpoilerInline)
    } else if b == BACKTICK {
        Some(SyntaxKind::CodeInline)
    } else {
        None
    }
}

/// Kind of a block opened by `byte` (`%%%`, `$$$`, `!!!`, `` ``` ``, `@@`).
pub open spec fn block_kind(b: u8) -> SyntaxKind {
    if b == PERCENT {
        SyntaxKind::CommentBlock
    } else if b == DOLLAR {
        SyntaxKind::FormulaBlock
    } else if b == BANG {
        SyntaxKind::SpoilerBlock
    } else if b == BACKTICK {
        SyntaxKind::CodeBlock
    } else {
        SyntaxKind::Metadata
    }
}

/// Kind of a line-close marker (`%%`, `$$`, `!!`, `` `` ``).
pub open spec fn line_close_kind(b: u8) -> SyntaxKind {
    if b == PERCENT {
        SyntaxKind::CommentLine
    } else if b == DOLLAR {
        SyntaxKind::FormulaLine
    } else if b == BANG {
        SyntaxKind::SpoilerLine
    } else {
        SyntaxKind::CodeLine
    }
}

/// ASCII digit.
pub open spec fn is_digit_byte(b: u8) -> bool {
    DIGIT_0 <= b <= DIGIT_9
}

/// Creates a span.
pub open spec fn emit(s: RState, start: usize, end: usize, kind: SyntaxKind) -> RState {
    RState { spans: s.spans.push(SyntaxSpan { start, end, kind }), ..s }
}

/// Spans closing the open inline markers at `end`, innermost first.
pub open spec fn close_all_inline(inline: Seq<(SyntaxKind, usize)>, end: usize) -> Seq<SyntaxSpan>
    decreases inline.len(),
{
    if inline.len() == 0 {
        seq![]
    } else {
        seq![SyntaxSpan { start: inline.last().1, end, kind: inline.last().0 }] + close_all_inline(
            inline.drop_last(),
            end,
        )
    }
}

/// `))`: closes every open inline marker, unless none is open or a space
/// precedes it.
pub open spec fn close_inline(s: RState, text: Seq<u8>, start: usize, end: usize) -> RState {
    if s.inline.len() == 0 {
        s
    } else if start > 0 && text[start - 1] == SPACE {
        s
    } else {
        RState { spans: s.spans + close_all_inline(s.inline, end), inline: seq![], ..s }
    }
}

/// `}`: at the start of a line it closes the innermost block; elsewhere the
/// open line-close marker of the line, unless a space precedes it.
pub open spec fn brace_closed(s: RState, text: Seq<u8>, start: usize, end: usize) -> RState {
    if start == s.line_start {
        if s.blocks.len() > 0 {
            emit(RState { blocks: s.blocks.drop_last(), ..s }, s.blocks.last().1, end, s.blocks.last().0)
        } else {
            s
        }
    } else if start > 0 && text[start - 1] == SPACE {
        s
    } else {
        match s.pending {
            Some((kind, open)) => emit(RState { pending: None, ..s }, open, end, kind),
            None => s,
        }
    }
}

/// `N; `: digits from the start of the line, `;`, then a space or the end of
/// the text: a list item over the whole line.
pub open spec fn semicolon_list(s: RState, text: Seq<u8>, start: usize) -> RState {
    let numbered = start > s.line_start && (forall|i: int| s.line_start <= i < start ==> is_digit_byte(
        #[trigger] text[i],
    ));
    if numbered && (start + 1 >= text.len() || text[start + 1] == SPACE) {
        emit(s, s.line_start, s.line_end, SyntaxKind::ListItem)
    } else {
        s
    }
}

/// Number of leading ASCII digits of `t`, at most `k`.
pub open spec fn digit_run(t: Seq<u8>, k: nat) -> nat
    decreases k,
{
    if k == 0 || t.len() == 0 || !is_digit_byte(t[0]) {
        0
    } else {
        1 + digit_run(t.drop_first(), (k - 1) as nat)
    }
}

/// Decimal value of a string of digits.
pub open spec fn decimal(t: Seq<u8>) -> nat
    decreases t.len(),
{
    if t.len() == 0 {
        0
    } else {
        decimal(t.drop_last()) * 10 + (t.last() - DIGIT_0) as nat
    }
}

/// Level of a header `#N ` whose text after `#` is `after`: one to three
/// digits, then a space or the end of the line, at most 255.
pub open spec fn header_level(after: Seq<u8>) -> Option<u8> {
    let d = digit_run(after, 3);
    let rest = after.skip(d as int);
    if d > 0 && (rest.len() == 0 || rest[0] == SPACE) && decimal(after.take(d as int)) <= 255 {
        Some(decimal(after.take(d as int)) as u8)
    } else {
        None
    }
}

/// An inline opening marker: pushed unless a space follows it.
pub open spec fn inline_pushed(s: RState, text: Seq<u8>, kind: SyntaxKind, start: usize, end: usize) -> RState {
    if end < text.len() && text[end as int] == SPACE {
        s
    } else {
        RState { inline: s.inline.push((kind, start)), ..s }
    }
}

/// A span over the rest of the line.
pub open spec fn line_span(s: RState, start: usize, kind: SyntaxKind) -> RState {
    emit(s, start, s.line_end, kind)
}

/// An opening marker: block, line-close, line or inline.
pub open spec fn marker_opened(s: RState, text: Seq<u8>, byte: u8, len: usize, start: usize, end: usize) -> RState {
    let at_line_start = start == s.line_start;
    if (len == 3 && (byte == PERCENT || byte == DOLLAR || byte == BANG || byte == BACKTICK)) || (byte == AT && len
        == 2) {
        if at_line_start {
            RState { blocks: s.blocks.push((block_kind(byte), start)), ..s }
        } else {
            s
        }
    } else if len == 2 && (byte == PERCENT || byte == DOLLAR || byte == BANG || byte == BACKTICK) {
        if at_line_start && !(end < text.len() && text[end as int] == SPACE) {
            RState { pending: Some((line_close_kind(byte), start)), ..s }
        } else {
            s
        }
    } else if byte == GREATER && len == 1 {
        if at_line_start {
            RState { pending: Some((SyntaxKind::Quote, start)), ..s }
        } else {
            s
        }
    } else if byte == HASH {
        if !at_line_start {
            s
        } else if start + 1 < text.len() && text[start + 1] == COLON {
            line_span(s, start, SyntaxKind::Tag)
        } else {
            match header_level(text.subrange(start + 1, s.line_end as int)) {
                Some(level) => line_span(s, start, SyntaxKind::Header(level)),
                None => s,
            }
        }
    } else if byte == MINUS && len == 1 {
        if at_line_start && start + 1 < text.len() && text[start + 1] == SPACE {
            line_span(s, start, SyntaxKind::ListItem)
        } else {
            s
        }
    } else if byte == MINUS && len >= 3 {
        if at_line_start && text.subrange(start as int, s.line_end as int) == seq![MINUS, MINUS, MINUS] {
            line_span(s, start, SyntaxKind::ThematicBreak)
        } else {
            s
        }
    } else if (byte == STAR || byte == PLUS) && len == 1 {
        if at_line_start && start + 1 < text.len() && text[start + 1] == SPACE {
            line_span(s, start, SyntaxKind::ListItem)
        } else {
            s
        }
    } else if byte == PIPE {
        if at_line_start {
            line_span(s, start, SyntaxKind::TableRow)
        } else {
            s
        }
    } else if len == 2 && inline2_kind(byte) is Some {
        inline_pushed(s, text, inline2_kind(byte)->0, start, end)
    } else if len == 1 && inline1_kind(byte) is Some {
        inline_pushed(s, text, inline1_kind(byte)->0, start, end)
    } else {
        s
    }
}

/// A finished run of `len` equal bytes `byte` starting at `start`.
pub open spec fn resolve_marker(s: RState, text: Seq<u8>, byte: u8, start: usize, len: usize) -> RState {
    let end = (start + len) as usize;
    if byte == RPAREN && len >= 2 {
        close_inline(s, text, start, end)
    } else if byte == RBRACE {
        brace_closed(s, text, start, end)
    } else if byte == SEMICOLON {
        semicolon_list(s, text, start)
    } else {
        marker_opened(s, text, byte, len, start, end)
    }
}

/// Every span lies in a text of `n` bytes: `start <= end <= n`.
pub open spec fn spans_within(spans: Seq<SyntaxSpan>, n: int) -> bool {
    forall|i: int| 0 <= i < spans.len() ==> (#[trigger] spans[i]).start <= spans[i].end <= n
}

/// The spans lie in the text, and every open marker was opened at or
/// before `bound` (an open line-close marker also at or before the end of
/// its line).
pub open spec fn positions_ok(s: RState, n: int, bound: int) -> bool {
    &&& spans_within(s.spans, n)
    &&& forall|i: int| 0 <= i < s.inline.len() ==> #[trigger] s.inline[i].1 <= bound
    &&& forall|i: int| 0 <= i < s.blocks.len() ==> #[trigger] s.blocks[i].1 <= bound
    &&& s.pending matches Some(p) ==> p.1 <= bound && p.1 <= s.line_end
}

proof fn lemma_close_all_inline(inline: Seq<(SyntaxKind, usize)>, end: usize, n: int)
    requires
        end <= n,
        forall|i: int| 0 <= i < inline.len() ==> #[trigger] inline[i].1 <= end,
    ensures
        spans_within(close_all_inline(inline, end), n),
        close_all_inline(inline, end).len() == inline.len(),
    decreases inline.len(),
{
    if inline.len() > 0 {
        lemma_close_all_inline(inline.drop_last(), end, n);
        let rest = close_all_inline(inline.drop_last(), end);
        let all = close_all_inline(inline, end);
        assert forall|i: int| 0 <= i < all.len() implies #[trigger] all[i].start <= all[i].end <= n by {
            if i > 0 {
                assert(all[i] == rest[i - 1]);
            }
        }
    }
}

/// Classifying a marker keeps the spans in the text and the open markers at
/// or before the marker's start.
pub proof fn lemma_resolve_within(s: RState, text: Seq<u8>, byte: u8, start: usize, len: usize)
    requires
        marker_in_line(s, text, start, len),
        s.line_start <= s.line_end,
        positions_ok(s, text.len() as int, start as int),
    ensures
        positions_ok(resolve_marker(s, text, byte, start, len), text.len() as int, start as int),
        resolve_marker(s, text, byte, start, len).line_start == s.line_start,
        resolve_marker(s, text, byte, start, len).line_end == s.line_end,
{
    let n = text.len() as int;
    let end = (start + len) as usize;
    let r = resolve_marker(s, text, byte, start, len);
    if byte == RPAREN && len >= 2 {
        if s.inline.len() > 0 && !(start > 0 && text[start - 1] == SPACE) {
            lemma_close_all_inline(s.inline, end, n);
            let extra = close_all_inline(s.inline, end);
            assert(r.spans == s.spans + extra);
            assert forall|i: int| 0 <= i < r.spans.len() implies #[trigger] r.spans[i].start <= r.spans[i].end
                <= n by {
                if i >= s.spans.len() {
                    let j = i - s.spans.len();
                    assert(r.spans[i] == extra[j]);
                    assert(extra[j].start <= extra[j].end <= n);
                } else {
                    assert(r.spans[i] == s.spans[i]);
                    assert(s.spans[i].start <= s.spans[i].end <= n);
                }
            }
        }
    } else if byte == RBRACE {
    } else if byte == SEMICOLON {
    } else {
        let at_line_start = start == s.line_start;
        if (len == 3 && (byte == PERCENT || byte == DOLLAR || byte == BANG || byte == BACKTICK)) || (byte
            == AT && len == 2) {
            if at_line_start {
                assert(r.blocks == s.blocks.push((block_kind(byte), start)));
                assert forall|i: int| 0 <= i < r.blocks.len() implies #[trigger] r.blocks[i].1 <= start by {
                    if i < s.blocks.len() {
                        assert(r.blocks[i] == s.blocks[i]);
                    }
                }
            }
        } else if len == 2 && inline2_kind(byte) is Some {
            assert forall|i: int| 0 <= i < r.inline.len() implies #[trigger] r.inline[i].1 <= start by {
                if i < s.inline.len() {
                    assert(r.inline[i] == s.inline[i]);
                }
            }
        } else if len == 1 && inline1_kind(byte) is Some {
            assert forall|i: int| 0 <= i < r.inline.len() implies #[trigger] r.inline[i].1 <= start by {
                if i < s.inline.len() {
                    assert(r.inline[i] == s.inline[i]);
                }
            }
        }
    }
}

/// Kinds of the inline markers.
pub open spec fn inline_kind(k: SyntaxKind) -> bool {
    ||| k is Bold || k is Italic || k is Underline || k is Strikethrough || k is Highlight
    ||| k is Insertion || k is Deletion || k is Superscript || k is Subscript
    ||| k is FormulaInline || k is CommentInline || k is SpoilerInline || k is CodeInline
}

/// No `\n` byte in `[a, b)`.
pub open spec fn no_newline_in(text: Seq<u8>, a: int, b: int) -> bool {
    forall|q: int| a <= q < b ==> text[q] != NEWLINE
}

/// Every inline span lies within one line: no `\n` inside it.
pub open spec fn inline_spans_in_line(spans: Seq<SyntaxSpan>, text: Seq<u8>) -> bool {
    forall|i: int|
        0 <= i < spans.len() && inline_kind(#[trigger] spans[i].kind) ==> no_newline_in(
            text,
            spans[i].start as int,
            spans[i].end as int,
        )
}

/// The inline spans lie within a line, the open inline markers are on the
/// current line, and the open blocks and line-close marker are of other
/// kinds.
pub open spec fn lines_ok(s: RState, text: Seq<u8>) -> bool {
    &&& inline_spans_in_line(s.spans, text)
    &&& forall|i: int| 0 <= i < s.inline.len() ==> s.line_start <= #[trigger] s.inline[i].1
    &&& forall|i: int| 0 <= i < s.blocks.len() ==> !inline_kind(#[trigger] s.blocks[i].0)
    &&& s.pending matches Some(p) ==> !inline_kind(p.0)
}

/// Classifying a marker on a line without `\n` keeps the inline spans within
/// a line.
pub proof fn lemma_resolve_lines(s: RState, text: Seq<u8>, byte: u8, start: usize, len: usize)
    requires
        marker_in_line(s, text, start, len),
        positions_ok(s, text.len() as int, start as int),
        lines_ok(s, text),
        no_newline_in(text, s.line_start as int, s.line_end as int),
    ensures
        lines_ok(resolve_marker(s, text, byte, start, len), text),
{
    let end = (start + len) as usize;
    let r = resolve_marker(s, text, byte, start, len);
    if byte == RPAREN && len >= 2 {
        if s.inline.len() > 0 && !(start > 0 && text[start - 1] == SPACE) {
            lemma_close_all_inline_in_line(s.inline, end, text, s.line_start as int);
            let extra = close_all_inline(s.inline, end);
            assert(r.spans == s.spans + extra);
            assert forall|i: int| 0 <= i < r.spans.len() && inline_kind(#[trigger] r.spans[i].kind) implies no_newline_in(
                text,
                r.spans[i].start as int,
                r.spans[i].end as int,
            ) by {
                if i >= s.spans.len() {
                    assert(r.spans[i] == extra[i - s.spans.len()]);
                } else {
                    assert(r.spans[i] == s.spans[i]);
                }
            }
        }
    } else if byte == RBRACE {
        if start == s.line_start {
            if s.blocks.len() > 0 {
                assert(!inline_kind(s.blocks.last().0));
                assert forall|i: int| 0 <= i < r.blocks.len() implies !inline_kind(#[trigger] r.blocks[i].0) by {
                    assert(r.blocks[i] == s.blocks[i]);
                }
            }
        }
    } else if byte == SEMICOLON {
    } else {
        let at_line_start = start == s.line_start;
        if (len == 3 && (byte == PERCENT || byte == DOLLAR || byte == BANG || byte == BACKTICK)) || (byte
            == AT && len == 2) {
            if at_line_start {
                assert forall|i: int| 0 <= i < r.blocks.len() implies !inline_kind(#[trigger] r.blocks[i].0) by {
                    if i < s.blocks.len() {
                        assert(r.blocks[i] == s.blocks[i]);
                    }
                }
            }
        } else if len == 2 && inline2_kind(byte) is Some {
            assert forall|i: int| 0 <= i < r.inline.len() implies s.line_start <= #[trigger] r.inline[i].1 by {
                if i < s.inline.len() {
                    assert(r.inline[i] == s.inline[i]);
                }
            }
        } else if len == 1 && inline1_kind(byte) is Some {
            assert forall|i: int| 0 <= i < r.inline.len() implies s.line_start <= #[trigger] r.inline[i].1 by {
                if i < s.inline.len() {
                    assert(r.inline[i] == s.inline[i]);
                }
            }
        }
    }
}

proof fn lemma_close_all_inline_in_line(inline: Seq<(SyntaxKind, usize)>, end: usize, text: Seq<u8>, ls: int)
    requires
        forall|i: int| 0 <= i < inline.len() ==> ls <= #[trigger] inline[i].1,
        no_newline_in(text, ls, end as int),
    ensures
        forall|i: int|
            0 <= i < close_all_inline(inline, end).len() ==> no_newline_in(
                text,
                (#[trigger] close_all_inline(inline, end)[i]).start as int,
                close_all_inline(inline, end)[i].end as int,
            ),
        close_all_inline(inline, end).len() == inline.len(),
    decreases inline.len(),
{
    if inline.len() > 0 {
        lemma_close_all_inline_in_line(inline.drop_last(), end, text, ls);
        let rest = close_all_inline(inline.drop_last(), end);
        let all = close_all_inline(inline, end);
        assert forall|i: int| 0 <= i < all.len() implies no_newline_in(
            text,
            (#[trigger] all[i]).start as int,
            all[i].end as int,
        ) by {
            if i > 0 {
                assert(all[i] == rest[i - 1]);
            }
        }
    }
}

// ─── Implementation ──────────────────────────────────────────

/// State of the classification: the text, the current line, the stacks and
/// the spans built so far.
pub struct ResolveState<'a> {
    pub text: &'a [u8],
    /// Bounds of the current line, from the line map.
    pub line_start: usize,
    pub line_end: usize,
    pub spans: Vec<SyntaxSpan>,
    /// Open inline markers: they never outlive their line.
    pub inline_stack: Vec<(SyntaxKind, usize)>,
    /// Open blocks: closed by `}` at the start of a line.
    pub block_stack: Vec<(SyntaxKind, usize)>,
    /// Open line-close marker of the current line.
    pub pending_line_close: Option<(SyntaxKind, usize)>,
}

impl<'a> ResolveState<'a> {
    /// The state as a mathematical value.
    pub open spec fn model(&self) -> RState {
        RState {
            line_start: self.line_start,
            line_end: self.line_end,
            spans: self.spans@,
            inline: self.inline_stack@,
            blocks: self.block_stack@,
            pending: self.pending_line_close,
        }
    }

    /// State at the start of the text: one line over the whole text.
    pub fn new(text: &'a [u8]) -> (s: Self)
        ensures
            s.text@ == text@,
            s.model() == (RState {
                line_start: 0,
                line_end: text@.len() as usize,
                spans: seq![],
                inline: seq![],
                blocks: seq![],
                pending: None,
            }),
    {
        ResolveState {
            text,
            line_start: 0,
            line_end: text.len(),
            spans: Vec::new(),
            inline_stack: Vec::new(),
            block_stack: Vec::new(),
            pending_line_close: None,
        }
    }

    /// Creates a span.
    pub fn emit(&mut self, span: SyntaxSpan)
        ensures
            final(self).text == old(self).text,
            final(self).model() == emit(old(self).model(), span.start, span.end, span.kind),
    {
        self.spans.push(span);
    }
}

/// Kind of an inline marker of two equal bytes.
fn inline2_of(b: u8) -> (r: Option<SyntaxKind>)
    ensures
        r == inline2_kind(b),
{
    if b == STAR {
        Some(SyntaxKind::Bold)
    } else if b == SLASH {
        Some(SyntaxKind::Italic)
    } else if b == UNDERSCORE {
        Some(SyntaxKind::Underline)
    } else if b == TILDE {
        Some(SyntaxKind::Strikethrough)
    } else if b == EQUALS {
        Some(SyntaxKind::Highlight)
    } else if b == PLUS {
        Some(SyntaxKind::Insertion)
    } else if b == MINUS {
        Some(SyntaxKind::Deletion)
    } else if b == APOSTROPHE {
        Some(SyntaxKind::Superscript)
    } else if b == COMMA {
        Some(SyntaxKind::Subscript)
    } else {
        None
    }
}

/// Kind of an inline marker of one byte.
fn inline1_of(b: u8) -> (r: Option<SyntaxKind>)
    ensures
        r == inline1_kind(b),
{
    if b == DOLLAR {
        Some(SyntaxKind::FormulaInline)
    } else if b == PERCENT {
        Some(SyntaxKind::CommentInline)
    } else if b == BANG {
        Some(SyntaxKind::SpoilerInline)
    } else if b == BACKTICK {
        Some(SyntaxKind::CodeInline)
    } else {
        None
    }
}

/// Well-formed marker: it lies inside the current line, inside the text.
pub open spec fn marker_in_line(s: RState, text: Seq<u8>, start: usize, len: usize) -> bool {
    &&& 1 <= len
    &&& s.line_start <= start
    &&& start + len <= s.line_end
    &&& s.line_end <= text.len()
}

/// Dispatches a finished run of `len` bytes `byte` starting at `start`.
pub(crate) fn process_marker(state: &mut ResolveState, byte: u8, start: usize, len: usize)
    requires
        marker_in_line(old(state).model(), old(state).text@, start, len),
    ensures
        final(state).text == old(state).text,
        final(state).model() == resolve_marker(old(state).model(), old(state).text@, byte, start, len),
{
    let end = start + len;
    if byte == RPAREN && len >= 2 {
        close_inline_markers(state, start, end)
    } else if byte == RBRACE {
        close_brace(state, start, end)
    } else if byte == SEMICOLON {
        try_semicolon_list(state, start)
    } else {
        open_marker(state, byte, len, start, end)
    }
}

/// `}`: closes a block at the start of a line, the line-close marker elsewhere.
fn close_brace(state: &mut ResolveState, start: usize, end: usize)
    requires
        start < old(state).text@.len(),
    ensures
        final(state).text == old(state).text,
        final(state).model() == brace_closed(old(state).model(), old(state).text@, start, end),
{
    if start == state.line_start {
        if let Some((kind, open_position)) = state.block_stack.pop() {
            state.emit(SyntaxSpan { start: open_position, end, kind });
        }
    } else {
        let text = state.text;
        if start > 0 && text[start - 1] == SPACE {
            return;
        }
        if let Some((kind, open_position)) = state.pending_line_close {
            state.pending_line_close = None;
            state.emit(SyntaxSpan { start: open_position, end, kind });
        }
    }
}

/// `))`: closes every open inline marker.
fn close_inline_markers(state: &mut ResolveState, start: usize, end: usize)
    requires
        start < old(state).text@.len(),
    ensures
        final(state).text == old(state).text,
        final(state).model() == close_inline(old(state).model(), old(state).text@, start, end),
{
    let text = state.text;
    if state.inline_stack.len() == 0 {
        return;
    }
    if start > 0 && text[start - 1] == SPACE {
        return;
    }
    let ghost s0 = state.model();
    while state.inline_stack.len() > 0
        invariant
            state.text == old(state).text,
            state.line_start == s0.line_start,
            state.line_end == s0.line_end,
            state.block_stack@ == s0.blocks,
            state.pending_line_close == s0.pending,
            state.spans@ + close_all_inline(state.inline_stack@, end) == s0.spans + close_all_inline(s0.inline, end),
        decreases state.inline_stack@.len(),
    {
        let ghost st = state.inline_stack@;
        let (kind, open_position) = state.inline_stack.pop().unwrap();
        state.emit(SyntaxSpan { start: open_position, end, kind });
        proof {
            assert(st.drop_last() == state.inline_stack@);
            assert(close_all_inline(st, end) == seq![SyntaxSpan { start: open_position, end, kind }]
                + close_all_inline(state.inline_stack@, end));
        }
    }
    assert(state.spans@ + seq![] =~= state.spans@);
    assert(state.inline_stack@ =~= seq![]);
}

/// Whether every byte of `[from, to)` is an ASCII digit.
fn all_digit_bytes(text: &[u8], from: usize, to: usize) -> (b: bool)
    requires
        from <= to <= text@.len(),
    ensures
        b == forall|i: int| from <= i < to ==> is_digit_byte(#[trigger] text@[i]),
{
    let mut i = from;
    while i < to
        invariant
            from <= i <= to <= text@.len(),
            forall|j: int| from <= j < i ==> is_digit_byte(#[trigger] text@[j]),
        decreases to - i,
    {
        let b = text[i];
        if !(DIGIT_0 <= b && b <= DIGIT_9) {
            assert(!is_digit_byte(text@[i as int]));
            return false;
        }
        i += 1;
    }
    true
}

/// `N; `: a numbered list item over the whole line.
fn try_semicolon_list(state: &mut ResolveState, start: usize)
    requires
        old(state).line_start <= start < old(state).line_end <= old(state).text@.len(),
    ensures
        final(state).text == old(state).text,
        final(state).model() == semicolon_list(old(state).model(), old(state).text@, start),
{
    let text = state.text;
    let numbered = start > state.line_start && all_digit_bytes(text, state.line_start, start);
    if numbered && (start + 1 >= text.len() || text[start + 1] == SPACE) {
        let span = SyntaxSpan { start: state.line_start, end: state.line_end, kind: SyntaxKind::ListItem };
        state.emit(span);
    }
}

/// Inline opening: pushed unless a space follows it.
fn push_inline(state: &mut ResolveState, kind: SyntaxKind, start: usize, end: usize)
    ensures
        final(state).text == old(state).text,
        final(state).model() == inline_pushed(old(state).model(), old(state).text@, kind, start, end),
{
    if end < state.text.len() && state.text[end] == SPACE {
        return;
    }
    state.inline_stack.push((kind, start));
}

/// Level of a header: the digits after `#` (at most three) followed by a
/// space or the end of the line.
fn header_level_at(text: &[u8], from: usize, to: usize) -> (r: Option<u8>)
    requires
        from <= to <= text@.len(),
    ensures
        r == header_level(text@.subrange(from as int, to as int)),
{
    let ghost after = text@.subrange(from as int, to as int);
    let mut level: u32 = 0;
    let mut digits: usize = 0;
    while digits < 3 && from + digits < to && DIGIT_0 <= text[from + digits] && text[from + digits] <= DIGIT_9
        invariant
            from <= to <= text@.len(),
            after == text@.subrange(from as int, to as int),
            digits <= 3,
            from + digits <= to,
            forall|j: int| 0 <= j < digits ==> is_digit_byte(#[trigger] after[j]),
            level == decimal(after.take(digits as int)),
            level < (if digits == 0 { 1u32 } else if digits == 1 { 10u32 } else if digits == 2 { 100u32 } else { 1000u32 }),
        decreases 3 - digits,
    {
        let b = text[from + digits];
        proof {
            assert(after.take(digits + 1).drop_last() =~= after.take(digits as int));
            assert(after[digits as int] == b);
        }
        level = level * 10 + (b - DIGIT_0) as u32;
        digits += 1;
    }
    proof {
        lemma_digit_run(after, digits as nat);
    }
    if digits > 0 {
        let rest_empty = from + digits == to;
        if (rest_empty || text[from + digits] == SPACE) && level <= 255 {
            proof {
                let rest = after.skip(digits as int);
                if !rest_empty {
                    assert(rest[0] == text@[from + digits]);
                }
            }
            return Some(level as u8);
        }
        proof {
            let rest = after.skip(digits as int);
            if !rest_empty {
                assert(rest[0] == text@[from + digits]);
            }
        }
    }
    None
}

/// `digit_run` counts the leading digits, up to three.
proof fn lemma_digit_run(t: Seq<u8>, d: nat)
    requires
        d <= 3,
        d <= t.len(),
        forall|j: int| 0 <= j < d ==> is_digit_byte(#[trigger] t[j]),
        d < 3 && d < t.len() ==> !is_digit_byte(t[d as int]),
    ensures
        digit_run(t, 3) == d,
{
    lemma_digit_run_k(t, 3, d);
}

proof fn lemma_digit_run_k(t: Seq<u8>, k: nat, d: nat)
    requires
        d <= k,
        d <= t.len(),
        forall|j: int| 0 <= j < d ==> is_digit_byte(#[trigger] t[j]),
        d < k && d < t.len() ==> !is_digit_byte(t[d as int]),
    ensures
        digit_run(t, k) == d,
    decreases k,
{
    if d > 0 {
        let t2 = t.drop_first();
        assert forall|j: int| 0 <= j < d - 1 implies is_digit_byte(#[trigger] t2[j]) by {
            assert(t2[j] == t[j + 1]);
        }
        if d - 1 < k - 1 && d - 1 < t2.len() {
            assert(t2[d - 1] == t[d as int]);
        }
        assert(is_digit_byte(t[0]));
        lemma_digit_run_k(t2, (k - 1) as nat, (d - 1) as nat);
    } else {
        if k > 0 && t.len() > 0 {
            assert(!is_digit_byte(t[0]));
        }
    }
}

/// Opening marker: block, line-close, line or inline.
#[verifier::rlimit(40)]
fn open_marker(state: &mut ResolveState, byte: u8, len: usize, start: usize, end: usize)
    requires
        marker_in_line(old(state).model(), old(state).text@, start, len),
        end == start + len,
    ensures
        final(state).text == old(state).text,
        final(state).model() == marker_opened(old(state).model(), old(state).text@, byte, len, start, end),
{
    let text = state.text;
    let at_line_start = start == state.line_start;
    if (len == 3 && (byte == PERCENT || byte == DOLLAR || byte == BANG || byte == BACKTICK)) || (byte == AT
        && len == 2) {
        if at_line_start {
            let kind = if byte == PERCENT {
                SyntaxKind::CommentBlock
            } else if byte == DOLLAR {
                SyntaxKind::FormulaBlock
            } else if byte == BANG {
                SyntaxKind::SpoilerBlock
            } else if byte == BACKTICK {
                SyntaxKind::CodeBlock
            } else {
                SyntaxKind::Metadata
            };
            state.block_stack.push((kind, start));
        }
    } else if len == 2 && (byte == PERCENT || byte == DOLLAR || byte == BANG || byte == BACKTICK) {
        if at_line_start {
            if end < text.len() && text[end] == SPACE {
                return;
            }
            let kind = if byte == PERCENT {
                SyntaxKind::CommentLine
            } else if byte == DOLLAR {
                SyntaxKind::FormulaLine
            } else if byte == BANG {
                SyntaxKind::SpoilerLine
            } else {
                SyntaxKind::CodeLine
            };
            state.pending_line_close = Some((kind, start));
        }
    } else if byte == GREATER && len == 1 {
        if at_line_start {
            state.pending_line_close = Some((SyntaxKind::Quote, start));
        }
    } else if byte == HASH {
        if at_line_start {
            if start + 1 < text.len() && text[start + 1] == COLON {
                let span = SyntaxSpan { start, end: state.line_end, kind: SyntaxKind::Tag };
                state.emit(span);
                return;
            }
            if let Some(level) = header_level_at(text, start + 1, state.line_end) {
                let span = SyntaxSpan { start, end: state.line_end, kind: SyntaxKind::Header(level) };
                state.emit(span);
            }
        }
    } else if byte == MINUS && len == 1 {
        if at_line_start && start + 1 < text.len() && text[start + 1] == SPACE {
            let span = SyntaxSpan { start, end: state.line_end, kind: SyntaxKind::ListItem };
            state.emit(span);
        }
    } else if byte == MINUS && len >= 3 {
        if at_line_start && state.line_end - start == 3 && text[start] == MINUS && text[start + 1] == MINUS
            && text[start + 2] == MINUS {
            assert(text@.subrange(start as int, state.line_end as int) =~= seq![MINUS, MINUS, MINUS]);
            let span = SyntaxSpan { start, end: state.line_end, kind: SyntaxKind::ThematicBreak };
            state.emit(span);
        } else {
            proof {
                let t = text@.subrange(start as int, state.line_end as int);
                if t == seq![MINUS, MINUS, MINUS] {
                    assert(t.len() == 3);
                    assert(t[0] == text@[start as int]);
                    assert(t[1] == text@[start + 1]);
                    assert(t[2] == text@[start + 2]);
                }
            }
        }
    } else if (byte == STAR || byte == PLUS) && len == 1 {
        if at_line_start && start + 1 < text.len() && text[start + 1] == SPACE {
            let span = SyntaxSpan { start, end: state.line_end, kind: SyntaxKind::ListItem };
            state.emit(span);
        }
    } else if byte == PIPE {
        if at_line_start {
            let span = SyntaxSpan { start, end: state.line_end, kind: SyntaxKind::TableRow };
            state.emit(span);
        }
    } else if len == 2 && inline2_of(byte).is_some() {
        let kind = inline2_of(byte).unwrap();
        push_inline(state, kind, start, end);
    } else if len == 1 && inline1_of(byte).is_some() {
        let kind = inline1_of(byte).unwrap();
        push_inline(state, kind, start, end);
    }
}

} // verus!
