//! The engine: document bytes → line map and syntax spans.
//!
//! Stage 1 finds the `\n` bytes (the line map); stage 2 walks the bytes of
//! interest, groups equal adjacent bytes into markers, and classifies each
//! finished marker with the bounds of its line already known.

use vstd::prelude::*;
use crate::engine::bytes::{
    NEWLINE, SPACE, DIGIT_0, DIGIT_9, COLON, STAR, SLASH, UNDERSCORE, TILDE, EQUALS, PLUS, MINUS, APOSTROPHE, COMMA, DOLLAR,
    PERCENT, BANG, HASH, GREATER, PIPE, SEMICOLON, RPAREN, RBRACE, AT, BACKTICK,
};
use crate::engine::dependency::DependencyGraph;
use crate::engine::line_map::{LineMap, count_below, increasing};
use crate::engine::simd::{positions_of, target_positions};
use crate::engine::resolver::{
    ResolveState, RState, SyntaxKind, SyntaxSpan, emit, close_all_inline, line_close_kind, inline1_kind, inline2_kind, block_kind, digit_run, decimal, is_digit_byte, resolve_marker, process_marker,
    positions_ok, spans_within, lemma_resolve_within, lines_ok, inline_spans_in_line, no_newline_in,
    lemma_resolve_lines,
};

verus! {

// ─── Model ───────────────────────────────────────────────────

/// The bytes of interest of stage 2: the syntax markers (`\n` is not one:
/// the end of a line is known from the line map).
pub open spec fn interesting(b: u8) -> bool {
    ||| b == STAR || b == SLASH || b == UNDERSCORE || b == TILDE || b == EQUALS
    ||| b == PLUS || b == MINUS || b == APOSTROPHE || b == COMMA || b == DOLLAR
    ||| b == PERCENT || b == BANG || b == HASH || b == GREATER || b == PIPE
    ||| b == SEMICOLON || b == RPAREN || b == RBRACE || b == AT || b == BACKTICK
}

/// Positions of the `\n` bytes among the first `k` bytes.
pub open spec fn newlines_upto(text: Seq<u8>, k: int) -> Seq<usize>
    decreases k,
{
    if k <= 0 {
        seq![]
    } else if text[k - 1] == NEWLINE {
        newlines_upto(text, k - 1).push((k - 1) as usize)
    } else {
        newlines_upto(text, k - 1)
    }
}

/// Positions of the `\n` bytes of the text, increasing.
pub open spec fn newlines(text: Seq<u8>) -> Seq<usize> {
    newlines_upto(text, text.len() as int)
}

/// The run of equal adjacent bytes being gathered.
pub struct Run {
    pub byte: u8,
    pub start: usize,
    pub end: usize,
    pub len: usize,
}

/// State of stage 2 between two bytes.
pub struct Walk {
    pub st: RState,
    pub run: Run,
    /// Index in the line map of the current line.
    pub line: nat,
}

/// State before the first byte.
pub open spec fn walk_start(text: Seq<u8>, nls: Seq<usize>) -> Walk {
    Walk {
        st: RState {
            line_start: 0,
            line_end: if nls.len() > 0 { nls[0] } else { text.len() as usize },
            spans: seq![],
            inline: seq![],
            blocks: seq![],
            pending: None,
        },
        run: Run { byte: 0, start: 0, end: 0, len: 0 },
        line: 0,
    }
}

/// Moves to the line that holds `pos`: the open line-close marker of the
/// line left ends at its `\n`, the inline markers are dropped.
pub open spec fn next_lines(w: Walk, nls: Seq<usize>, len: nat, pos: usize) -> Walk
    decreases nls.len() - w.line,
{
    if w.line < nls.len() && pos > nls[w.line as int] {
        let st1 = match w.st.pending {
            Some((kind, open)) => emit(RState { pending: None, ..w.st }, open, nls[w.line as int], kind),
            None => w.st,
        };
        let line = w.line + 1;
        let st2 = RState {
            line_start: (nls[line - 1] + 1) as usize,
            line_end: if line < nls.len() { nls[line as int] } else { len as usize },
            inline: seq![],
            ..st1
        };
        next_lines(Walk { st: st2, line, ..w }, nls, len, pos)
    } else {
        w
    }
}

/// One byte of interest at `pos`: it extends the run, or the run is
/// classified and a new one starts; then the line of `pos` is reached.
pub open spec fn walk_step(w: Walk, text: Seq<u8>, nls: Seq<usize>, pos: usize) -> Walk {
    let byte = text[pos as int];
    let w1 = if pos == w.run.end && byte == w.run.byte {
        Walk { run: Run { len: (w.run.len + 1) as usize, end: (w.run.end + 1) as usize, ..w.run }, ..w }
    } else {
        let st1 = if w.run.len > 0 {
            resolve_marker(w.st, text, w.run.byte, w.run.start, w.run.len)
        } else {
            w.st
        };
        Walk { st: st1, run: Run { byte, start: pos, end: (pos + 1) as usize, len: 1 }, ..w }
    };
    if pos > w1.st.line_end {
        next_lines(w1, nls, text.len(), pos)
    } else {
        w1
    }
}

/// State after the bytes `[0, k)`.
pub open spec fn walk_upto(text: Seq<u8>, nls: Seq<usize>, k: int) -> Walk
    decreases k,
{
    if k <= 0 {
        walk_start(text, nls)
    } else if interesting(text[k - 1]) {
        walk_step(walk_upto(text, nls, k - 1), text, nls, (k - 1) as usize)
    } else {
        walk_upto(text, nls, k - 1)
    }
}

/// The syntax spans of a document, in order of creation: the last run is
/// classified, and an open line-close marker ends with its line.
pub open spec fn document_spans(text: Seq<u8>) -> Seq<SyntaxSpan> {
    let nls = newlines(text);
    let w = walk_upto(text, nls, text.len() as int);
    let st1 = if w.run.len > 0 {
        resolve_marker(w.st, text, w.run.byte, w.run.start, w.run.len)
    } else {
        w.st
    };
    match st1.pending {
        Some((kind, open)) => emit(RState { pending: None, ..st1 }, open, st1.line_end, kind).spans,
        None => st1.spans,
    }
}

/// Bytes of no interest leave the walk where it was.
proof fn lemma_walk_skip(text: Seq<u8>, nls: Seq<usize>, j: int, k: int)
    requires
        0 <= j <= k <= text.len(),
        forall|i: int| j <= i < k ==> !interesting(#[trigger] text[i]),
    ensures
        walk_upto(text, nls, k) == walk_upto(text, nls, j),
    decreases k,
{
    if k > j {
        assert(!interesting(text[k - 1]));
        lemma_walk_skip(text, nls, j, k - 1);
    }
}

/// No `\n` among the first `k` bytes: no line break is recorded.
proof fn lemma_no_newlines(text: Seq<u8>, k: int)
    requires
        0 <= k <= text.len(),
        forall|i: int| 0 <= i < text.len() ==> #[trigger] text[i] != NEWLINE,
    ensures
        newlines_upto(text, k) == Seq::<usize>::empty(),
    decreases k,
{
    if k > 0 {
        lemma_no_newlines(text, k - 1);
    }
}

/// A bulleted line: `*`, `+` or `-` at the start, a space, then text with
/// no other marker and no line break, is one list item span over the whole
/// line, and nothing else.
pub proof fn lemma_bullet_line_spans(bullet: u8, rest: Seq<u8>)
    requires
        bullet == STAR || bullet == PLUS || bullet == MINUS,
        forall|i: int| 0 <= i < rest.len() ==> !interesting(#[trigger] rest[i]) && rest[i] != NEWLINE,
        rest.len() + 2 <= usize::MAX,
    ensures
        document_spans(seq![bullet, SPACE] + rest) == seq![
            SyntaxSpan { start: 0, end: (rest.len() + 2) as usize, kind: SyntaxKind::ListItem },
        ],
{
    let text = seq![bullet, SPACE] + rest;
    let n = text.len() as int;
    assert forall|i: int| 1 <= i < text.len() implies !interesting(#[trigger] text[i]) by {
        if i >= 2 {
            assert(text[i] == rest[i - 2]);
        }
    }
    assert forall|i: int| 0 <= i < text.len() implies #[trigger] text[i] != NEWLINE by {
        if i >= 2 {
            assert(text[i] == rest[i - 2]);
        }
    }
    lemma_no_newlines(text, n);
    let nls = newlines(text);
    assert(nls == Seq::<usize>::empty());
    lemma_walk_skip(text, nls, 1, n);
    assert(interesting(text[0]));
    let w0 = walk_start(text, nls);
    assert(walk_upto(text, nls, 0) == w0);
    assert(text[0] == bullet);
    assert(walk_upto(text, nls, 1) == walk_step(w0, text, nls, 0));
    let w = walk_upto(text, nls, n);
    assert(w.run == Run { byte: bullet, start: 0, end: 1, len: 1 });
    assert(w.st == w0.st);
    assert(w.st.line_end == n);
    let st1 = resolve_marker(w.st, text, bullet, 0, 1);
    assert(text[1] == SPACE);
    assert(st1.spans =~= seq![SyntaxSpan { start: 0, end: n as usize, kind: SyntaxKind::ListItem }]);
}

/// A doubled inline marker, text, then `))` closing it: one span of the
/// marker's kind over all of it, and nothing else. `**` bold, `//` italic,
/// `__` underline, `~~` strikethrough, `==` highlight, `++` insertion, `--`
/// deletion, `''` superscript, `,,` subscript. The text is one line with no
/// other marker, and neither starts nor ends with a space.
pub proof fn lemma_inline_pair_spans(c: u8, u: Seq<u8>)
    requires
        c == STAR || c == SLASH || c == UNDERSCORE || c == TILDE || c == EQUALS || c == PLUS || c == MINUS || c
            == APOSTROPHE || c == COMMA,
        u.len() > 0,
        u[0] != SPACE,
        u.last() != SPACE,
        forall|i: int| 0 <= i < u.len() ==> !interesting(#[trigger] u[i]) && u[i] != NEWLINE,
        u.len() + 4 <= usize::MAX,
    ensures
        ({
            let spans = document_spans(seq![c, c] + u + seq![RPAREN, RPAREN]);
            let one = |k: SyntaxKind| seq![(SyntaxSpan { start: 0, end: (u.len() + 4) as usize, kind: k })];
            &&& c == STAR ==> spans == one(SyntaxKind::Bold)
            &&& c == SLASH ==> spans == one(SyntaxKind::Italic)
            &&& c == UNDERSCORE ==> spans == one(SyntaxKind::Underline)
            &&& c == TILDE ==> spans == one(SyntaxKind::Strikethrough)
            &&& c == EQUALS ==> spans == one(SyntaxKind::Highlight)
            &&& c == PLUS ==> spans == one(SyntaxKind::Insertion)
            &&& c == MINUS ==> spans == one(SyntaxKind::Deletion)
            &&& c == APOSTROPHE ==> spans == one(SyntaxKind::Superscript)
            &&& c == COMMA ==> spans == one(SyntaxKind::Subscript)
        }),
{
    let text = seq![c, c] + u + seq![RPAREN, RPAREN];
    let n = text.len() as int;
    assert forall|i: int| 2 <= i < n - 2 implies !interesting(#[trigger] text[i]) by {
        assert(text[i] == u[i - 2]);
    }
    assert forall|i: int| 0 <= i < text.len() implies #[trigger] text[i] != NEWLINE by {
        if 2 <= i < n - 2 {
            assert(text[i] == u[i - 2]);
        }
    }
    lemma_no_newlines(text, n);
    let nls = newlines(text);
    assert(nls == Seq::<usize>::empty());
    let w0 = walk_start(text, nls);
    assert(walk_upto(text, nls, 0) == w0);
    assert(text[0] == c && text[1] == c && text[2] == u[0]);
    assert(text[n - 3] == u.last());
    assert(text[n - 2] == RPAREN && text[n - 1] == RPAREN);
    let w1 = walk_upto(text, nls, 1);
    assert(w1 == walk_step(w0, text, nls, 0));
    assert(w1.run == Run { byte: c, start: 0, end: 1, len: 1 });
    let w2 = walk_upto(text, nls, 2);
    assert(w2 == walk_step(w1, text, nls, 1));
    assert(w2.run == Run { byte: c, start: 0, end: 2, len: 2 });
    assert(w2.st == w0.st);
    lemma_walk_skip(text, nls, 2, n - 2);
    let w3 = walk_upto(text, nls, n - 1);
    assert(w3 == walk_step(w2, text, nls, (n - 2) as usize));
    let st1 = resolve_marker(w0.st, text, c, 0, 2);
    assert(st1.inline == seq![(inline2_kind(c)->0, 0usize)]);
    assert(st1.spans == Seq::<SyntaxSpan>::empty());
    assert(w3.st == st1);
    assert(w3.run == Run { byte: RPAREN, start: (n - 2) as usize, end: (n - 1) as usize, len: 1 });
    let w4 = walk_upto(text, nls, n);
    assert(w4 == walk_step(w3, text, nls, (n - 1) as usize));
    assert(w4.run == Run { byte: RPAREN, start: (n - 2) as usize, end: n as usize, len: 2 });
    assert(w4.st == st1);
    let st2 = resolve_marker(st1, text, RPAREN, (n - 2) as usize, 2);
    assert(st1.inline.drop_last() =~= Seq::<(SyntaxKind, usize)>::empty());
    assert(close_all_inline(st1.inline.drop_last(), n as usize) =~= Seq::<SyntaxSpan>::empty());
    assert(close_all_inline(st1.inline, n as usize) =~= seq![
        SyntaxSpan { start: 0, end: n as usize, kind: inline2_kind(c)->0 },
    ]);
    assert(st2.spans =~= seq![SyntaxSpan { start: 0, end: n as usize, kind: inline2_kind(c)->0 }]);
}

/// Digits then something that is not a digit: the run of digits is all of
/// them, up to `k`.
proof fn lemma_digit_run_exact(d: Seq<u8>, r: Seq<u8>, k: nat)
    requires
        d.len() <= k,
        forall|i: int| 0 <= i < d.len() ==> DIGIT_0 <= #[trigger] d[i] <= DIGIT_9,
        r.len() == 0 || !is_digit_byte(r[0]),
    ensures
        digit_run(d + r, k) == d.len(),
    decreases d.len(),
{
    if d.len() > 0 {
        let t = d + r;
        assert(t[0] == d[0]);
        let dd = d.drop_first();
        assert forall|i: int| 0 <= i < dd.len() implies DIGIT_0 <= #[trigger] dd[i] <= DIGIT_9 by {
            assert(dd[i] == d[i + 1]);
        }
        lemma_digit_run_exact(dd, r, (k - 1) as nat);
        assert(t.drop_first() =~= dd + r);
    } else {
        assert(d + r =~= r);
    }
}

/// `#`, one to three digits of value at most 255, then the end of the line
/// or a space and text with no marker: a header span over the line, of the
/// digits' level.
proof fn lemma_header_spans(d: Seq<u8>, r: Seq<u8>)
    requires
        1 <= d.len() <= 3,
        forall|i: int| 0 <= i < d.len() ==> DIGIT_0 <= #[trigger] d[i] <= DIGIT_9,
        decimal(d) <= 255,
        r.len() == 0 || r[0] == SPACE,
        forall|i: int| 0 <= i < r.len() ==> !interesting(#[trigger] r[i]) && r[i] != NEWLINE,
        d.len() + r.len() + 1 <= usize::MAX,
    ensures
        document_spans(seq![HASH] + d + r) == seq![
            SyntaxSpan { start: 0, end: (d.len() + r.len() + 1) as usize, kind: SyntaxKind::Header(decimal(d) as u8) },
        ],
{
    let text = seq![HASH] + d + r;
    let n = text.len() as int;
    let m = d.len() as int;
    assert forall|i: int| 1 <= i < n implies !interesting(#[trigger] text[i]) by {
        if i <= m {
            assert(text[i] == d[i - 1]);
        } else {
            assert(text[i] == r[i - m - 1]);
        }
    }
    assert forall|i: int| 0 <= i < text.len() implies #[trigger] text[i] != NEWLINE by {
        if 1 <= i <= m {
            assert(text[i] == d[i - 1]);
        } else if i > m {
            assert(text[i] == r[i - m - 1]);
        }
    }
    lemma_no_newlines(text, n);
    let nls = newlines(text);
    assert(nls == Seq::<usize>::empty());
    lemma_walk_skip(text, nls, 1, n);
    let w0 = walk_start(text, nls);
    assert(walk_upto(text, nls, 0) == w0);
    assert(text[0] == HASH);
    assert(walk_upto(text, nls, 1) == walk_step(w0, text, nls, 0));
    let w = walk_upto(text, nls, n);
    assert(w.run == Run { byte: HASH, start: 0, end: 1, len: 1 });
    assert(w.st == w0.st);
    assert(text[1] == d[0]);
    let after = text.subrange(1, n);
    assert(after =~= d + r);
    lemma_digit_run_exact(d, r, 3);
    assert(after.skip(m) =~= r);
    assert(after.take(m) =~= d);
    let st1 = resolve_marker(w0.st, text, HASH, 0, 1);
    assert(st1.spans =~= seq![
        SyntaxSpan { start: 0, end: n as usize, kind: SyntaxKind::Header(decimal(d) as u8) },
    ]);
}

/// The level of a header span `#N` is the decimal value of its one to three
/// digits, when at most 255: `#c` gives `c`, `#ab` gives `10a + b` and
/// `#abc` gives `100a + 10b + c`.
pub proof fn lemma_header_span_level(d: Seq<u8>, r: Seq<u8>)
    requires
        1 <= d.len() <= 3,
        forall|i: int| 0 <= i < d.len() ==> DIGIT_0 <= #[trigger] d[i] <= DIGIT_9,
        r.len() == 0 || r[0] == SPACE,
        forall|i: int| 0 <= i < r.len() ==> !interesting(#[trigger] r[i]) && r[i] != NEWLINE,
        d.len() + r.len() + 1 <= usize::MAX,
    ensures
        ({
            let spans = document_spans(seq![HASH] + d + r);
            let v = |i: int| d[i] - DIGIT_0;
            let end = (d.len() + r.len() + 1) as usize;
            &&& d.len() == 1 ==> spans == seq![(SyntaxSpan { start: 0, end, kind: SyntaxKind::Header(v(0) as u8) })]
            &&& d.len() == 2 ==> spans == seq![
                (SyntaxSpan { start: 0, end, kind: SyntaxKind::Header((10 * v(0) + v(1)) as u8) }),
            ]
            &&& d.len() == 3 && 100 * v(0) + 10 * v(1) + v(2) <= 255 ==> spans == seq![
                (SyntaxSpan { start: 0, end, kind: SyntaxKind::Header((100 * v(0) + 10 * v(1) + v(2)) as u8) }),
            ]
        }),
{
    let v = |i: int| d[i] - DIGIT_0;
    let e = Seq::<u8>::empty();
    assert(decimal(e) == 0);
    if d.len() == 1 {
        assert(d.drop_last() =~= e);
        assert(decimal(d) == decimal(e) * 10 + (d.last() - DIGIT_0) as nat);
        lemma_header_spans(d, r);
    } else if d.len() == 2 {
        let d1 = d.drop_last();
        assert(d1.drop_last() =~= e);
        assert(decimal(d1) == decimal(e) * 10 + (d1.last() - DIGIT_0) as nat);
        assert(decimal(d) == decimal(d1) * 10 + (d.last() - DIGIT_0) as nat);
        lemma_header_spans(d, r);
    } else {
        let d2 = d.drop_last();
        let d1 = d2.drop_last();
        assert(d1.drop_last() =~= e);
        assert(decimal(d1) == decimal(e) * 10 + (d1.last() - DIGIT_0) as nat);
        assert(decimal(d2) == decimal(d1) * 10 + (d2.last() - DIGIT_0) as nat);
        assert(decimal(d) == decimal(d2) * 10 + (d.last() - DIGIT_0) as nat);
        if 100 * v(0) + 10 * v(1) + v(2) <= 255 {
            lemma_header_spans(d, r);
        }
    }
}

/// A run of `k` bytes `b` at the start: the walk holds the run and nothing
/// else has happened.
proof fn lemma_walk_first_run(text: Seq<u8>, nls: Seq<usize>, b: u8, k: int)
    requires
        1 <= k <= text.len(),
        text.len() <= usize::MAX,
        interesting(b),
        b != 0,
        forall|i: int| 0 <= i < k ==> #[trigger] text[i] == b,
        nls == Seq::<usize>::empty(),
    ensures
        walk_upto(text, nls, k).st == walk_start(text, nls).st,
        walk_upto(text, nls, k).run == (Run { byte: b, start: 0, end: k as usize, len: k as usize }),
    decreases k,
{
    assert(text[k - 1] == b);
    if k > 1 {
        lemma_walk_first_run(text, nls, b, k - 1);
    } else {
        assert(walk_upto(text, nls, 0) == walk_start(text, nls));
    }
}

/// One line: a run of `m.len()` equal bytes of interest at its start, then
/// text with no byte of interest and no line break. Its spans are what
/// classifying that run gives, with an open line-close marker ended at the
/// end of the line.
proof fn lemma_single_run_line(m: Seq<u8>, u: Seq<u8>)
    requires
        m.len() > 0,
        interesting(m[0]),
        forall|i: int| 0 <= i < m.len() ==> #[trigger] m[i] == m[0],
        forall|i: int| 0 <= i < u.len() ==> !interesting(#[trigger] u[i]) && u[i] != NEWLINE,
        m.len() + u.len() <= usize::MAX,
    ensures
        ({
            let text = m + u;
            let s0 = walk_start(text, Seq::<usize>::empty()).st;
            let st1 = resolve_marker(s0, text, m[0], 0, m.len() as usize);
            &&& s0.line_start == 0
            &&& s0.line_end == text.len()
            &&& s0.spans == Seq::<SyntaxSpan>::empty()
            &&& s0.inline == Seq::<(SyntaxKind, usize)>::empty()
            &&& s0.blocks == Seq::<(SyntaxKind, usize)>::empty()
            &&& s0.pending is None
            &&& document_spans(text) == match st1.pending {
                Some((kind, open)) => st1.spans.push(SyntaxSpan { start: open, end: st1.line_end, kind }),
                None => st1.spans,
            }
        }),
{
    let text = m + u;
    let n = text.len() as int;
    let k = m.len() as int;
    let b = m[0];
    assert forall|i: int| k <= i < n implies !interesting(#[trigger] text[i]) by {
        assert(text[i] == u[i - k]);
    }
    assert forall|i: int| 0 <= i < text.len() implies #[trigger] text[i] != NEWLINE by {
        if i >= k {
            assert(text[i] == u[i - k]);
        } else {
            assert(text[i] == m[i]);
        }
    }
    assert forall|i: int| 0 <= i < k implies #[trigger] text[i] == b by {
        assert(text[i] == m[i]);
    }
    lemma_no_newlines(text, n);
    let nls = newlines(text);
    assert(nls == Seq::<usize>::empty());
    lemma_walk_first_run(text, nls, b, k);
    lemma_walk_skip(text, nls, k, n);
}

/// Lines whose only marker is at their start: `|` a table row, `#:` a tag,
/// `>` a quote, `---` alone a thematic break, and `%%`, `$$`, `!!`, `` `` ``
/// not followed by a space a comment, formula, spoiler or code line; each is
/// one span over the whole line.
pub proof fn lemma_line_marker_spans(m: Seq<u8>, u: Seq<u8>)
    requires
        m.len() > 0,
        forall|i: int| 0 <= i < u.len() ==> !interesting(#[trigger] u[i]) && u[i] != NEWLINE,
        m.len() + u.len() <= usize::MAX,
    ensures
        ({
            let spans = document_spans(m + u);
            let whole = |k: SyntaxKind| seq![(SyntaxSpan { start: 0, end: (m.len() + u.len()) as usize, kind: k })];
            &&& m == seq![PIPE] ==> spans == whole(SyntaxKind::TableRow)
            &&& m == seq![HASH] && u.len() > 0 && u[0] == COLON ==> spans == whole(SyntaxKind::Tag)
            &&& m == seq![GREATER] ==> spans == whole(SyntaxKind::Quote)
            &&& m == seq![MINUS, MINUS, MINUS] && u.len() == 0 ==> spans == whole(SyntaxKind::ThematicBreak)
            &&& m == seq![PERCENT, PERCENT] && (u.len() == 0 || u[0] != SPACE) ==> spans == whole(SyntaxKind::CommentLine)
            &&& m == seq![DOLLAR, DOLLAR] && (u.len() == 0 || u[0] != SPACE) ==> spans == whole(SyntaxKind::FormulaLine)
            &&& m == seq![BANG, BANG] && (u.len() == 0 || u[0] != SPACE) ==> spans == whole(SyntaxKind::SpoilerLine)
            &&& m == seq![BACKTICK, BACKTICK] && (u.len() == 0 || u[0] != SPACE) ==> spans == whole(SyntaxKind::CodeLine)
        }),
{
    let text = m + u;
    let n = text.len() as int;
    if m == seq![PIPE] || m == seq![HASH] || m == seq![GREATER] || m == seq![MINUS, MINUS, MINUS] || m == seq![
        PERCENT,
        PERCENT,
    ] || m == seq![DOLLAR, DOLLAR] || m == seq![BANG, BANG] || m == seq![BACKTICK, BACKTICK] {
        assert forall|i: int| 0 <= i < m.len() implies #[trigger] m[i] == m[0] by {}
        lemma_single_run_line(m, u);
        let k = m.len() as int;
        if u.len() > 0 {
            assert(text[k] == u[0]);
        }
        if m == seq![MINUS, MINUS, MINUS] && u.len() == 0 {
            assert(text.subrange(0, n) =~= m);
        }
    }
}

/// No `\n` in `[j, k)`: no line break is added there.
proof fn lemma_newlines_skip(text: Seq<u8>, j: int, k: int)
    requires
        0 <= j <= k <= text.len(),
        forall|i: int| j <= i < k ==> #[trigger] text[i] != NEWLINE,
    ensures
        newlines_upto(text, k) == newlines_upto(text, j),
    decreases k,
{
    if k > j {
        assert(text[k - 1] != NEWLINE);
        lemma_newlines_skip(text, j, k - 1);
    }
}

/// A block: its opening marker (`%%%`, `$$$`, `!!!`, `` ``` `` or `@@`)
/// alone on the first line, one line of text with no marker, and `}` alone
/// on the last line closing it. One span of the block's kind covers it all,
/// from the opening marker to the `}`.
#[verifier::spinoff_prover]
pub proof fn lemma_block_spans(m: Seq<u8>, u: Seq<u8>)
    requires
        m == seq![PERCENT, PERCENT, PERCENT] || m == seq![DOLLAR, DOLLAR, DOLLAR] || m == seq![BANG, BANG, BANG]
            || m == seq![BACKTICK, BACKTICK, BACKTICK] || m == seq![AT, AT],
        forall|i: int| 0 <= i < u.len() ==> !interesting(#[trigger] u[i]) && u[i] != NEWLINE,
        m.len() + u.len() + 3 <= usize::MAX,
    ensures
        ({
            let spans = document_spans(m + seq![NEWLINE] + u + seq![NEWLINE, RBRACE]);
            let whole = |k: SyntaxKind| seq![(SyntaxSpan { start: 0, end: (m.len() + u.len() + 3) as usize, kind: k })];
            &&& m[0] == PERCENT ==> spans == whole(SyntaxKind::CommentBlock)
            &&& m[0] == DOLLAR ==> spans == whole(SyntaxKind::FormulaBlock)
            &&& m[0] == BANG ==> spans == whole(SyntaxKind::SpoilerBlock)
            &&& m[0] == BACKTICK ==> spans == whole(SyntaxKind::CodeBlock)
            &&& m[0] == AT ==> spans == whole(SyntaxKind::Metadata)
        }),
{
    let text = m + seq![NEWLINE] + u + seq![NEWLINE, RBRACE];
    let n = text.len() as int;
    let k = m.len() as int;
    let b = m[0];
    assert forall|i: int| 0 <= i < k implies #[trigger] text[i] == b by {
        assert(text[i] == m[i]);
    }
    assert(text[k] == NEWLINE);
    assert(text[n - 2] == NEWLINE && text[n - 1] == RBRACE);
    assert forall|i: int| k < i < n - 2 implies !interesting(#[trigger] text[i]) && text[i] != NEWLINE by {
        assert(text[i] == u[i - k - 1]);
    }
    lemma_three_lines(text, k);
    let nls = newlines(text);
    assert(nls == seq![k as usize, (n - 2) as usize]);
    lemma_block_walk(text, b, k);
    let w2 = walk_upto(text, nls, n);
    let st2 = resolve_marker(w2.st, text, RBRACE, (n - 1) as usize, 1);
    lemma_block_close(w2.st, text, (n - 1) as usize);
    assert(st2.spans =~= seq![SyntaxSpan { start: 0, end: n as usize, kind: block_kind(b) }]);
}

/// The walk over a block of three lines: the block opened by the first
/// line is open on the last, where the run of the `}` waits.
#[verifier::spinoff_prover]
proof fn lemma_block_walk(text: Seq<u8>, b: u8, k: int)
    requires
        text.len() <= usize::MAX,
        (k == 3 && (b == PERCENT || b == DOLLAR || b == BANG || b == BACKTICK)) || (k == 2 && b == AT),
        k + 2 < text.len(),
        forall|i: int| 0 <= i < k ==> #[trigger] text[i] == b,
        forall|i: int| k < i < text.len() - 2 ==> !interesting(#[trigger] text[i]),
        text[k] == NEWLINE,
        text[text.len() - 2] == NEWLINE,
        text[text.len() - 1] == RBRACE,
        newlines(text) == seq![k as usize, (text.len() - 2) as usize],
    ensures
        ({
            let w = walk_upto(text, newlines(text), text.len() as int);
            &&& w.st.line_start == text.len() - 1
            &&& w.st.blocks == seq![(block_kind(b), 0usize)]
            &&& w.st.spans == Seq::<SyntaxSpan>::empty()
            &&& w.st.pending is None
            &&& w.run == (Run { byte: RBRACE, start: (text.len() - 1) as usize, end: text.len() as usize, len: 1 })
        }),
{
    let n = text.len() as int;
    let nls = newlines(text);
    let w0 = walk_start(text, nls);
    assert(w0.st.line_end == k);
    assert forall|i: int| k <= i < n - 1 implies !interesting(#[trigger] text[i]) by {
        if i == k || i == n - 2 {
            assert(text[i] == NEWLINE);
        }
    }
    lemma_walk_opening_run(text, nls, b, k);
    lemma_walk_skip(text, nls, k, n - 1);
    let wk = walk_upto(text, nls, n - 1);
    let st1 = resolve_marker(w0.st, text, b, 0, k as usize);
    lemma_block_open(w0.st, text, b, k as usize);
    let w1 = Walk { st: st1, run: Run { byte: RBRACE, start: (n - 1) as usize, end: n as usize, len: 1 }, ..wk };
    lemma_next_two_lines(w1, nls, n, st1);
    assert(walk_upto(text, nls, n) == walk_step(wk, text, nls, (n - 1) as usize));
}

/// An opening block marker at the start of its line opens the block.
proof fn lemma_block_open(s0: RState, text: Seq<u8>, b: u8, k: usize)
    requires
        s0.line_start == 0,
        (k == 3 && (b == PERCENT || b == DOLLAR || b == BANG || b == BACKTICK)) || (k == 2 && b == AT),
    ensures
        resolve_marker(s0, text, b, 0, k) == (RState { blocks: s0.blocks.push((block_kind(b), 0usize)), ..s0 }),
{
}

/// `}` at the start of its line closes the innermost block.
proof fn lemma_block_close(s: RState, text: Seq<u8>, p: usize)
    requires
        s.line_start == p,
        s.blocks.len() > 0,
        p + 1 <= usize::MAX,
    ensures
        resolve_marker(s, text, RBRACE, p, 1) == emit(
            RState { blocks: s.blocks.drop_last(), ..s },
            s.blocks.last().1,
            (p + 1) as usize,
            s.blocks.last().0,
        ),
{
}

/// Line breaks only at `k` and just before the last byte.
proof fn lemma_three_lines(text: Seq<u8>, k: int)
    requires
        0 <= k,
        k + 2 < text.len(),
        text.len() <= usize::MAX,
        text[k] == NEWLINE,
        text[text.len() - 2] == NEWLINE,
        text[text.len() - 1] != NEWLINE,
        forall|i: int| 0 <= i < k ==> #[trigger] text[i] != NEWLINE,
        forall|i: int| k < i < text.len() - 2 ==> #[trigger] text[i] != NEWLINE,
    ensures
        newlines(text) == seq![k as usize, (text.len() - 2) as usize],
{
    let n = text.len() as int;
    lemma_newlines_skip(text, 0, k);
    assert(newlines_upto(text, 0) == Seq::<usize>::empty());
    assert(newlines_upto(text, k + 1) =~= seq![k as usize]);
    lemma_newlines_skip(text, k + 1, n - 2);
    assert(newlines_upto(text, n - 1) =~= seq![k as usize, (n - 2) as usize]);
    assert(newlines_upto(text, n) == newlines_upto(text, n - 1));
}

/// From the first of three lines to the last: what the block opened stays,
/// the current line becomes the last one.
proof fn lemma_next_two_lines(w1: Walk, nls: Seq<usize>, n: int, st1: RState)
    requires
        nls.len() == 2,
        nls[0] + 1 < n - 1,
        nls[1] == n - 2,
        n <= usize::MAX,
        w1.line == 0,
        w1.st == st1,
        st1.pending is None,
    ensures
        next_lines(w1, nls, n as nat, (n - 1) as usize).st == (RState {
            line_start: (n - 1) as usize,
            line_end: n as usize,
            inline: seq![],
            ..st1
        }),
        next_lines(w1, nls, n as nat, (n - 1) as usize).run == w1.run,
{
    let wa = Walk {
        st: RState { line_start: (nls[0] + 1) as usize, line_end: nls[1], inline: seq![], ..st1 },
        line: 1,
        ..w1
    };
    assert(next_lines(w1, nls, n as nat, (n - 1) as usize) == next_lines(wa, nls, n as nat, (n - 1) as usize));
    let wb = Walk {
        st: RState { line_start: (n - 1) as usize, line_end: n as usize, inline: seq![], ..st1 },
        line: 2,
        ..w1
    };
    assert(next_lines(wa, nls, n as nat, (n - 1) as usize) == next_lines(wb, nls, n as nat, (n - 1) as usize));
    assert(next_lines(wb, nls, n as nat, (n - 1) as usize) == wb);
}

/// The opening run of a block: `k` bytes `b` from the start, walked.
proof fn lemma_walk_opening_run(text: Seq<u8>, nls: Seq<usize>, b: u8, k: int)
    requires
        1 <= k <= text.len(),
        text.len() <= usize::MAX,
        interesting(b),
        forall|i: int| 0 <= i < k ==> #[trigger] text[i] == b,
        nls.len() > 0,
        nls[0] >= k,
    ensures
        walk_upto(text, nls, k).st == walk_start(text, nls).st,
        walk_upto(text, nls, k).run == (Run { byte: b, start: 0, end: k as usize, len: k as usize }),
        walk_upto(text, nls, k).line == 0,
    decreases k,
{
    assert(text[k - 1] == b);
    if k > 1 {
        lemma_walk_opening_run(text, nls, b, k - 1);
    } else {
        assert(walk_upto(text, nls, 0) == walk_start(text, nls));
    }
}

/// A one-byte inline marker, text, then `))` closing it: one span of the
/// marker's kind over all of it, and nothing else. `$` inline formula, `%`
/// inline comment, `!` inline spoiler, `` ` `` inline code. The text is one
/// line with no other marker, and neither starts nor ends with a space.
pub proof fn lemma_inline_single_spans(c: u8, u: Seq<u8>)
    requires
        c == DOLLAR || c == PERCENT || c == BANG || c == BACKTICK,
        u.len() > 0,
        u[0] != SPACE,
        u.last() != SPACE,
        forall|i: int| 0 <= i < u.len() ==> !interesting(#[trigger] u[i]) && u[i] != NEWLINE,
        u.len() + 3 <= usize::MAX,
    ensures
        ({
            let spans = document_spans(seq![c] + u + seq![RPAREN, RPAREN]);
            let one = |k: SyntaxKind| seq![(SyntaxSpan { start: 0, end: (u.len() + 3) as usize, kind: k })];
            &&& c == DOLLAR ==> spans == one(SyntaxKind::FormulaInline)
            &&& c == PERCENT ==> spans == one(SyntaxKind::CommentInline)
            &&& c == BANG ==> spans == one(SyntaxKind::SpoilerInline)
            &&& c == BACKTICK ==> spans == one(SyntaxKind::CodeInline)
        }),
{
    let text = seq![c] + u + seq![RPAREN, RPAREN];
    let n = text.len() as int;
    assert forall|i: int| 1 <= i < n - 2 implies !interesting(#[trigger] text[i]) by {
        assert(text[i] == u[i - 1]);
    }
    assert forall|i: int| 0 <= i < text.len() implies #[trigger] text[i] != NEWLINE by {
        if 1 <= i < n - 2 {
            assert(text[i] == u[i - 1]);
        }
    }
    lemma_no_newlines(text, n);
    let nls = newlines(text);
    assert(nls == Seq::<usize>::empty());
    let w0 = walk_start(text, nls);
    assert(walk_upto(text, nls, 0) == w0);
    assert(text[0] == c && text[1] == u[0]);
    assert(text[n - 3] == u.last());
    assert(text[n - 2] == RPAREN && text[n - 1] == RPAREN);
    let w1 = walk_upto(text, nls, 1);
    assert(w1 == walk_step(w0, text, nls, 0));
    assert(w1.run == Run { byte: c, start: 0, end: 1, len: 1 });
    assert(w1.st == w0.st);
    lemma_walk_skip(text, nls, 1, n - 2);
    let w3 = walk_upto(text, nls, n - 1);
    assert(w3 == walk_step(w1, text, nls, (n - 2) as usize));
    let st1 = resolve_marker(w0.st, text, c, 0, 1);
    assert(st1.inline == seq![(inline1_kind(c)->0, 0usize)]);
    assert(st1.spans == Seq::<SyntaxSpan>::empty());
    assert(w3.st == st1);
    let w4 = walk_upto(text, nls, n);
    assert(w4 == walk_step(w3, text, nls, (n - 1) as usize));
    assert(w4.run == Run { byte: RPAREN, start: (n - 2) as usize, end: n as usize, len: 2 });
    assert(w4.st == st1);
    assert(st1.inline.drop_last() =~= Seq::<(SyntaxKind, usize)>::empty());
    assert(close_all_inline(st1.inline.drop_last(), n as usize) =~= Seq::<SyntaxSpan>::empty());
    assert(close_all_inline(st1.inline, n as usize) =~= seq![
        SyntaxSpan { start: 0, end: n as usize, kind: inline1_kind(c)->0 },
    ]);
}

/// `N; text`: digits from the start of the line, `;` and a space: a list
/// item span over the whole line, and nothing else.
pub proof fn lemma_semicolon_list_spans(d: Seq<u8>, u: Seq<u8>)
    requires
        d.len() > 0,
        forall|i: int| 0 <= i < d.len() ==> DIGIT_0 <= #[trigger] d[i] <= DIGIT_9,
        forall|i: int| 0 <= i < u.len() ==> !interesting(#[trigger] u[i]) && u[i] != NEWLINE,
        d.len() + u.len() + 2 <= usize::MAX,
    ensures
        document_spans(d + seq![SEMICOLON, SPACE] + u) == seq![
            SyntaxSpan { start: 0, end: (d.len() + u.len() + 2) as usize, kind: SyntaxKind::ListItem },
        ],
{
    let text = d + seq![SEMICOLON, SPACE] + u;
    let n = text.len() as int;
    let k = d.len() as int;
    assert forall|i: int| 0 <= i < k implies !interesting(#[trigger] text[i]) && text[i] != NEWLINE && is_digit_byte(text[i]) by {
        assert(text[i] == d[i]);
    }
    assert forall|i: int| k + 1 <= i < n implies !interesting(#[trigger] text[i]) by {
        if i > k + 1 {
            assert(text[i] == u[i - k - 2]);
        }
    }
    assert forall|i: int| 0 <= i < text.len() implies #[trigger] text[i] != NEWLINE by {
        if i < k {
            assert(text[i] == d[i]);
        } else if i > k + 1 {
            assert(text[i] == u[i - k - 2]);
        }
    }
    assert(text[k] == SEMICOLON && text[k + 1] == SPACE);
    lemma_no_newlines(text, n);
    let nls = newlines(text);
    assert(nls == Seq::<usize>::empty());
    let w0 = walk_start(text, nls);
    lemma_walk_skip(text, nls, 0, k);
    assert(walk_upto(text, nls, 0) == w0);
    let wk = walk_upto(text, nls, k + 1);
    assert(wk == walk_step(w0, text, nls, k as usize));
    assert(wk.st == w0.st);
    assert(wk.run == Run { byte: SEMICOLON, start: k as usize, end: (k + 1) as usize, len: 1 });
    lemma_walk_skip(text, nls, k + 1, n);
    let st1 = resolve_marker(w0.st, text, SEMICOLON, k as usize, 1);
    assert(st1.spans =~= seq![SyntaxSpan { start: 0, end: n as usize, kind: SyntaxKind::ListItem }]);
}

/// A line-close marker (`%%`, `$$`, `!!`, `` `` ``) at the start of the
/// line, text, then `}` closing it: one span of the marker's kind up to and
/// with the `}`. The text has no other marker and neither starts nor ends
/// with a space.
pub proof fn lemma_line_close_spans(c: u8, u: Seq<u8>)
    requires
        c == PERCENT || c == DOLLAR || c == BANG || c == BACKTICK,
        u.len() > 0,
        u[0] != SPACE,
        u.last() != SPACE,
        forall|i: int| 0 <= i < u.len() ==> !interesting(#[trigger] u[i]) && u[i] != NEWLINE,
        u.len() + 3 <= usize::MAX,
    ensures
        ({
            let spans = document_spans(seq![c, c] + u + seq![RBRACE]);
            let one = |k: SyntaxKind| seq![(SyntaxSpan { start: 0, end: (u.len() + 3) as usize, kind: k })];
            &&& c == PERCENT ==> spans == one(SyntaxKind::CommentLine)
            &&& c == DOLLAR ==> spans == one(SyntaxKind::FormulaLine)
            &&& c == BANG ==> spans == one(SyntaxKind::SpoilerLine)
            &&& c == BACKTICK ==> spans == one(SyntaxKind::CodeLine)
        }),
{
    let text = seq![c, c] + u + seq![RBRACE];
    let n = text.len() as int;
    assert forall|i: int| 2 <= i < n - 1 implies !interesting(#[trigger] text[i]) by {
        assert(text[i] == u[i - 2]);
    }
    assert forall|i: int| 0 <= i < text.len() implies #[trigger] text[i] != NEWLINE by {
        if 2 <= i < n - 1 {
            assert(text[i] == u[i - 2]);
        }
    }
    lemma_no_newlines(text, n);
    let nls = newlines(text);
    assert(nls == Seq::<usize>::empty());
    let w0 = walk_start(text, nls);
    assert(walk_upto(text, nls, 0) == w0);
    assert(text[0] == c && text[1] == c && text[2] == u[0]);
    assert(text[n - 2] == u.last());
    assert(text[n - 1] == RBRACE);
    let w1 = walk_upto(text, nls, 1);
    assert(w1 == walk_step(w0, text, nls, 0));
    let w2 = walk_upto(text, nls, 2);
    assert(w2 == walk_step(w1, text, nls, 1));
    assert(w2.run == Run { byte: c, start: 0, end: 2, len: 2 });
    assert(w2.st == w0.st);
    lemma_walk_skip(text, nls, 2, n - 1);
    let w3 = walk_upto(text, nls, n);
    assert(w3 == walk_step(w2, text, nls, (n - 1) as usize));
    let st1 = resolve_marker(w0.st, text, c, 0, 2);
    assert(st1.pending == Some((line_close_kind(c), 0usize)));
    assert(st1.spans == Seq::<SyntaxSpan>::empty());
    assert(w3.st == st1);
    assert(w3.run == Run { byte: RBRACE, start: (n - 1) as usize, end: n as usize, len: 1 });
    let st2 = resolve_marker(st1, text, RBRACE, (n - 1) as usize, 1);
    assert(st2.spans =~= seq![SyntaxSpan { start: 0, end: n as usize, kind: line_close_kind(c) }]);
    assert(st2.pending is None);
}

/// An inline marker needs its text next to it: a doubled marker followed
/// by a space, or `))` preceded by one, makes no span. The text is one line
/// with no other marker.
pub proof fn lemma_inline_pair_needs_contact(c: u8, u: Seq<u8>, space_after_open: bool)
    requires
        c == STAR || c == SLASH || c == UNDERSCORE || c == TILDE || c == EQUALS || c == PLUS || c == MINUS || c
            == APOSTROPHE || c == COMMA,
        u.len() > 0,
        space_after_open ==> u[0] == SPACE,
        !space_after_open ==> u.last() == SPACE,
        forall|i: int| 0 <= i < u.len() ==> !interesting(#[trigger] u[i]) && u[i] != NEWLINE,
        u.len() + 4 <= usize::MAX,
    ensures
        document_spans(seq![c, c] + u + seq![RPAREN, RPAREN]) == Seq::<SyntaxSpan>::empty(),
{
    let text = seq![c, c] + u + seq![RPAREN, RPAREN];
    let n = text.len() as int;
    assert forall|i: int| 2 <= i < n - 2 implies !interesting(#[trigger] text[i]) by {
        assert(text[i] == u[i - 2]);
    }
    assert forall|i: int| 0 <= i < text.len() implies #[trigger] text[i] != NEWLINE by {
        if 2 <= i < n - 2 {
            assert(text[i] == u[i - 2]);
        }
    }
    lemma_no_newlines(text, n);
    let nls = newlines(text);
    assert(nls == Seq::<usize>::empty());
    let w0 = walk_start(text, nls);
    assert(walk_upto(text, nls, 0) == w0);
    assert(text[0] == c && text[1] == c && text[2] == u[0]);
    assert(text[n - 3] == u.last());
    assert(text[n - 2] == RPAREN && text[n - 1] == RPAREN);
    let w1 = walk_upto(text, nls, 1);
    assert(w1 == walk_step(w0, text, nls, 0));
    let w2 = walk_upto(text, nls, 2);
    assert(w2 == walk_step(w1, text, nls, 1));
    assert(w2.run == Run { byte: c, start: 0, end: 2, len: 2 });
    assert(w2.st == w0.st);
    lemma_walk_skip(text, nls, 2, n - 2);
    let w3 = walk_upto(text, nls, n - 1);
    assert(w3 == walk_step(w2, text, nls, (n - 2) as usize));
    let st1 = resolve_marker(w0.st, text, c, 0, 2);
    assert(st1.spans == Seq::<SyntaxSpan>::empty());
    assert(space_after_open ==> st1.inline == Seq::<(SyntaxKind, usize)>::empty());
    assert(w3.st == st1);
    let w4 = walk_upto(text, nls, n);
    assert(w4 == walk_step(w3, text, nls, (n - 1) as usize));
    assert(w4.run == Run { byte: RPAREN, start: (n - 2) as usize, end: n as usize, len: 2 });
    assert(w4.st == st1);
    let st2 = resolve_marker(st1, text, RPAREN, (n - 2) as usize, 2);
    assert(st2.spans == Seq::<SyntaxSpan>::empty());
    assert(st2.pending is None);
}

// ─── Implementation ──────────────────────────────────────────

/// The bytes of interest of stage 2, as a list for the scan.
pub fn interesting_bytes() -> (r: Vec<u8>)
    ensures
        forall|b: u8| #[trigger] r@.contains(b) <==> interesting(b),
{
    let r = vec![
        STAR, SLASH, UNDERSCORE, TILDE, EQUALS, PLUS, MINUS, APOSTROPHE, COMMA, DOLLAR, PERCENT, BANG,
        HASH, GREATER, PIPE, SEMICOLON, RPAREN, RBRACE, AT, BACKTICK,
    ];
    proof {
        let s = r@;
        assert forall|b: u8| #[trigger] s.contains(b) <==> interesting(b) by {
            if s.contains(b) {
                let i = choose|i: int| 0 <= i < s.len() && #[trigger] s[i] == b;
                assert(interesting(s[i]));
            }
            if interesting(b) {
                if b == STAR { assert(s[0] == b); }
                else if b == SLASH { assert(s[1] == b); }
                else if b == UNDERSCORE { assert(s[2] == b); }
                else if b == TILDE { assert(s[3] == b); }
                else if b == EQUALS { assert(s[4] == b); }
                else if b == PLUS { assert(s[5] == b); }
                else if b == MINUS { assert(s[6] == b); }
                else if b == APOSTROPHE { assert(s[7] == b); }
                else if b == COMMA { assert(s[8] == b); }
                else if b == DOLLAR { assert(s[9] == b); }
                else if b == PERCENT { assert(s[10] == b); }
                else if b == BANG { assert(s[11] == b); }
                else if b == HASH { assert(s[12] == b); }
                else if b == GREATER { assert(s[13] == b); }
                else if b == PIPE { assert(s[14] == b); }
                else if b == SEMICOLON { assert(s[15] == b); }
                else if b == RPAREN { assert(s[16] == b); }
                else if b == RBRACE { assert(s[17] == b); }
                else if b == AT { assert(s[18] == b); }
                else { assert(s[19] == b); }
            }
        }
    }
    r
}

/// Run accumulator: joins equal adjacent bytes into one marker.
struct MarkerAccumulator {
    byte: u8,
    start: usize,
    end: usize,
    len: usize,
}

impl MarkerAccumulator {
    spec fn model(&self) -> Run {
        Run { byte: self.byte, start: self.start, end: self.end, len: self.len }
    }

    fn new() -> (m: Self)
        ensures
            m.model() == (Run { byte: 0, start: 0, end: 0, len: 0 }),
    {
        MarkerAccumulator { byte: 0, start: 0, end: 0, len: 0 }
    }

    /// Extends the run with `byte` at `pos` when it continues it.
    fn push(&mut self, byte: u8, pos: usize) -> (r: bool)
        requires
            old(self).len < usize::MAX,
            old(self).end < usize::MAX,
        ensures
            r == (pos == old(self).end && byte == old(self).byte),
            r ==> final(self).model() == (Run {
                len: (old(self).len + 1) as usize,
                end: (old(self).end + 1) as usize,
                ..old(self).model()
            }),
            !r ==> final(self).model() == old(self).model(),
    {
        if pos == self.end && byte == self.byte {
            self.len += 1;
            self.end += 1;
            true
        } else {
            false
        }
    }

    /// Starts a new run.
    fn start_new(&mut self, byte: u8, pos: usize)
        requires
            pos < usize::MAX,
        ensures
            final(self).model() == (Run { byte, start: pos, end: (pos + 1) as usize, len: 1 }),
    {
        self.byte = byte;
        self.start = pos;
        self.end = pos + 1;
        self.len = 1;
    }
}

/// The `\n` positions are the positions of the single target `\n`.
proof fn lemma_newline_targets(text: Seq<u8>, k: int)
    requires
        0 <= k <= text.len(),
    ensures
        target_positions(text, seq![NEWLINE], k) == newlines_upto(text, k),
    decreases k,
{
    if k > 0 {
        lemma_newline_targets(text, k - 1);
        assert(seq![NEWLINE].contains(text[k - 1]) <==> text[k - 1] == NEWLINE) by {
            if text[k - 1] == NEWLINE {
                assert(seq![NEWLINE][0] == text[k - 1]);
            }
        }
    }
}

/// Positions of the `\n` bytes, from the scan's masks.
fn newline_positions(text: &[u8]) -> (r: Vec<usize>)
    ensures
        r@ == newlines(text@),
{
    let targets = [NEWLINE];
    let r = positions_of(text, targets.as_slice());
    proof {
        assert(targets@ =~= seq![NEWLINE]);
        lemma_newline_targets(text@, text@.len() as int);
    }
    r
}

/// Facts about the positions of the targets below `k`: they increase, each
/// holds a target, and every target below `k` is among them.
proof fn lemma_target_positions(text: Seq<u8>, targets: Seq<u8>, k: int)
    requires
        0 <= k <= text.len() <= usize::MAX,
    ensures
        forall|i: int, j: int|
            0 <= i < j < target_positions(text, targets, k).len() ==> target_positions(text, targets, k)[i]
                < target_positions(text, targets, k)[j],
        forall|i: int|
            0 <= i < target_positions(text, targets, k).len() ==> #[trigger] target_positions(text, targets, k)[i]
                < k && targets.contains(text[target_positions(text, targets, k)[i] as int]),
        forall|q: int|
            0 <= q < k && targets.contains(#[trigger] text[q]) ==> exists|i: int|
                0 <= i < target_positions(text, targets, k).len() && target_positions(text, targets, k)[i] == q,
    decreases k,
{
    if k > 0 {
        lemma_target_positions(text, targets, k - 1);
        let s = target_positions(text, targets, k - 1);
        if targets.contains(text[k - 1]) {
            let t = s.push((k - 1) as usize);
            assert(target_positions(text, targets, k) == t);
            assert forall|q: int| 0 <= q < k && targets.contains(#[trigger] text[q]) implies exists|i: int|
                0 <= i < t.len() && t[i] == q by {
                if q == k - 1 {
                    assert(t[s.len() as int] == q);
                } else {
                    assert(q < k - 1);
                    let i = choose|i: int| 0 <= i < s.len() && s[i] == q;
                    assert(t[i] == q);
                }
            }
        } else {
            assert(target_positions(text, targets, k) == s);
            assert forall|q: int| 0 <= q < k && targets.contains(#[trigger] text[q]) implies exists|i: int|
                0 <= i < s.len() && s[i] == q by {
                assert(q < k - 1);
            }
        }
    }
}

/// Without a byte of interest in `[lo, hi)`, the walk does not move.
proof fn lemma_walk_gap(text: Seq<u8>, nls: Seq<usize>, lo: int, hi: int)
    requires
        0 <= lo <= hi <= text.len(),
        forall|p: int| lo <= p < hi ==> !interesting(#[trigger] text[p]),
    ensures
        walk_upto(text, nls, hi) == walk_upto(text, nls, lo),
    decreases hi - lo,
{
    if hi > lo {
        lemma_walk_gap(text, nls, lo, hi - 1);
    }
}

/// Facts about the `\n` positions: increasing, inside the text, on `\n` bytes.
pub open spec fn newline_map(text: Seq<u8>, nls: Seq<usize>) -> bool {
    &&& forall|i: int, j: int| 0 <= i < j < nls.len() ==> nls[i] < nls[j]
    &&& forall|i: int| 0 <= i < nls.len() ==> #[trigger] nls[i] < text.len() && text[nls[i] as int] == NEWLINE
}

proof fn lemma_newlines_upto(text: Seq<u8>, k: int)
    requires
        0 <= k <= text.len() <= usize::MAX,
    ensures
        newline_map(text, newlines_upto(text, k)),
        forall|i: int| 0 <= i < newlines_upto(text, k).len() ==> #[trigger] newlines_upto(text, k)[i] < k,
    decreases k,
{
    if k > 0 {
        lemma_newlines_upto(text, k - 1);
        let p = newlines_upto(text, k - 1);
        let q = newlines_upto(text, k);
        if text[k - 1] == NEWLINE {
            assert(q == p.push((k - 1) as usize));
            assert forall|i: int, j: int| 0 <= i < j < q.len() implies q[i] < q[j] by {
                assert(q[i] == p[i]);
                if j == q.len() - 1 {
                    assert(p[i] < k - 1);
                } else {
                    assert(q[j] == p[j]);
                }
            }
            assert forall|i: int| 0 <= i < q.len() implies #[trigger] q[i] < text.len() && text[q[i] as int] == NEWLINE by {
                if i < p.len() {
                    assert(q[i] == p[i]);
                }
            }
        }
    }
}

/// The walk state of the implementation, as a mathematical value.
spec fn walk_of(state: &ResolveState, marker: &MarkerAccumulator, line: usize) -> Walk {
    Walk { st: state.model(), run: marker.model(), line: line as nat }
}

/// Invariant of stage 2 at position `pos`: the current line is line `line`
/// of the map, and the run being gathered lies on it, before `pos`.
spec fn walk_wf(text: Seq<u8>, nls: Seq<usize>, state: &ResolveState, marker: &MarkerAccumulator, line: usize, pos: usize) -> bool {
    &&& text.len() <= usize::MAX
    &&& newline_map(text, nls)
    &&& state.text@ == text
    &&& line <= nls.len()
    &&& state.line_end == if line < nls.len() { nls[line as int] } else { text.len() as usize }
    &&& state.line_start == if line == 0 { 0 } else { (nls[line - 1] + 1) as usize }
    &&& state.line_start <= pos
    &&& marker.len > 0 ==> {
        &&& state.line_start <= marker.start
        &&& marker.end == marker.start + marker.len
        &&& marker.end <= pos
        &&& marker.end <= state.line_end
    }
    &&& marker.len == 0 ==> marker.byte == 0 && marker.end == 0
}

/// A line of the map holds no `\n` between its start and its end.
proof fn lemma_line_no_newline(text: Seq<u8>, line: int)
    requires
        text.len() <= usize::MAX,
        0 <= line <= newlines(text).len(),
    ensures
        no_newline_in(
            text,
            if line == 0 { 0 } else { newlines(text)[line - 1] + 1 },
            if line < newlines(text).len() { newlines(text)[line] as int } else { text.len() as int },
        ),
{
    lemma_line_map_exact(text);
    let nls = newlines(text);
    let a = if line == 0 { 0 } else { nls[line - 1] + 1 };
    let b = if line < nls.len() { nls[line] as int } else { text.len() as int };
    assert forall|q: int| a <= q < b implies text[q] != NEWLINE by {
        if text[q] == NEWLINE {
            let i = choose|i: int| 0 <= i < nls.len() && nls[i] == q;
            if i < line - 1 {
                assert(nls[i] < nls[line - 1]);
            }
            if i > line && line < nls.len() {
                assert(nls[line] < nls[i]);
            }
        }
    }
}

/// Parses a document: `(positions of the \n bytes, syntax spans)`.
#[verifier::rlimit(60)]
pub(crate) fn parse_document(text: &[u8]) -> (r: (Vec<usize>, Vec<SyntaxSpan>))
    ensures
        r.0@ == newlines(text@),
        r.1@ == document_spans(text@),
        spans_within(r.1@, text@.len() as int),
        inline_spans_in_line(r.1@, text@),
{
    let n = text.len();
    // Stage 1: the line map.
    let nls = newline_positions(text);
    proof {
        lemma_newlines_upto(text@, text@.len() as int);
    }
    // Stage 2: the grammar over known lines.
    let mut state = ResolveState::new(text);
    state.line_end = if nls.len() > 0 { nls[0] } else { text.len() };
    let mut line_index: usize = 0;
    let mut marker = MarkerAccumulator::new();
    let targets = interesting_bytes();
    let events = positions_of(text, targets.as_slice());
    proof {
        lemma_target_positions(text@, targets@, text@.len() as int);
    }
    let mut e: usize = 0;
    let mut next: usize = 0;
    assert(walk_of(&state, &marker, line_index) == walk_upto(text@, nls@, 0));
    while e < events.len()
        invariant
            events@ == target_positions(text@, targets@, text@.len() as int),
            forall|b: u8| #[trigger] targets@.contains(b) <==> interesting(b),
            forall|i: int, j: int| 0 <= i < j < events@.len() ==> events@[i] < events@[j],
            forall|i: int| 0 <= i < events@.len() ==> #[trigger] events@[i] < text@.len() && interesting(text@[events@[i] as int]),
            forall|q: int| 0 <= q < text@.len() && targets@.contains(#[trigger] text@[q]) ==> exists|i: int|
                0 <= i < events@.len() && events@[i] == q,
            e <= events@.len(),
            next == (if e == 0 { 0 } else { events@[e - 1] + 1 }),
            next <= text@.len(),
            nls@ == newlines(text@),
            walk_wf(text@, nls@, &state, &marker, line_index, next),
            walk_of(&state, &marker, line_index) == walk_upto(text@, nls@, next as int),
            positions_ok(state.model(), text@.len() as int, marker.start as int),
            lines_ok(state.model(), text@),
            marker.start <= next,
        decreases events@.len() - e,
    {
        let pos = events[e];
        proof {
            assert forall|q: int| next <= q < pos implies !interesting(#[trigger] text@[q]) by {
                if interesting(text@[q]) {
                    assert(targets@.contains(text@[q]));
                    let i = choose|i: int| 0 <= i < events@.len() && events@[i] == q;
                    if i < e {
                        if e > 0 && i < e - 1 {
                            assert(events@[i] < events@[e - 1]);
                        }
                    } else if i > e {
                        assert(events@[e as int] < events@[i]);
                    }
                }
            }
            lemma_walk_gap(text@, nls@, next as int, pos as int);
        }
        let byte = text[pos];
        let ghost w0 = walk_of(&state, &marker, line_index);
        if !marker.push(byte, pos) {
            if marker.len > 0 {
                proof {
                    if line_index < nls@.len() {
                        assert(nls@[line_index as int] < text@.len());
                        if line_index > 0 {
                            assert(nls@[line_index - 1] < nls@[line_index as int]);
                        }
                    } else if line_index > 0 {
                        assert(nls@[line_index - 1] < text@.len());
                    }
                    lemma_resolve_within(state.model(), text@, marker.byte, marker.start, marker.len);
                    lemma_line_no_newline(text@, line_index as int);
                    lemma_resolve_lines(state.model(), text@, marker.byte, marker.start, marker.len);
                }
                process_marker(&mut state, marker.byte, marker.start, marker.len);
            }
            marker.start_new(byte, pos);
        } else {
            proof {
                if state.line_end < text@.len() {
                    assert(text@[state.line_end as int] == NEWLINE);
                }
            }
        }
        let ghost w1 = walk_of(&state, &marker, line_index);
        assert(pos < state.line_end || pos > state.line_end) by {
            if state.line_end < text@.len() {
                assert(text@[state.line_end as int] == NEWLINE);
            }
        }
        if pos > state.line_end {
            while line_index < nls.len() && pos > nls[line_index]
                invariant
                    pos < text@.len(),
                    nls@ == newlines(text@),
                    newline_map(text@, nls@),
                    state.text@ == text@,
                    line_index <= nls@.len(),
                    state.line_end == if line_index < nls@.len() { nls@[line_index as int] } else { text@.len() as usize },
                    line_index > 0 ==> nls@[line_index - 1] < pos,
                    state.line_start == if line_index == 0 { 0 } else { (nls@[line_index - 1] + 1) as usize },
                    marker.len == 1,
                    marker.start == pos,
                    marker.end == pos + 1,
                    positions_ok(state.model(), text@.len() as int, pos as int),
                    lines_ok(state.model(), text@),
                    next_lines(walk_of(&state, &marker, line_index), nls@, text@.len(), pos)
                        == next_lines(w1, nls@, text@.len(), pos),
                decreases nls@.len() - line_index,
            {
                let nl = nls[line_index];
                match state.pending_line_close {
                    Some((kind, open_position)) => {
                        state.pending_line_close = None;
                        state.emit(SyntaxSpan { start: open_position, end: nl, kind });
                    },
                    None => {},
                }
                line_index += 1;
                state.line_start = nl + 1;
                state.line_end = if line_index < nls.len() { nls[line_index] } else { text.len() };
                state.inline_stack.clear();
                assert(state.inline_stack@ =~= seq![]);
            }
            proof {
                if line_index < nls@.len() {
                    assert(text@[nls@[line_index as int] as int] == NEWLINE);
                }
            }
        }
        next = pos + 1;
        e += 1;
    }
    proof {
        assert forall|q: int| next <= q < text@.len() implies !interesting(#[trigger] text@[q]) by {
            if interesting(text@[q]) {
                assert(targets@.contains(text@[q]));
                let i = choose|i: int| 0 <= i < events@.len() && events@[i] == q;
                if e > 0 && i < e - 1 {
                    assert(events@[i] < events@[e - 1]);
                }
            }
        }
        lemma_walk_gap(text@, nls@, next as int, text@.len() as int);
    }
    if marker.len > 0 {
        proof {
            if line_index < nls@.len() {
                assert(nls@[line_index as int] < text@.len());
                if line_index > 0 {
                    assert(nls@[line_index - 1] < nls@[line_index as int]);
                }
            } else if line_index > 0 {
                assert(nls@[line_index - 1] < text@.len());
            }
            lemma_resolve_within(state.model(), text@, marker.byte, marker.start, marker.len);
            lemma_line_no_newline(text@, line_index as int);
            lemma_resolve_lines(state.model(), text@, marker.byte, marker.start, marker.len);
        }
        process_marker(&mut state, marker.byte, marker.start, marker.len);
    }
    proof {
        if line_index < nls@.len() {
            assert(nls@[line_index as int] < text@.len());
        }
    }
    match state.pending_line_close {
        Some((kind, open_position)) => {
            state.pending_line_close = None;
            let end = state.line_end;
            state.emit(SyntaxSpan { start: open_position, end, kind });
        },
        None => {},
    }
    (nls, state.spans)
}

/// The engine: revision, line map and spans of the last parsed buffer. The
/// editor owns the text and hands every new buffer to `reparse`.
#[derive(Debug, Clone)]
pub struct Engine {
    /// Version of the document.
    pub revision: u64,
    /// Line map.
    pub line_map: LineMap,
    /// Span graph (the engine's only copy of the spans).
    pub dependencies: DependencyGraph,
}

impl Engine {
    /// The engine holds exactly what parsing `text` gives.
    pub open spec fn holds(&self, text: Seq<u8>) -> bool {
        &&& self.line_map.newline_positions@ == newlines(text)
        &&& self.dependencies.view_spans() == document_spans(text)
    }

    /// Parses a whole document (revision 0).
    pub fn parse(text: &[u8]) -> (e: Self)
        ensures
            e.revision == 0,
            e.holds(text@),
            spans_within(e.dependencies.view_spans(), text@.len() as int),
            inline_spans_in_line(e.dependencies.view_spans(), text@),
    {
        let (newline_positions, spans) = parse_document(text);
        Engine {
            revision: 0,
            line_map: LineMap::new(newline_positions),
            dependencies: DependencyGraph::new(spans),
        }
    }

    /// Parses the new buffer of the editor; the revision goes up by one.
    pub fn reparse(&mut self, text: &[u8]) -> (r: &[SyntaxSpan])
        requires
            old(self).revision < u64::MAX,
        ensures
            final(self).revision == old(self).revision + 1,
            final(self).holds(text@),
            r@ == document_spans(text@),
            spans_within(r@, text@.len() as int),
            inline_spans_in_line(r@, text@),
    {
        self.revision = self.revision + 1;
        let (newline_positions, spans) = parse_document(text);
        self.line_map = LineMap::new(newline_positions);
        self.dependencies = DependencyGraph::new(spans);
        self.dependencies.spans()
    }

    /// Syntax spans, in order of creation.
    pub fn spans(&self) -> (r: &[SyntaxSpan])
        ensures
            r@ == self.dependencies.view_spans(),
    {
        self.dependencies.spans()
    }

    /// Line number of a byte offset.
    pub fn line_at(&self, byte: usize) -> (r: usize)
        ensures
            r == count_below(self.line_map.newline_positions@, byte) || !increasing(self.line_map.newline_positions@),
    {
        self.line_map.line_at(byte)
    }
}

/// Parsing is a function of the buffer alone: two engines that hold the
/// same text have the same line map and the same spans, whatever they held
/// before.
pub proof fn lemma_engine_deterministic(e1: Engine, e2: Engine, text: Seq<u8>)
    requires
        e1.holds(text),
        e2.holds(text),
    ensures
        e1.line_map.newline_positions@ == e2.line_map.newline_positions@,
        e1.dependencies.view_spans() == e2.dependencies.view_spans(),
{
}

/// The line map lists every `\n` of the text and nothing else, in
/// increasing order.
pub proof fn lemma_line_map_exact(text: Seq<u8>)
    requires
        text.len() <= usize::MAX,
    ensures
        forall|i: int, j: int| 0 <= i < j < newlines(text).len() ==> newlines(text)[i] < newlines(text)[j],
        forall|i: int| 0 <= i < newlines(text).len() ==> #[trigger] newlines(text)[i] < text.len()
            && text[newlines(text)[i] as int] == NEWLINE,
        forall|p: int| 0 <= p < text.len() && #[trigger] text[p] == NEWLINE ==> exists|i: int|
            0 <= i < newlines(text).len() && newlines(text)[i] == p,
{
    lemma_newlines_upto(text, text.len() as int);
    lemma_newline_targets(text, text.len() as int);
    lemma_target_positions(text, seq![NEWLINE], text.len() as int);
    assert forall|p: int| 0 <= p < text.len() && #[trigger] text[p] == NEWLINE implies exists|i: int|
        0 <= i < newlines(text).len() && newlines(text)[i] == p by {
        assert(seq![NEWLINE][0] == text[p]);
        assert(seq![NEWLINE].contains(text[p]));
        let tp = target_positions(text, seq![NEWLINE], text.len() as int);
        assert(tp == newlines(text));
        let i = choose|i: int| 0 <= i < tp.len() && tp[i] == p;
        assert(newlines(text)[i] == p);
    }
}

} // verus!
