//! Parser of one line: the kind of the line from its first column, then the
//! inline markers.

use vstd::prelude::*;
use crate::ast::line::{BlockType, LineAST, Line};
use crate::ast::node::{MarkupNode, Node, models, rows_model, lemma_models, lemma_rows_push, lemma_models_push};
use crate::ast::style::MarkupStyle;
use crate::parser::chars::{
    find_char, find_pair, trim, trim_start, lemma_find_char_bounds, lemma_find_pair, lemma_find_char, lemma_trailing_ws, ws_suffix, lemma_leading_ws, ws_prefix, trailing_ws, is_ws, leading_ws, lemma_trim_window, lemma_trim_twice, lemma_leading_ws_prefix, lemma_trailing_ws_short, lemma_find_pair_bounds, lemma_trim_start_idempotent,
    lemma_trim_start_twice,
    chars_of, find_char_window, find_pair_window, skip_ws, trim_window,
};

verus! {

broadcast use lemma_models;

// ─── Inline markers: model ───────────────────────────────────

/// Style of the doubled marker character `c` (`**`, `//`, ..., `$$`).
pub open spec fn pair_style(c: char) -> Option<u32> {
    if c == '*' {
        Some(1u32)
    } else if c == '/' {
        Some(2u32)
    } else if c == '_' {
        Some(4u32)
    } else if c == '~' {
        Some(8u32)
    } else if c == '=' {
        Some(128u32)
    } else if c == '+' {
        Some(1024u32)
    } else if c == '-' {
        Some(2048u32)
    } else if c == '\'' {
        Some(16u32)
    } else if c == ',' {
        Some(32u32)
    } else if c == '$' {
        Some(16384u32)
    } else {
        None
    }
}

/// The inline marker opening at `pos`: position of its closing marker,
/// style bits and length of the marker. A doubled marker closes at the next
/// occurrence of the same pair; a single `$` at the next `$`.
pub open spec fn marker_at(t: Seq<char>, pos: int) -> Option<(int, u32, int)> {
    if pos < 0 || pos + 1 >= t.len() {
        None
    } else if t[pos] == t[pos + 1] && pair_style(t[pos]) is Some {
        match find_pair(t.subrange(pos + 2, t.len() as int), t[pos], t[pos]) {
            Some(i) => Some((pos + 2 + i, pair_style(t[pos])->0, 2)),
            None => None,
        }
    } else if t[pos] == '$' {
        match find_char(t.subrange(pos + 1, t.len() as int), '$') {
            Some(i) => Some((pos + 1 + i, 8192u32, 1)),
            None => None,
        }
    } else {
        None
    }
}

pub proof fn lemma_marker_at_bounds(t: Seq<char>, pos: int)
    ensures
        marker_at(t, pos) matches Some((close, style, ol)) ==> pos + ol <= close && close + ol <= t.len() && (ol == 1 || ol == 2),
{
    if 0 <= pos && pos + 1 < t.len() {
        lemma_find_pair_bounds(t.subrange(pos + 2, t.len() as int), t[pos], t[pos]);
        lemma_find_char_bounds(t.subrange(pos + 1, t.len() as int), '$');
    }
}

/// Pending text `[start, end)` as a text node, if not empty.
pub open spec fn flush_text(t: Seq<char>, start: Option<int>, end: int) -> Seq<Node> {
    match start {
        Some(s) => if end > s {
            seq![Node::Text(t.subrange(s, end))]
        } else {
            seq![]
        },
        None => seq![],
    }
}

/// Nodes of `t` from position `pos` on, with pending text from `start`.
pub open spec fn inline_scan(t: Seq<char>, pos: int, start: Option<int>) -> Seq<Node>
    decreases t.len(), t.len() - pos,
{
    if pos < 0 || pos >= t.len() {
        flush_text(t, start, pos)
    } else if t[pos] == '\\' && pos + 1 < t.len() {
        flush_text(t, start, pos) + seq![Node::Text(t.subrange(pos + 1, pos + 2))] + inline_scan(t, pos + 2, None)
    } else {
        match marker_at(t, pos) {
            Some((close, style, ol)) => if close > pos + ol {
                proof {
                    lemma_marker_at_bounds(t, pos);
                }
                flush_text(t, start, pos) + seq![Node::Formatted(style, inline_nodes(t.subrange(pos + ol, close)))]
                    + inline_scan(t, close + ol, None)
            } else {
                inline_scan(t, pos + 1, if start is None { Some(pos) } else { start })
            },
            None => inline_scan(t, pos + 1, if start is None { Some(pos) } else { start }),
        }
    }
}

/// Inline nodes of `t`: text runs, escaped characters (`\x`) and formatted
/// runs between paired markers, nested.
pub open spec fn inline_nodes(t: Seq<char>) -> Seq<Node>
    decreases t.len(), t.len() + 1,
{
    inline_scan(t, 0, None)
}

/// A character that neither marks nor escapes: none of `* / _ ~ = + - ' , $ \\`.
pub open spec fn plain_char(x: char) -> bool {
    !(x == '*' || x == '/' || x == '_' || x == '~' || x == '=' || x == '+' || x == '-' || x == '\'' || x == ','
        || x == '$' || x == '\\')
}

/// Plain text from `pos` on gathers into one text node with what is pending.
proof fn lemma_plain_scan(u: Seq<char>, pos: int, start: Option<int>)
    requires
        0 <= pos <= u.len(),
        forall|i: int| pos <= i < u.len() ==> plain_char(#[trigger] u[i]),
        start matches Some(st) ==> 0 <= st <= pos,
    ensures
        inline_scan(u, pos, start) == flush_text(u, if start is None && pos < u.len() { Some(pos) } else { start }, u.len() as int),
    decreases u.len() - pos,
{
    if pos < u.len() {
        assert(plain_char(u[pos]));
        assert(marker_at(u, pos) is None);
        lemma_plain_scan(u, pos + 1, if start is None { Some(pos) } else { start });
    }
}

/// Text with no marker or escape is one text node.
pub proof fn lemma_plain_text(u: Seq<char>)
    requires
        u.len() > 0,
        forall|i: int| 0 <= i < u.len() ==> plain_char(#[trigger] u[i]),
    ensures
        inline_nodes(u) == seq![Node::Text(u)],
{
    lemma_plain_scan(u, 0, None);
    assert(u.subrange(0, u.len() as int) =~= u);
}

/// Plain text between two doubled markers `cc` is one formatted run whose
/// style is fixed by the marker: `**` bold (1), `//` italic (2), `__`
/// underline (4), `~~` strikethrough (8), `''` superscript (16), `,,`
/// subscript (32), `==` highlight (128), `++` insertion (1024), `--`
/// deletion (2048), `$$` display formula (16384).
pub proof fn lemma_doubled_marker_style(c: char, u: Seq<char>)
    requires
        u.len() > 0,
        forall|i: int| 0 <= i < u.len() ==> plain_char(#[trigger] u[i]),
        !plain_char(c) && c != '\\',
    ensures
        ({
            let nodes = inline_nodes(seq![c, c] + u + seq![c, c]);
            let run = |style: u32| seq![Node::Formatted(style, seq![Node::Text(u)])];
            &&& c == '*' ==> nodes == run(1)
            &&& c == '/' ==> nodes == run(2)
            &&& c == '_' ==> nodes == run(4)
            &&& c == '~' ==> nodes == run(8)
            &&& c == '\'' ==> nodes == run(16)
            &&& c == ',' ==> nodes == run(32)
            &&& c == '=' ==> nodes == run(128)
            &&& c == '+' ==> nodes == run(1024)
            &&& c == '-' ==> nodes == run(2048)
            &&& c == '$' ==> nodes == run(16384)
        }),
{
    let t = seq![c, c] + u + seq![c, c];
    let n = u.len() as int;
    let rest = t.subrange(2, t.len() as int);
    assert(rest =~= u + seq![c, c]);
    assert forall|j: int| 0 <= j < n implies !(#[trigger] rest[j] == c && rest[j + 1] == c) by {
        assert(rest[j] == u[j]);
    }
    assert(rest[n] == c && rest[n + 1] == c);
    lemma_find_pair(rest, c, c, Some(n));
    assert(t[0] == c && t[1] == c);
    assert(pair_style(c) is Some);
    assert(marker_at(t, 0) == Some((n + 2, pair_style(c)->0, 2int)));
    assert(t.subrange(2, n + 2) =~= u);
    lemma_plain_text(u);
    assert(inline_scan(t, n + 4, None) =~= seq![]);
    assert(inline_nodes(t) =~= seq![Node::Formatted(pair_style(c)->0, seq![Node::Text(u)])]);
}

/// `$`, plain text, `$`: an inline formula of the text (style 8192).
pub proof fn lemma_single_dollar(u: Seq<char>)
    requires
        u.len() > 0,
        forall|i: int| 0 <= i < u.len() ==> plain_char(#[trigger] u[i]),
    ensures
        inline_nodes(seq!['$'] + u + seq!['$']) == seq![Node::Formatted(8192, seq![Node::Text(u)])],
{
    let t = seq!['$'] + u + seq!['$'];
    let n = u.len() as int;
    let rest = t.subrange(1, t.len() as int);
    assert(rest =~= u + seq!['$']);
    assert forall|j: int| 0 <= j < n implies rest[j] != '$' by {
        assert(rest[j] == u[j]);
    }
    lemma_find_char(rest, '$', Some(n));
    assert(t[0] == '$' && t[1] == u[0]);
    assert(marker_at(t, 0) == Some((n + 1, 8192u32, 1int)));
    assert(t.subrange(1, n + 1) =~= u);
    lemma_plain_text(u);
    assert(inline_scan(t, n + 2, None) =~= seq![]);
    assert(inline_nodes(t) =~= seq![Node::Formatted(8192, seq![Node::Text(u)])]);
}

/// A backslash takes the next character as text, whatever it is: `\x`
/// then plain text gives the text `x`, then that text.
pub proof fn lemma_escape(x: char, u: Seq<char>)
    requires
        u.len() > 0,
        forall|i: int| 0 <= i < u.len() ==> plain_char(#[trigger] u[i]),
    ensures
        inline_nodes(seq!['\\', x] + u) == seq![Node::Text(seq![x]), Node::Text(u)],
{
    let t = seq!['\\', x] + u;
    assert(t[0] == '\\' && t[1] == x);
    assert forall|i: int| 2 <= i < t.len() implies plain_char(#[trigger] t[i]) by {
        assert(t[i] == u[i - 2]);
    }
    lemma_plain_scan(t, 2, None);
    assert(t.subrange(0, 0) =~= Seq::<char>::empty());
    assert(t.subrange(1, 2) =~= seq![x]);
    assert(t.subrange(2, t.len() as int) =~= u);
    assert(inline_nodes(t) =~= seq![Node::Text(seq![x]), Node::Text(u)]);
}

/// A doubled marker that is never closed is plain text: the marker and the
/// plain text after it form one text node.
pub proof fn lemma_unclosed_pair(c: char, u: Seq<char>)
    requires
        !plain_char(c) && c != '\\',
        forall|i: int| 0 <= i < u.len() ==> plain_char(#[trigger] u[i]),
    ensures
        inline_nodes(seq![c, c] + u) == seq![Node::Text(seq![c, c] + u)],
{
    let t = seq![c, c] + u;
    let rest = t.subrange(2, t.len() as int);
    assert(rest =~= u);
    assert forall|j: int| 0 <= j && j + 1 < rest.len() implies !(#[trigger] rest[j] == c && rest[j + 1] == c) by {
        assert(plain_char(rest[j]));
    }
    lemma_find_pair(rest, c, c, None);
    assert(t[0] == c && t[1] == c);
    assert(marker_at(t, 0) is None);
    if u.len() > 0 {
        assert(t[2] == u[0]);
        assert(plain_char(t[2]));
        if c == '$' {
            let r2 = t.subrange(2, t.len() as int);
            assert forall|j: int| 0 <= j < r2.len() implies r2[j] != '$' by {
                assert(r2[j] == u[j]);
            }
            lemma_find_char(r2, '$', None);
        }
        assert(marker_at(t, 1) is None);
    } else {
        assert(marker_at(t, 1) is None);
    }
    assert forall|i: int| 2 <= i < t.len() implies plain_char(#[trigger] t[i]) by {
        assert(t[i] == u[i - 2]);
    }
    lemma_plain_scan(t, 2, Some(0));
    assert(inline_scan(t, 0, None) == inline_scan(t, 1, Some(0)));
    assert(inline_scan(t, 1, Some(0)) == inline_scan(t, 2, Some(0)));
    assert(t.subrange(0, t.len() as int) =~= t);
}

// ─── Inline markers: implementation ──────────────────────────

/// Style of a doubled marker character.
fn pair_style_of(c: char) -> (r: Option<u32>)
    ensures
        r == pair_style(c),
{
    if c == '*' {
        Some(1)
    } else if c == '/' {
        Some(2)
    } else if c == '_' {
        Some(4)
    } else if c == '~' {
        Some(8)
    } else if c == '=' {
        Some(128)
    } else if c == '+' {
        Some(1024)
    } else if c == '-' {
        Some(2048)
    } else if c == '\'' {
        Some(16)
    } else if c == ',' {
        Some(32)
    } else if c == '$' {
        Some(16384)
    } else {
        None
    }
}

/// Length of the opening marker of `style`: 1 for `$`, 2 for the others.
fn marker_len(style: MarkupStyle) -> (n: usize)
    ensures
        n == if style.0 == 8192 { 1usize } else { 2usize },
{
    if style.0 == 8192 {
        1
    } else {
        2
    }
}

/// The inline marker opening at `pos` inside the window `[lo, hi)`.
fn match_inline_marker(v: &Vec<char>, lo: usize, hi: usize, pos: usize) -> (r: Option<(usize, MarkupStyle)>)
    requires
        lo <= pos < hi <= v@.len(),
    ensures
        match marker_at(v@.subrange(lo as int, hi as int), pos - lo) {
            Some((close, style, ol)) => r matches Some((c, s)) && c == close + lo && s.0 == style
                && ol == (if style == 8192 { 1int } else { 2int }),
            None => r is None,
        },
{
    let ghost w = v@.subrange(lo as int, hi as int);
    if pos + 1 >= hi {
        return None;
    }
    let a = v[pos];
    let b = v[pos + 1];
    assert(w[pos - lo] == a && w[pos - lo + 1] == b);
    if a == b {
        if let Some(style) = pair_style_of(a) {
            proof {
                assert(w.subrange(pos - lo + 2, w.len() as int) =~= v@.subrange(pos + 2, hi as int));
            }
            return match find_pair_window(v, pos + 2, hi, a, a) {
                Some(i) => Some((i, MarkupStyle(style))),
                None => None,
            };
        }
    }
    if a == '$' {
        proof {
            assert(w.subrange(pos - lo + 1, w.len() as int) =~= v@.subrange(pos + 1, hi as int));
        }
        return match find_char_window(v, pos + 1, hi, '$') {
            Some(i) => Some((i, MarkupStyle(8192))),
            None => None,
        };
    }
    None
}

/// Text node for the characters `[s, e)` of the line.
fn text_node(line: &str, v: &Vec<char>, s: usize, e: usize) -> (n: MarkupNode)
    requires
        v@ == line@,
        s <= e <= v@.len(),
    ensures
        n.model() == Node::Text(v@.subrange(s as int, e as int)),
{
    MarkupNode::Text(line.substring_char(s, e).to_owned())
}

/// Emits the pending text `[start, end)` and clears it.
fn flush_pending(
    line: &str,
    v: &Vec<char>,
    nodes: &mut Vec<MarkupNode>,
    start: &mut Option<usize>,
    end: usize,
    lo: usize,
    hi: usize,
)
    requires
        v@ == line@,
        lo <= end <= hi <= v@.len(),
        *old(start) matches Some(s) ==> lo <= s <= end,
    ensures
        *final(start) is None,
        models(final(nodes)@) == models(old(nodes)@) + flush_text(
            v@.subrange(lo as int, hi as int),
            match *old(start) { Some(s) => Some(s - lo), None => None::<int> },
            end - lo,
        ),
{
    let ghost w = v@.subrange(lo as int, hi as int);
    match *start {
        Some(s) => {
            if end > s {
                let t = text_node(line, v, s, end);
                proof {
                    lemma_models_push(nodes@, t);
                    assert(w.subrange(s - lo, end - lo) =~= v@.subrange(s as int, end as int));
                }
                nodes.push(t);
            } else {
                assert(models(nodes@) + seq![] =~= models(nodes@));
            }
        },
        None => {
            assert(models(nodes@) + seq![] =~= models(nodes@));
        },
    }
    *start = None;
}

/// Inline nodes of the window `[lo, hi)` of the line.
#[verifier::spinoff_prover]
#[verifier::rlimit(40)]
fn parse_inline_window(line: &str, v: &Vec<char>, lo: usize, hi: usize) -> (r: Vec<MarkupNode>)
    requires
        v@ == line@,
        lo <= hi <= v@.len(),
    ensures
        models(r@) == inline_nodes(v@.subrange(lo as int, hi as int)),
    decreases hi - lo,
{
    let ghost w = v@.subrange(lo as int, hi as int);
    let mut nodes: Vec<MarkupNode> = Vec::new();
    let mut pos = lo;
    let mut text_start: Option<usize> = None;
    while pos < hi
        invariant
            v@ == line@,
            lo <= pos <= hi <= v@.len(),
            w == v@.subrange(lo as int, hi as int),
            text_start matches Some(s) ==> lo <= s <= pos,
            models(nodes@) + inline_scan(w, pos - lo, match text_start { Some(s) => Some(s - lo), None => None })
                == inline_nodes(w),
        decreases hi - pos,
    {
        let ghost st = match text_start { Some(s) => Some(s - lo), None => None::<int> };
        assert(w[pos - lo] == v@[pos as int]);
        if v[pos] == '\\' && pos + 1 < hi {
            let ghost before = nodes@;
            flush_pending(line, v, &mut nodes, &mut text_start, pos, lo, hi);
            let t = text_node(line, v, pos + 1, pos + 2);
            proof {
                lemma_models_push(nodes@, t);
                assert(w.subrange(pos - lo + 1, pos - lo + 2) =~= v@.subrange(pos + 1, pos + 2));
            }
            nodes.push(t);
            pos += 2;
            continue;
        }
        proof {
            lemma_marker_at_bounds(w, pos - lo);
        }
        if let Some((close_pos, style)) = match_inline_marker(v, lo, hi, pos) {
            let open_len = marker_len(style);
            let open_end = pos + open_len;
            if close_pos > open_end {
                flush_pending(line, v, &mut nodes, &mut text_start, pos, lo, hi);
                let inner = parse_inline_window(line, v, open_end, close_pos);
                let f = MarkupNode::Formatted { style, children: inner };
                proof {
                    lemma_models_push(nodes@, f);
                    assert(w.subrange(open_end - lo, close_pos - lo) =~= v@.subrange(open_end as int, close_pos as int));
                }
                nodes.push(f);
                pos = close_pos + open_len;
                continue;
            }
        }
        if text_start.is_none() {
            text_start = Some(pos);
        }
        pos += 1;
    }
    flush_pending(line, v, &mut nodes, &mut text_start, pos, lo, hi);
    proof {
        assert(models(nodes@) + seq![] =~= models(nodes@));
    }
    nodes
}

/// Inline nodes of `text`: text runs, escaped characters (`\x`) and
/// formatted runs between paired markers (`** // __ '' ,, ~~ == ++ -- $$ $`).
pub fn parse_inline(text: &str) -> (r: Vec<MarkupNode>)
    ensures
        models(r@) == inline_nodes(text@),
{
    let v = chars_of(text);
    assert(v@.subrange(0, v@.len() as int) =~= text@);
    parse_inline_window(text, &v, 0, v.len())
}

// ─── Numbers ─────────────────────────────────────────────────

/// ASCII digit.
pub open spec fn is_digit(c: char) -> bool {
    '0' <= c <= '9'
}

/// Value of a string of decimal digits.
pub open spec fn digits_value(d: Seq<char>) -> nat
    decreases d.len(),
{
    if d.len() == 0 {
        0
    } else {
        digits_value(d.drop_last()) * 10 + ((d.last() as u32 - '0' as u32) as nat)
    }
}

/// Every character is an ASCII digit.
pub open spec fn all_digits(d: Seq<char>) -> bool {
    forall|i: int| 0 <= i < d.len() ==> is_digit(#[trigger] d[i])
}

/// The digits of a `u32` literal: without its optional leading `+`.
pub open spec fn unsigned_digits(t: Seq<char>) -> Seq<char> {
    if t.len() > 0 && t[0] == '+' {
        t.drop_first()
    } else {
        t
    }
}

/// `u32::from_str`: an optional `+`, then at least one digit, no overflow.
pub open spec fn parse_u32(t: Seq<char>) -> Option<u32> {
    let d = unsigned_digits(t);
    if d.len() > 0 && all_digits(d) && digits_value(d) <= u32::MAX {
        Some(digits_value(d) as u32)
    } else {
        None
    }
}

/// Index of the first character that is not an ASCII digit.
pub open spec fn first_non_digit(t: Seq<char>) -> Option<int>
    decreases t.len(),
{
    if t.len() == 0 {
        None
    } else if !is_digit(t[0]) {
        Some(0)
    } else {
        match first_non_digit(t.drop_first()) {
            Some(i) => Some(i + 1),
            None => None,
        }
    }
}

proof fn lemma_digits_monotone(d: Seq<char>, j: int, k: int)
    requires
        0 <= j <= k <= d.len(),
    ensures
        digits_value(d.take(j)) <= digits_value(d.take(k)),
    decreases k - j,
{
    if j < k {
        lemma_digits_monotone(d, j, k - 1);
        assert(d.take(k).drop_last() =~= d.take(k - 1));
    }
}

proof fn lemma_first_non_digit(t: Seq<char>, r: Option<int>)
    requires
        match r {
            Some(i) => 0 <= i < t.len() && !is_digit(t[i]) && forall|j: int| 0 <= j < i ==> is_digit(#[trigger] t[j]),
            None => forall|j: int| 0 <= j < t.len() ==> is_digit(#[trigger] t[j]),
        },
    ensures
        first_non_digit(t) == r,
    decreases t.len(),
{
    if t.len() > 0 && is_digit(t[0]) {
        let d = t.drop_first();
        let rd = match r {
            Some(i) => Some(i - 1),
            None => None,
        };
        match r {
            Some(i) => {
                assert(i > 0);
                assert forall|j: int| 0 <= j < i - 1 implies is_digit(#[trigger] d[j]) by {
                    assert(d[j] == t[j + 1]);
                }
                assert(d[i - 1] == t[i]);
            },
            None => {
                assert forall|j: int| 0 <= j < d.len() implies is_digit(#[trigger] d[j]) by {
                    assert(d[j] == t[j + 1]);
                }
            },
        }
        lemma_first_non_digit(d, rd);
    } else if t.len() > 0 {
        match r {
            Some(i) => {
                if i > 0 {
                    assert(is_digit(t[0]));
                }
            },
            None => {
                assert(is_digit(t[0]));
            },
        }
    }
}

/// `u32::from_str` on the window `[lo, hi)`.
fn parse_u32_window(v: &Vec<char>, lo: usize, hi: usize) -> (r: Option<u32>)
    requires
        lo <= hi <= v@.len(),
    ensures
        r == parse_u32(v@.subrange(lo as int, hi as int)),
{
    let ghost t = v@.subrange(lo as int, hi as int);
    let start = if lo < hi && v[lo] == '+' { lo + 1 } else { lo };
    let ghost d = v@.subrange(start as int, hi as int);
    assert(d =~= unsigned_digits(t));
    if start == hi {
        return None;
    }
    let mut value: u32 = 0;
    let mut k = start;
    while k < hi
        invariant
            lo <= start <= k <= hi <= v@.len(),
            d == v@.subrange(start as int, hi as int),
            t == v@.subrange(lo as int, hi as int),
            d == unsigned_digits(t),
            forall|i: int| 0 <= i < k - start ==> is_digit(#[trigger] d[i]),
            value == digits_value(d.take(k - start)),
        decreases hi - k,
    {
        let c = v[k];
        assert(d[k - start] == c);
        if !('0' <= c && c <= '9') {
            assert(!is_digit(d[k - start]));
            assert(!all_digits(d));
            return None;
        }
        let digit = (c as u32) - ('0' as u32);
        let next: u64 = (value as u64) * 10 + (digit as u64);
        proof {
            assert(d.take(k - start + 1).drop_last() =~= d.take(k - start));
            assert(digits_value(d.take(k - start + 1)) == next);
        }
        if next > 0xffff_ffffu64 {
            proof {
                lemma_digits_monotone(d, k - start + 1, d.len() as int);
                assert(d.take(d.len() as int) =~= d);
                assert(digits_value(d) > u32::MAX);
            }
            return None;
        }
        value = next as u32;
        k += 1;
    }
    assert(d.take(d.len() as int) =~= d);
    Some(value)
}

/// First position in the window that is not an ASCII digit.
fn first_non_digit_window(v: &Vec<char>, lo: usize, hi: usize) -> (r: Option<usize>)
    requires
        lo <= hi <= v@.len(),
    ensures
        match r {
            Some(i) => lo <= i < hi && first_non_digit(v@.subrange(lo as int, hi as int)) == Some(i - lo),
            None => first_non_digit(v@.subrange(lo as int, hi as int)) == None::<int>,
        },
{
    let ghost w = v@.subrange(lo as int, hi as int);
    let mut i = lo;
    while i < hi
        invariant
            lo <= i <= hi <= v@.len(),
            w == v@.subrange(lo as int, hi as int),
            forall|j: int| lo <= j < i ==> is_digit(#[trigger] v@[j]),
        decreases hi - i,
    {
        let c = v[i];
        if !('0' <= c && c <= '9') {
            proof {
                assert forall|j: int| 0 <= j < i - lo implies is_digit(#[trigger] w[j]) by {
                    assert(w[j] == v@[lo + j]);
                }
                lemma_first_non_digit(w, Some(i - lo));
            }
            return Some(i);
        }
        i += 1;
    }
    proof {
        assert forall|j: int| 0 <= j < w.len() implies is_digit(#[trigger] w[j]) by {
            assert(w[j] == v@[lo + j]);
        }
        lemma_first_non_digit(w, None);
    }
    None
}

// ─── Table rows ──────────────────────────────────────────────

/// The pieces of `t` between `|` characters (`str::split('|')`).
pub open spec fn split_bar(t: Seq<char>) -> Seq<Seq<char>>
    decreases t.len(),
{
    match find_char(t, '|') {
        Some(i) => {
            proof {
                lemma_find_char_bounds(t, '|');
            }
            seq![t.take(i)] + split_bar(t.skip(i + 1))
        },
        None => seq![t],
    }
}

/// Text of a trimmed cell without its alignment colons: a leading `:` is
/// dropped only together with a trailing one, a trailing one alone is dropped.
pub open spec fn cell_text(c: Seq<char>) -> Seq<char> {
    let p = if c.len() > 0 && c[0] == ':' { c.drop_first() } else { c };
    if p.len() > 0 && p.last() == ':' {
        p.drop_last()
    } else {
        c
    }
}

/// Inline nodes of each cell.
pub open spec fn cells_of(segs: Seq<Seq<char>>) -> Seq<Seq<Node>>
    decreases segs.len(),
{
    if segs.len() == 0 {
        seq![]
    } else {
        seq![inline_nodes(trim(cell_text(trim(segs[0]))))] + cells_of(segs.drop_first())
    }
}

/// Inside of a table row: the trimmed line without its outer bars.
pub open spec fn row_inner(tt: Seq<char>) -> Seq<char> {
    if tt.len() > 0 && tt[0] == '|' && tt.last() == '|' {
        tt.subrange(1, tt.len() - 1)
    } else if tt.len() > 0 && tt[0] == '|' {
        tt.drop_first()
    } else {
        tt
    }
}

/// A table row `| a | b |`.
pub open spec fn table_row(line: Seq<char>) -> Line {
    Line::TableRow(cells_of(split_bar(row_inner(trim(line)))))
}

/// Nodes of one cell, the window `[lo, hi)` being the piece between bars.
fn parse_cell(line: &str, v: &Vec<char>, lo: usize, hi: usize) -> (r: Vec<MarkupNode>)
    requires
        v@ == line@,
        lo <= hi <= v@.len(),
    ensures
        models(r@) == inline_nodes(trim(cell_text(trim(v@.subrange(lo as int, hi as int))))),
{
    let (c0, c1) = trim_window(v, lo, hi);
    let ghost c = v@.subrange(c0 as int, c1 as int);
    let p0 = if c0 < c1 && v[c0] == ':' { c0 + 1 } else { c0 };
    let (t0, t1) = if p0 < c1 && v[c1 - 1] == ':' { (p0, c1 - 1) } else { (c0, c1) };
    proof {
        let p = if c.len() > 0 && c[0] == ':' { c.drop_first() } else { c };
        assert(p =~= v@.subrange(p0 as int, c1 as int));
        if p0 < c1 && v@[c1 - 1] == ':' {
            assert(p.last() == v@[c1 - 1]);
            assert(cell_text(c) =~= v@.subrange(t0 as int, t1 as int));
        } else {
            assert(cell_text(c) =~= v@.subrange(t0 as int, t1 as int));
        }
    }
    let (i0, i1) = trim_window(v, t0, t1);
    parse_inline_window(line, v, i0, i1)
}

/// Table row of the window `[lo, hi)`.
fn parse_table_row(line: &str, v: &Vec<char>, lo: usize, hi: usize) -> (r: LineAST)
    requires
        v@ == line@,
        lo <= hi <= v@.len(),
        trim(v@.subrange(lo as int, hi as int)) != seq!['|'],
    ensures
        r.model() == table_row(v@.subrange(lo as int, hi as int)),
{
    let (a, b) = trim_window(v, lo, hi);
    let ghost tt = v@.subrange(a as int, b as int);
    let (i0, i1) = if a < b && v[a] == '|' && v[b - 1] == '|' {
        if b - a == 1 {
            assert(tt =~= seq!['|']);
        }
        (a + 1, b - 1)
    } else if a < b && v[a] == '|' {
        (a + 1, b)
    } else {
        (a, b)
    };
    assert(row_inner(tt) =~= v@.subrange(i0 as int, i1 as int));
    let mut cells: Vec<Vec<MarkupNode>> = Vec::new();
    let mut seg = i0;
    loop
        invariant_except_break
            v@ == line@,
            i0 <= seg <= i1 <= v@.len(),
            rows_model(cells@) + cells_of(split_bar(v@.subrange(seg as int, i1 as int)))
                == cells_of(split_bar(v@.subrange(i0 as int, i1 as int))),
        ensures
            rows_model(cells@) == cells_of(split_bar(v@.subrange(i0 as int, i1 as int))),
        decreases i1 - seg,
    {
        let ghost rest = v@.subrange(seg as int, i1 as int);
        match find_char_window(v, seg, i1, '|') {
            Some(bar) => {
                let cell = parse_cell(line, v, seg, bar);
                proof {
                    assert(rest.take(bar - seg) =~= v@.subrange(seg as int, bar as int));
                    assert(rest.skip(bar - seg + 1) =~= v@.subrange(bar + 1, i1 as int));
                    let segs = split_bar(rest);
                    assert(segs == seq![rest.take(bar - seg)] + split_bar(rest.skip(bar - seg + 1)));
                    assert(segs[0] == rest.take(bar - seg));
                    assert(segs.drop_first() =~= split_bar(rest.skip(bar - seg + 1)));
                    lemma_rows_push(cells@, cell);
                }
                cells.push(cell);
                seg = bar + 1;
            },
            None => {
                let cell = parse_cell(line, v, seg, i1);
                let ghost before = rows_model(cells@);
                proof {
                    let segs = split_bar(rest);
                    assert(segs == seq![rest]);
                    assert(segs.drop_first() =~= seq![]);
                    assert(cells_of(segs.drop_first()) =~= seq![]);
                    assert(cells_of(segs) =~= seq![models(cell@)]);
                    lemma_rows_push(cells@, cell);
                }
                cells.push(cell);
                proof {
                    assert(rows_model(cells@) =~= before + seq![models(cell@)]);
                }
                break;
            },
        }
    }
    LineAST::TableRow(cells)
}

// ─── Lines ───────────────────────────────────────────────────

/// `t` starts with three `c`.
pub open spec fn starts3(t: Seq<char>, c: char) -> bool {
    t.len() >= 3 && t[0] == c && t[1] == c && t[2] == c
}

/// `t` is exactly three `c`.
pub open spec fn is3(t: Seq<char>, c: char) -> bool {
    t.len() == 3 && starts3(t, c)
}

/// Title of a spoiler: the trimmed text before `:`.
pub open spec fn spoiler_title(rest: Seq<char>, e: int) -> Seq<char> {
    trim(rest.take(e))
}

/// `!!!...`: a bare block marker, or the opening of a titled spoiler block.
pub open spec fn spoiler_block_line(rest: Seq<char>) -> Line {
    let sr = trim(rest);
    if sr.len() == 0 {
        Line::BlockMarker(BlockType::Spoiler)
    } else {
        match find_char(sr, ':') {
            Some(e) => if spoiler_title(sr, e).len() == 0 {
                Line::SpoilerBlockOpen(None)
            } else {
                Line::SpoilerBlockOpen(Some(spoiler_title(sr, e)))
            },
            None => Line::BlockMarker(BlockType::Spoiler),
        }
    }
}

/// `!!` spoiler: an optional title before `:`, then the content.
pub open spec fn spoiler_line(after: Seq<char>) -> Line {
    let rest = trim(after);
    match find_char(rest, ':') {
        Some(e) => Line::Spoiler(Some(spoiler_title(rest, e)), inline_nodes(trim(rest.skip(e + 1)))),
        None => Line::Spoiler(None, inline_nodes(rest)),
    }
}

/// Level of a header `#N# ...`: the text between the two `#` read as a `u32`.
pub open spec fn header_level(tr: Seq<char>) -> Option<(u32, int)> {
    if tr.len() > 0 && tr[0] == '#' {
        match find_char(tr.skip(1), '#') {
            Some(end) => if end > 0 {
                match parse_u32(tr.subrange(1, end + 1)) {
                    Some(level) => Some((level, end + 2)),
                    None => None,
                }
            } else {
                None
            },
            None => None,
        }
    } else {
        None
    }
}

/// Bulleted list item: `-`, `*` or `+`, then nothing or a space.
pub open spec fn is_bullet(tr: Seq<char>) -> bool {
    &&& tr.len() > 0
    &&& (tr[0] == '-' || tr[0] == '*' || tr[0] == '+')
    &&& (tr.len() == 1 || tr[1] == ' ')
}

/// Numbered list item `N.`, then nothing or a space: position of the `.`.
pub open spec fn numbered_dot(tr: Seq<char>) -> Option<int> {
    match first_non_digit(tr) {
        Some(end) => if end > 0 && tr[end] == '.' && (end + 1 == tr.len() || tr[end + 1] == ' ') {
            Some(end)
        } else {
            None
        },
        None => None,
    }
}

/// Number of a numbered list item (1 when it does not fit a `u32`).
pub open spec fn item_number(digits: Seq<char>) -> u32 {
    match parse_u32(digits) {
        Some(n) => n,
        None => 1,
    }
}

/// The tree of one line (without its line break). The kind of the line is
/// decided in this order: blank, block markers `%%%` `$$$` `!!!` at the
/// start, `%%` `$$` `!!` anywhere (the rest of the line after the first
/// one), header `#N#`, thematic break, bulleted item, numbered item, quote
/// `>`, table row `|`, tag `#:`, paragraph.
pub open spec fn parsed_line(l: Seq<char>) -> Line {
    let tr = trim_start(l);
    if tr.len() == 0 {
        Line::Empty
    } else if starts3(tr, '%') {
        Line::BlockMarker(BlockType::Comment)
    } else if starts3(tr, '$') {
        Line::BlockMarker(BlockType::Formula)
    } else if starts3(tr, '!') {
        spoiler_block_line(tr.skip(3))
    } else if let Some(p) = find_pair(tr, '%', '%') {
        Line::Comment(inline_nodes(trim(tr.skip(p + 2))))
    } else if let Some(p) = find_pair(tr, '$', '$') {
        Line::Formula(inline_nodes(trim(tr.skip(p + 2))))
    } else if let Some(p) = find_pair(tr, '!', '!') {
        spoiler_line(tr.skip(p + 2))
    } else if let Some((level, body)) = header_level(tr) {
        Line::Header(level, inline_nodes(trim(tr.skip(body))))
    } else if is3(trim(tr), '-') || is3(trim(tr), '_') || is3(trim(tr), '*') {
        Line::ThematicBreak
    } else if is_bullet(tr) {
        Line::ListItem(false, 0, inline_nodes(trim(tr.skip(1))))
    } else if let Some(end) = numbered_dot(tr) {
        Line::ListItem(true, item_number(tr.take(end)), inline_nodes(trim(tr.skip(end + 1))))
    } else if tr[0] == '>' {
        Line::Quote(inline_nodes(trim(tr.skip(1))))
    } else if tr[0] == '|' {
        table_row(tr)
    } else if tr.len() >= 2 && tr[0] == '#' && tr[1] == ':' {
        Line::Tag(trim(tr.skip(2)))
    } else {
        Line::Paragraph(inline_nodes(tr))
    }
}

/// A line reads the same with or without its leading whitespace; a blank
/// line is `Empty`; and no line alone is a raw block line (code, comment,
/// formula or spoiler line): those only arise inside a block.
#[verifier::spinoff_prover]
pub proof fn lemma_parsed_line_trim_start(l: Seq<char>)
    ensures
        parsed_line(trim_start(l)) == parsed_line(l),
        trim(l).len() == 0 ==> parsed_line(l) == Line::Empty,
        !(parsed_line(l) is CodeLine),
        !(parsed_line(l) is CommentLine),
        !(parsed_line(l) is FormulaLine),
        !(parsed_line(l) is SpoilerLine),
{
    lemma_trim_start_twice(l);
}

/// `10` to the power `n`.
pub open spec fn ten_pow(n: nat) -> nat
    decreases n,
{
    if n == 0 {
        1
    } else {
        10 * ten_pow((n - 1) as nat)
    }
}

proof fn lemma_ten_pow_9()
    ensures
        ten_pow(9) == 1000000000,
{
    reveal_with_fuel(ten_pow, 10);
}

/// A string of `k` digits or fewer is worth less than `10^k`.
proof fn lemma_digits_value_below(d: Seq<char>, k: nat)
    requires
        d.len() <= k,
        forall|i: int| 0 <= i < d.len() ==> '0' <= #[trigger] d[i] <= '9',
    ensures
        digits_value(d) < ten_pow(k),
    decreases k,
{
    if k > 0 {
        if d.len() > 0 {
            let p = d.drop_last();
            assert forall|i: int| 0 <= i < p.len() implies '0' <= #[trigger] p[i] <= '9' by {
                assert(p[i] == d[i]);
            }
            lemma_digits_value_below(p, (k - 1) as nat);
            assert(d[d.len() - 1] <= '9');
        } else {
            lemma_digits_value_below(d, (k - 1) as nat);
        }
    }
}

/// No doubled `%`, `$` or `!` in `r`.
pub open spec fn no_doubled_block_char(r: Seq<char>) -> bool {
    forall|j: int| 0 <= j < r.len() - 1 ==> !(#[trigger] r[j] == r[j + 1] && (r[j] == '%' || r[j] == '$' || r[j]
        == '!'))
}

/// A line of at most nine digits, a `.`, then nothing or a space and text
/// with no `%%`, `$$` or `!!`, is a numbered item whose number is the value
/// of the digits.
#[verifier::spinoff_prover]
#[verifier::rlimit(50)]
proof fn lemma_numbered_line(digs: Seq<char>, r: Seq<char>)
    requires
        1 <= digs.len() <= 9,
        forall|i: int| 0 <= i < digs.len() ==> '0' <= #[trigger] digs[i] <= '9',
        r.len() == 0 || r[0] == ' ',
        no_doubled_block_char(r),
    ensures
        parsed_line(digs + seq!['.'] + r) == Line::ListItem(true, digits_value(digs) as u32, inline_nodes(trim(r))),
{
    let l = digs + seq!['.'] + r;
    let n = digs.len() as int;
    assert(l[0] == digs[0]);
    assert(ws_prefix(l, 0));
    lemma_leading_ws(l, 0);
    assert(trim_start(l) =~= l);
    assert forall|j: int| 0 <= j < l.len() - 1 implies !(#[trigger] l[j] == '%' && l[j + 1] == '%') by {
        if j < n {
            assert(l[j] == digs[j]);
        } else if j > n {
            assert(l[j] == r[j - n - 1]);
            assert(l[j + 1] == r[j - n]);
        }
    }
    assert forall|j: int| 0 <= j < l.len() - 1 implies !(#[trigger] l[j] == '$' && l[j + 1] == '$') by {
        if j < n {
            assert(l[j] == digs[j]);
        } else if j > n {
            assert(l[j] == r[j - n - 1]);
            assert(l[j + 1] == r[j - n]);
        }
    }
    assert forall|j: int| 0 <= j < l.len() - 1 implies !(#[trigger] l[j] == '!' && l[j + 1] == '!') by {
        if j < n {
            assert(l[j] == digs[j]);
        } else if j > n {
            assert(l[j] == r[j - n - 1]);
            assert(l[j + 1] == r[j - n]);
        }
    }
    lemma_find_pair(l, '%', '%', None);
    lemma_find_pair(l, '$', '$', None);
    lemma_find_pair(l, '!', '!', None);
    assert(l[n] == '.');
    assert forall|j: int| 0 <= j < n implies is_digit(#[trigger] l[j]) by {
        assert(l[j] == digs[j]);
    }
    lemma_first_non_digit(l, Some(n));
    if r.len() > 0 {
        assert(l[n + 1] == r[0]);
    }
    assert(l.take(n) =~= digs);
    assert(l.skip(n + 1) =~= r);
    assert(all_digits(digs));
    assert(unsigned_digits(digs) == digs);
    lemma_digits_value_below(digs, 9);
    lemma_ten_pow_9();
    let tr = trim_start(l);
    lemma_trim_start_twice(l);
    assert(tr.len() > 0);
    assert('0' <= tr[0] <= '9');
    assert(!starts3(tr, '%') && !starts3(tr, '$') && !starts3(tr, '!'));
    assert(header_level(tr) is None);
    assert(!is3(trim(tr), '-') && !is3(trim(tr), '_') && !is3(trim(tr), '*')) by {
        let t = trim(tr);
        assert(trim_start(tr) == tr);
        assert(!is_ws(tr[0]));
        lemma_trailing_ws_short(tr);
        assert(t == tr.take(tr.len() - trailing_ws(tr)));
        if t.len() == 3 {
            assert(t[0] == tr[0]);
        }
    }
    assert(!is_bullet(tr));
    assert(numbered_dot(tr) == Some(n));
    assert(item_number(tr.take(n)) == digits_value(digs) as u32);
}

#[verifier::spinoff_prover]
#[verifier::rlimit(50)]
/// The number of a numbered item is the decimal value of its digits: a
/// single digit `c` gives `c`, and one more digit `c` after `d` gives ten
/// times the number of `d` plus `c`.
pub proof fn lemma_item_number_decimal(d: Seq<char>, c: char, r: Seq<char>)
    requires
        d.len() <= 8,
        forall|i: int| 0 <= i < d.len() ==> '0' <= #[trigger] d[i] <= '9',
        '0' <= c <= '9',
        r.len() == 0 || r[0] == ' ',
        no_doubled_block_char(r),
    ensures
        d.len() > 0 ==> parsed_line(d + seq!['.'] + r) is ListItem,
        parsed_line(d + seq![c, '.'] + r) == Line::ListItem(
            true,
            ((if d.len() == 0 {
                0
            } else {
                10 * (parsed_line(d + seq!['.'] + r)->ListItem_1 as int)
            }) + (c as int - '0' as int)) as u32,
            inline_nodes(trim(r)),
        ),
{
    let dc = d.push(c);
    assert forall|i: int| 0 <= i < dc.len() implies '0' <= #[trigger] dc[i] <= '9' by {
        if i < d.len() {
            assert(dc[i] == d[i]);
        }
    }
    lemma_numbered_line(dc, r);
    assert(d + seq![c, '.'] + r =~= dc + seq!['.'] + r);
    assert(dc.drop_last() =~= d);
    assert(digits_value(dc) == digits_value(d) * 10 + (c as u32 - '0' as u32));
    if d.len() > 0 {
        lemma_numbered_line(d, r);
        lemma_digits_value_below(d, 9);
        lemma_ten_pow_9();
        let n1 = parsed_line(d + seq!['.'] + r)->ListItem_1;
        assert(n1 == digits_value(d));
    } else {
        assert(digits_value(d) == 0);
    }
}

/// No doubled `%`, `$` or `!`: none of the line-wide forms is found.
proof fn lemma_no_block_pairs(l: Seq<char>)
    requires
        no_doubled_block_char(l),
    ensures
        find_pair(l, '%', '%') is None,
        find_pair(l, '$', '$') is None,
        find_pair(l, '!', '!') is None,
{
    assert forall|j: int| 0 <= j && j + 1 < l.len() implies !(#[trigger] l[j] == '%' && l[j + 1] == '%') by {
        assert(!(l[j] == l[j + 1] && l[j] == '%'));
    }
    assert forall|j: int| 0 <= j && j + 1 < l.len() implies !(#[trigger] l[j] == '$' && l[j + 1] == '$') by {
        assert(!(l[j] == l[j + 1] && l[j] == '$'));
    }
    assert forall|j: int| 0 <= j && j + 1 < l.len() implies !(#[trigger] l[j] == '!' && l[j + 1] == '!') by {
        assert(!(l[j] == l[j + 1] && l[j] == '!'));
    }
    lemma_find_pair(l, '%', '%', None);
    lemma_find_pair(l, '$', '$', None);
    lemma_find_pair(l, '!', '!', None);
}

/// `head` then `r`: no doubled block character when neither has one and
/// the last of `head` is none of them.
proof fn lemma_no_doubled_concat(head: Seq<char>, r: Seq<char>)
    requires
        head.len() > 0,
        no_doubled_block_char(head),
        no_doubled_block_char(r),
        head.last() != '%' && head.last() != '$' && head.last() != '!',
    ensures
        no_doubled_block_char(head + r),
{
    let l = head + r;
    let n = head.len() as int;
    assert forall|j: int| 0 <= j < l.len() - 1 implies !(#[trigger] l[j] == l[j + 1] && (l[j] == '%' || l[j] == '$'
        || l[j] == '!')) by {
        if j < n - 1 {
            assert(l[j] == head[j] && l[j + 1] == head[j + 1]);
        } else if j == n - 1 {
            assert(l[j] == head.last());
        } else {
            assert(l[j] == r[j - n] && l[j + 1] == r[j - n + 1]);
        }
    }
}

/// A line that starts with a character other than whitespace is its own
/// trimmed start, and its trim keeps that first character.
proof fn lemma_starts_plain(l: Seq<char>)
    requires
        l.len() > 0,
        !is_ws(l[0]),
    ensures
        trim_start(l) == l,
        trim(l).len() > 0,
        trim(l)[0] == l[0],
{
    assert(ws_prefix(l, 0));
    lemma_leading_ws(l, 0);
    assert(trim_start(l) =~= l);
    lemma_trailing_ws_short(l);
}

/// `#N# text` with at most nine digits `N`: a header of level `N`.
#[verifier::spinoff_prover]
proof fn lemma_header_line(d: Seq<char>, r: Seq<char>)
    requires
        1 <= d.len() <= 9,
        forall|i: int| 0 <= i < d.len() ==> '0' <= #[trigger] d[i] <= '9',
        no_doubled_block_char(r),
    ensures
        parsed_line(seq!['#'] + d + seq!['#'] + r) == Line::Header(digits_value(d) as u32, inline_nodes(trim(r))),
{
    let head = seq!['#'] + d + seq!['#'];
    let l = head + r;
    let n = d.len() as int;
    assert(seq!['#'] + d + seq!['#'] + r =~= l);
    assert(no_doubled_block_char(head)) by {
        assert forall|j: int| 0 <= j < head.len() - 1 implies !(#[trigger] head[j] == head[j + 1] && (head[j] == '%'
            || head[j] == '$' || head[j] == '!')) by {
            if 1 <= j <= n {
                assert(head[j] == d[j - 1]);
            }
        }
    }
    assert(head.last() == '#');
    lemma_no_doubled_concat(head, r);
    lemma_no_block_pairs(l);
    assert(l[0] == '#');
    lemma_starts_plain(l);
    lemma_trim_start_twice(l);
    let tail = l.skip(1);
    assert forall|j: int| 0 <= j < n implies #[trigger] tail[j] != '#' by {
        assert(tail[j] == d[j]);
    }
    assert(tail[n] == '#');
    lemma_find_char(tail, '#', Some(n));
    assert(l.subrange(1, n + 1) =~= d);
    assert(all_digits(d));
    assert(unsigned_digits(d) == d);
    lemma_digits_value_below(d, 9);
    lemma_ten_pow_9();
    assert(header_level(l) == Some((digits_value(d) as u32, n + 2)));
    assert(l.skip(n + 2) =~= r);
}

/// The level of a header `#N#` is the decimal value of `N`: a single digit
/// `c` gives `c`, and one more digit `c` after `d` gives ten times the level
/// of `d` plus `c`.
#[verifier::spinoff_prover]
#[verifier::rlimit(50)]
pub proof fn lemma_header_level_decimal(d: Seq<char>, c: char, r: Seq<char>)
    requires
        d.len() <= 8,
        forall|i: int| 0 <= i < d.len() ==> '0' <= #[trigger] d[i] <= '9',
        '0' <= c <= '9',
        no_doubled_block_char(r),
    ensures
        d.len() > 0 ==> parsed_line(seq!['#'] + d + seq!['#'] + r) is Header,
        parsed_line(seq!['#'] + d.push(c) + seq!['#'] + r) == Line::Header(
            ((if d.len() == 0 {
                0
            } else {
                10 * (parsed_line(seq!['#'] + d + seq!['#'] + r)->Header_0 as int)
            }) + (c as int - '0' as int)) as u32,
            inline_nodes(trim(r)),
        ),
{
    let dc = d.push(c);
    assert forall|i: int| 0 <= i < dc.len() implies '0' <= #[trigger] dc[i] <= '9' by {
        if i < d.len() {
            assert(dc[i] == d[i]);
        }
    }
    lemma_header_line(dc, r);
    assert(dc.drop_last() =~= d);
    assert(digits_value(dc) == digits_value(d) * 10 + (c as u32 - '0' as u32));
    if d.len() > 0 {
        lemma_header_line(d, r);
        lemma_digits_value_below(d, 9);
        lemma_ten_pow_9();
    } else {
        assert(digits_value(d) == 0);
    }
}

/// `> text`: a quote of the text, trimmed.
#[verifier::spinoff_prover]
pub proof fn lemma_quote_line(r: Seq<char>)
    requires
        no_doubled_block_char(r),
    ensures
        parsed_line(seq!['>'] + r) == Line::Quote(inline_nodes(trim(r))),
{
    let head = seq!['>'];
    let l = head + r;
    lemma_no_doubled_concat(head, r);
    lemma_no_block_pairs(l);
    assert(l[0] == '>');
    lemma_starts_plain(l);
    lemma_trim_start_twice(l);
    assert(!is_digit(l[0]));
    lemma_first_non_digit(l, Some(0));
    assert(l.skip(1) =~= r);
}

/// `- text`, `* text`, `+ text` (or the marker alone): an unnumbered list
/// item of the text, trimmed.
#[verifier::spinoff_prover]
pub proof fn lemma_bullet_line(b: char, r: Seq<char>)
    requires
        b == '-' || b == '*' || b == '+',
        r.len() == 0 || r[0] == ' ',
        no_doubled_block_char(r),
    ensures
        parsed_line(seq![b] + r) == Line::ListItem(false, 0, inline_nodes(trim(r))),
{
    let head = seq![b];
    let l = head + r;
    lemma_no_doubled_concat(head, r);
    lemma_no_block_pairs(l);
    assert(l[0] == b);
    lemma_starts_plain(l);
    lemma_trim_start_twice(l);
    let t = trim(l);
    if t.len() == 3 {
        assert(trim_start(l) == l);
        lemma_trailing_ws_short(l);
        assert(t == l.take(l.len() - trailing_ws(l)));
        assert(t[1] == l[1]);
        assert(l[1] == r[0]);
    }
    if r.len() > 0 {
        assert(l[1] == r[0]);
    }
    assert(l.skip(1) =~= r);
}

/// Three `-`, `_` or `*` alone on a line: a thematic break.
#[verifier::spinoff_prover]
pub proof fn lemma_thematic_break_line(c: char, w: Seq<char>)
    requires
        c == '-' || c == '_' || c == '*',
        forall|i: int| 0 <= i < w.len() ==> #[trigger] w[i] == ' ',
    ensures
        parsed_line(seq![c, c, c] + w) == Line::ThematicBreak,
{
    let head = seq![c, c, c];
    let l = head + w;
    assert(no_doubled_block_char(w)) by {
        assert forall|j: int| 0 <= j < w.len() - 1 implies !(#[trigger] w[j] == w[j + 1] && (w[j] == '%' || w[j]
            == '$' || w[j] == '!')) by {
            assert(w[j] == ' ');
        }
    }
    lemma_no_doubled_concat(head, w);
    lemma_no_block_pairs(l);
    assert(l[0] == c);
    lemma_starts_plain(l);
    lemma_trim_start_twice(l);
    assert(ws_suffix(l, w.len() as int)) by {
        assert forall|i: int| l.len() - w.len() <= i < l.len() implies is_ws(#[trigger] l[i]) by {
            assert(l[i] == w[i - 3]);
        }
        assert(l[2] == c);
    }
    lemma_trailing_ws(l, w.len() as int);
    assert(trim(l) =~= head);
}

/// `%%` then text: a one-line comment of the text, trimmed; `$$` then text
/// with no `%%`: a one-line formula. The text must not start with the same
/// character (three would open a block).
#[verifier::spinoff_prover]
pub proof fn lemma_comment_formula_line(c: char, r: Seq<char>)
    requires
        c == '%' || c == '$',
        r.len() == 0 || r[0] != c,
        c == '$' ==> (forall|j: int| 0 <= j < r.len() - 1 ==> !(#[trigger] r[j] == '%' && r[j + 1] == '%')),
    ensures
        c == '%' ==> parsed_line(seq![c, c] + r) == Line::Comment(inline_nodes(trim(r))),
        c == '$' ==> parsed_line(seq![c, c] + r) == Line::Formula(inline_nodes(trim(r))),
{
    let l = seq![c, c] + r;
    assert(l[0] == c && l[1] == c);
    lemma_starts_plain(l);
    if r.len() > 0 {
        assert(l[2] == r[0]);
    }
    if c == '$' {
        assert forall|j: int| 0 <= j && j + 1 < l.len() implies !(#[trigger] l[j] == '%' && l[j + 1] == '%') by {
            if j >= 2 {
                assert(l[j] == r[j - 2] && l[j + 1] == r[j - 1]);
            }
        }
        lemma_find_pair(l, '%', '%', None);
    }
    lemma_find_pair(l, c, c, Some(0));
    assert(l.skip(2) =~= r);
}

/// `!!` then a body with no `%%` or `$$`, not starting with `!`: a
/// one-line spoiler of the body.
#[verifier::spinoff_prover]
proof fn lemma_spoiler_prefix(body: Seq<char>)
    requires
        body.len() == 0 || body[0] != '!',
        no_doubled_block_char(body),
    ensures
        parsed_line(seq!['!', '!'] + body) == spoiler_line(body),
{
    let l = seq!['!', '!'] + body;
    assert(l[0] == '!' && l[1] == '!');
    lemma_starts_plain(l);
    if body.len() > 0 {
        assert(l[2] == body[0]);
    }
    assert forall|j: int| 0 <= j && j + 1 < l.len() implies !(#[trigger] l[j] == '%' && l[j + 1] == '%') by {
        if j >= 2 {
            assert(l[j] == body[j - 2] && l[j + 1] == body[j - 1]);
        }
    }
    assert forall|j: int| 0 <= j && j + 1 < l.len() implies !(#[trigger] l[j] == '$' && l[j + 1] == '$') by {
        if j >= 2 {
            assert(l[j] == body[j - 2] && l[j + 1] == body[j - 1]);
        }
    }
    lemma_find_pair(l, '%', '%', None);
    lemma_find_pair(l, '$', '$', None);
    lemma_find_pair(l, '!', '!', Some(0));
    assert(l.skip(2) =~= body);
}

/// `!!` then text with no `:`, no `%%` and no `$$`: a one-line spoiler of
/// the text, trimmed, with no title.
#[verifier::spinoff_prover]
pub proof fn lemma_untitled_spoiler_line(r: Seq<char>)
    requires
        r.len() == 0 || r[0] != '!',
        forall|j: int| 0 <= j < r.len() ==> #[trigger] r[j] != ':',
        no_doubled_block_char(r),
    ensures
        parsed_line(seq!['!', '!'] + r) == Line::Spoiler(None, inline_nodes(trim(r))),
{
    lemma_spoiler_prefix(r);
    let rest = trim(r);
    let a = leading_ws(r) as int;
    lemma_trim_window(r);
    assert forall|j: int| 0 <= j < rest.len() implies rest[j] != ':' by {
        assert(rest[j] == r[j + a]);
    }
    lemma_find_char(rest, ':', None);
}

/// `!! title: content`, the title and the content without whitespace at
/// their outer ends: a spoiler whose title is the text before the first
/// `:` and whose content is what follows it.
#[verifier::spinoff_prover]
pub proof fn lemma_titled_spoiler_line(title: Seq<char>, r: Seq<char>)
    requires
        title.len() > 0,
        title[0] != '!',
        !is_ws(title[0]),
        !is_ws(title.last()),
        forall|j: int| 0 <= j < title.len() ==> #[trigger] title[j] != ':',
        r.len() > 0 ==> !is_ws(r.last()),
        no_doubled_block_char(title),
        no_doubled_block_char(r),
        title.last() != '%' && title.last() != '$' && title.last() != '!',
    ensures
        parsed_line(seq!['!', '!'] + title + seq![':'] + r) == Line::Spoiler(Some(trim(title)), inline_nodes(trim(r))),
{
    let head = title + seq![':'];
    let body = head + r;
    let n = title.len() as int;
    assert(no_doubled_block_char(head)) by {
        assert forall|j: int| 0 <= j < head.len() - 1 implies !(#[trigger] head[j] == head[j + 1] && (head[j] == '%'
            || head[j] == '$' || head[j] == '!')) by {
            if j < n - 1 {
                assert(head[j] == title[j] && head[j + 1] == title[j + 1]);
            } else {
                assert(head[j + 1] == ':');
            }
        }
    }
    assert(head.last() == ':');
    lemma_no_doubled_concat(head, r);
    assert(body[0] == title[0]);
    assert(seq!['!', '!'] + title + seq![':'] + r =~= seq!['!', '!'] + body);
    lemma_spoiler_prefix(body);
    lemma_starts_plain(body);
    assert(body.last() == if r.len() > 0 { r.last() } else { ':' });
    assert(!is_ws(body.last()));
    assert(ws_suffix(body, 0));
    lemma_trailing_ws(body, 0);
    assert(trim(body) =~= body);
    assert forall|j: int| 0 <= j < n implies body[j] != ':' by {
        assert(body[j] == title[j]);
    }
    assert(body[n] == ':');
    lemma_find_char(body, ':', Some(n));
    assert(body.take(n) =~= title);
    assert(body.skip(n + 1) =~= r);
}

/// The cells joined with a `|` between each two.
pub open spec fn bar_joined(cells: Seq<Seq<char>>) -> Seq<char>
    decreases cells.len(),
{
    if cells.len() <= 1 {
        if cells.len() == 1 {
            cells[0]
        } else {
            seq![]
        }
    } else {
        cells[0] + seq!['|'] + bar_joined(cells.drop_first())
    }
}

/// A cell of a plain table: no `|`, no `:`, no doubled `%`, `$` or `!`, and
/// none of those three at its ends.
pub open spec fn plain_cell(c: Seq<char>) -> bool {
    &&& forall|j: int| 0 <= j < c.len() ==> #[trigger] c[j] != '|' && c[j] != ':'
    &&& no_doubled_block_char(c)
    &&& (c.len() > 0 ==> c[0] != '%' && c[0] != '$' && c[0] != '!' && c.last() != '%' && c.last() != '$'
        && c.last() != '!')
}

/// Splitting the joined cells at the bars gives the cells back.
proof fn lemma_split_joined(cells: Seq<Seq<char>>)
    requires
        cells.len() > 0,
        forall|i: int| 0 <= i < cells.len() ==> plain_cell(#[trigger] cells[i]),
    ensures
        split_bar(bar_joined(cells)) == cells,
        no_doubled_block_char(bar_joined(cells)),
        forall|j: int| 0 <= j < bar_joined(cells).len() ==> #[trigger] bar_joined(cells)[j] != ':',
    decreases cells.len(),
{
    let c0 = cells[0];
    assert(plain_cell(c0));
    if cells.len() == 1 {
        lemma_find_char(c0, '|', None);
        assert(split_bar(c0) == seq![c0]);
        assert(seq![c0] =~= cells);
    } else {
        let rest = cells.drop_first();
        assert forall|i: int| 0 <= i < rest.len() implies plain_cell(#[trigger] rest[i]) by {
            assert(rest[i] == cells[i + 1]);
        }
        lemma_split_joined(rest);
        let tail = bar_joined(rest);
        let j = c0 + seq!['|'] + tail;
        let n = c0.len() as int;
        assert forall|i: int| 0 <= i < n implies j[i] != '|' by {
            assert(j[i] == c0[i]);
        }
        assert(j[n] == '|');
        lemma_find_char(j, '|', Some(n));
        assert(j.take(n) =~= c0);
        assert(j.skip(n + 1) =~= tail);
        assert(seq![c0] + rest =~= cells);
        let head = c0 + seq!['|'];
        assert(no_doubled_block_char(head)) by {
            assert forall|k: int| 0 <= k < head.len() - 1 implies !(#[trigger] head[k] == head[k + 1] && (head[k]
                == '%' || head[k] == '$' || head[k] == '!')) by {
                if k < n - 1 {
                    assert(head[k] == c0[k] && head[k + 1] == c0[k + 1]);
                } else {
                    assert(head[k + 1] == '|');
                }
            }
        }
        assert(head.last() == '|');
        lemma_no_doubled_concat(head, tail);
        assert(j =~= head + tail);
        assert forall|k: int| 0 <= k < j.len() implies #[trigger] j[k] != ':' by {
            if k < n {
                assert(j[k] == c0[k]);
            } else if k > n {
                assert(j[k] == tail[k - n - 1]);
            }
        }
    }
}

/// The cells of split text with no `:`: each one's trimmed inline nodes.
proof fn lemma_cells_plain(segs: Seq<Seq<char>>)
    requires
        forall|i: int| 0 <= i < segs.len() ==> forall|j: int| 0 <= j < (#[trigger] segs[i]).len() ==> segs[i][j] != ':',
    ensures
        cells_of(segs) == Seq::new(segs.len(), |i: int| inline_nodes(trim(segs[i]))),
    decreases segs.len(),
{
    if segs.len() > 0 {
        let s0 = segs[0];
        let rest = segs.drop_first();
        assert forall|i: int| 0 <= i < rest.len() implies forall|j: int| 0 <= j < (#[trigger] rest[i]).len() ==> rest[i][j] != ':' by {
            assert(rest[i] == segs[i + 1]);
        }
        lemma_cells_plain(rest);
        let t = trim(s0);
        lemma_trim_window(s0);
        if t.len() > 0 {
            assert(t[0] == s0[leading_ws(s0) as int]);
            assert(t[t.len() - 1] == s0[t.len() - 1 + leading_ws(s0)]);
        }
        assert(cell_text(t) == t);
        lemma_trim_twice(s0);
        assert(cells_of(segs) =~= Seq::new(segs.len(), |i: int| inline_nodes(trim(segs[i]))));
    } else {
        assert(cells_of(segs) =~= Seq::new(segs.len(), |i: int| inline_nodes(trim(segs[i]))));
    }
}

/// A table row `|c1|c2|...|` of plain cells: one cell per piece between
/// bars, in order, each the inline nodes of its trimmed text.
#[verifier::spinoff_prover]
pub proof fn lemma_table_row_line(cells: Seq<Seq<char>>)
    requires
        cells.len() > 0,
        forall|i: int| 0 <= i < cells.len() ==> plain_cell(#[trigger] cells[i]),
    ensures
        parsed_line(seq!['|'] + bar_joined(cells) + seq!['|']) == Line::TableRow(
            Seq::new(cells.len(), |i: int| inline_nodes(trim(cells[i]))),
        ),
{
    lemma_split_joined(cells);
    let inner = bar_joined(cells);
    let l = seq!['|'] + inner + seq!['|'];
    let n = l.len() as int;
    assert(l[0] == '|' && l[n - 1] == '|');
    lemma_starts_plain(l);
    lemma_trim_start_twice(l);
    assert(!is_ws(l.last()));
    assert(ws_suffix(l, 0));
    lemma_trailing_ws(l, 0);
    assert(trim(l) =~= l);
    assert(no_doubled_block_char(l)) by {
        let head = seq!['|'];
        lemma_no_doubled_concat(head, inner);
        let hi = head + inner;
        assert(no_doubled_block_char(seq!['|']));
        if hi.len() > 0 {
            assert(hi.last() != '%' && hi.last() != '$' && hi.last() != '!') by {
                if inner.len() > 0 {
                    assert(hi.last() == inner.last());
                    lemma_joined_ends(cells);
                }
            }
        }
        lemma_no_doubled_concat(hi, seq!['|']);
        assert(l =~= hi + seq!['|']);
    }
    lemma_no_block_pairs(l);
    assert(!is_digit(l[0]));
    lemma_first_non_digit(l, Some(0));
    assert(l.subrange(1, n - 1) =~= inner);
    lemma_cells_plain(cells);
}

/// The joined cells end with the end of the last cell, or a bar.
proof fn lemma_joined_ends(cells: Seq<Seq<char>>)
    requires
        cells.len() > 0,
        forall|i: int| 0 <= i < cells.len() ==> plain_cell(#[trigger] cells[i]),
        bar_joined(cells).len() > 0,
    ensures
        bar_joined(cells).last() != '%' && bar_joined(cells).last() != '$' && bar_joined(cells).last() != '!',
    decreases cells.len(),
{
    assert(plain_cell(cells[0]));
    if cells.len() > 1 {
        let rest = cells.drop_first();
        assert forall|i: int| 0 <= i < rest.len() implies plain_cell(#[trigger] rest[i]) by {
            assert(rest[i] == cells[i + 1]);
        }
        let tail = bar_joined(rest);
        let j = cells[0] + seq!['|'] + tail;
        if tail.len() > 0 {
            lemma_joined_ends(rest);
            assert(j.last() == tail.last());
        } else {
            assert(j.last() == '|');
        }
    }
}

/// A line that starts with `%%%` or `$$$` is a comment or formula block
/// marker, whatever follows; `!!!` with nothing but whitespace after it is a
/// spoiler block marker.
#[verifier::spinoff_prover]
pub proof fn lemma_block_marker_line(c: char, r: Seq<char>)
    requires
        c == '%' || c == '$' || c == '!',
        c == '!' ==> (forall|i: int| 0 <= i < r.len() ==> is_ws(#[trigger] r[i])),
    ensures
        c == '%' ==> parsed_line(seq![c, c, c] + r) == Line::BlockMarker(BlockType::Comment),
        c == '$' ==> parsed_line(seq![c, c, c] + r) == Line::BlockMarker(BlockType::Formula),
        c == '!' ==> parsed_line(seq![c, c, c] + r) == Line::BlockMarker(BlockType::Spoiler),
{
    let l = seq![c, c, c] + r;
    assert(l[0] == c && l[1] == c && l[2] == c);
    lemma_starts_plain(l);
    assert(l.skip(3) =~= r);
    if c == '!' {
        lemma_trim_window(r);
        if trim(r).len() > 0 {
            let a = leading_ws(r) as int;
            lemma_leading_ws_prefix(r);
            assert(trim(r)[0] == r[a]);
        }
    }
}

/// `!!! title: rest`, the title without whitespace at its ends and with no
/// `:`, and the line ending in something other than whitespace: the opening
/// of a spoiler block with that title.
#[verifier::spinoff_prover]
pub proof fn lemma_spoiler_block_open_line(title: Seq<char>, r: Seq<char>)
    requires
        title.len() > 0,
        !is_ws(title[0]),
        !is_ws(title.last()),
        forall|j: int| 0 <= j < title.len() ==> #[trigger] title[j] != ':',
        r.len() > 0 ==> !is_ws(r.last()),
    ensures
        parsed_line(seq!['!', '!', '!'] + title + seq![':'] + r) == Line::SpoilerBlockOpen(Some(title)),
{
    let rest = title + seq![':'] + r;
    let l = seq!['!', '!', '!'] + rest;
    assert(seq!['!', '!', '!'] + title + seq![':'] + r =~= l);
    assert(l[0] == '!' && l[1] == '!' && l[2] == '!');
    lemma_starts_plain(l);
    assert(l.skip(3) =~= rest);
    lemma_spoiler_block_title(title, r);
}

/// What follows `!!!`: a title, `:`, the rest.
proof fn lemma_spoiler_block_title(title: Seq<char>, r: Seq<char>)
    requires
        title.len() > 0,
        !is_ws(title[0]),
        !is_ws(title.last()),
        forall|j: int| 0 <= j < title.len() ==> #[trigger] title[j] != ':',
        r.len() > 0 ==> !is_ws(r.last()),
    ensures
        spoiler_block_line(title + seq![':'] + r) == Line::SpoilerBlockOpen(Some(title)),
{
    let rest = title + seq![':'] + r;
    let n = title.len() as int;
    assert(rest[0] == title[0]);
    lemma_starts_plain(rest);
    assert(rest.last() == if r.len() > 0 { r.last() } else { ':' });
    assert(!is_ws(rest.last()));
    assert(ws_suffix(rest, 0));
    lemma_trailing_ws(rest, 0);
    assert(trim(rest) =~= rest);
    assert forall|j: int| 0 <= j < n implies rest[j] != ':' by {
        assert(rest[j] == title[j]);
    }
    assert(rest[n] == ':');
    lemma_find_char(rest, ':', Some(n));
    assert(rest.take(n) =~= title);
    lemma_starts_plain(title);
    assert(ws_suffix(title, 0));
    lemma_trailing_ws(title, 0);
    assert(trim(title) =~= title);
}

/// `#:` then text with no `%%`, `$$` or `!!`: a tag of the text, trimmed.
#[verifier::spinoff_prover]
pub proof fn lemma_tag_line(r: Seq<char>)
    requires
        no_doubled_block_char(r),
    ensures
        parsed_line(seq!['#', ':'] + r) == Line::Tag(trim(r)),
{
    let head = seq!['#', ':'];
    let l = head + r;
    assert(no_doubled_block_char(head));
    lemma_no_doubled_concat(head, r);
    lemma_no_block_pairs(l);
    assert(l[0] == '#' && l[1] == ':');
    lemma_starts_plain(l);
    lemma_trim_start_twice(l);
    let tail = l.skip(1);
    lemma_find_char_bounds(tail, '#');
    match find_char(tail, '#') {
        Some(end) => {
            if end > 0 {
                let t = l.subrange(1, end + 1);
                assert(t[0] == ':');
                assert(unsigned_digits(t) == t);
                assert(!all_digits(t));
            }
        },
        None => {},
    }
    assert(header_level(l) is None);
    assert(!is_digit(l[0]));
    lemma_first_non_digit(l, Some(0));
    assert(l.skip(2) =~= r);
}

/// String of the characters `[s, e)` of the line.
fn string_of(line: &str, v: &Vec<char>, s: usize, e: usize) -> (r: String)
    requires
        v@ == line@,
        s <= e <= v@.len(),
    ensures
        r@ == v@.subrange(s as int, e as int),
{
    line.substring_char(s, e).to_owned()
}

/// Inline nodes of the trimmed window `[lo, hi)`.
fn inline_trimmed(line: &str, v: &Vec<char>, lo: usize, hi: usize) -> (r: Vec<MarkupNode>)
    requires
        v@ == line@,
        lo <= hi <= v@.len(),
    ensures
        models(r@) == inline_nodes(trim(v@.subrange(lo as int, hi as int))),
{
    let (a, b) = trim_window(v, lo, hi);
    parse_inline_window(line, v, a, b)
}

/// `!!!...` of the window `[lo, hi)` (what follows the three `!`).
fn parse_spoiler_block(line: &str, v: &Vec<char>, lo: usize, hi: usize) -> (r: LineAST)
    requires
        v@ == line@,
        lo <= hi <= v@.len(),
    ensures
        r.model() == spoiler_block_line(v@.subrange(lo as int, hi as int)),
{
    let (s0, s1) = trim_window(v, lo, hi);
    if s0 == s1 {
        return LineAST::BlockMarker(BlockType::Spoiler);
    }
    match find_char_window(v, s0, s1, ':') {
        Some(e) => {
            let (t0, t1) = trim_window(v, s0, e);
            proof {
                let sr = v@.subrange(s0 as int, s1 as int);
                assert(sr.take(e - s0) =~= v@.subrange(s0 as int, e as int));
            }
            if t0 == t1 {
                LineAST::SpoilerBlockOpen(None)
            } else {
                LineAST::SpoilerBlockOpen(Some(string_of(line, v, t0, t1)))
            }
        },
        None => LineAST::BlockMarker(BlockType::Spoiler),
    }
}

/// `!!` spoiler of the window `[lo, hi)` (what follows the two `!`).
fn parse_spoiler_line(line: &str, v: &Vec<char>, lo: usize, hi: usize) -> (r: LineAST)
    requires
        v@ == line@,
        lo <= hi <= v@.len(),
    ensures
        r.model() == spoiler_line(v@.subrange(lo as int, hi as int)),
{
    let (r0, r1) = trim_window(v, lo, hi);
    let ghost rest = v@.subrange(r0 as int, r1 as int);
    match find_char_window(v, r0, r1, ':') {
        Some(e) => {
            let (t0, t1) = trim_window(v, r0, e);
            let title = string_of(line, v, t0, t1);
            let content = inline_trimmed(line, v, e + 1, r1);
            proof {
                assert(rest.take(e - r0) =~= v@.subrange(r0 as int, e as int));
                assert(rest.skip(e - r0 + 1) =~= v@.subrange(e + 1, r1 as int));
            }
            LineAST::Spoiler(Some(title), content)
        },
        None => LineAST::Spoiler(None, parse_inline_window(line, v, r0, r1)),
    }
}

/// The line panics the table-row parser: its trimmed text is a lone `|`.
pub open spec fn lone_bar(l: Seq<char>) -> bool {
    trim(l) == seq!['|']
}

/// Parses one line (without its `\n`).
#[verifier::spinoff_prover]
#[verifier::rlimit(60)]
pub fn parse_line(line: &str) -> (r: LineAST)
    requires
        !lone_bar(line@),
    ensures
        r.model() == parsed_line(line@),
{
    let v = chars_of(line);
    let n = v.len();
    let ghost l = v@;
    let a = skip_ws(&v, 0, n);
    let ghost tr = v@.subrange(a as int, n as int);
    assert(l.subrange(0, n as int) =~= l);
    assert(trim_start(l) =~= tr);
    if a == n {
        return LineAST::Empty;
    }
    assert(tr[0] == v@[a as int]);
    if n - a >= 3 && v[a] == '%' && v[a + 1] == '%' && v[a + 2] == '%' {
        return LineAST::BlockMarker(BlockType::Comment);
    }
    if n - a >= 3 && v[a] == '$' && v[a + 1] == '$' && v[a + 2] == '$' {
        return LineAST::BlockMarker(BlockType::Formula);
    }
    if n - a >= 3 && v[a] == '!' && v[a + 1] == '!' && v[a + 2] == '!' {
        assert(tr.skip(3) =~= v@.subrange(a + 3, n as int));
        return parse_spoiler_block(line, &v, a + 3, n);
    }
    assert(!starts3(tr, '%') && !starts3(tr, '$') && !starts3(tr, '!'));
    if let Some(p) = find_pair_window(&v, a, n, '%', '%') {
        assert(tr.skip(p - a + 2) =~= v@.subrange(p + 2, n as int));
        return LineAST::Comment(inline_trimmed(line, &v, p + 2, n));
    }
    if let Some(p) = find_pair_window(&v, a, n, '$', '$') {
        assert(tr.skip(p - a + 2) =~= v@.subrange(p + 2, n as int));
        return LineAST::Formula(inline_trimmed(line, &v, p + 2, n));
    }
    if let Some(p) = find_pair_window(&v, a, n, '!', '!') {
        assert(tr.skip(p - a + 2) =~= v@.subrange(p + 2, n as int));
        return parse_spoiler_line(line, &v, p + 2, n);
    }
    if v[a] == '#' {
        assert(tr.skip(1) =~= v@.subrange(a + 1, n as int));
        if let Some(end) = find_char_window(&v, a + 1, n, '#') {
            if end > a + 1 {
                assert(tr.subrange(1, end - a) =~= v@.subrange(a + 1, end as int));
                if let Some(level) = parse_u32_window(&v, a + 1, end) {
                    assert(tr.skip(end - a + 1) =~= v@.subrange(end + 1, n as int));
                    return LineAST::Header(level, inline_trimmed(line, &v, end + 1, n));
                }
            }
        }
    }
    assert(header_level(tr) is None);
    let (p0, p1) = trim_window(&v, a, n);
    let ghost pure = v@.subrange(p0 as int, p1 as int);
    if p1 - p0 == 3 {
        let c = v[p0];
        if (c == '-' || c == '_' || c == '*') && v[p0 + 1] == c && v[p0 + 2] == c {
            assert(pure[0] == c && pure[1] == c && pure[2] == c);
            return LineAST::ThematicBreak;
        }
    }
    assert(!(is3(trim(tr), '-') || is3(trim(tr), '_') || is3(trim(tr), '*')));
    let c0 = v[a];
    if (c0 == '-' || c0 == '*' || c0 == '+') && (a + 1 == n || v[a + 1] == ' ') {
        assert(tr.skip(1) =~= v@.subrange(a + 1, n as int));
        return LineAST::ListItem(false, 0, inline_trimmed(line, &v, a + 1, n));
    }
    assert(!is_bullet(tr));
    if let Some(end) = first_non_digit_window(&v, a, n) {
        if end > a && v[end] == '.' && (end + 1 == n || v[end + 1] == ' ') {
            assert(tr[end - a] == v@[end as int]);
            let num = match parse_u32_window(&v, a, end) {
                Some(x) => x,
                None => 1,
            };
            assert(tr.take(end - a) =~= v@.subrange(a as int, end as int));
            assert(tr.skip(end - a + 1) =~= v@.subrange(end + 1, n as int));
            return LineAST::ListItem(true, num, inline_trimmed(line, &v, end + 1, n));
        }
        assert(end + 1 < n ==> tr[end - a + 1] == v@[end + 1]);
    }
    assert(numbered_dot(tr) is None);
    if c0 == '>' {
        assert(tr.skip(1) =~= v@.subrange(a + 1, n as int));
        return LineAST::Quote(inline_trimmed(line, &v, a + 1, n));
    }
    if c0 == '|' {
        proof {
            assert(trim(l) == trim(tr)) by {
                assert(trim_start(l) == tr);
                lemma_trim_start_idempotent(l);
            }
        }
        return parse_table_row(line, &v, a, n);
    }
    if n - a >= 2 && c0 == '#' && v[a + 1] == ':' {
        assert(tr.skip(2) =~= v@.subrange(a + 2, n as int));
        let (t0, t1) = trim_window(&v, a + 2, n);
        return LineAST::Tag(string_of(line, &v, t0, t1));
    }
    LineAST::Paragraph(parse_inline_window(line, &v, a, n))
}

} // verus!
