//! `merge` assembles the trees of the lines into the document.

use vstd::prelude::*;
use crate::ast::doc::MarkupDoc;
use crate::parser::chars::{text_lines, strip_cr, chars_of, find_char_window};
use crate::parser::line::{parse_line, parsed_line, lone_bar};
use crate::ast::line::{BlockType, LineAST, Line, line_models};
use crate::ast::node::{
    MarkupNode, Node, models, rows_model, opt_model, copy_nodes, copy_rows, copy_opt_string,
    newline_node, lemma_models, lemma_rows_model, lemma_models_add, lemma_models_push,
};

verus! {

broadcast use {lemma_models, lemma_rows_model};

// ─── Model of the merge ───────────────────────────────────────

/// An open block (`%%%`, `$$$`, `!!!`) and what it has gathered so far.
pub struct Frame {
    pub block_type: BlockType,
    pub title: Option<Seq<char>>,
    pub content: Seq<Node>,
}

/// State of the merge between two lines.
pub struct MergeState {
    /// Top-level nodes emitted so far.
    pub doc: Seq<Node>,
    /// Open blocks, innermost last.
    pub blocks: Seq<Frame>,
    /// Lines of the pending paragraph.
    pub para: Seq<Seq<Node>>,
    /// Lines of the pending quote.
    pub quote: Seq<Seq<Node>>,
    /// Pending list items (already as list item nodes).
    pub list: Seq<Node>,
    /// Whether the pending list is ordered.
    pub list_ordered: Option<bool>,
    /// Pending table rows (already as table row nodes).
    pub table: Seq<Node>,
}

/// The text node that separates merged lines.
pub open spec fn nl() -> Node {
    Node::Text(seq!['\n'])
}

/// The lines joined with a `"\n"` text node between each two.
pub open spec fn join_lines(p: Seq<Seq<Node>>) -> Seq<Node>
    decreases p.len(),
{
    if p.len() == 0 {
        seq![]
    } else if p.len() == 1 {
        p[0]
    } else {
        join_lines(p.subrange(0, p.len() - 1)) + seq![nl()] + p[p.len() - 1]
    }
}

/// The state before the first line.
pub open spec fn initial_state() -> MergeState {
    MergeState {
        doc: seq![],
        blocks: seq![],
        para: seq![],
        quote: seq![],
        list: seq![],
        list_ordered: None,
        table: seq![],
    }
}

pub open spec fn flush_para(s: MergeState) -> MergeState {
    if s.para.len() == 0 {
        s
    } else {
        MergeState { doc: s.doc + join_lines(s.para), para: seq![], ..s }
    }
}

pub open spec fn flush_quote(s: MergeState) -> MergeState {
    if s.quote.len() == 0 {
        s
    } else {
        MergeState { doc: s.doc.push(Node::Quote(join_lines(s.quote))), quote: seq![], ..s }
    }
}

pub open spec fn flush_list(s: MergeState) -> MergeState {
    if s.list.len() == 0 {
        s
    } else {
        MergeState { doc: s.doc + s.list, list: seq![], list_ordered: None, ..s }
    }
}

pub open spec fn flush_table(s: MergeState) -> MergeState {
    if s.table.len() == 0 {
        s
    } else {
        MergeState { doc: s.doc + s.table, table: seq![], ..s }
    }
}

/// Flushes every pending group, in the order paragraph, quote, list, table.
pub open spec fn flush_groups(s: MergeState) -> MergeState {
    flush_table(flush_list(flush_quote(flush_para(s))))
}

/// Appends nodes to the innermost open block.
pub open spec fn extend_top(s: MergeState, nodes: Seq<Node>) -> MergeState
    recommends
        s.blocks.len() > 0,
{
    let top = s.blocks.last();
    MergeState {
        blocks: s.blocks.update(
            s.blocks.len() - 1,
            Frame { content: top.content + nodes, ..top },
        ),
        ..s
    }
}

/// Emits a node into the innermost open block, or into the document.
pub open spec fn emit(s: MergeState, n: Node) -> MergeState {
    if s.blocks.len() > 0 {
        extend_top(s, seq![n])
    } else {
        MergeState { doc: s.doc.push(n), ..s }
    }
}

/// The node a closed block becomes.
pub open spec fn frame_node(f: Frame) -> Node {
    match f.block_type {
        BlockType::Comment => Node::Comment(f.content),
        BlockType::Formula => Node::Formula(f.content),
        BlockType::Spoiler => Node::Spoiler(f.title, f.content),
    }
}

/// Closes the innermost open block.
pub open spec fn close_top(s: MergeState) -> MergeState
    recommends
        s.blocks.len() > 0,
{
    let f = s.blocks.last();
    emit(MergeState { blocks: s.blocks.drop_last(), ..s }, frame_node(f))
}

/// Opens a block.
pub open spec fn open_block(s: MergeState, bt: BlockType, title: Option<Seq<char>>) -> MergeState {
    MergeState { blocks: s.blocks.push(Frame { block_type: bt, title, content: seq![] }), ..s }
}

/// Raw block line: separated from earlier content by `"\n"`.
pub open spec fn add_raw_line(s: MergeState, text: Seq<char>) -> MergeState {
    if s.blocks.len() > 0 {
        if s.blocks.last().content.len() > 0 {
            extend_top(s, seq![nl(), Node::Text(text)])
        } else {
            extend_top(s, seq![Node::Text(text)])
        }
    } else {
        s
    }
}

/// One line of the merge.
pub open spec fn merge_step(s: MergeState, line: Line) -> MergeState {
    match line {
        Line::BlockMarker(bt) => {
            let s1 = flush_groups(s);
            if s1.blocks.len() > 0 && s1.blocks.last().block_type == bt {
                close_top(s1)
            } else {
                open_block(s1, bt, None)
            }
        },
        Line::SpoilerBlockOpen(title) => open_block(flush_groups(s), BlockType::Spoiler, title),
        Line::CodeLine(t) => add_raw_line(s, t),
        Line::CommentLine(t) => add_raw_line(s, t),
        Line::FormulaLine(t) => add_raw_line(s, t),
        Line::SpoilerLine(c) => if s.blocks.len() > 0 {
            extend_top(s, c.push(nl()))
        } else {
            s
        },
        Line::Paragraph(c) => if s.blocks.len() > 0 {
            extend_top(s, c.push(nl()))
        } else {
            let s1 = flush_table(flush_list(flush_quote(s)));
            if c.len() == 0 {
                s1
            } else {
                MergeState { para: s1.para.push(c), ..s1 }
            }
        },
        Line::Quote(c) => if s.blocks.len() > 0 {
            extend_top(s, c.push(nl()))
        } else {
            let s1 = flush_table(flush_list(flush_para(s)));
            MergeState { quote: s1.quote.push(c), ..s1 }
        },
        Line::ListItem(o, n, c) => if s.blocks.len() > 0 {
            extend_top(s, c.push(nl()))
        } else {
            let s1 = flush_table(flush_quote(flush_para(s)));
            let s2 = if s1.list_ordered == Some(!o) {
                flush_list(s1)
            } else {
                s1
            };
            MergeState { list: s2.list.push(Node::ListItem(o, n, c)), list_ordered: Some(o), ..s2 }
        },
        Line::TableRow(cells) => if s.blocks.len() > 0 {
            extend_top(s, seq![Node::TableRow(cells), nl()])
        } else {
            let s1 = flush_list(flush_quote(flush_para(s)));
            MergeState { table: s1.table.push(Node::TableRow(cells)), ..s1 }
        },
        Line::Header(l, c) => emit(flush_groups(s), Node::Header(l, c)),
        Line::Spoiler(t, c) => emit(flush_groups(s), Node::Spoiler(t, c)),
        Line::Comment(c) => emit(flush_groups(s), Node::Comment(c)),
        Line::Formula(c) => emit(flush_groups(s), Node::Formula(c)),
        Line::ThematicBreak => emit(flush_groups(s), Node::ThematicBreak),
        Line::Tag(_) => flush_groups(s),
        Line::Empty => flush_groups(s),
    }
}

/// State after merging all the lines.
pub open spec fn merge_states(lines: Seq<Line>) -> MergeState
    decreases lines.len(),
{
    if lines.len() == 0 {
        initial_state()
    } else {
        merge_step(merge_states(lines.drop_last()), lines.last())
    }
}

/// Closes every open block, innermost first.
pub open spec fn close_all(s: MergeState) -> MergeState
    decreases s.blocks.len(),
{
    if s.blocks.len() == 0 {
        s
    } else {
        close_all(close_top(s))
    }
}

/// The document built from the lines: every group flushed, every block closed.
pub open spec fn merged(lines: Seq<Line>) -> Seq<Node> {
    close_all(flush_groups(merge_states(lines))).doc
}


/// Whether nothing is open or pending: no block, no group of lines.
pub open spec fn quiescent(s: MergeState) -> bool {
    &&& s.blocks.len() == 0
    &&& s.para.len() == 0
    &&& s.quote.len() == 0
    &&& s.list.len() == 0
    &&& s.list_ordered is None
    &&& s.table.len() == 0
}

/// The state with `d` before the nodes it has emitted.
pub open spec fn after_doc(s: MergeState, d: Seq<Node>) -> MergeState {
    MergeState { doc: d + s.doc, ..s }
}

/// The merge of `b` continued from state `s`.
pub open spec fn run_from(s: MergeState, b: Seq<Line>) -> MergeState
    decreases b.len(),
{
    if b.len() == 0 {
        s
    } else {
        merge_step(run_from(s, b.drop_last()), b.last())
    }
}

proof fn lemma_flush_after_doc(s: MergeState, d: Seq<Node>)
    ensures
        flush_para(after_doc(s, d)) == after_doc(flush_para(s), d),
        flush_quote(after_doc(s, d)) == after_doc(flush_quote(s), d),
        flush_list(after_doc(s, d)) == after_doc(flush_list(s), d),
        flush_table(after_doc(s, d)) == after_doc(flush_table(s), d),
{
    assert(flush_para(after_doc(s, d)).doc =~= after_doc(flush_para(s), d).doc);
    assert(flush_quote(after_doc(s, d)).doc =~= after_doc(flush_quote(s), d).doc);
    assert(flush_list(after_doc(s, d)).doc =~= after_doc(flush_list(s), d).doc);
    assert(flush_table(after_doc(s, d)).doc =~= after_doc(flush_table(s), d).doc);
}

proof fn lemma_groups_after_doc(s: MergeState, d: Seq<Node>)
    ensures
        flush_groups(after_doc(s, d)) == after_doc(flush_groups(s), d),
{
    lemma_flush_after_doc(s, d);
    lemma_flush_after_doc(flush_para(s), d);
    lemma_flush_after_doc(flush_quote(flush_para(s)), d);
    lemma_flush_after_doc(flush_list(flush_quote(flush_para(s))), d);
}

proof fn lemma_emit_after_doc(s: MergeState, d: Seq<Node>, n: Node)
    ensures
        emit(after_doc(s, d), n) == after_doc(emit(s, n), d),
        close_top(after_doc(s, d)) == after_doc(close_top(s), d),
{
    assert(emit(after_doc(s, d), n).doc =~= after_doc(emit(s, n), d).doc);
    let f = s.blocks.last();
    let t = MergeState { blocks: s.blocks.drop_last(), ..s };
    assert(MergeState { blocks: s.blocks.drop_last(), ..after_doc(s, d) } == after_doc(t, d));
    assert(emit(after_doc(t, d), frame_node(f)).doc =~= after_doc(emit(t, frame_node(f)), d).doc);
}

/// A merge step does not read the nodes already emitted.
proof fn lemma_step_after_doc(s: MergeState, d: Seq<Node>, l: Line)
    ensures
        merge_step(after_doc(s, d), l) == after_doc(merge_step(s, l), d),
{
    lemma_groups_after_doc(s, d);
    lemma_flush_after_doc(s, d);
    lemma_flush_after_doc(flush_para(s), d);
    lemma_flush_after_doc(flush_quote(s), d);
    lemma_flush_after_doc(flush_quote(flush_para(s)), d);
    lemma_flush_after_doc(flush_list(flush_quote(s)), d);
    lemma_flush_after_doc(flush_list(flush_para(s)), d);
    lemma_flush_after_doc(flush_list(flush_quote(flush_para(s))), d);
    lemma_flush_after_doc(flush_table(flush_quote(flush_para(s))), d);
    match l {
        Line::BlockMarker(bt) => {
            lemma_emit_after_doc(flush_groups(s), d, nl());
        },
        Line::Header(lv, c) => {
            lemma_emit_after_doc(flush_groups(s), d, Node::Header(lv, c));
        },
        Line::Spoiler(t, c) => {
            lemma_emit_after_doc(flush_groups(s), d, Node::Spoiler(t, c));
        },
        Line::Comment(c) => {
            lemma_emit_after_doc(flush_groups(s), d, Node::Comment(c));
        },
        Line::Formula(c) => {
            lemma_emit_after_doc(flush_groups(s), d, Node::Formula(c));
        },
        Line::ThematicBreak => {
            lemma_emit_after_doc(flush_groups(s), d, Node::ThematicBreak);
        },
        Line::ListItem(o, n, c) => {
            let s1 = flush_table(flush_quote(flush_para(s)));
            lemma_flush_after_doc(s1, d);
        },
        _ => {},
    }
}

proof fn lemma_run_after_doc(s: MergeState, d: Seq<Node>, b: Seq<Line>)
    ensures
        run_from(after_doc(s, d), b) == after_doc(run_from(s, b), d),
    decreases b.len(),
{
    if b.len() > 0 {
        lemma_run_after_doc(s, d, b.drop_last());
        lemma_step_after_doc(run_from(s, b.drop_last()), d, b.last());
    }
}

proof fn lemma_close_all_after_doc(s: MergeState, d: Seq<Node>)
    ensures
        close_all(after_doc(s, d)) == after_doc(close_all(s), d),
    decreases s.blocks.len(),
{
    if s.blocks.len() > 0 {
        lemma_emit_after_doc(s, d, nl());
        lemma_close_all_after_doc(close_top(s), d);
    }
}

proof fn lemma_merge_states_concat(a: Seq<Line>, b: Seq<Line>)
    ensures
        merge_states(a + b) == run_from(merge_states(a), b),
    decreases b.len(),
{
    if b.len() == 0 {
        assert(a + b =~= a);
    } else {
        lemma_merge_states_concat(a, b.drop_last());
        assert((a + b).drop_last() =~= a + b.drop_last());
        assert((a + b).last() == b.last());
    }
}

proof fn lemma_merge_states_run(b: Seq<Line>)
    ensures
        merge_states(b) == run_from(initial_state(), b),
    decreases b.len(),
{
    if b.len() > 0 {
        lemma_merge_states_run(b.drop_last());
    }
}

/// Merging splits where nothing is left open: when the merge of `a` leaves
/// no block open and no group of lines pending, the document of `a + b` is
/// the document of `a` followed by the document of `b`.
pub proof fn lemma_merge_split(a: Seq<Line>, b: Seq<Line>)
    requires
        quiescent(merge_states(a)),
    ensures
        merged(a + b) == merged(a) + merged(b),
{
    let sa = merge_states(a);
    let d = sa.doc;
    assert(sa == after_doc(initial_state(), d)) by {
        assert(after_doc(initial_state(), d).doc =~= d);
        assert(sa.blocks =~= seq![]);
        assert(sa.para =~= seq![]);
        assert(sa.quote =~= seq![]);
        assert(sa.list =~= seq![]);
        assert(sa.table =~= seq![]);
    }
    lemma_merge_states_concat(a, b);
    lemma_merge_states_run(b);
    lemma_run_after_doc(initial_state(), d, b);
    lemma_groups_after_doc(merge_states(b), d);
    lemma_close_all_after_doc(flush_groups(merge_states(b)), d);
}

/// Blank lines at the end add nothing: when every line from `n` on is
/// `Empty`, the document is that of the first `n` lines.
pub proof fn lemma_trailing_empty_lines(lines: Seq<Line>, n: int)
    requires
        0 <= n <= lines.len(),
        forall|j: int| n <= j < lines.len() ==> #[trigger] lines[j] == Line::Empty,
    ensures
        merged(lines) == merged(lines.take(n)),
    decreases lines.len(),
{
    if lines.len() > n {
        let p = lines.drop_last();
        assert forall|j: int| n <= j < p.len() implies #[trigger] p[j] == Line::Empty by {
            assert(p[j] == lines[j]);
        }
        lemma_trailing_empty_lines(p, n);
        assert(lines[lines.len() - 1] == Line::Empty);
        let g = flush_groups(merge_states(p));
        assert(flush_groups(g) == g);
        assert(p.take(n) =~= lines.take(n));
    } else {
        assert(lines.take(n) =~= lines);
    }
}

/// A line that opens or closes a block (`%%%`, `$$$`, `!!!`, `!!! title:`).
pub open spec fn opens_block(l: Line) -> bool {
    l is BlockMarker || l is SpoilerBlockOpen
}

/// A line that only adds to the innermost open block: a code, comment,
/// formula or spoiler line.
pub open spec fn is_raw_line(l: Line) -> bool {
    l is CodeLine || l is CommentLine || l is FormulaLine || l is SpoilerLine
}

/// Without block lines no block is ever open.
proof fn lemma_no_block_open(lines: Seq<Line>)
    requires
        forall|i: int| 0 <= i < lines.len() ==> !opens_block(#[trigger] lines[i]),
    ensures
        merge_states(lines).blocks.len() == 0,
    decreases lines.len(),
{
    if lines.len() > 0 {
        let p = lines.drop_last();
        assert forall|i: int| 0 <= i < p.len() implies !opens_block(#[trigger] p[i]) by {
            assert(p[i] == lines[i]);
        }
        lemma_no_block_open(p);
        assert(!opens_block(lines[lines.len() - 1]));
    }
}

/// Raw block lines outside any block are inert: where no line opens or
/// closes a block, dropping every code, comment, formula and spoiler line
/// leaves the merge state, and so the document, unchanged. They neither add
/// anything nor break a paragraph, quote, list or table.
pub proof fn lemma_raw_lines_inert(lines: Seq<Line>)
    requires
        forall|i: int| 0 <= i < lines.len() ==> !opens_block(#[trigger] lines[i]),
    ensures
        merge_states(lines) == merge_states(lines.filter(|l: Line| !is_raw_line(l))),
        merged(lines) == merged(lines.filter(|l: Line| !is_raw_line(l))),
    decreases lines.len(),
{
    let keep = |l: Line| !is_raw_line(l);
    reveal(Seq::filter);
    if lines.len() > 0 {
        let p = lines.drop_last();
        let x = lines.last();
        assert forall|i: int| 0 <= i < p.len() implies !opens_block(#[trigger] p[i]) by {
            assert(p[i] == lines[i]);
        }
        lemma_raw_lines_inert(p);
        lemma_no_block_open(p);
        assert(!opens_block(lines[lines.len() - 1]));
        let fp = p.filter(keep);
        assert(lines.filter(keep) == if keep(x) { fp.push(x) } else { fp });
        if keep(x) {
            assert(fp.push(x).drop_last() =~= fp);
        }
    }
}

/// No list is pending without its kind, and no kind is kept without a list.
proof fn lemma_list_kind(lines: Seq<Line>)
    ensures
        merge_states(lines).list.len() == 0 ==> merge_states(lines).list_ordered is None,
    decreases lines.len(),
{
    if lines.len() > 0 {
        lemma_list_kind(lines.drop_last());
    }
}

/// A line that stands alone outside a block, and the node it becomes: a
/// thematic break, a header, a one-line spoiler, comment or formula.
pub open spec fn standalone_node(x: Line) -> Option<Node> {
    match x {
        Line::ThematicBreak => Some(Node::ThematicBreak),
        Line::Header(l, c) => Some(Node::Header(l, c)),
        Line::Spoiler(t, c) => Some(Node::Spoiler(t, c)),
        Line::Comment(c) => Some(Node::Comment(c)),
        Line::Formula(c) => Some(Node::Formula(c)),
        _ => None,
    }
}

/// Where nothing before opens a block, the state after `a` and `x` is
/// quiescent when `x` is a standalone, blank or tag line.
proof fn lemma_after_separator(a: Seq<Line>, x: Line)
    requires
        forall|i: int| 0 <= i < a.len() ==> !opens_block(#[trigger] a[i]),
        standalone_node(x) is Some || x is Empty || x is Tag,
    ensures
        quiescent(merge_states(a.push(x))),
        merged(a.push(x)) == merged(a) + (match standalone_node(x) {
            Some(n) => seq![n],
            None => seq![],
        }),
{
    let ax = a.push(x);
    lemma_no_block_open(a);
    lemma_list_kind(a);
    assert(ax.drop_last() =~= a);
    assert(ax.last() == x);
    let g = flush_groups(merge_states(a));
    assert(close_all(g) == g);
    assert(flush_groups(merge_states(ax)) == merge_states(ax));
    assert(close_all(merge_states(ax)) == merge_states(ax));
    match standalone_node(x) {
        Some(n) => {
            assert(merge_states(ax) == MergeState { doc: g.doc.push(n), ..g });
            assert(merged(ax) =~= merged(a) + seq![n]);
        },
        None => {
            assert(merge_states(ax) == g);
            assert(merged(ax) =~= merged(a) + seq![]);
        },
    }
}

/// A thematic break, header, one-line spoiler, comment or formula outside
/// any block ends what is pending before it and stands on its own: where no
/// line before it opens or closes a block, the document of `a`, the line,
/// then `b` is the document of `a`, the line's one node, then the document
/// of `b`.
pub proof fn lemma_standalone_line_splits(a: Seq<Line>, x: Line, b: Seq<Line>)
    requires
        forall|i: int| 0 <= i < a.len() ==> !opens_block(#[trigger] a[i]),
        standalone_node(x) is Some,
    ensures
        x is ThematicBreak ==> merged(a + seq![x] + b) == merged(a) + seq![Node::ThematicBreak] + merged(b),
        x matches Line::Header(l, c) ==> merged(a + seq![x] + b) == merged(a) + seq![Node::Header(l, c)] + merged(b),
        x matches Line::Spoiler(t, c) ==> merged(a + seq![x] + b) == merged(a) + seq![Node::Spoiler(t, c)] + merged(b),
        x matches Line::Comment(c) ==> merged(a + seq![x] + b) == merged(a) + seq![Node::Comment(c)] + merged(b),
        x matches Line::Formula(c) ==> merged(a + seq![x] + b) == merged(a) + seq![Node::Formula(c)] + merged(b),
{
    lemma_after_separator(a, x);
    assert(a + seq![x] + b =~= a.push(x) + b);
    lemma_merge_split(a.push(x), b);
}

/// A blank or tag line outside any block ends what is pending and adds
/// nothing: where no line before it opens or closes a block, the document
/// of `a`, the line, then `b` is the document of `a` followed by that of
/// `b`. So a blank line separates two paragraphs.
pub proof fn lemma_blank_line_splits(a: Seq<Line>, x: Line, b: Seq<Line>)
    requires
        forall|i: int| 0 <= i < a.len() ==> !opens_block(#[trigger] a[i]),
        x is Empty || x is Tag,
    ensures
        merged(a + seq![x] + b) == merged(a) + merged(b),
{
    lemma_after_separator(a, x);
    assert(a + seq![x] + b =~= a.push(x) + b);
    lemma_merge_split(a.push(x), b);
    assert(merged(a) + seq![] =~= merged(a));
}

/// Every line is a paragraph line with some content.
pub open spec fn paragraph_lines(p: Seq<Line>) -> bool {
    forall|i: int| 0 <= i < p.len() ==> (#[trigger] p[i]) is Paragraph && p[i]->Paragraph_0.len() > 0
}

/// Every line is a quote line.
pub open spec fn quote_lines(q: Seq<Line>) -> bool {
    forall|i: int| 0 <= i < q.len() ==> (#[trigger] q[i]) is Quote
}

/// Paragraph lines only gather: nothing is emitted, the contents wait.
proof fn lemma_paragraph_states(p: Seq<Line>)
    requires
        paragraph_lines(p),
    ensures
        merge_states(p) == (MergeState {
            para: Seq::new(p.len(), |i: int| p[i]->Paragraph_0),
            ..initial_state()
        }),
    decreases p.len(),
{
    if p.len() > 0 {
        let d = p.drop_last();
        assert forall|i: int| 0 <= i < d.len() implies (#[trigger] d[i]) is Paragraph && d[i]->Paragraph_0.len() > 0 by {
            assert(d[i] == p[i]);
        }
        lemma_paragraph_states(d);
        assert(p[p.len() - 1] is Paragraph);
        assert(Seq::new(d.len(), |i: int| d[i]->Paragraph_0).push(p.last()->Paragraph_0) =~= Seq::new(
            p.len(),
            |i: int| p[i]->Paragraph_0,
        ));
    } else {
        assert(Seq::new(p.len(), |i: int| p[i]->Paragraph_0) =~= seq![]);
    }
}

/// Quote lines only gather: nothing is emitted, the contents wait.
proof fn lemma_quote_states(q: Seq<Line>)
    requires
        quote_lines(q),
    ensures
        merge_states(q) == (MergeState { quote: Seq::new(q.len(), |i: int| q[i]->Quote_0), ..initial_state() }),
    decreases q.len(),
{
    if q.len() > 0 {
        let d = q.drop_last();
        assert forall|i: int| 0 <= i < d.len() implies (#[trigger] d[i]) is Quote by {
            assert(d[i] == q[i]);
        }
        lemma_quote_states(d);
        assert(q[q.len() - 1] is Quote);
        assert(Seq::new(d.len(), |i: int| d[i]->Quote_0).push(q.last()->Quote_0) =~= Seq::new(
            q.len(),
            |i: int| q[i]->Quote_0,
        ));
    } else {
        assert(Seq::new(q.len(), |i: int| q[i]->Quote_0) =~= seq![]);
    }
}

/// Consecutive paragraph lines form one paragraph in input order: one more
/// line adds a `"\n"` text node and its content after what the lines before
/// it give.
pub proof fn lemma_paragraph_lines_join(p: Seq<Line>, y: Seq<Node>)
    requires
        p.len() > 0,
        paragraph_lines(p),
        y.len() > 0,
    ensures
        merged(seq![Line::Paragraph(y)]) == y,
        merged(p.push(Line::Paragraph(y))) == merged(p) + seq![Node::Text(seq!['\n'])] + y,
{
    let one = seq![Line::Paragraph(y)];
    lemma_paragraph_states(one);
    assert(Seq::new(one.len(), |i: int| one[i]->Paragraph_0) =~= seq![y]);
    assert(join_lines(seq![y]) == y);
    let py = p.push(Line::Paragraph(y));
    assert forall|i: int| 0 <= i < py.len() implies (#[trigger] py[i]) is Paragraph && py[i]->Paragraph_0.len() > 0 by {
        if i < p.len() {
            assert(py[i] == p[i]);
        }
    }
    lemma_paragraph_states(p);
    lemma_paragraph_states(py);
    let c = Seq::new(p.len(), |i: int| p[i]->Paragraph_0);
    let cy = Seq::new(py.len(), |i: int| py[i]->Paragraph_0);
    assert(cy.subrange(0, cy.len() - 1) =~= c);
    assert(cy[cy.len() - 1] == y);
    assert(merged(p) == join_lines(c));
    assert(merged(py) == join_lines(cy));
}

/// Consecutive quote lines form one quote in input order: one more line
/// adds a `"\n"` text node and its content inside the quote.
pub proof fn lemma_quote_lines_join(q: Seq<Line>, y: Seq<Node>)
    requires
        q.len() > 0,
        quote_lines(q),
    ensures
        merged(seq![Line::Quote(y)]) == seq![Node::Quote(y)],
        merged(q).len() == 1,
        merged(q)[0] is Quote,
        merged(q.push(Line::Quote(y))) == seq![
            Node::Quote(merged(q)[0]->Quote_0 + seq![Node::Text(seq!['\n'])] + y),
        ],
{
    let one = seq![Line::Quote(y)];
    lemma_quote_states(one);
    assert(Seq::new(one.len(), |i: int| one[i]->Quote_0) =~= seq![y]);
    assert(join_lines(seq![y]) == y);
    assert(merged(one) =~= seq![Node::Quote(y)]);
    let qy = q.push(Line::Quote(y));
    assert forall|i: int| 0 <= i < qy.len() implies (#[trigger] qy[i]) is Quote by {
        if i < q.len() {
            assert(qy[i] == q[i]);
        }
    }
    lemma_quote_states(q);
    lemma_quote_states(qy);
    let c = Seq::new(q.len(), |i: int| q[i]->Quote_0);
    let cy = Seq::new(qy.len(), |i: int| qy[i]->Quote_0);
    assert(cy.subrange(0, cy.len() - 1) =~= c);
    assert(cy[cy.len() - 1] == y);
    assert(merged(q) =~= seq![Node::Quote(join_lines(c))]);
    assert(merged(qy) =~= seq![Node::Quote(join_lines(cy))]);
}

/// Every line is a list item line.
pub open spec fn list_lines(l: Seq<Line>) -> bool {
    forall|i: int| 0 <= i < l.len() ==> (#[trigger] l[i]) is ListItem
}

/// The list item node of a list item line.
pub open spec fn item_node(x: Line) -> Node {
    Node::ListItem(x->ListItem_0, x->ListItem_1, x->ListItem_2)
}

/// List item lines: what is emitted and what is pending are together the
/// items in order, and the pending list has the kind of its last item.
proof fn lemma_list_states(l: Seq<Line>)
    requires
        list_lines(l),
    ensures
        merge_states(l).doc + merge_states(l).list == Seq::new(l.len(), |i: int| item_node(l[i])),
        merge_states(l).blocks.len() == 0,
        merge_states(l).para.len() == 0,
        merge_states(l).quote.len() == 0,
        merge_states(l).table.len() == 0,
        merge_states(l).list.len() == 0 ==> merge_states(l).list_ordered is None,
        merge_states(l).list.len() > 0 ==> merge_states(l).list_ordered == Some(l.last()->ListItem_0),
    decreases l.len(),
{
    if l.len() > 0 {
        let d = l.drop_last();
        assert forall|i: int| 0 <= i < d.len() implies (#[trigger] d[i]) is ListItem by {
            assert(d[i] == l[i]);
        }
        lemma_list_states(d);
        let s = merge_states(d);
        let x = l.last();
        assert(x is ListItem);
        let items_d = Seq::new(d.len(), |i: int| item_node(d[i]));
        let items = Seq::new(l.len(), |i: int| item_node(l[i]));
        assert(items_d.push(item_node(x)) =~= items);
        let s2 = if s.list_ordered == Some(!x->ListItem_0) { flush_list(s) } else { s };
        assert(s2.doc + s2.list == items_d);
        assert(merge_states(l).doc =~= s2.doc);
        assert(merge_states(l).list =~= s2.list.push(item_node(x)));
        assert(s2.doc + s2.list.push(item_node(x)) =~= (s2.doc + s2.list).push(item_node(x)));
    } else {
        assert(Seq::new(l.len(), |i: int| item_node(l[i])) =~= seq![]);
        assert(merge_states(l).doc + merge_states(l).list =~= seq![]);
    }
}

/// Consecutive list item lines give one list item node each, in input
/// order, whatever their kinds: one more item line adds its node at the end.
pub proof fn lemma_list_items_in_order(l: Seq<Line>, o: bool, n: u32, c: Seq<Node>)
    requires
        list_lines(l),
    ensures
        merged(l.push(Line::ListItem(o, n, c))) == merged(l).push(Node::ListItem(o, n, c)),
        merged(seq![Line::ListItem(o, n, c)]) == seq![Node::ListItem(o, n, c)],
{
    let lx = l.push(Line::ListItem(o, n, c));
    assert forall|i: int| 0 <= i < lx.len() implies (#[trigger] lx[i]) is ListItem by {
        if i < l.len() {
            assert(lx[i] == l[i]);
        }
    }
    lemma_list_states(l);
    lemma_list_states(lx);
    let items = Seq::new(l.len(), |i: int| item_node(l[i]));
    let items_x = Seq::new(lx.len(), |i: int| item_node(lx[i]));
    assert(items.push(Node::ListItem(o, n, c)) =~= items_x);
    assert(merged(l) == items);
    assert(merged(lx) == items_x);
    let one = seq![Line::ListItem(o, n, c)];
    lemma_list_states(one);
    assert(Seq::new(one.len(), |i: int| item_node(one[i])) =~= seq![Node::ListItem(o, n, c)]);
}

/// Every line is a table row line.
pub open spec fn row_lines(t: Seq<Line>) -> bool {
    forall|i: int| 0 <= i < t.len() ==> (#[trigger] t[i]) is TableRow
}

/// Table row lines only gather: nothing is emitted, the rows wait.
proof fn lemma_row_states(t: Seq<Line>)
    requires
        row_lines(t),
    ensures
        merge_states(t) == (MergeState {
            table: Seq::new(t.len(), |i: int| Node::TableRow(t[i]->TableRow_0)),
            ..initial_state()
        }),
    decreases t.len(),
{
    if t.len() > 0 {
        let d = t.drop_last();
        assert forall|i: int| 0 <= i < d.len() implies (#[trigger] d[i]) is TableRow by {
            assert(d[i] == t[i]);
        }
        lemma_row_states(d);
        assert(t[t.len() - 1] is TableRow);
        assert(Seq::new(d.len(), |i: int| Node::TableRow(d[i]->TableRow_0)).push(
            Node::TableRow(t.last()->TableRow_0),
        ) =~= Seq::new(t.len(), |i: int| Node::TableRow(t[i]->TableRow_0)));
    } else {
        assert(Seq::new(t.len(), |i: int| Node::TableRow(t[i]->TableRow_0)) =~= seq![]);
    }
}

/// Consecutive table row lines give one row node each, in input order: one
/// more row line adds its row at the end.
pub proof fn lemma_table_rows_in_order(t: Seq<Line>, cells: Seq<Seq<Node>>)
    requires
        row_lines(t),
    ensures
        merged(t.push(Line::TableRow(cells))) == merged(t).push(Node::TableRow(cells)),
        merged(seq![Line::TableRow(cells)]) == seq![Node::TableRow(cells)],
{
    let tx = t.push(Line::TableRow(cells));
    assert forall|i: int| 0 <= i < tx.len() implies (#[trigger] tx[i]) is TableRow by {
        if i < t.len() {
            assert(tx[i] == t[i]);
        }
    }
    lemma_row_states(t);
    lemma_row_states(tx);
    let rows = Seq::new(t.len(), |i: int| Node::TableRow(t[i]->TableRow_0));
    let rows_x = Seq::new(tx.len(), |i: int| Node::TableRow(tx[i]->TableRow_0));
    assert(rows.push(Node::TableRow(cells)) =~= rows_x);
    assert(merged(t) =~= rows);
    assert(merged(tx) =~= rows_x);
    let one = seq![Line::TableRow(cells)];
    lemma_row_states(one);
    assert(Seq::new(one.len(), |i: int| Node::TableRow(one[i]->TableRow_0)) =~= seq![Node::TableRow(cells)]);
    assert(merged(one) =~= seq![Node::TableRow(cells)]);
}

/// A code, comment or formula line.
pub open spec fn text_line(x: Line) -> bool {
    x is CodeLine || x is CommentLine || x is FormulaLine
}

/// The text of a code, comment or formula line.
pub open spec fn line_text_of(x: Line) -> Seq<char> {
    match x {
        Line::CodeLine(t) => t,
        Line::CommentLine(t) => t,
        Line::FormulaLine(t) => t,
        _ => seq![],
    }
}

/// What a block gathers from text lines: their texts as text nodes, with a
/// `"\n"` node between each two.
pub open spec fn block_body(r: Seq<Line>) -> Seq<Node>
    decreases r.len(),
{
    if r.len() == 0 {
        seq![]
    } else if r.len() == 1 {
        seq![Node::Text(line_text_of(r[0]))]
    } else {
        block_body(r.drop_last()) + seq![nl(), Node::Text(line_text_of(r.last()))]
    }
}

/// Inside a block opened by the first line, text lines gather in the block.
proof fn lemma_block_states(opener: Line, bt: BlockType, title: Option<Seq<char>>, r: Seq<Line>)
    requires
        forall|i: int| 0 <= i < r.len() ==> text_line(#[trigger] r[i]),
        (opener == Line::BlockMarker(bt) && title is None) || (opener == Line::SpoilerBlockOpen(title) && bt
            == BlockType::Spoiler),
    ensures
        merge_states(seq![opener] + r) == (MergeState {
            blocks: seq![Frame { block_type: bt, title, content: block_body(r) }],
            ..initial_state()
        }),
    decreases r.len(),
{
    let l = seq![opener] + r;
    if r.len() == 0 {
        assert(l =~= seq![opener]);
        assert(l.drop_last() =~= Seq::<Line>::empty());
        assert(flush_groups(initial_state()) == initial_state());
        assert(merge_states(l.drop_last()) == initial_state());
        assert(merge_states(l) == merge_step(initial_state(), opener));
        assert(block_body(r) =~= Seq::<Node>::empty());
        assert(merge_states(l).blocks =~= seq![Frame { block_type: bt, title, content: block_body(r) }]);
    } else {
        let d = r.drop_last();
        assert forall|i: int| 0 <= i < d.len() implies text_line(#[trigger] d[i]) by {
            assert(d[i] == r[i]);
        }
        lemma_block_states(opener, bt, title, d);
        assert(l.drop_last() =~= seq![opener] + d);
        assert(l.last() == r.last());
        assert(text_line(r[r.len() - 1]));
        if d.len() == 0 {
            assert(block_body(d) =~= seq![]);
        } else {
            assert(block_body(d).len() > 0) by {
                if d.len() > 1 {
                    assert(block_body(d) == block_body(d.drop_last()) + seq![nl(), Node::Text(line_text_of(d.last()))]);
                }
            }
        }
        let s = merge_states(seq![opener] + d);
        let f = Frame { block_type: bt, title, content: block_body(r) };
        let x = r.last();
        assert(merge_states(l) == merge_step(s, x));
        assert(merge_step(s, x) == add_raw_line(s, line_text_of(x)));
        if d.len() == 0 {
            assert(block_body(r) =~= seq![Node::Text(line_text_of(x))]);
        } else {
            assert(block_body(r) == block_body(d) + seq![nl(), Node::Text(line_text_of(x))]);
        }
        assert(merge_states(l).blocks =~= seq![f]);
    }
}

/// A block of text lines between two markers of its type becomes one node
/// of that type holding the texts in order, with a `"\n"` node between each
/// two: a comment, a formula or an untitled spoiler.
pub proof fn lemma_block_of_text_lines(bt: BlockType, r: Seq<Line>)
    requires
        forall|i: int| 0 <= i < r.len() ==> text_line(#[trigger] r[i]),
    ensures
        ({
            let doc = merged(seq![Line::BlockMarker(bt)] + r + seq![Line::BlockMarker(bt)]);
            let body = block_body(r);
            &&& bt == BlockType::Comment ==> doc == seq![Node::Comment(body)]
            &&& bt == BlockType::Formula ==> doc == seq![Node::Formula(body)]
            &&& bt == BlockType::Spoiler ==> doc == seq![Node::Spoiler(None, body)]
        }),
        block_body(Seq::<Line>::empty()) == Seq::<Node>::empty(),
        r.len() == 1 ==> block_body(r) == seq![Node::Text(line_text_of(r[0]))],
        r.len() > 1 ==> block_body(r) == block_body(r.drop_last()) + seq![
            Node::Text(seq!['\n']),
            Node::Text(line_text_of(r.last())),
        ],
{
    lemma_block_states(Line::BlockMarker(bt), bt, None, r);
    let l = seq![Line::BlockMarker(bt)] + r + seq![Line::BlockMarker(bt)];
    assert(l.drop_last() =~= seq![Line::BlockMarker(bt)] + r);
    assert(l.last() == Line::BlockMarker(bt));
    let s = merge_states(l);
    assert(s.blocks =~= Seq::<Frame>::empty());
    assert(close_all(flush_groups(s)) == s);
    assert(merged(l) =~= seq![frame_node(Frame { block_type: bt, title: None, content: block_body(r) })]);
}

/// A spoiler block opened with a title (`!!! title:`) and closed by `!!!`
/// becomes one spoiler node with that title holding the texts of its text
/// lines in order, with a `"\n"` node between each two.
pub proof fn lemma_titled_spoiler_block(title: Option<Seq<char>>, r: Seq<Line>)
    requires
        forall|i: int| 0 <= i < r.len() ==> text_line(#[trigger] r[i]),
    ensures
        merged(seq![Line::SpoilerBlockOpen(title)] + r + seq![Line::BlockMarker(BlockType::Spoiler)]) == seq![
            Node::Spoiler(title, block_body(r)),
        ],
{
    let opener = Line::SpoilerBlockOpen(title);
    lemma_block_states(opener, BlockType::Spoiler, title, r);
    let l = seq![opener] + r + seq![Line::BlockMarker(BlockType::Spoiler)];
    assert(l.drop_last() =~= seq![opener] + r);
    assert(l.last() == Line::BlockMarker(BlockType::Spoiler));
    let s = merge_states(l);
    assert(s.blocks =~= Seq::<Frame>::empty());
    assert(close_all(flush_groups(s)) == s);
    assert(merged(l) =~= seq![Node::Spoiler(title, block_body(r))]);
}

/// Where the merge of `a` flushed is its document and nothing else, and the
/// first line of `b` flushes what `a` left pending, the document of `a + b`
/// is that of `a` followed by that of `b`.
proof fn lemma_split_after_flush(a: Seq<Line>, b: Seq<Line>)
    requires
        b.len() > 0,
        flush_groups(merge_states(a)) == after_doc(initial_state(), merged(a)),
        merge_step(merge_states(a), b[0]) == merge_step(flush_groups(merge_states(a)), b[0]),
    ensures
        merged(a + b) == merged(a) + merged(b),
{
    let d = merged(a);
    let b0 = b[0];
    let rest = b.drop_first();
    let ab0 = a.push(b0);
    assert(ab0.drop_last() =~= a);
    lemma_step_after_doc(initial_state(), d, b0);
    let one = seq![b0];
    assert(one.drop_last() =~= Seq::<Line>::empty());
    assert(merge_states(one) == merge_step(merge_states(Seq::<Line>::empty()), b0));
    assert(merge_states(Seq::<Line>::empty()) == initial_state());
    assert(ab0.last() == b0);
    assert(merge_states(ab0) == merge_step(merge_states(a), b0));
    assert(merge_states(ab0) == after_doc(merge_states(one), d));
    lemma_merge_states_concat(ab0, rest);
    assert(a + b =~= ab0 + rest);
    lemma_run_after_doc(merge_states(one), d, rest);
    lemma_merge_states_concat(one, rest);
    assert(one + rest =~= b);
    lemma_groups_after_doc(merge_states(b), d);
    lemma_close_all_after_doc(flush_groups(merge_states(b)), d);
    assert(after_doc(close_all(flush_groups(merge_states(b))), d).doc =~= d + merged(b));
}

/// Groups of lines of different kinds do not mix: a run of paragraph,
/// quote, list item or table row lines followed by lines that start with
/// another of these kinds gives the document of the run, then that of the
/// rest.
pub proof fn lemma_groups_do_not_mix(a: Seq<Line>, b: Seq<Line>)
    requires
        a.len() > 0,
        b.len() > 0,
        (paragraph_lines(a) && (b[0] is Quote || b[0] is ListItem || b[0] is TableRow)) || (quote_lines(a) && (
        b[0] is Paragraph || b[0] is ListItem || b[0] is TableRow)) || (list_lines(a) && (b[0] is Paragraph
            || b[0] is Quote || b[0] is TableRow)) || (row_lines(a) && (b[0] is Paragraph || b[0] is Quote
            || b[0] is ListItem)),
    ensures
        merged(a + b) == merged(a) + merged(b),
{
    let s = merge_states(a);
    let b0 = b[0];
    if paragraph_lines(a) && (b0 is Quote || b0 is ListItem || b0 is TableRow) {
        lemma_paragraph_states(a);
    } else if quote_lines(a) && (b0 is Paragraph || b0 is ListItem || b0 is TableRow) {
        lemma_quote_states(a);
    } else if list_lines(a) && (b0 is Paragraph || b0 is Quote || b0 is TableRow) {
        lemma_list_states(a);
    } else {
        lemma_row_states(a);
    }
    assert(close_all(flush_groups(s)) == flush_groups(s));
    let f = flush_groups(s);
    assert(f.blocks =~= Seq::<Frame>::empty());
    assert(f.para =~= Seq::<Seq<Node>>::empty());
    assert(f.quote =~= Seq::<Seq<Node>>::empty());
    assert(f.list =~= Seq::<Node>::empty());
    assert(f.table =~= Seq::<Node>::empty());
    assert(f.list_ordered is None);
    assert(after_doc(initial_state(), merged(a)).doc =~= merged(a));
    assert(f == after_doc(initial_state(), merged(a)));
    assert(merge_step(s, b0) == merge_step(flush_groups(s), b0));
    lemma_split_after_flush(a, b);
}

// ─── Implementation ──────────────────────────────────────────

/// An open block and the nodes it has gathered.
struct BlockFrame {
    block_type: BlockType,
    title: Option<String>,
    content: Vec<MarkupNode>,
}

impl BlockFrame {
    spec fn model(&self) -> Frame {
        Frame { block_type: self.block_type, title: opt_model(self.title), content: models(self.content@) }
    }

    /// Appends a raw line, after a `"\n"` when the block is not empty.
    fn add_line(&mut self, text: String)
        ensures
            final(self).block_type == old(self).block_type,
            opt_model(final(self).title) == opt_model(old(self).title),
            models(final(self).content@) == if old(self).content@.len() > 0 {
                models(old(self).content@) + seq![nl(), Node::Text(text@)]
            } else {
                models(old(self).content@) + seq![Node::Text(text@)]
            },
    {
        proof {
            lemma_models_push(self.content@, MarkupNode::Text(text));
        }
        if self.content.len() > 0 {
            let n = newline_node();
            proof {
                lemma_models_push(self.content@, n);
                lemma_models_push(self.content@.push(n), MarkupNode::Text(text));
            }
            self.content.push(n);
        }
        let ghost before = self.content@;
        self.content.push(MarkupNode::Text(text));
        proof {
            lemma_models_push(before, MarkupNode::Text(text));
        }
    }
}

spec fn frames_model(v: Seq<BlockFrame>) -> Seq<Frame> {
    Seq::new(v.len(), |i: int| v[i].model())
}

/// The node a closed block becomes.
fn block_to_node(bt: BlockType, title: Option<String>, content: Vec<MarkupNode>) -> (n: MarkupNode)
    ensures
        n.model() == frame_node(Frame { block_type: bt, title: opt_model(title), content: models(content@) }),
{
    match bt {
        BlockType::Comment => MarkupNode::Comment(content),
        BlockType::Formula => MarkupNode::Formula(content),
        BlockType::Spoiler => MarkupNode::Spoiler { title, children: content },
    }
}

/// Working state of `merge`.
struct Merger {
    doc: Vec<MarkupNode>,
    blocks: Vec<BlockFrame>,
    para: Vec<Vec<MarkupNode>>,
    quote: Vec<Vec<MarkupNode>>,
    list: Vec<MarkupNode>,
    list_ordered: Option<bool>,
    table: Vec<MarkupNode>,
}

impl Merger {
    spec fn model(&self) -> MergeState {
        MergeState {
            doc: models(self.doc@),
            blocks: frames_model(self.blocks@),
            para: rows_model(self.para@),
            quote: rows_model(self.quote@),
            list: models(self.list@),
            list_ordered: self.list_ordered,
            table: models(self.table@),
        }
    }

    fn new() -> (m: Self)
        ensures
            m.model() == initial_state(),
    {
        let m = Merger {
            doc: Vec::new(),
            blocks: Vec::new(),
            para: Vec::new(),
            quote: Vec::new(),
            list: Vec::new(),
            list_ordered: None,
            table: Vec::new(),
        };
        assert(m.model().blocks =~= seq![]);
        m
    }

    /// The lines of a buffer, in input order, joined by `"\n"` nodes.
    fn joined(buffer: &Vec<Vec<MarkupNode>>) -> (all: Vec<MarkupNode>)
        requires
            buffer@.len() > 0,
        ensures
            models(all@) == join_lines(rows_model(buffer@)),
    {
        let n = buffer.len();
        let ghost p = rows_model(buffer@);
        let mut all = copy_nodes(&buffer[0]);
        proof {
            lemma_rows_model(buffer@);
        }
        assert(p.take(1) =~= seq![p[0]]);
        assert(p[0] == models(buffer@[0]@));
        assert(join_lines(p.take(1)) == p.take(1)[0]);
        let mut k: usize = 1;
        while k < n
            invariant
                1 <= k <= n,
                n == buffer@.len(),
                p == rows_model(buffer@),
                models(all@) == join_lines(p.take(k as int)),
            decreases n - k,
        {
            let nl_node = newline_node();
            let mut next = copy_nodes(&buffer[k]);
            proof {
                lemma_models_push(all@, nl_node);
                lemma_models_add(all@.push(nl_node), next@);
                lemma_rows_model(buffer@);
                assert(p.take(k + 1).subrange(0, k as int) =~= p.take(k as int));
                assert(p[k as int] == models(buffer@[k as int]@));
            }
            all.push(nl_node);
            all.append(&mut next);
            k += 1;
        }
        assert(p.take(n as int) =~= p);
        all
    }

    fn flush_para(&mut self)
        ensures
            final(self).model() == flush_para(old(self).model()),
    {
        if self.para.len() == 0 {
            return;
        }
        let mut all = Self::joined(&self.para);
        proof {
            lemma_models_add(self.doc@, all@);
        }
        self.doc.append(&mut all);
        self.para = Vec::new();
        assert(rows_model(self.para@) =~= seq![]);
    }

    fn flush_quote(&mut self)
        ensures
            final(self).model() == flush_quote(old(self).model()),
    {
        if self.quote.len() == 0 {
            return;
        }
        let all = Self::joined(&self.quote);
        let node = MarkupNode::Quote(all);
        proof {
            lemma_models_push(self.doc@, node);
        }
        self.doc.push(node);
        self.quote = Vec::new();
        assert(rows_model(self.quote@) =~= seq![]);
    }

    fn flush_list(&mut self)
        ensures
            final(self).model() == flush_list(old(self).model()),
    {
        if self.list.len() == 0 {
            return;
        }
        proof {
            lemma_models_add(self.doc@, self.list@);
        }
        self.doc.append(&mut self.list);
        self.list_ordered = None;
        assert(models(self.list@) =~= seq![]);
    }

    fn flush_table(&mut self)
        ensures
            final(self).model() == flush_table(old(self).model()),
    {
        if self.table.len() == 0 {
            return;
        }
        proof {
            lemma_models_add(self.doc@, self.table@);
        }
        self.doc.append(&mut self.table);
        assert(models(self.table@) =~= seq![]);
    }

    fn flush_all(&mut self)
        ensures
            final(self).model() == flush_groups(old(self).model()),
    {
        self.flush_para();
        self.flush_quote();
        self.flush_list();
        self.flush_table();
    }

    fn extend_top(&mut self, nodes: Vec<MarkupNode>)
        requires
            old(self).blocks@.len() > 0,
        ensures
            final(self).model() == extend_top(old(self).model(), models(nodes@)),
    {
        let ghost old_model = self.model();
        let ghost n0 = nodes@;
        let mut nodes = nodes;
        let mut top = self.blocks.pop().unwrap();
        proof {
            lemma_models_add(top.content@, nodes@);
        }
        top.content.append(&mut nodes);
        self.blocks.push(top);
        assert(frames_model(self.blocks@) =~= extend_top(old_model, models(n0)).blocks);
    }

    fn emit(&mut self, n: MarkupNode)
        ensures
            final(self).model() == emit(old(self).model(), n.model()),
    {
        if self.blocks.len() > 0 {
            let mut v = Vec::new();
            v.push(n);
            proof {
                lemma_models_push(seq![], n);
                assert(seq![].push(n) =~= v@);
            }
            self.extend_top(v);
        } else {
            proof {
                lemma_models_push(self.doc@, n);
            }
            self.doc.push(n);
        }
    }

    fn close_top(&mut self)
        requires
            old(self).blocks@.len() > 0,
        ensures
            final(self).model() == close_top(old(self).model()),
    {
        let ghost m = self.model();
        let frame = self.blocks.pop().unwrap();
        let node = block_to_node(frame.block_type, frame.title, frame.content);
        assert(frames_model(self.blocks@) =~= m.blocks.drop_last());
        self.emit(node);
    }
}

impl Merger {
    /// Children of a line followed by `"\n"`, for a line inside a block.
    fn with_newline(children: &Vec<MarkupNode>) -> (v: Vec<MarkupNode>)
        ensures
            models(v@) == models(children@).push(nl()),
    {
        let mut v = copy_nodes(children);
        let n = newline_node();
        proof {
            lemma_models_push(v@, n);
        }
        v.push(n);
        v
    }

    /// A raw line of a code, comment or formula block.
    fn add_raw(&mut self, text: &String)
        ensures
            final(self).model() == add_raw_line(old(self).model(), text@),
    {
        if self.blocks.len() > 0 {
            let ghost m = self.model();
            let mut top = self.blocks.pop().unwrap();
            top.add_line(text.clone());
            self.blocks.push(top);
            assert(frames_model(self.blocks@) =~= add_raw_line(m, text@).blocks);
        }
    }

    /// Merges one line.
    fn step(&mut self, line: &LineAST)
        ensures
            final(self).model() == merge_step(old(self).model(), line.model()),
    {
        match line {
            LineAST::BlockMarker(bt) => {
                self.flush_all();
                let ghost m1 = self.model();
                if self.blocks.len() > 0 && self.blocks[self.blocks.len() - 1].block_type == *bt {
                    assert(m1.blocks.last().block_type == *bt);
                    self.close_top();
                    assert(self.model() == close_top(m1));
                    } else {
                    let ghost m = self.model();
                    assert(!(m1.blocks.len() > 0 && m1.blocks.last().block_type == *bt));
                    self.blocks.push(BlockFrame { block_type: *bt, title: None, content: Vec::new() });
                    assert(frames_model(self.blocks@) =~= open_block(m, *bt, None).blocks);
                    assert(self.model() == open_block(m1, *bt, None));
                    }
            },
            LineAST::SpoilerBlockOpen(title) => {
                self.flush_all();
                let ghost m = self.model();
                let t = copy_opt_string(title);
                self.blocks.push(BlockFrame { block_type: BlockType::Spoiler, title: t, content: Vec::new() });
                assert(frames_model(self.blocks@) =~= open_block(m, BlockType::Spoiler, opt_model(*title)).blocks);
            },
            LineAST::CodeLine(text) => self.add_raw(text),
            LineAST::CommentLine(text) => self.add_raw(text),
            LineAST::FormulaLine(text) => self.add_raw(text),
            LineAST::SpoilerLine(children) => {
                if self.blocks.len() > 0 {
                    self.extend_top(Self::with_newline(children));
                }
            },
            LineAST::Paragraph(children) => {
                if self.blocks.len() > 0 {
                    self.extend_top(Self::with_newline(children));
                } else {
                    self.flush_quote();
                    self.flush_list();
                    self.flush_table();
                    if children.len() > 0 {
                        let c = copy_nodes(children);
                        let ghost m = self.model();
                        self.para.push(c);
                        assert(rows_model(self.para@) =~= m.para.push(models(children@)));
                    }
                }
            },
            LineAST::Quote(children) => {
                if self.blocks.len() > 0 {
                    self.extend_top(Self::with_newline(children));
                } else {
                    self.flush_para();
                    self.flush_list();
                    self.flush_table();
                    let c = copy_nodes(children);
                    let ghost m = self.model();
                    self.quote.push(c);
                    assert(rows_model(self.quote@) =~= m.quote.push(models(children@)));
                }
            },
            LineAST::ListItem(ordered, number, children) => {
                if self.blocks.len() > 0 {
                    self.extend_top(Self::with_newline(children));
                } else {
                    self.flush_para();
                    self.flush_quote();
                    self.flush_table();
                    if let Some(is_ordered) = self.list_ordered {
                        if is_ordered != *ordered {
                            self.flush_list();
                        }
                    }
                    self.list_ordered = Some(*ordered);
                    let item = MarkupNode::ListItem { ordered: *ordered, number: *number, children: copy_nodes(children) };
                    proof {
                        lemma_models_push(self.list@, item);
                    }
                    self.list.push(item);
                }
            },
            LineAST::TableRow(cells) => {
                if self.blocks.len() > 0 {
                    let mut v = Vec::new();
                    v.push(MarkupNode::TableRow(copy_rows(cells)));
                    let n = newline_node();
                    proof {
                        lemma_models_push(v@, n);
                        lemma_models_push(seq![], v@[0]);
                        assert(seq![].push(v@[0]) =~= v@);
                    }
                    v.push(n);
                    assert(models(v@) =~= seq![Node::TableRow(rows_model(cells@)), nl()]);
                    self.extend_top(v);
                } else {
                    self.flush_para();
                    self.flush_quote();
                    self.flush_list();
                    let row = MarkupNode::TableRow(copy_rows(cells));
                    proof {
                        lemma_models_push(self.table@, row);
                    }
                    self.table.push(row);
                }
            },
            LineAST::Header(level, children) => {
                self.flush_all();
                self.emit(MarkupNode::Header { level: *level, children: copy_nodes(children) });
            },
            LineAST::Spoiler(title, children) => {
                self.flush_all();
                self.emit(MarkupNode::Spoiler { title: copy_opt_string(title), children: copy_nodes(children) });
            },
            LineAST::Comment(children) => {
                self.flush_all();
                self.emit(MarkupNode::Comment(copy_nodes(children)));
            },
            LineAST::Formula(children) => {
                self.flush_all();
                self.emit(MarkupNode::Formula(copy_nodes(children)));
            },
            LineAST::ThematicBreak => {
                self.flush_all();
                self.emit(MarkupNode::ThematicBreak);
            },
            LineAST::Tag(_) => {
                self.flush_all();
            },
            LineAST::Empty => {
                self.flush_all();
            },
        }
    }
}

/// Assembles the trees of the lines (one per line) into the document:
/// consecutive paragraph lines form one paragraph and consecutive quote lines
/// one quote, each in input order with a `"\n"` node between two lines;
/// list items and table rows are grouped the same way; block markers open
/// and close blocks that gather the lines between them.
pub fn merge(lines: &[LineAST]) -> (doc: MarkupDoc)
    ensures
        doc.model() == merged(line_models(lines@)),
{
    let ghost ls = line_models(lines@);
    let mut m = Merger::new();
    let mut i: usize = 0;
    while i < lines.len()
        invariant
            i <= lines@.len(),
            ls == line_models(lines@),
            m.model() == merge_states(ls.take(i as int)),
        decreases lines@.len() - i,
    {
        m.step(&lines[i]);
        proof {
            assert(ls.take(i + 1).drop_last() =~= ls.take(i as int));
        }
        i += 1;
    }
    assert(ls.take(lines@.len() as int) =~= ls);
    m.flush_all();
    while m.blocks.len() > 0
        invariant
            close_all(m.model()) == close_all(flush_groups(merge_states(ls))),
        decreases m.blocks@.len(),
    {
        m.close_top();
    }
    MarkupDoc { children: m.doc }
}

/// The trees of the given lines.
pub open spec fn parsed_lines(ls: Seq<Seq<char>>) -> Seq<Line> {
    Seq::new(ls.len(), |i: int| parsed_line(ls[i]))
}

/// No line of the text is a lone `|` (on which the line parser panics).
pub open spec fn no_lone_bar(t: Seq<char>) -> bool {
    forall|i: int| 0 <= i < text_lines(t).len() ==> !lone_bar(#[trigger] text_lines(t)[i])
}

/// Trees of the lines `[pos, n)` of the characters of `text`, appended to `out`.
fn parse_lines_from(text: &str, v: &Vec<char>, out: &mut Vec<LineAST>)
    requires
        v@ == text@,
        no_lone_bar(text@),
    ensures
        line_models(final(out)@) == line_models(old(out)@) + parsed_lines(text_lines(text@)),
{
    let n = v.len();
    let mut pos: usize = 0;
    let ghost start = line_models(out@);
    assert(v@.subrange(0, n as int) =~= v@);
    while pos < n
        invariant
            v@ == text@,
            no_lone_bar(text@),
            pos <= n == v@.len(),
            text_lines(v@.subrange(pos as int, n as int)).len() <= text_lines(text@).len(),
            forall|i: int| 0 <= i < text_lines(v@.subrange(pos as int, n as int)).len() ==>
                #[trigger] text_lines(v@.subrange(pos as int, n as int))[i]
                    == text_lines(text@)[text_lines(text@).len() - text_lines(v@.subrange(pos as int, n as int)).len() + i],
            line_models(out@) + parsed_lines(text_lines(v@.subrange(pos as int, n as int)))
                == start + parsed_lines(text_lines(text@)),
        decreases n - pos,
    {
        let ghost rest = v@.subrange(pos as int, n as int);
        let ghost rl = text_lines(rest);
        let ghost all = text_lines(text@);
        let ghost k = all.len() - rl.len();
        let e = match find_char_window(v, pos, n, '\n') {
            Some(e) => e,
            None => n,
        };
        let mut end = e;
        if end > pos && v[end - 1] == '\r' && e < n {
            end = end - 1;
        }
        let piece = text.substring_char(pos, end);
        proof {
            if e < n {
                assert(rest.take(e - pos) =~= v@.subrange(pos as int, e as int));
                assert(rest.skip(e - pos + 1) =~= v@.subrange(e + 1, n as int));
                assert(strip_cr(rest.take(e - pos)) =~= piece@);
                assert(rl == seq![piece@] + text_lines(v@.subrange(e + 1, n as int)));
            } else {
                assert(rl == seq![rest]);
                assert(piece@ =~= rest);
            }
            assert(rl[0] == piece@);
            assert(all[k] == piece@);
            assert(!lone_bar(all[k]));
        }
        let ast = parse_line(piece);
        let ghost before = out@;
        out.push(ast);
        proof {
            assert(line_models(out@) =~= line_models(before).push(parsed_line(piece@)));
            assert(parsed_lines(rl) =~= seq![parsed_line(piece@)] + parsed_lines(rl.drop_first()));
        }
        if e == n {
            proof {
                assert(rl.drop_first() =~= seq![]);
                assert(parsed_lines(rl.drop_first()) =~= seq![]);
                assert(line_models(out@) =~= line_models(out@) + parsed_lines(text_lines(v@.subrange(n as int, n as int))));
            }
            pos = n;
        } else {
            proof {
                assert(rl.drop_first() =~= text_lines(v@.subrange(e + 1, n as int)));
            }
            pos = e + 1;
        }
    }
    assert(text_lines(v@.subrange(n as int, n as int)) =~= seq![]);
    assert(parsed_lines(seq![]) =~= seq![]);
    assert(line_models(out@) + seq![] =~= line_models(out@));

}

/// Parses a whole text: split into lines, `parse_line` on each, `merge`.
pub fn parse_full(text: &str) -> (doc: MarkupDoc)
    requires
        no_lone_bar(text@),
    ensures
        doc.model() == merged(parsed_lines(text_lines(text@))),
{
    let v = chars_of(text);
    let mut lines: Vec<LineAST> = Vec::new();
    assert(line_models(lines@) =~= seq![]);
    parse_lines_from(text, &v, &mut lines);
    assert(line_models(lines@) =~= parsed_lines(text_lines(text@)));
    merge(&lines)
}

} // verus!
