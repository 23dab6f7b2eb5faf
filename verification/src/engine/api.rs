//! Handles between the engine and the editor. Everything is said in byte
//! offsets; results are sent fire-and-forget, one batch per revision:
//! `begin_revision`, one typed call per span, `end_revision`.

use vstd::prelude::*;
use crate::engine::parser::{Engine, document_spans};
use crate::engine::resolver::{SyntaxKind, SyntaxSpan, inline_spans_in_line, spans_within};
use crate::engine::dependency::{inside, overlapping};
use crate::engine::line_map::{count_below, increasing};

verus! {

/// One call a sink receives: the start of a batch, one span, the end of a
/// batch.
#[derive(Debug, Clone, Copy, PartialEq, Eq, Structural)]
pub enum SinkCall {
    Begin(u64),
    Span(SyntaxSpan),
    End,
}

/// The call that hands over the span `[start, end)` of `kind`.
pub open spec fn span_call(start: usize, end: usize, kind: SyntaxKind) -> SinkCall {
    SinkCall::Span(SyntaxSpan { start, end, kind })
}

/// The calls that send a batch of spans for `revision`.
pub open spec fn batch_calls(revision: u64, spans: Seq<SyntaxSpan>) -> Seq<SinkCall> {
    seq![SinkCall::Begin(revision)] + spans.map_values(|sp: SyntaxSpan| SinkCall::Span(sp)) + seq![
        SinkCall::End,
    ]
}

/// Receiver of the spans, implemented by the editor: one method per
/// construct, every one required. The contract of each method is what an
/// implementation promises of its model, the calls it has received in order:
/// each method adds its own call. `CallLog` meets it, proved; of an
/// editor's own implementation it is believed.
pub trait SpanSink {
    /// The calls received so far, in order.
    spec fn calls(&self) -> Seq<SinkCall>;

    /// Start of a batch: every following call belongs to one revision.
    fn begin_revision(&mut self, revision: u64)
        ensures
            final(self).calls() == old(self).calls().push(SinkCall::Begin(revision)),
    ;

    fn on_bold(&mut self, start: usize, end: usize)
        ensures
            final(self).calls() == old(self).calls().push(span_call(start, end, SyntaxKind::Bold)),
    ;

    fn on_italic(&mut self, start: usize, end: usize)
        ensures
            final(self).calls() == old(self).calls().push(span_call(start, end, SyntaxKind::Italic)),
    ;

    fn on_underline(&mut self, start: usize, end: usize)
        ensures
            final(self).calls() == old(self).calls().push(span_call(start, end, SyntaxKind::Underline)),
    ;

    fn on_strikethrough(&mut self, start: usize, end: usize)
        ensures
            final(self).calls() == old(self).calls().push(span_call(start, end, SyntaxKind::Strikethrough)),
    ;

    fn on_highlight(&mut self, start: usize, end: usize)
        ensures
            final(self).calls() == old(self).calls().push(span_call(start, end, SyntaxKind::Highlight)),
    ;

    fn on_insertion(&mut self, start: usize, end: usize)
        ensures
            final(self).calls() == old(self).calls().push(span_call(start, end, SyntaxKind::Insertion)),
    ;

    fn on_deletion(&mut self, start: usize, end: usize)
        ensures
            final(self).calls() == old(self).calls().push(span_call(start, end, SyntaxKind::Deletion)),
    ;

    fn on_superscript(&mut self, start: usize, end: usize)
        ensures
            final(self).calls() == old(self).calls().push(span_call(start, end, SyntaxKind::Superscript)),
    ;

    fn on_subscript(&mut self, start: usize, end: usize)
        ensures
            final(self).calls() == old(self).calls().push(span_call(start, end, SyntaxKind::Subscript)),
    ;

    fn on_formula_inline(&mut self, start: usize, end: usize)
        ensures
            final(self).calls() == old(self).calls().push(span_call(start, end, SyntaxKind::FormulaInline)),
    ;

    fn on_comment_inline(&mut self, start: usize, end: usize)
        ensures
            final(self).calls() == old(self).calls().push(span_call(start, end, SyntaxKind::CommentInline)),
    ;

    fn on_spoiler_inline(&mut self, start: usize, end: usize)
        ensures
            final(self).calls() == old(self).calls().push(span_call(start, end, SyntaxKind::SpoilerInline)),
    ;

    fn on_code_inline(&mut self, start: usize, end: usize)
        ensures
            final(self).calls() == old(self).calls().push(span_call(start, end, SyntaxKind::CodeInline)),
    ;

    fn on_header(&mut self, start: usize, end: usize, level: u8)
        ensures
            final(self).calls() == old(self).calls().push(span_call(start, end, SyntaxKind::Header(level))),
    ;

    fn on_tag(&mut self, start: usize, end: usize)
        ensures
            final(self).calls() == old(self).calls().push(span_call(start, end, SyntaxKind::Tag)),
    ;

    fn on_quote(&mut self, start: usize, end: usize)
        ensures
            final(self).calls() == old(self).calls().push(span_call(start, end, SyntaxKind::Quote)),
    ;

    fn on_list_item(&mut self, start: usize, end: usize)
        ensures
            final(self).calls() == old(self).calls().push(span_call(start, end, SyntaxKind::ListItem)),
    ;

    fn on_table_row(&mut self, start: usize, end: usize)
        ensures
            final(self).calls() == old(self).calls().push(span_call(start, end, SyntaxKind::TableRow)),
    ;

    fn on_thematic_break(&mut self, start: usize, end: usize)
        ensures
            final(self).calls() == old(self).calls().push(span_call(start, end, SyntaxKind::ThematicBreak)),
    ;

    fn on_formula_line(&mut self, start: usize, end: usize)
        ensures
            final(self).calls() == old(self).calls().push(span_call(start, end, SyntaxKind::FormulaLine)),
    ;

    fn on_comment_line(&mut self, start: usize, end: usize)
        ensures
            final(self).calls() == old(self).calls().push(span_call(start, end, SyntaxKind::CommentLine)),
    ;

    fn on_spoiler_line(&mut self, start: usize, end: usize)
        ensures
            final(self).calls() == old(self).calls().push(span_call(start, end, SyntaxKind::SpoilerLine)),
    ;

    fn on_code_line(&mut self, start: usize, end: usize)
        ensures
            final(self).calls() == old(self).calls().push(span_call(start, end, SyntaxKind::CodeLine)),
    ;

    fn on_formula_block(&mut self, start: usize, end: usize)
        ensures
            final(self).calls() == old(self).calls().push(span_call(start, end, SyntaxKind::FormulaBlock)),
    ;

    fn on_comment_block(&mut self, start: usize, end: usize)
        ensures
            final(self).calls() == old(self).calls().push(span_call(start, end, SyntaxKind::CommentBlock)),
    ;

    fn on_spoiler_block(&mut self, start: usize, end: usize)
        ensures
            final(self).calls() == old(self).calls().push(span_call(start, end, SyntaxKind::SpoilerBlock)),
    ;

    fn on_code_block(&mut self, start: usize, end: usize)
        ensures
            final(self).calls() == old(self).calls().push(span_call(start, end, SyntaxKind::CodeBlock)),
    ;

    fn on_metadata(&mut self, start: usize, end: usize)
        ensures
            final(self).calls() == old(self).calls().push(span_call(start, end, SyntaxKind::Metadata)),
    ;

    /// End of a batch.
    fn end_revision(&mut self)
        ensures
            final(self).calls() == old(self).calls().push(SinkCall::End),
    ;
}

/// A sink that keeps every call it receives, in order.
pub struct CallLog {
    /// The calls received so far.
    pub received: Vec<SinkCall>,
}

impl CallLog {
    /// A log with no calls.
    pub fn new() -> (l: Self)
        ensures
            l.received@ == Seq::<SinkCall>::empty(),
    {
        CallLog { received: Vec::new() }
    }
}

impl SpanSink for CallLog {
    open spec fn calls(&self) -> Seq<SinkCall> {
        self.received@
    }

    fn begin_revision(&mut self, revision: u64) {
        self.received.push(SinkCall::Begin(revision));
    }

    fn on_bold(&mut self, start: usize, end: usize) {
        self.received.push(SinkCall::Span(SyntaxSpan { start, end, kind: SyntaxKind::Bold }));
    }

    fn on_italic(&mut self, start: usize, end: usize) {
        self.received.push(SinkCall::Span(SyntaxSpan { start, end, kind: SyntaxKind::Italic }));
    }

    fn on_underline(&mut self, start: usize, end: usize) {
        self.received.push(SinkCall::Span(SyntaxSpan { start, end, kind: SyntaxKind::Underline }));
    }

    fn on_strikethrough(&mut self, start: usize, end: usize) {
        self.received.push(SinkCall::Span(SyntaxSpan { start, end, kind: SyntaxKind::Strikethrough }));
    }

    fn on_highlight(&mut self, start: usize, end: usize) {
        self.received.push(SinkCall::Span(SyntaxSpan { start, end, kind: SyntaxKind::Highlight }));
    }

    fn on_insertion(&mut self, start: usize, end: usize) {
        self.received.push(SinkCall::Span(SyntaxSpan { start, end, kind: SyntaxKind::Insertion }));
    }

    fn on_deletion(&mut self, start: usize, end: usize) {
        self.received.push(SinkCall::Span(SyntaxSpan { start, end, kind: SyntaxKind::Deletion }));
    }

    fn on_superscript(&mut self, start: usize, end: usize) {
        self.received.push(SinkCall::Span(SyntaxSpan { start, end, kind: SyntaxKind::Superscript }));
    }

    fn on_subscript(&mut self, start: usize, end: usize) {
        self.received.push(SinkCall::Span(SyntaxSpan { start, end, kind: SyntaxKind::Subscript }));
    }

    fn on_formula_inline(&mut self, start: usize, end: usize) {
        self.received.push(SinkCall::Span(SyntaxSpan { start, end, kind: SyntaxKind::FormulaInline }));
    }

    fn on_comment_inline(&mut self, start: usize, end: usize) {
        self.received.push(SinkCall::Span(SyntaxSpan { start, end, kind: SyntaxKind::CommentInline }));
    }

    fn on_spoiler_inline(&mut self, start: usize, end: usize) {
        self.received.push(SinkCall::Span(SyntaxSpan { start, end, kind: SyntaxKind::SpoilerInline }));
    }

    fn on_code_inline(&mut self, start: usize, end: usize) {
        self.received.push(SinkCall::Span(SyntaxSpan { start, end, kind: SyntaxKind::CodeInline }));
    }

    fn on_tag(&mut self, start: usize, end: usize) {
        self.received.push(SinkCall::Span(SyntaxSpan { start, end, kind: SyntaxKind::Tag }));
    }

    fn on_quote(&mut self, start: usize, end: usize) {
        self.received.push(SinkCall::Span(SyntaxSpan { start, end, kind: SyntaxKind::Quote }));
    }

    fn on_list_item(&mut self, start: usize, end: usize) {
        self.received.push(SinkCall::Span(SyntaxSpan { start, end, kind: SyntaxKind::ListItem }));
    }

    fn on_table_row(&mut self, start: usize, end: usize) {
        self.received.push(SinkCall::Span(SyntaxSpan { start, end, kind: SyntaxKind::TableRow }));
    }

    fn on_thematic_break(&mut self, start: usize, end: usize) {
        self.received.push(SinkCall::Span(SyntaxSpan { start, end, kind: SyntaxKind::ThematicBreak }));
    }

    fn on_formula_line(&mut self, start: usize, end: usize) {
        self.received.push(SinkCall::Span(SyntaxSpan { start, end, kind: SyntaxKind::FormulaLine }));
    }

    fn on_comment_line(&mut self, start: usize, end: usize) {
        self.received.push(SinkCall::Span(SyntaxSpan { start, end, kind: SyntaxKind::CommentLine }));
    }

    fn on_spoiler_line(&mut self, start: usize, end: usize) {
        self.received.push(SinkCall::Span(SyntaxSpan { start, end, kind: SyntaxKind::SpoilerLine }));
    }

    fn on_code_line(&mut self, start: usize, end: usize) {
        self.received.push(SinkCall::Span(SyntaxSpan { start, end, kind: SyntaxKind::CodeLine }));
    }

    fn on_formula_block(&mut self, start: usize, end: usize) {
        self.received.push(SinkCall::Span(SyntaxSpan { start, end, kind: SyntaxKind::FormulaBlock }));
    }

    fn on_comment_block(&mut self, start: usize, end: usize) {
        self.received.push(SinkCall::Span(SyntaxSpan { start, end, kind: SyntaxKind::CommentBlock }));
    }

    fn on_spoiler_block(&mut self, start: usize, end: usize) {
        self.received.push(SinkCall::Span(SyntaxSpan { start, end, kind: SyntaxKind::SpoilerBlock }));
    }

    fn on_code_block(&mut self, start: usize, end: usize) {
        self.received.push(SinkCall::Span(SyntaxSpan { start, end, kind: SyntaxKind::CodeBlock }));
    }

    fn on_metadata(&mut self, start: usize, end: usize) {
        self.received.push(SinkCall::Span(SyntaxSpan { start, end, kind: SyntaxKind::Metadata }));
    }

    fn on_header(&mut self, start: usize, end: usize, level: u8) {
        self.received.push(SinkCall::Span(SyntaxSpan { start, end, kind: SyntaxKind::Header(level) }));
    }

    fn end_revision(&mut self) {
        self.received.push(SinkCall::End);
    }
}

/// Sends one span to the handle of its kind, with its bounds.
pub fn dispatch_span<S: SpanSink>(sink: &mut S, span: SyntaxSpan)
    ensures
        final(sink).calls() == old(sink).calls().push(SinkCall::Span(span)),
{
    let (start, end) = (span.start, span.end);
    match span.kind {
        SyntaxKind::Bold => sink.on_bold(start, end),
        SyntaxKind::Italic => sink.on_italic(start, end),
        SyntaxKind::Underline => sink.on_underline(start, end),
        SyntaxKind::Strikethrough => sink.on_strikethrough(start, end),
        SyntaxKind::Highlight => sink.on_highlight(start, end),
        SyntaxKind::Insertion => sink.on_insertion(start, end),
        SyntaxKind::Deletion => sink.on_deletion(start, end),
        SyntaxKind::Superscript => sink.on_superscript(start, end),
        SyntaxKind::Subscript => sink.on_subscript(start, end),
        SyntaxKind::FormulaInline => sink.on_formula_inline(start, end),
        SyntaxKind::CommentInline => sink.on_comment_inline(start, end),
        SyntaxKind::SpoilerInline => sink.on_spoiler_inline(start, end),
        SyntaxKind::CodeInline => sink.on_code_inline(start, end),
        SyntaxKind::Header(level) => sink.on_header(start, end, level),
        SyntaxKind::Tag => sink.on_tag(start, end),
        SyntaxKind::Quote => sink.on_quote(start, end),
        SyntaxKind::ListItem => sink.on_list_item(start, end),
        SyntaxKind::TableRow => sink.on_table_row(start, end),
        SyntaxKind::ThematicBreak => sink.on_thematic_break(start, end),
        SyntaxKind::FormulaLine => sink.on_formula_line(start, end),
        SyntaxKind::CommentLine => sink.on_comment_line(start, end),
        SyntaxKind::SpoilerLine => sink.on_spoiler_line(start, end),
        SyntaxKind::CodeLine => sink.on_code_line(start, end),
        SyntaxKind::FormulaBlock => sink.on_formula_block(start, end),
        SyntaxKind::CommentBlock => sink.on_comment_block(start, end),
        SyntaxKind::SpoilerBlock => sink.on_spoiler_block(start, end),
        SyntaxKind::CodeBlock => sink.on_code_block(start, end),
        SyntaxKind::Metadata => sink.on_metadata(start, end),
    }
}

/// Sends the spans as one batch of revision `revision`, in order.
pub fn dispatch_spans<S: SpanSink>(sink: &mut S, revision: u64, spans: &[SyntaxSpan])
    ensures
        final(sink).calls() == old(sink).calls() + batch_calls(revision, spans@),
{
    let ghost before = sink.calls();
    sink.begin_revision(revision);
    let mut i: usize = 0;
    while i < spans.len()
        invariant
            i <= spans@.len(),
            sink.calls() == before.push(SinkCall::Begin(revision)) + spans@.take(i as int).map_values(
                |sp: SyntaxSpan| SinkCall::Span(sp),
            ),
        decreases spans@.len() - i,
    {
        let ghost prev = sink.calls();
        dispatch_span(sink, spans[i]);
        proof {
            assert(spans@.take(i + 1).map_values(|sp: SyntaxSpan| SinkCall::Span(sp)) =~= spans@.take(
                i as int,
            ).map_values(|sp: SyntaxSpan| SinkCall::Span(sp)).push(SinkCall::Span(spans@[i as int])));
        }
        i += 1;
    }
    sink.end_revision();
    proof {
        assert(spans@.take(spans@.len() as int) =~= spans@);
        assert(sink.calls() =~= before + batch_calls(revision, spans@));
    }
}

impl Engine {
    /// Parses a whole document and sends its spans to the sink as the batch
    /// of revision 0, in order of creation.
    pub fn parse_into<S: SpanSink>(text: &[u8], sink: &mut S) -> (e: Self)
        ensures
            final(sink).calls() == old(sink).calls() + batch_calls(0, document_spans(text@)),
            e.revision == 0,
            e.holds(text@),
            spans_within(e.dependencies.view_spans(), text@.len() as int),
            inline_spans_in_line(e.dependencies.view_spans(), text@),
    {
        let e = Engine::parse(text);
        dispatch_spans(sink, 0, e.spans());
        e
    }

    /// Parses the new buffer and sends its spans to the sink as the batch of
    /// the new revision.
    pub fn reparse_into<S: SpanSink>(&mut self, text: &[u8], sink: &mut S) -> (r: &[SyntaxSpan])
        requires
            old(self).revision < u64::MAX,
        ensures
            final(self).revision == old(self).revision + 1,
            final(self).holds(text@),
            final(sink).calls() == old(sink).calls() + batch_calls(final(self).revision, document_spans(text@)),
            r@ == document_spans(text@),
            spans_within(r@, text@.len() as int),
            inline_spans_in_line(r@, text@),
    {
        self.reparse(text);
        dispatch_spans(sink, self.revision, self.spans());
        self.spans()
    }
}

/// The handle the editor holds on the engine.
pub struct EngineHandle {
    engine: Engine,
}

impl EngineHandle {
    /// The engine behind the handle.
    pub closed spec fn engine(&self) -> Engine {
        self.engine
    }

    /// Parses a document from scratch (revision 0).
    pub fn parse(text: &[u8]) -> (h: Self)
        ensures
            h.engine().revision == 0,
            h.engine().holds(text@),
            spans_within(h.engine().dependencies.view_spans(), text@.len() as int),
            inline_spans_in_line(h.engine().dependencies.view_spans(), text@),
    {
        EngineHandle { engine: Engine::parse(text) }
    }

    /// Current revision.
    pub fn revision(&self) -> (r: u64)
        ensures
            r == self.engine().revision,
    {
        self.engine.revision
    }

    /// Current syntax spans.
    pub fn spans(&self) -> (r: &[SyntaxSpan])
        ensures
            r@ == self.engine().dependencies.view_spans(),
    {
        self.engine.spans()
    }

    /// Line (0-based) of a byte offset.
    pub fn line_at(&self, byte: usize) -> (r: usize)
        ensures
            increasing(self.engine().line_map.newline_positions@) ==> r == count_below(
                self.engine().line_map.newline_positions@,
                byte,
            ),
    {
        self.engine.line_at(byte)
    }

    /// Spans lying entirely in `[start, end)`.
    pub fn spans_in(&self, start: usize, end: usize) -> (r: Vec<&SyntaxSpan>)
        ensures
            r@.map_values(|p: &SyntaxSpan| *p) == inside(self.engine().dependencies.view_spans(), start, end),
    {
        self.engine.dependencies.spans_in(start, end)
    }

    /// Spans crossing `[start, end)`.
    pub fn spans_overlapping(&self, start: usize, end: usize) -> (r: Vec<&SyntaxSpan>)
        ensures
            r@.map_values(|p: &SyntaxSpan| *p) == overlapping(self.engine().dependencies.view_spans(), start, end),
    {
        self.engine.dependencies.spans_overlapping(start, end)
    }

    /// Reparses the editor's new buffer and sends the spans to the sink.
    pub fn reparse<S: SpanSink>(&mut self, text: &[u8], sink: &mut S) -> (r: &[SyntaxSpan])
        requires
            old(self).engine().revision < u64::MAX,
        ensures
            final(self).engine().revision == old(self).engine().revision + 1,
            final(self).engine().holds(text@),
            final(sink).calls() == old(sink).calls() + batch_calls(
                final(self).engine().revision,
                document_spans(text@),
            ),
            r@ == document_spans(text@),
            spans_within(r@, text@.len() as int),
            inline_spans_in_line(r@, text@),
    {
        self.engine.reparse_into(text, sink)
    }
}

} // verus!
