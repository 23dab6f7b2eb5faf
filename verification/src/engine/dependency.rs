//! Span dependencies: the spans in construction order, with linear queries
//! for the spans inside or across a byte range.

use vstd::prelude::*;
use crate::engine::resolver::SyntaxSpan;

verus! {

/// The spans lying inside `[start, end)`.
pub open spec fn inside(s: Seq<SyntaxSpan>, start: usize, end: usize) -> Seq<SyntaxSpan> {
    s.filter(|sp: SyntaxSpan| sp.start >= start && sp.end <= end)
}

/// The spans crossing `[start, end)`.
pub open spec fn overlapping(s: Seq<SyntaxSpan>, start: usize, end: usize) -> Seq<SyntaxSpan> {
    s.filter(|sp: SyntaxSpan| sp.start < end && sp.end > start)
}

/// The spans inside `[start, end)` are exactly those of `s` that start at or
/// after `start` and end at or before `end`: each one kept lies in the range
/// and comes from `s`, each one of `s` in the range is kept, no more are
/// kept than `s` holds, and the query of two runs of spans is the query of the first
/// followed by that of the second, so the order of `s` is kept.
pub proof fn lemma_inside_exact(s: Seq<SyntaxSpan>, t: Seq<SyntaxSpan>, start: usize, end: usize)
    ensures
        forall|i: int| 0 <= i < inside(s, start, end).len() ==> start <= (#[trigger] inside(s, start, end)[i]).start
            && inside(s, start, end)[i].end <= end && s.contains(inside(s, start, end)[i]),
        forall|j: int| 0 <= j < s.len() && start <= (#[trigger] s[j]).start && s[j].end <= end ==> inside(
            s,
            start,
            end,
        ).contains(s[j]),
        inside(s, start, end).len() <= s.len(),
        inside(s + t, start, end) == inside(s, start, end) + inside(t, start, end),
{
    broadcast use vstd::seq_lib::group_filter_ensures, Seq::lemma_filter_contains_rev, Seq::filter_distributes_over_add;
    assert forall|i: int| 0 <= i < inside(s, start, end).len() implies start <= (#[trigger] inside(s, start, end)[i]).start
        && inside(s, start, end)[i].end <= end && s.contains(inside(s, start, end)[i]) by {
        assert(inside(s, start, end).contains(inside(s, start, end)[i]));
    }
    assert forall|j: int| 0 <= j < s.len() && start <= (#[trigger] s[j]).start && s[j].end <= end implies inside(
        s,
        start,
        end,
    ).contains(s[j]) by {
    }
}

/// The spans crossing `[start, end)` are exactly those of `s` that start
/// before `end` and end after `start`: each one kept crosses the range and
/// comes from `s`, each one of `s` that crosses it is kept, no more are
/// kept than `s` holds, and the query of two runs of spans is the query of
/// the first followed by that of the second, so the order of `s` is kept.
pub proof fn lemma_overlapping_exact(s: Seq<SyntaxSpan>, t: Seq<SyntaxSpan>, start: usize, end: usize)
    ensures
        forall|i: int| 0 <= i < overlapping(s, start, end).len() ==> (#[trigger] overlapping(s, start, end)[i]).start
            < end && overlapping(s, start, end)[i].end > start && s.contains(overlapping(s, start, end)[i]),
        forall|j: int| 0 <= j < s.len() && (#[trigger] s[j]).start < end && s[j].end > start ==> overlapping(
            s,
            start,
            end,
        ).contains(s[j]),
        overlapping(s, start, end).len() <= s.len(),
        overlapping(s + t, start, end) == overlapping(s, start, end) + overlapping(t, start, end),
{
    broadcast use vstd::seq_lib::group_filter_ensures, Seq::lemma_filter_contains_rev, Seq::filter_distributes_over_add;
    assert forall|i: int| 0 <= i < overlapping(s, start, end).len() implies (#[trigger] overlapping(s, start, end)[i]).start
        < end && overlapping(s, start, end)[i].end > start && s.contains(overlapping(s, start, end)[i]) by {
        assert(overlapping(s, start, end).contains(overlapping(s, start, end)[i]));
    }
    assert forall|j: int| 0 <= j < s.len() && (#[trigger] s[j]).start < end && s[j].end > start implies overlapping(
        s,
        start,
        end,
    ).contains(s[j]) by {
    }
}

/// Span dependency graph.
#[derive(Debug, Clone, Default)]
pub struct DependencyGraph {
    /// Spans in construction order (the engine's only copy).
    spans: Vec<SyntaxSpan>,
}

impl DependencyGraph {
    /// The spans, in construction order.
    pub closed spec fn view_spans(&self) -> Seq<SyntaxSpan> {
        self.spans@
    }

    /// Takes ownership of the spans; no sorting: the queries are linear.
    pub fn new(spans: Vec<SyntaxSpan>) -> (g: Self)
        ensures
            g.view_spans() == spans@,
    {
        DependencyGraph { spans }
    }

    /// The spans in construction order.
    pub fn spans(&self) -> (r: &[SyntaxSpan])
        ensures
            r@ == self.view_spans(),
    {
        self.spans.as_slice()
    }

    /// The spans lying entirely in `[start, end)`, in construction order.
    pub fn spans_in(&self, start: usize, end: usize) -> (r: Vec<&SyntaxSpan>)
        ensures
            r@.map_values(|p: &SyntaxSpan| *p) == inside(self.view_spans(), start, end),
    {
        let mut r: Vec<&SyntaxSpan> = Vec::new();
        let mut i: usize = 0;
        while i < self.spans.len()
            invariant
                i <= self.spans@.len(),
                r@.map_values(|p: &SyntaxSpan| *p) == inside(self.spans@.take(i as int), start, end),
            decreases self.spans@.len() - i,
        {
            let sp = &self.spans[i];
            proof {
                assert(self.spans@.take(i + 1).drop_last() =~= self.spans@.take(i as int));
                reveal_with_fuel(Seq::filter, 1);
            }
            if sp.start >= start && sp.end <= end {
                r.push(sp);
                assert(r@.map_values(|p: &SyntaxSpan| *p) =~= inside(self.spans@.take(i as int), start, end).push(*sp));
            }
            i += 1;
        }
        assert(self.spans@.take(self.spans@.len() as int) =~= self.spans@);
        r
    }

    /// The spans crossing `[start, end)`, in construction order.
    pub fn spans_overlapping(&self, start: usize, end: usize) -> (r: Vec<&SyntaxSpan>)
        ensures
            r@.map_values(|p: &SyntaxSpan| *p) == overlapping(self.view_spans(), start, end),
    {
        let mut r: Vec<&SyntaxSpan> = Vec::new();
        let mut i: usize = 0;
        while i < self.spans.len()
            invariant
                i <= self.spans@.len(),
                r@.map_values(|p: &SyntaxSpan| *p) == overlapping(self.spans@.take(i as int), start, end),
            decreases self.spans@.len() - i,
        {
            let sp = &self.spans[i];
            proof {
                assert(self.spans@.take(i + 1).drop_last() =~= self.spans@.take(i as int));
                reveal_with_fuel(Seq::filter, 1);
            }
            if sp.start < end && sp.end > start {
                r.push(sp);
                assert(r@.map_values(|p: &SyntaxSpan| *p) =~= overlapping(self.spans@.take(i as int), start, end).push(*sp));
            }
            i += 1;
        }
        assert(self.spans@.take(self.spans@.len() as int) =~= self.spans@);
        r
    }

    /// Number of spans.
    pub fn len(&self) -> (n: usize)
        ensures
            n == self.view_spans().len(),
    {
        self.spans.len()
    }

    /// Whether there is no span.
    pub fn is_empty(&self) -> (b: bool)
        ensures
            b == (self.view_spans().len() == 0),
    {
        self.spans.len() == 0
    }
}

} // verus!
