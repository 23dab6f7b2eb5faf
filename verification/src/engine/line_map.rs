//! Line map: the positions of the `\n` bytes; byte offset to line number and
//! line bounds.

use vstd::prelude::*;
use crate::engine::bytes::NEWLINE;
use crate::engine::simd::Event;

verus! {

/// Positions of the events whose byte is `\n`, in order.
pub open spec fn newline_events(events: Seq<Event>) -> Seq<usize>
    decreases events.len(),
{
    if events.len() == 0 {
        seq![]
    } else if events.last().byte == NEWLINE {
        newline_events(events.drop_last()).push(events.last().position)
    } else {
        newline_events(events.drop_last())
    }
}

/// Strictly increasing positions.
pub open spec fn increasing(s: Seq<usize>) -> bool {
    forall|i: int, j: int| 0 <= i < j < s.len() ==> s[i] < s[j]
}

/// Number of entries of `s` that are `< x`.
pub open spec fn count_below(s: Seq<usize>, x: usize) -> nat
    decreases s.len(),
{
    if s.len() == 0 {
        0
    } else if s.last() < x {
        count_below(s.drop_last(), x) + 1
    } else {
        count_below(s.drop_last(), x)
    }
}

/// Line map of a document.
#[derive(Debug, Clone, Default)]
pub struct LineMap {
    /// Absolute positions of the `\n` bytes (increasing).
    pub newline_positions: Vec<usize>,
}

impl LineMap {
    /// Line map over these newline positions.
    pub fn new(newline_positions: Vec<usize>) -> (m: Self)
        ensures
            m.newline_positions@ == newline_positions@,
    {
        LineMap { newline_positions }
    }

    /// Line map from the events of the primary stream.
    pub fn from_events(events: &[Event]) -> (m: Self)
        ensures
            m.newline_positions@ == newline_events(events@),
    {
        let mut newline_positions: Vec<usize> = Vec::new();
        let mut i: usize = 0;
        while i < events.len()
            invariant
                i <= events@.len(),
                newline_positions@ == newline_events(events@.take(i as int)),
            decreases events@.len() - i,
        {
            proof {
                assert(events@.take(i + 1).drop_last() =~= events@.take(i as int));
            }
            if events[i].byte == NEWLINE {
                newline_positions.push(events[i].position);
            }
            i += 1;
        }
        assert(events@.take(events@.len() as int) =~= events@);
        LineMap { newline_positions }
    }

    /// Line (0-based) that holds byte `byte`: the number of newlines before it.
    pub fn line_at(&self, byte: usize) -> (r: usize)
        ensures
            increasing(self.newline_positions@) ==> r == count_below(self.newline_positions@, byte),
            r <= self.newline_positions@.len(),
    {
        let s = &self.newline_positions;
        let mut lo: usize = 0;
        let mut hi: usize = s.len();
        while lo < hi
            invariant
                0 <= lo <= hi <= s@.len(),
                increasing(s@) ==> forall|j: int| 0 <= j < lo ==> s@[j] < byte,
                increasing(s@) ==> forall|j: int| hi <= j < s@.len() ==> s@[j] >= byte,
            decreases hi - lo,
        {
            let mid = lo + (hi - lo) / 2;
            if s[mid] < byte {
                lo = mid + 1;
            } else {
                hi = mid;
            }
        }
        proof {
            if increasing(s@) {
                lemma_count_below(s@, byte, lo as int);
            }
        }
        lo
    }

    /// Bounds `[start, end)` of line `line`; `end` is the position of its
    /// `\n`, or `usize::MAX` for the last line.
    pub fn line_bounds(&self, line: usize) -> (r: (usize, usize))
        requires
            line <= self.newline_positions@.len(),
            line > 0 ==> self.newline_positions@[line - 1] < usize::MAX,
        ensures
            r.0 == if line == 0 { 0 } else { (self.newline_positions@[line - 1] + 1) as usize },
            r.1 == if line < self.newline_positions@.len() { self.newline_positions@[line as int] } else { usize::MAX },
    {
        let start = if line == 0 {
            0
        } else {
            self.newline_positions[line - 1] + 1
        };
        let end = if line < self.newline_positions.len() {
            self.newline_positions[line]
        } else {
            usize::MAX
        };
        (start, end)
    }

    /// Number of lines.
    pub fn num_lines(&self) -> (n: usize)
        requires
            self.newline_positions@.len() < usize::MAX,
        ensures
            n == self.newline_positions@.len() + 1,
    {
        self.newline_positions.len() + 1
    }
}

/// In an increasing sequence, the entries below `x` are exactly a prefix.
pub proof fn lemma_count_below(s: Seq<usize>, x: usize, k: int)
    requires
        increasing(s),
        0 <= k <= s.len(),
        forall|j: int| 0 <= j < k ==> s[j] < x,
        forall|j: int| k <= j < s.len() ==> s[j] >= x,
    ensures
        count_below(s, x) == k,
    decreases s.len(),
{
    if s.len() > 0 {
        if k == s.len() {
            lemma_count_below(s.drop_last(), x, k - 1);
        } else {
            lemma_count_below(s.drop_last(), x, k);
        }
    }
}

} // verus!
