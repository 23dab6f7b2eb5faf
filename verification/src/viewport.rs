//! Visible range of lines handed over by the editor.

use vstd::prelude::*;

verus! {

/// Strictly increasing sequence of positions.
pub open spec fn strictly_sorted(s: Seq<usize>) -> bool {
    forall|i: int, j: int| 0 <= i < j < s.len() ==> s[i] < s[j]
}

/// Index of the last entry of a strictly sorted `s` that is `<= x`, or 0 when
/// there is none: the line that contains byte `x` when `s` holds line starts.
pub open spec fn is_line_index(s: Seq<usize>, x: usize, r: int) -> bool {
    &&& 0 <= r
    &&& (r < s.len() || (s.len() == 0 && r == 0))
    &&& (r == 0 || s[r] <= x)
    &&& forall|j: int| r < j < s.len() ==> s[j] > x
}

/// Visible range of lines (0-based, both ends inclusive).
#[derive(Debug, Clone, Copy, PartialEq, Eq)]
pub struct Viewport {
    pub first_line: usize,
    pub last_line: usize,
}

impl Viewport {
    /// Builds a viewport; the two ends are swapped when `last < first`.
    pub fn new(first: usize, last: usize) -> (v: Self)
        ensures
            v.first_line == if last < first { last } else { first },
            v.last_line == if last < first { first } else { last },
    {
        if last < first {
            Viewport { first_line: last, last_line: first }
        } else {
            Viewport { first_line: first, last_line: last }
        }
    }

    /// Builds a viewport from two byte positions, through the line starts.
    pub fn from_bytes(line_starts: &[usize], first_byte: usize, last_byte: usize) -> (v: Self)
        ensures
            strictly_sorted(line_starts@) ==> {
                let a = v.first_line as int;
                let b = v.last_line as int;
                ||| (is_line_index(line_starts@, first_byte, a) && is_line_index(line_starts@, last_byte, b))
                ||| (is_line_index(line_starts@, first_byte, b) && is_line_index(line_starts@, last_byte, a))
            },
            v.first_line <= v.last_line,
    {
        let first = line_number(line_starts, first_byte);
        let last = line_number(line_starts, last_byte);
        Viewport::new(first, last)
    }

    /// Number of visible lines.
    pub fn height(&self) -> (h: usize)
        requires
            self.last_line - self.first_line < usize::MAX,
        ensures
            h == if self.last_line >= self.first_line { self.last_line - self.first_line + 1 } else { 0 },
    {
        if self.last_line >= self.first_line {
            self.last_line - self.first_line + 1
        } else {
            0
        }
    }

    /// Whether line `line` is visible.
    pub fn contains(&self, line: usize) -> (b: bool)
        ensures
            b == (self.first_line <= line && line <= self.last_line),
    {
        line >= self.first_line && line <= self.last_line
    }
}

/// Line number (0-based) of byte `byte_pos` given the sorted line starts.
pub fn line_number(line_starts: &[usize], byte_pos: usize) -> (r: usize)
    ensures
        strictly_sorted(line_starts@) ==> is_line_index(line_starts@, byte_pos, r as int),
        line_starts@.len() == 0 ==> r == 0,
        line_starts@.len() > 0 ==> r < line_starts@.len(),
{
    // Binary search for the number of entries `<= byte_pos`.
    let mut lo: usize = 0;
    let mut hi: usize = line_starts.len();
    while lo < hi
        invariant
            0 <= lo <= hi <= line_starts@.len(),
            strictly_sorted(line_starts@) ==> forall|j: int| 0 <= j < lo ==> line_starts@[j] <= byte_pos,
            strictly_sorted(line_starts@) ==> forall|j: int| hi <= j < line_starts@.len() ==> line_starts@[j] > byte_pos,
        decreases hi - lo,
    {
        let mid = lo + (hi - lo) / 2;
        if line_starts[mid] <= byte_pos {
            lo = mid + 1;
        } else {
            hi = mid;
        }
    }
    if lo == 0 {
        0
    } else {
        lo - 1
    }
}

} // verus!
