//! Marker collector: groups adjacent equal bytes of the primary stream into
//! runs, `*` `*` → `**`. No meaning is given to them here.

use vstd::prelude::*;
use crate::engine::simd::Event;

verus! {

/// Run of equal bytes: half-open interval `[start, end)`.
#[derive(Debug, Clone, Copy, PartialEq, Eq, Structural)]
pub struct Marker {
    pub start: usize,
    pub end: usize,
    pub byte: u8,
}

impl Marker {
    /// Length of the run.
    pub fn len(&self) -> (n: usize)
        requires
            self.start <= self.end,
        ensures
            n == self.end - self.start,
    {
        self.end - self.start
    }

    /// Whether the run is empty.
    pub fn is_empty(&self) -> (b: bool)
        requires
            self.start <= self.end,
        ensures
            b == (self.end == self.start),
    {
        self.len() == 0
    }
}

/// Event `j` continues the run of event `j - 1`: same byte, next position.
pub open spec fn continues(events: Seq<Event>, j: int) -> bool {
    events[j].byte == events[j - 1].byte && events[j].position == events[j - 1].position + 1
}

/// End (exclusive) of the run that contains event `j - 1`, searching from `j`.
pub open spec fn run_end(events: Seq<Event>, j: int) -> int
    decreases events.len() - j,
{
    if 0 < j < events.len() && continues(events, j) {
        run_end(events, j + 1)
    } else {
        j
    }
}

/// The runs of the events from index `i` on.
pub open spec fn runs_from(events: Seq<Event>, i: int) -> Seq<Marker>
    decreases events.len() - i,
{
    if i < 0 || i >= events.len() {
        seq![]
    } else {
        let e = run_end(events, i + 1);
        proof {
            lemma_run_end(events, i + 1);
        }
        seq![Marker { start: events[i].position, end: (events[e - 1].position + 1) as usize, byte: events[i].byte }]
            + runs_from(events, e)
    }
}

pub proof fn lemma_run_end(events: Seq<Event>, j: int)
    ensures
        run_end(events, j) >= j,
        0 < j <= events.len() ==> run_end(events, j) <= events.len(),
    decreases events.len() - j,
{
    if 0 < j < events.len() && continues(events, j) {
        lemma_run_end(events, j + 1);
    }
}

/// The marker holds the event: same byte, position inside the run.
pub open spec fn holds_event(m: Marker, ev: Event) -> bool {
    m.start <= ev.position < m.end && m.byte == ev.byte
}

/// Some run holds the event.
pub open spec fn held(runs: Seq<Marker>, ev: Event) -> bool {
    exists|k: int| 0 <= k < runs.len() && #[trigger] holds_event(runs[k], ev)
}

/// Position `p` lies inside the marker.
pub open spec fn within(m: Marker, p: int) -> bool {
    m.start <= p < m.end
}

/// Every event from `i` on is held by a run; every position of a run is an
/// event of its byte from `i` on; two neighbouring runs could not be joined;
/// no run is empty.
pub open spec fn maximal_runs(events: Seq<Event>, i: int, runs: Seq<Marker>) -> bool {
    &&& forall|j: int| i <= j < events.len() ==> #[trigger] held(runs, events[j])
    &&& forall|k: int, p: int| 0 <= k < runs.len() && #[trigger] within(runs[k], p) ==> exists|j: int|
        #![trigger events[j]] i <= j < events.len() && events[j].position == p && events[j].byte == runs[k].byte
    &&& forall|k: int| 0 <= k < runs.len() - 1 ==> !(#[trigger] runs[k].end == runs[k + 1].start
        && runs[k].byte == runs[k + 1].byte)
    &&& forall|k: int| 0 <= k < runs.len() ==> #[trigger] runs[k].start < runs[k].end
}

/// From `j` on, the events continue the run that starts at `i` up to
/// `run_end`, where the run can go no further.
proof fn lemma_run_shape(events: Seq<Event>, i: int, j: int)
    requires
        0 <= i < j <= events.len(),
        forall|m: int| i <= m < j ==> (#[trigger] events[m]).byte == events[i].byte
            && events[m].position == events[i].position + (m - i),
    ensures
        j <= run_end(events, j) <= events.len(),
        forall|m: int| i <= m < run_end(events, j) ==> (#[trigger] events[m]).byte == events[i].byte
            && events[m].position == events[i].position + (m - i),
        run_end(events, j) < events.len() ==> !continues(events, run_end(events, j)),
    decreases events.len() - j,
{
    if j < events.len() && continues(events, j) {
        assert(events[j - 1].byte == events[i].byte);
        lemma_run_shape(events, i, j + 1);
    }
}

/// A maximal run of the events `[i, e)` followed by the maximal runs from
/// `e` on are the maximal runs from `i` on.
proof fn lemma_cons_maximal(events: Seq<Event>, i: int, e: int, m: Marker, rest: Seq<Marker>)
    requires
        0 <= i < e <= events.len(),
        m.start == events[i].position,
        m.end == events[i].position + (e - i),
        m.byte == events[i].byte,
        forall|q: int| i <= q < e ==> (#[trigger] events[q]).byte == events[i].byte
            && events[q].position == events[i].position + (q - i),
        e < events.len() ==> !continues(events, e),
        maximal_runs(events, e, rest),
        e < events.len() ==> rest.len() > 0 && rest[0].start == events[e].position && rest[0].byte
            == events[e].byte,
    ensures
        maximal_runs(events, i, seq![m] + rest),
{
    let r = seq![m] + rest;
    assert forall|j: int| i <= j < events.len() implies #[trigger] held(r, events[j]) by {
        if j < e {
            assert(holds_event(r[0], events[j]));
        } else {
            assert(held(rest, events[j]));
            let k = choose|k: int| 0 <= k < rest.len() && #[trigger] holds_event(rest[k], events[j]);
            assert(r[k + 1] == rest[k]);
            assert(holds_event(r[k + 1], events[j]));
        }
    }
    assert forall|k: int, p: int| 0 <= k < r.len() && #[trigger] within(r[k], p) implies exists|j: int|
        #![trigger events[j]] i <= j < events.len() && events[j].position == p && events[j].byte == r[k].byte by {
        if k == 0 {
            let j = i + (p - events[i].position);
            assert(events[j].position == p);
        } else {
            assert(r[k] == rest[k - 1]);
            assert(within(rest[k - 1], p));
        }
    }
    assert forall|k: int| 0 <= k < r.len() - 1 implies !(#[trigger] r[k].end == r[k + 1].start
        && r[k].byte == r[k + 1].byte) by {
        if k == 0 {
            assert(r[1] == rest[0]);
            assert(rest[0].start < rest[0].end);
            if e == events.len() {
                assert(within(rest[0], rest[0].start as int));
            }
            assert(events[e - 1].byte == events[i].byte);
            assert(events[e - 1].position == events[i].position + (e - 1 - i));
        } else {
            assert(r[k] == rest[k - 1]);
            assert(r[k + 1] == rest[k]);
        }
    }
    assert forall|k: int| 0 <= k < r.len() implies #[trigger] r[k].start < r[k].end by {
        if k > 0 {
            assert(r[k] == rest[k - 1]);
        }
    }
}

/// The runs from a run's first event on are the maximal runs of the events
/// from there on, and the first of them starts at that event.
proof fn lemma_runs_from_maximal(events: Seq<Event>, i: int)
    requires
        0 <= i <= events.len(),
        forall|q: int| 0 <= q < events.len() ==> #[trigger] events[q].position < usize::MAX,
    ensures
        maximal_runs(events, i, runs_from(events, i)),
        i < events.len() ==> runs_from(events, i).len() > 0 && runs_from(events, i)[0].start
            == events[i].position && runs_from(events, i)[0].byte == events[i].byte,
    decreases events.len() - i,
{
    if i < events.len() {
        let e = run_end(events, i + 1);
        lemma_run_shape(events, i, i + 1);
        lemma_runs_from_maximal(events, e);
        let rest = runs_from(events, e);
        let r = runs_from(events, i);
        let m = r[0];
        assert(events[e - 1].position < usize::MAX);
        assert(r == seq![m] + rest);
        lemma_cons_maximal(events, i, e, m, rest);
    } else {
        assert(runs_from(events, i) =~= seq![]);
    }
}

/// What `collect` gives are the maximal runs of the events: every event is
/// held by a run of its byte, every position of a run is an event of that
/// byte, and no two neighbouring runs of one byte touch.
pub proof fn lemma_collect_maximal_runs(events: Seq<Event>)
    requires
        forall|i: int| 0 <= i < events.len() ==> #[trigger] events[i].position < usize::MAX,
    ensures
        maximal_runs(events, 0, runs_from(events, 0)),
{
    lemma_runs_from_maximal(events, 0);
}

/// Groups the events into runs of equal adjacent bytes.
pub fn collect(events: &[Event]) -> (markers: Vec<Marker>)
    requires
        forall|i: int| 0 <= i < events@.len() ==> #[trigger] events@[i].position < usize::MAX,
    ensures
        markers@ == runs_from(events@, 0),
{
    let mut markers: Vec<Marker> = Vec::new();
    let mut index: usize = 0;
    while index < events.len()
        invariant
            index <= events@.len(),
            forall|i: int| 0 <= i < events@.len() ==> #[trigger] events@[i].position < usize::MAX,
            markers@ + runs_from(events@, index as int) == runs_from(events@, 0),
        decreases events@.len() - index,
    {
        let event = events[index];
        let mut next = index + 1;
        while next < events.len() && events[next].byte == event.byte && events[next].position
            == events[next - 1].position + 1
            invariant
                index < next <= events@.len(),
                event == events@[index as int],
                events@[next - 1].byte == event.byte,
                forall|i: int| 0 <= i < events@.len() ==> #[trigger] events@[i].position < usize::MAX,
                run_end(events@, next as int) == run_end(events@, index + 1),
            decreases events@.len() - next,
        {
            assert(events@[next as int].position < usize::MAX);
            next += 1;
        }
        assert(events@[next - 1].position < usize::MAX);
        proof {
            lemma_run_end(events@, index + 1);
        }
        let m = Marker { start: event.position, end: events[next - 1].position + 1, byte: event.byte };
        proof {
            assert(run_end(events@, next as int) == next);
            let ghost rest = runs_from(events@, index as int);
            assert(rest == seq![m] + runs_from(events@, next as int));
            assert(markers@.push(m) + runs_from(events@, next as int) =~= markers@ + rest);
        }
        markers.push(m);
        index = next;
    }
    assert(markers@ + seq![] =~= markers@);
    markers
}

} // verus!
