use zoll::engine::dependency::DependencyGraph;
use zoll::engine::{SyntaxKind, SyntaxSpan};

fn span(start: usize, end: usize) -> SyntaxSpan {
    SyntaxSpan {
        start,
        end,
        kind: SyntaxKind::Bold,
    }
}

#[test]
fn spans_in_range() {
    let graph = DependencyGraph::new(vec![span(0, 5), span(3, 8), span(10, 15)]);
    let in_range = graph.spans_in(2, 9);
    assert_eq!(in_range.len(), 1);
    assert_eq!(in_range[0].start, 3);
}

#[test]
fn spans_overlapping() {
    let graph = DependencyGraph::new(vec![span(0, 5), span(3, 8), span(10, 15)]);
    let overlapping = graph.spans_overlapping(4, 11);
    assert_eq!(overlapping.len(), 3);
}

#[test]
fn keeps_construction_order() {
    let graph = DependencyGraph::new(vec![span(10, 15), span(0, 5), span(3, 8)]);
    let starts: Vec<usize> = graph.spans().iter().map(|span| span.start).collect();
    assert_eq!(starts, vec![10, 0, 3]);
}

