use zoll::engine::line_map::LineMap;
use zoll::engine::simd::Event;

fn map(text: &[u8]) -> LineMap {
    let events: Vec<Event> = text
        .iter()
        .enumerate()
        .filter(|&(_, &byte)| byte == b'\n')
        .map(|(i, _)| Event {
            position: i,
            byte: b'\n',
        })
        .collect();
    LineMap::from_events(&events)
}

#[test]
fn line_at_basic() {
    let line_map = map(b"abc\ndef\nghi");
    assert_eq!(line_map.line_at(0), 0);
    assert_eq!(line_map.line_at(4), 1);
    assert_eq!(line_map.line_at(8), 2);
}

#[test]
fn line_bounds_basic() {
    let line_map = map(b"abc\ndef\nghi");
    assert_eq!(line_map.line_bounds(0), (0, 3));
    assert_eq!(line_map.line_bounds(1), (4, 7));
    assert_eq!(line_map.line_bounds(2), (8, usize::MAX));
}

#[test]
fn num_lines() {
    let line_map = map(b"a\nb\nc");
    assert_eq!(line_map.num_lines(), 3);
}

#[test]
fn line_map_empty() {
    let line_map = map(b"");
    assert_eq!(line_map.num_lines(), 1);
    assert_eq!(line_map.line_bounds(0), (0, usize::MAX));
}

