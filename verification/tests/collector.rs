use zoll::engine::collector::{collect, Marker};
use zoll::engine::simd::Event;

fn ev(pos: usize, byte: u8) -> Event {
    Event {
        position: pos,
        byte,
    }
}

#[test]
fn groups_adjacent_same_bytes() {
    let events = vec![
        ev(3, b'*'),
        ev(4, b'*'),
        ev(13, b')'),
        ev(14, b')'),
        ev(24, b'\n'),
    ];
    let markers = collect(&events);
    assert_eq!(
        markers,
        vec![
            Marker {
                start: 3,
                end: 5,
                byte: b'*'
            },
            Marker {
                start: 13,
                end: 15,
                byte: b')'
            },
            Marker {
                start: 24,
                end: 25,
                byte: b'\n'
            },
        ]
    );
}

#[test]
fn separates_non_adjacent() {
    let events = vec![ev(1, b'*'), ev(3, b'*')];
    let markers = collect(&events);
    assert_eq!(markers.len(), 2);
    assert_eq!(
        markers[0],
        Marker {
            start: 1,
            end: 2,
            byte: b'*'
        }
    );
    assert_eq!(
        markers[1],
        Marker {
            start: 3,
            end: 4,
            byte: b'*'
        }
    );
}

#[test]
fn collector_empty() {
    assert!(collect(&[]).is_empty());
}

#[test]
fn single_byte_run() {
    let events = vec![ev(0, b'#')];
    let markers = collect(&events);
    assert_eq!(markers[0].len(), 1);
}

