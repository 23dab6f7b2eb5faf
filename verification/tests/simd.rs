use zoll::engine::simd::{scan, scan_scalar};

fn events_of(text: &[u8], masks: Vec<(usize, u32)>) -> Vec<(usize, u8)> {
    let mut events = Vec::new();
    for (offset, mask) in masks {
        let mut remaining = mask;
        while remaining != 0 {
            let bit = remaining.trailing_zeros() as usize;
            events.push((offset + bit, text[offset + bit]));
            remaining &= remaining - 1;
        }
    }
    events
}

fn scan_events(text: &[u8], targets: &[u8]) -> Vec<(usize, u8)> {
    events_of(text, scan(text, targets))
}

fn scan_events_scalar(text: &[u8], targets: &[u8]) -> Vec<(usize, u8)> {
    events_of(text, scan_scalar(text, targets))
}

#[test]
fn finds_interesting_bytes() {
    let text = b"a*b**c))d";
    let events = scan_events(text, b"*)");
    let positions: Vec<usize> = events.iter().map(|event| event.0).collect();
    assert_eq!(positions, vec![1, 3, 4, 6, 7]);
    assert_eq!(events[0].1, b'*');
    assert_eq!(events[3].1, b')');
}

#[test]
fn finds_newlines() {
    let text = b"line1\nline2\n";
    let events = scan_events(text, b"\n");
    let positions: Vec<usize> = events.iter().map(|event| event.0).collect();
    assert_eq!(positions, vec![5, 11]);
}

#[test]
fn empty_input() {
    assert!(scan_events(b"", b"*").is_empty());
}

#[test]
fn no_matches() {
    assert!(scan_events(b"plain text", b"*").is_empty());
}

#[test]
fn events_sorted() {
    let text = b"x*y)z*w";
    let events = scan_events(text, b"*)");
    for pair in events.windows(2) {
        assert!(pair[0].0 < pair[1].0);
    }
}

#[test]
fn scalar_matches_simd() {
    let text = "**//текст)) #1# Заголовок\n%% комментарий".as_bytes();
    let targets = b"*/_~=+-',$%!#>|:.)}\n";
    let mut simd_events = Vec::new();
    for (offset, mask) in scan(text, targets) {
        let mut remaining = mask;
        while remaining != 0 {
            let bit = remaining.trailing_zeros() as usize;
            simd_events.push((offset + bit, text[offset + bit]));
            remaining &= remaining - 1;
        }
    }
    let scalar_events = scan_events_scalar(text, targets);
    assert_eq!(simd_events, scalar_events);
}

#[test]
fn table_no_false_positives() {
    let text = b"abc123XYZ 456 \x00\x01\x7f\x80\xff !#*";
    let targets = b"*/_~=+-',$%!#>|:.)}\n";
    let simd_events = scan_events(text, targets);
    let scalar_events = scan_events_scalar(text, targets);
    assert_eq!(simd_events, scalar_events);
}

#[test]
fn table_fallback_high_bytes() {
    let text = b"a\x80b\x81c\x80";
    let targets = b"\x80\x81";
    let simd_events = scan_events(text, targets);
    let scalar_events = scan_events_scalar(text, targets);
    assert_eq!(simd_events, scalar_events);
}

#[test]
fn table_matches_all_targets() {
    let targets = b"*/_~=+-',$%!#>|:.)}\n";
    let text: Vec<u8> = targets.to_vec();
    let simd_events = scan_events(&text, targets);
    let scalar_events = scan_events_scalar(&text, targets);
    assert_eq!(simd_events, scalar_events);
    assert_eq!(simd_events.len(), targets.len());
}

#[test]
fn table_randomized_matches_scalar() {
    let mut state = 0x1234_5678_9abc_def0u64;
    let mut next = move || {
        state = state
            .wrapping_mul(6364136223846793005)
            .wrapping_add(1442695040888963407);
        (state >> 33) as u8
    };
    let target_sets: &[&[u8]] = &[
        b"*/_~=+-',$%!#>|:.)}\n",
        b"abc",
        b"\x00\x7f",
        b"",
        b"*",
        b"\x01\x02\x03\x04",
    ];
    for &targets in target_sets {
        for _ in 0..300 {
            let len = (next() as usize) % 100;
            let text: Vec<u8> = (0..len).map(|_| next()).collect();
            let simd = scan_events(&text, targets);
            let scalar = scan_events_scalar(&text, targets);
            assert_eq!(simd, scalar, "targets={targets:?} text={text:?}");
        }
    }
}

#[test]
fn masks_cover_tail() {
    let text = b"12345678901234567890123456789012*";
    let events = scan_events(text, b"*");
    assert_eq!(events, vec![(32, b'*')]);
}
