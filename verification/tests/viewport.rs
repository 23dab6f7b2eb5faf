use zoll::viewport::Viewport;

#[test]
fn viewport_new_normal() {
    let vp = Viewport::new(3, 7);
    assert_eq!(vp.first_line, 3);
    assert_eq!(vp.last_line, 7);
    assert_eq!(vp.height(), 5);
}

#[test]
fn viewport_new_swapped() {
    let vp = Viewport::new(7, 3);
    assert_eq!(vp.first_line, 3);
    assert_eq!(vp.last_line, 7);
}

#[test]
fn viewport_single_line() {
    let vp = Viewport::new(5, 5);
    assert_eq!(vp.height(), 1);
    assert!(vp.contains(5));
    assert!(!vp.contains(4));
    assert!(!vp.contains(6));
}

#[test]
fn viewport_from_bytes() {
    let line_starts = vec![0, 6, 12, 18, 24];
    let vp = Viewport::from_bytes(&line_starts, 7, 20);
    assert_eq!(vp.first_line, 1);
    assert_eq!(vp.last_line, 3);
}

