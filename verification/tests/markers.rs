use zoll::ast::{markers, MarkupStyle};

#[test]
fn marker_list() {
    let m = markers();
    assert_eq!(m.len(), 14);
    assert_eq!(m[0].open, "%%");
    assert_eq!(m[0].style, MarkupStyle::comment());
    assert!(m[0].multiline);
    assert!(!m[0].track_depth);
    assert_eq!(m[2].open, "!!!");
    assert_eq!(m[3].open, "!!");
    assert_eq!(m[5].style, MarkupStyle::bold());
    assert_eq!(m[13].open, "$");
    assert_eq!(m[13].close, "$");
    assert_eq!(m[13].style, MarkupStyle::formula());
}

#[test]
fn longer_openings_come_first() {
    let m = markers();
    for i in 0..m.len() {
        for j in (i + 1)..m.len() {
            if m[j].open.starts_with(m[i].open) {
                panic!("{} is shadowed by {}", m[j].open, m[i].open);
            }
        }
    }
}
