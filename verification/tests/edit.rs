use zoll::engine::edit::Edit;

#[test]
fn insert() {
    let mut text = b"hello world".to_vec();
    Edit::new(5, 0, b",").apply(&mut text);
    assert_eq!(text, b"hello, world");
}

#[test]
fn delete() {
    let mut text = b"hello world".to_vec();
    Edit::new(5, 6, b"").apply(&mut text);
    assert_eq!(text, b"hello");
}

#[test]
fn replace() {
    let mut text = b"abc".to_vec();
    Edit::new(1, 1, b"XYZ").apply(&mut text);
    assert_eq!(text, b"aXYZc");
}

