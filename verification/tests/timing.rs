use zoll::engine::timing::{
    analyze, begin, fmt, report_rows, reset, totals, Timing, TimingKey, TIMING_KEY_COUNT,
};
use zoll::engine::SyntaxKind;

#[test]
fn key_index_follows_declaration_order() {
    assert_eq!(TimingKey::InlineClose.index(), 0);
    assert_eq!(TimingKey::Bold.index(), 4);
    assert_eq!(TimingKey::ThematicBreak.index(), TIMING_KEY_COUNT - 1);
}

#[test]
fn key_names() {
    assert_eq!(TimingKey::Bold.name(), "bold **");
    assert_eq!(TimingKey::Header.name(), "заголовок #N");
    assert_eq!(TimingKey::ThematicBreak.name(), "разделитель ---");
}

#[test]
fn kinds_map_to_keys() {
    assert_eq!(TimingKey::from_kind(SyntaxKind::Bold), TimingKey::Bold);
    assert_eq!(TimingKey::from_kind(SyntaxKind::Header(3)), TimingKey::Header);
    assert_eq!(TimingKey::from_kind(SyntaxKind::CommentBlock), TimingKey::Comment);
    assert_eq!(TimingKey::from_kind(SyntaxKind::FormulaInline), TimingKey::Formula);
    assert_eq!(TimingKey::from_kind(SyntaxKind::SpoilerLine), TimingKey::Spoiler);
    assert_eq!(TimingKey::from_kind(SyntaxKind::CodeBlock), TimingKey::Ignored);
}

#[test]
fn counting_timer_adds_one_call_and_its_ops() {
    let mut acc = Timing::new();
    let mut t = begin::<true>();
    t.set(TimingKey::Bold);
    t.op();
    t.op_n(4);
    t.finish(&mut acc);
    assert_eq!(acc.calls[TimingKey::Bold.index()], 1);
    assert_eq!(acc.ops[TimingKey::Bold.index()], 5);
    assert_eq!(acc.calls[TimingKey::Ignored.index()], 0);
}

#[test]
fn quiet_timer_changes_nothing() {
    let mut acc = Timing::new();
    let mut t = begin::<false>();
    t.set(TimingKey::Bold);
    t.op_n(7);
    t.finish(&mut acc);
    assert!(acc.calls.iter().all(|&c| c == 0));
    assert!(acc.ops.iter().all(|&o| o == 0));
}

#[test]
fn unset_timer_counts_as_ignored() {
    let mut acc = Timing::default();
    let t = begin::<true>();
    t.finish(&mut acc);
    assert_eq!(acc.calls[TimingKey::Ignored.index()], 1);
}

#[test]
fn reset_clears_totals() {
    let mut acc = Timing::new();
    acc.calls[3] = 9;
    acc.ops[7] = 2;
    reset(&mut acc);
    assert!(acc.calls.iter().all(|&c| c == 0));
    assert!(acc.ops.iter().all(|&o| o == 0));
}

#[test]
fn rows_most_operations_first_ties_in_key_order() {
    let mut acc = Timing::new();
    acc.ops[TimingKey::Italic.index()] = 10;
    acc.calls[TimingKey::Italic.index()] = 2;
    acc.ops[TimingKey::Bold.index()] = 30;
    acc.ops[TimingKey::Quote.index()] = 10;
    let rows = report_rows(&acc);
    assert_eq!(rows.len(), TIMING_KEY_COUNT);
    assert_eq!(rows[0], (TimingKey::Bold, 0, 30));
    assert_eq!(rows[1], (TimingKey::Italic, 2, 10));
    assert_eq!(rows[2], (TimingKey::Quote, 0, 10));
    assert_eq!(rows[3].0, TimingKey::InlineClose);
    assert_eq!(rows[TIMING_KEY_COUNT - 1].0, TimingKey::ThematicBreak);
}

#[test]
fn totals_sum_all_keys() {
    let mut acc = Timing::new();
    acc.calls[0] = 3;
    acc.calls[21] = 4;
    acc.ops[5] = 100;
    assert_eq!(totals(&acc), (7, 100));
}

#[test]
fn thousands_separators() {
    assert_eq!(fmt(65027295), "65 027 295");
    assert_eq!(fmt(0), "0");
    assert_eq!(fmt(999), "999");
    assert_eq!(fmt(1000), "1 000");
    assert_eq!(fmt(123456), "123 456");
    assert_eq!(fmt(u64::MAX), "18 446 744 073 709 551 615");
}

#[test]
fn analyze_leaves_the_totals_as_they_were() {
    let mut acc = Timing::new();
    let mut t = begin::<true>();
    t.set(TimingKey::Italic);
    t.op_n(3);
    t.finish(&mut acc);
    analyze("**жирный)) //курсив))\n%%%\nблок\n}".as_bytes(), &mut acc);
    assert_eq!(acc.calls[TimingKey::Italic.index()], 1);
    assert_eq!(acc.ops[TimingKey::Italic.index()], 3);
    assert_eq!(acc.calls.iter().sum::<u64>(), 1);
    assert_eq!(acc.ops.iter().sum::<u64>(), 3);
}
