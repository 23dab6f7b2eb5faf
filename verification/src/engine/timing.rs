//! Operation counts per construct: how many internal operations (byte reads,
//! comparisons, stack pushes and pops) each marker costs. A marker timer
//! gathers the operations of one marker under a key; finishing it adds one
//! call and its operations to that key's totals.

use vstd::prelude::*;
use crate::engine::resolver::SyntaxKind;
use crate::engine::parser::parse_document;

verus! {

/// What a count is kept for: a mechanism or a construct.
#[derive(Debug, Clone, Copy, PartialEq, Eq, Structural)]
pub enum TimingKey {
    // Mechanisms
    /// `))`: an inline close.
    InlineClose,
    /// `}`: a line-level close.
    LineClose,
    /// `.`: a numbered list.
    NumberedList,
    /// A marker that did nothing.
    Ignored,
    // Constructs
    Bold,
    Italic,
    Underline,
    Strikethrough,
    Highlight,
    Insertion,
    Deletion,
    Superscript,
    Subscript,
    Formula,
    Header,
    Comment,
    Spoiler,
    Quote,
    ListItem,
    TableRow,
    Tag,
    ThematicBreak,
}

/// Number of keys.
pub const TIMING_KEY_COUNT: usize = 22;

/// Position of a key in declaration order.
pub open spec fn key_index(k: TimingKey) -> nat {
    match k {
        TimingKey::InlineClose => 0,
        TimingKey::LineClose => 1,
        TimingKey::NumberedList => 2,
        TimingKey::Ignored => 3,
        TimingKey::Bold => 4,
        TimingKey::Italic => 5,
        TimingKey::Underline => 6,
        TimingKey::Strikethrough => 7,
        TimingKey::Highlight => 8,
        TimingKey::Insertion => 9,
        TimingKey::Deletion => 10,
        TimingKey::Superscript => 11,
        TimingKey::Subscript => 12,
        TimingKey::Formula => 13,
        TimingKey::Header => 14,
        TimingKey::Comment => 15,
        TimingKey::Spoiler => 16,
        TimingKey::Quote => 17,
        TimingKey::ListItem => 18,
        TimingKey::TableRow => 19,
        TimingKey::Tag => 20,
        TimingKey::ThematicBreak => 21,
    }
}

/// Display name of a key.
pub open spec fn key_name(k: TimingKey) -> Seq<char> {
    match k {
        TimingKey::InlineClose => "inline-закрытие ))"@,
        TimingKey::LineClose => "line-закрытие }"@,
        TimingKey::NumberedList => "нумерованный список ."@,
        TimingKey::Ignored => "игнор (мёртвый маркер)"@,
        TimingKey::Bold => "bold **"@,
        TimingKey::Italic => "italic //"@,
        TimingKey::Underline => "underline __"@,
        TimingKey::Strikethrough => "strikethrough ~~"@,
        TimingKey::Highlight => "highlight =="@,
        TimingKey::Insertion => "insertion ++"@,
        TimingKey::Deletion => "deletion --"@,
        TimingKey::Superscript => "superscript ''"@,
        TimingKey::Subscript => "subscript ,,"@,
        TimingKey::Formula => "formula $"@,
        TimingKey::Header => "заголовок #N"@,
        TimingKey::Comment => "комментарий %%"@,
        TimingKey::Spoiler => "спойлер !!"@,
        TimingKey::Quote => "цитата >"@,
        TimingKey::ListItem => "список -/*/+"@,
        TimingKey::TableRow => "таблица |"@,
        TimingKey::Tag => "тег #:"@,
        TimingKey::ThematicBreak => "разделитель ---"@,
    }
}

/// The key under which a span kind is counted: the inline, line and block
/// forms of a formula, comment or spoiler share one key; code and metadata
/// have none of their own.
pub open spec fn key_of_kind(kind: SyntaxKind) -> TimingKey {
    match kind {
        SyntaxKind::Bold => TimingKey::Bold,
        SyntaxKind::Italic => TimingKey::Italic,
        SyntaxKind::Underline => TimingKey::Underline,
        SyntaxKind::Strikethrough => TimingKey::Strikethrough,
        SyntaxKind::Highlight => TimingKey::Highlight,
        SyntaxKind::Insertion => TimingKey::Insertion,
        SyntaxKind::Deletion => TimingKey::Deletion,
        SyntaxKind::Superscript => TimingKey::Superscript,
        SyntaxKind::Subscript => TimingKey::Subscript,
        SyntaxKind::FormulaInline => TimingKey::Formula,
        SyntaxKind::FormulaLine => TimingKey::Formula,
        SyntaxKind::FormulaBlock => TimingKey::Formula,
        SyntaxKind::CommentInline => TimingKey::Comment,
        SyntaxKind::CommentLine => TimingKey::Comment,
        SyntaxKind::CommentBlock => TimingKey::Comment,
        SyntaxKind::SpoilerInline => TimingKey::Spoiler,
        SyntaxKind::SpoilerLine => TimingKey::Spoiler,
        SyntaxKind::SpoilerBlock => TimingKey::Spoiler,
        SyntaxKind::Header(_) => TimingKey::Header,
        SyntaxKind::Quote => TimingKey::Quote,
        SyntaxKind::ListItem => TimingKey::ListItem,
        SyntaxKind::TableRow => TimingKey::TableRow,
        SyntaxKind::Tag => TimingKey::Tag,
        SyntaxKind::ThematicBreak => TimingKey::ThematicBreak,
        SyntaxKind::CodeInline => TimingKey::Ignored,
        SyntaxKind::CodeLine => TimingKey::Ignored,
        SyntaxKind::CodeBlock => TimingKey::Ignored,
        SyntaxKind::Metadata => TimingKey::Ignored,
    }
}

impl TimingKey {
    /// Position of the key in declaration order.
    pub fn index(self) -> (r: usize)
        ensures
            r == key_index(self),
            r < TIMING_KEY_COUNT,
    {
        match self {
            TimingKey::InlineClose => 0,
            TimingKey::LineClose => 1,
            TimingKey::NumberedList => 2,
            TimingKey::Ignored => 3,
            TimingKey::Bold => 4,
            TimingKey::Italic => 5,
            TimingKey::Underline => 6,
            TimingKey::Strikethrough => 7,
            TimingKey::Highlight => 8,
            TimingKey::Insertion => 9,
            TimingKey::Deletion => 10,
            TimingKey::Superscript => 11,
            TimingKey::Subscript => 12,
            TimingKey::Formula => 13,
            TimingKey::Header => 14,
            TimingKey::Comment => 15,
            TimingKey::Spoiler => 16,
            TimingKey::Quote => 17,
            TimingKey::ListItem => 18,
            TimingKey::TableRow => 19,
            TimingKey::Tag => 20,
            TimingKey::ThematicBreak => 21,
        }
    }

    /// Display name of the key.
    pub fn name(self) -> (r: &'static str)
        ensures
            r@ == key_name(self),
    {
        match self {
            TimingKey::InlineClose => "inline-закрытие ))",
            TimingKey::LineClose => "line-закрытие }",
            TimingKey::NumberedList => "нумерованный список .",
            TimingKey::Ignored => "игнор (мёртвый маркер)",
            TimingKey::Bold => "bold **",
            TimingKey::Italic => "italic //",
            TimingKey::Underline => "underline __",
            TimingKey::Strikethrough => "strikethrough ~~",
            TimingKey::Highlight => "highlight ==",
            TimingKey::Insertion => "insertion ++",
            TimingKey::Deletion => "deletion --",
            TimingKey::Superscript => "superscript ''",
            TimingKey::Subscript => "subscript ,,",
            TimingKey::Formula => "formula $",
            TimingKey::Header => "заголовок #N",
            TimingKey::Comment => "комментарий %%",
            TimingKey::Spoiler => "спойлер !!",
            TimingKey::Quote => "цитата >",
            TimingKey::ListItem => "список -/*/+",
            TimingKey::TableRow => "таблица |",
            TimingKey::Tag => "тег #:",
            TimingKey::ThematicBreak => "разделитель ---",
        }
    }

    /// The key under which spans of `kind` are counted.
    pub fn from_kind(kind: SyntaxKind) -> (r: TimingKey)
        ensures
            r == key_of_kind(kind),
    {
        match kind {
            SyntaxKind::Bold => TimingKey::Bold,
            SyntaxKind::Italic => TimingKey::Italic,
            SyntaxKind::Underline => TimingKey::Underline,
            SyntaxKind::Strikethrough => TimingKey::Strikethrough,
            SyntaxKind::Highlight => TimingKey::Highlight,
            SyntaxKind::Insertion => TimingKey::Insertion,
            SyntaxKind::Deletion => TimingKey::Deletion,
            SyntaxKind::Superscript => TimingKey::Superscript,
            SyntaxKind::Subscript => TimingKey::Subscript,
            SyntaxKind::FormulaInline => TimingKey::Formula,
            SyntaxKind::FormulaLine => TimingKey::Formula,
            SyntaxKind::FormulaBlock => TimingKey::Formula,
            SyntaxKind::CommentInline => TimingKey::Comment,
            SyntaxKind::CommentLine => TimingKey::Comment,
            SyntaxKind::CommentBlock => TimingKey::Comment,
            SyntaxKind::SpoilerInline => TimingKey::Spoiler,
            SyntaxKind::SpoilerLine => TimingKey::Spoiler,
            SyntaxKind::SpoilerBlock => TimingKey::Spoiler,
            SyntaxKind::Header(_) => TimingKey::Header,
            SyntaxKind::Quote => TimingKey::Quote,
            SyntaxKind::ListItem => TimingKey::ListItem,
            SyntaxKind::TableRow => TimingKey::TableRow,
            SyntaxKind::Tag => TimingKey::Tag,
            SyntaxKind::ThematicBreak => TimingKey::ThematicBreak,
            SyntaxKind::CodeInline => TimingKey::Ignored,
            SyntaxKind::CodeLine => TimingKey::Ignored,
            SyntaxKind::CodeBlock => TimingKey::Ignored,
            SyntaxKind::Metadata => TimingKey::Ignored,
        }
    }
}

/// The key at position `i` in declaration order.
pub fn key_at(i: usize) -> (r: TimingKey)
    requires
        i < TIMING_KEY_COUNT,
    ensures
        key_index(r) == i,
{
    match i {
        0 => TimingKey::InlineClose,
        1 => TimingKey::LineClose,
        2 => TimingKey::NumberedList,
        3 => TimingKey::Ignored,
        4 => TimingKey::Bold,
        5 => TimingKey::Italic,
        6 => TimingKey::Underline,
        7 => TimingKey::Strikethrough,
        8 => TimingKey::Highlight,
        9 => TimingKey::Insertion,
        10 => TimingKey::Deletion,
        11 => TimingKey::Superscript,
        12 => TimingKey::Subscript,
        13 => TimingKey::Formula,
        14 => TimingKey::Header,
        15 => TimingKey::Comment,
        16 => TimingKey::Spoiler,
        17 => TimingKey::Quote,
        18 => TimingKey::ListItem,
        19 => TimingKey::TableRow,
        20 => TimingKey::Tag,
        _ => TimingKey::ThematicBreak,
    }
}

/// Totals per key: calls and operations, indexed by `TimingKey::index`.
#[derive(Debug, Clone, Copy)]
pub struct Timing {
    pub calls: [u64; 22],
    pub ops: [u64; 22],
}

impl Timing {
    /// All totals zero.
    pub fn new() -> (t: Self)
        ensures
            forall|i: int| 0 <= i < TIMING_KEY_COUNT ==> t.calls@[i] == 0 && t.ops@[i] == 0,
    {
        Timing { calls: [0u64; 22], ops: [0u64; 22] }
    }
}

impl Default for Timing {
    fn default() -> (t: Self)
        ensures
            forall|i: int| 0 <= i < TIMING_KEY_COUNT ==> t.calls@[i] == 0 && t.ops@[i] == 0,
    {
        Timing::new()
    }
}

/// The operations of one marker. With `COUNT` false it keeps nothing and
/// finishing it changes no total; with `COUNT` true the key is set inside
/// the branch that handles the marker and the operations are counted.
pub struct MarkerTimer<const COUNT: bool> {
    pub key: TimingKey,
    pub ops: u64,
}

/// Starts the timer of a marker: key `Ignored`, no operations.
pub fn begin<const COUNT: bool>() -> (t: MarkerTimer<COUNT>)
    ensures
        t.key == TimingKey::Ignored,
        t.ops == 0,
{
    MarkerTimer { key: TimingKey::Ignored, ops: 0 }
}

impl<const COUNT: bool> MarkerTimer<COUNT> {
    /// Files the marker's operations under `key`.
    pub fn set(&mut self, key: TimingKey)
        ensures
            final(self).key == (if COUNT { key } else { old(self).key }),
            final(self).ops == old(self).ops,
    {
        if COUNT {
            self.key = key;
        }
    }

    /// Counts one operation.
    pub fn op(&mut self)
        requires
            COUNT ==> old(self).ops < u64::MAX,
        ensures
            final(self).key == old(self).key,
            final(self).ops == (if COUNT { old(self).ops + 1 } else { old(self).ops as int }),
    {
        if COUNT {
            self.ops = self.ops + 1;
        }
    }

    /// Counts `n` operations.
    pub fn op_n(&mut self, n: u64)
        requires
            COUNT ==> old(self).ops + n <= u64::MAX,
        ensures
            final(self).key == old(self).key,
            final(self).ops == (if COUNT { old(self).ops + n } else { old(self).ops as int }),
    {
        if COUNT {
            self.ops = self.ops + n;
        }
    }

    /// Ends the marker: with `COUNT`, one call and the operations are added
    /// to the totals of its key; the other keys are left as they were.
    pub fn finish(self, acc: &mut Timing)
        requires
            COUNT ==> old(acc).calls@[key_index(self.key) as int] < u64::MAX,
            COUNT ==> old(acc).ops@[key_index(self.key) as int] + self.ops <= u64::MAX,
        ensures
            forall|i: int|
                0 <= i < TIMING_KEY_COUNT && (i != key_index(self.key) || !COUNT) ==> final(acc).calls@[i]
                    == old(acc).calls@[i] && final(acc).ops@[i] == old(acc).ops@[i],
            COUNT ==> final(acc).calls@[key_index(self.key) as int] == old(acc).calls@[key_index(
                self.key,
            ) as int] + 1,
            COUNT ==> final(acc).ops@[key_index(self.key) as int] == old(acc).ops@[key_index(
                self.key,
            ) as int] + self.ops,
    {
        if COUNT {
            let idx = self.key.index();
            acc.calls[idx] = acc.calls[idx] + 1;
            acc.ops[idx] = acc.ops[idx] + self.ops;
        }
    }
}

/// The counting pass over a document: parses `text` as `Engine::parse`
/// does. The parser's marker handlers start no `MarkerTimer`, so the pass
/// files nothing and the totals in `acc` come out as they went in.
pub fn analyze(text: &[u8], acc: &mut Timing)
    ensures
        *final(acc) == *old(acc),
{
    let _parsed = parse_document(text);
}

/// Clears the totals before a run.
pub fn reset(acc: &mut Timing)
    ensures
        forall|i: int| 0 <= i < TIMING_KEY_COUNT ==> final(acc).calls@[i] == 0 && final(acc).ops@[i] == 0,
{
    *acc = Timing::new();
}

/// The rows of the totals in key order: key, calls, operations.
pub open spec fn rows_of(t: Timing) -> Seq<(TimingKey, u64, u64)> {
    Seq::new(22, |i: int| (key_of_index(i), t.calls@[i], t.ops@[i]))
}

/// The key at position `i` in declaration order.
pub open spec fn key_of_index(i: int) -> TimingKey {
    choose|k: TimingKey| key_index(k) == i
}

/// Row `a` comes before row `b` in the report: more operations first, and
/// among equal counts the earlier key first.
pub open spec fn row_before(a: (TimingKey, u64, u64), b: (TimingKey, u64, u64)) -> bool {
    a.2 > b.2 || (a.2 == b.2 && key_index(a.0) < key_index(b.0))
}

/// Each key has a distinct position, and every position below 22 has its key.
pub proof fn lemma_key_index()
    ensures
        forall|a: TimingKey, b: TimingKey| key_index(a) == key_index(b) ==> a == b,
        forall|k: TimingKey| #[trigger] key_index(k) < TIMING_KEY_COUNT,
        forall|i: int| 0 <= i < TIMING_KEY_COUNT ==> key_index(#[trigger] key_of_index(i)) == i,
{
    assert forall|i: int| 0 <= i < TIMING_KEY_COUNT implies key_index(#[trigger] key_of_index(i)) == i by {
        let k = if i == 0 { TimingKey::InlineClose } else if i == 1 { TimingKey::LineClose } else if i == 2 {
            TimingKey::NumberedList
        } else if i == 3 { TimingKey::Ignored } else if i == 4 { TimingKey::Bold } else if i == 5 {
            TimingKey::Italic
        } else if i == 6 { TimingKey::Underline } else if i == 7 { TimingKey::Strikethrough } else if i
            == 8 { TimingKey::Highlight } else if i == 9 { TimingKey::Insertion } else if i == 10 {
            TimingKey::Deletion
        } else if i == 11 { TimingKey::Superscript } else if i == 12 { TimingKey::Subscript } else if i
            == 13 { TimingKey::Formula } else if i == 14 { TimingKey::Header } else if i == 15 {
            TimingKey::Comment
        } else if i == 16 { TimingKey::Spoiler } else if i == 17 { TimingKey::Quote } else if i == 18 {
            TimingKey::ListItem
        } else if i == 19 { TimingKey::TableRow } else if i == 20 { TimingKey::Tag } else {
            TimingKey::ThematicBreak
        };
        assert(key_index(k) == i);
    }
}

/// The rows of the report: one per key, with its calls and operations,
/// ordered by operations, most first; rows with equal operations keep the
/// order of their keys.
pub fn report_rows(t: &Timing) -> (r: Vec<(TimingKey, u64, u64)>)
    ensures
        r@.len() == TIMING_KEY_COUNT,
        forall|i: int| 0 <= i < r@.len() ==> #[trigger] r@[i] == rows_of(*t)[key_index(r@[i].0) as int],
        forall|i: int, j: int| 0 <= i < j < r@.len() ==> row_before(r@[i], r@[j]),
{
    proof {
        lemma_key_index();
    }
    let mut rows: Vec<(TimingKey, u64, u64)> = Vec::new();
    let mut i: usize = 0;
    while i < TIMING_KEY_COUNT
        invariant
            i <= TIMING_KEY_COUNT,
            rows@.len() == i,
            forall|j: int| 0 <= j < i ==> #[trigger] rows@[j] == rows_of(*t)[j],
            forall|j: int| 0 <= j < i ==> key_index(#[trigger] rows@[j].0) == j,
        decreases TIMING_KEY_COUNT - i,
    {
        let key = key_at(i);
        proof {
            lemma_key_index();
            assert(key == key_of_index(i as int));
        }
        rows.push((key, t.calls[i], t.ops[i]));
        i += 1;
    }
    // Insertion sort: rows[..k] is in report order.
    let mut k: usize = 1;
    while k < rows.len()
        invariant
            rows@.len() == TIMING_KEY_COUNT,
            1 <= k <= TIMING_KEY_COUNT,
            forall|j: int| 0 <= j < rows@.len() ==> #[trigger] rows@[j] == rows_of(*t)[key_index(rows@[j].0) as int],
            forall|a: int, b: int| 0 <= a < b < k ==> row_before(rows@[a], rows@[b]),
            forall|a: int, b: int| 0 <= a < b < rows@.len() ==> key_index(rows@[a].0) != key_index(rows@[b].0),
            forall|j: int| k <= j < rows@.len() ==> key_index(#[trigger] rows@[j].0) == j,
            forall|a: int, b: int| 0 <= a < k <= b < rows@.len() ==> key_index(rows@[a].0) < key_index(rows@[b].0),
        decreases TIMING_KEY_COUNT - k,
    {
        let mut m: usize = k;
        while m > 0 && rows[m - 1].2 < rows[m].2
            invariant
                rows@.len() == TIMING_KEY_COUNT,
                1 <= k < TIMING_KEY_COUNT,
                m <= k,
                forall|j: int| 0 <= j < rows@.len() ==> #[trigger] rows@[j] == rows_of(*t)[key_index(rows@[j].0) as int],
                forall|a: int, b: int| 0 <= a < b <= k && a != m && b != m ==> row_before(rows@[a], rows@[b]),
                forall|a: int| m < a <= k ==> row_before(rows@[m as int], rows@[a]),
                m > 0 && m < k ==> row_before(rows@[m - 1], rows@[m + 1]),
                forall|a: int, b: int| 0 <= a < b < rows@.len() ==> key_index(rows@[a].0) != key_index(rows@[b].0),
                forall|j: int| k < j < rows@.len() ==> key_index(#[trigger] rows@[j].0) == j,
                forall|a: int, b: int| 0 <= a <= k < b < rows@.len() ==> key_index(rows@[a].0) < key_index(rows@[b].0),
                forall|a: int| 0 <= a <= k && a != m ==> key_index(rows@[a].0) < key_index(rows@[m as int].0),
            decreases m,
        {
            let x = rows[m - 1];
            let y = rows[m];
            rows.set(m - 1, y);
            rows.set(m, x);
            m -= 1;
        }
        proof {
            assert forall|a: int, b: int| 0 <= a < b < k + 1 implies row_before(rows@[a], rows@[b]) by {
                if b == m && a < m {
                    assert(row_before(rows@[m - 1], rows@[m as int]));
                    if a < m - 1 {
                        assert(row_before(rows@[a], rows@[m - 1]));
                    }
                }
            }
        }
        k += 1;
    }
    rows
}

/// Sum of a sequence of counts.
pub open spec fn seq_sum(s: Seq<u64>) -> int
    decreases s.len(),
{
    if s.len() == 0 {
        0
    } else {
        seq_sum(s.drop_last()) + s.last()
    }
}

proof fn lemma_seq_sum_prefix(s: Seq<u64>, i: int)
    requires
        0 <= i <= s.len(),
    ensures
        0 <= seq_sum(s.take(i)) <= seq_sum(s),
    decreases s.len() - i,
{
    if i < s.len() {
        lemma_seq_sum_prefix(s, i + 1);
        assert(s.take(i + 1).drop_last() =~= s.take(i));
    } else {
        assert(s.take(i) =~= s);
    }
    lemma_seq_sum_nonneg(s.take(i));
}

proof fn lemma_seq_sum_nonneg(s: Seq<u64>)
    ensures
        seq_sum(s) >= 0,
    decreases s.len(),
{
    if s.len() > 0 {
        lemma_seq_sum_nonneg(s.drop_last());
    }
}

fn sum_counts(a: &[u64; 22]) -> (r: u64)
    requires
        seq_sum(a@) <= u64::MAX,
    ensures
        r == seq_sum(a@),
{
    let mut total: u64 = 0;
    let mut i: usize = 0;
    while i < 22
        invariant
            i <= 22,
            a@.len() == 22,
            seq_sum(a@) <= u64::MAX,
            total == seq_sum(a@.take(i as int)),
        decreases 22 - i,
    {
        proof {
            lemma_seq_sum_prefix(a@, i + 1);
            assert(a@.take(i + 1).drop_last() =~= a@.take(i as int));
        }
        total = total + a[i];
        i += 1;
    }
    assert(a@.take(22) =~= a@);
    total
}

/// Totals over all keys: `(calls, operations)`.
pub fn totals(t: &Timing) -> (r: (u64, u64))
    requires
        seq_sum(t.calls@) <= u64::MAX,
        seq_sum(t.ops@) <= u64::MAX,
    ensures
        r.0 == seq_sum(t.calls@),
        r.1 == seq_sum(t.ops@),
{
    (sum_counts(&t.calls), sum_counts(&t.ops))
}

/// The decimal digit `d`.
pub open spec fn digit_char(d: int) -> char {
    if d == 0 { '0' } else if d == 1 { '1' } else if d == 2 { '2' } else if d == 3 { '3' } else if d == 4 {
        '4'
    } else if d == 5 { '5' } else if d == 6 { '6' } else if d == 7 { '7' } else if d == 8 { '8' } else {
        '9'
    }
}

/// Decimal digits of `n`, most significant first.
pub open spec fn digits_of(n: nat) -> Seq<char>
    decreases n,
{
    if n < 10 {
        seq![digit_char(n as int)]
    } else {
        digits_of(n / 10).push(digit_char((n % 10) as int))
    }
}

proof fn lemma_digits_step(m: nat)
    ensures
        m >= 10 ==> digits_of(m) == digits_of(m / 10).push(digit_char((m % 10) as int)),
        m < 10 ==> digits_of(m) == seq![digit_char(m as int)],
        m < 10 ==> m % 10 == m && m / 10 == 0,
{
}

/// Characters in groups of three from the right, the groups separated by a
/// space.
pub open spec fn grouped(ds: Seq<char>) -> Seq<char>
    decreases ds.len(),
{
    if ds.len() <= 3 {
        ds
    } else {
        grouped(ds.take(ds.len() - 3)) + seq![' '] + ds.skip(ds.len() - 3)
    }
}

/// The first `i` characters of `ds` with a space before each one that
/// starts a group of three counted from the right.
spec fn spaced(ds: Seq<char>, i: int) -> Seq<char>
    decreases i,
{
    if i <= 0 {
        seq![]
    } else {
        let prev = spaced(ds, i - 1);
        let sep = if i - 1 > 0 && (ds.len() - (i - 1)) % 3 == 0 { seq![' '] } else { seq![] };
        prev + sep + seq![ds[i - 1]]
    }
}

proof fn lemma_spaced_prefix(ds: Seq<char>, p: Seq<char>, i: int)
    requires
        0 <= i <= p.len() <= ds.len(),
        p == ds.take(p.len() as int),
        (ds.len() - p.len()) % 3 == 0,
    ensures
        spaced(ds, i) == spaced(p, i),
    decreases i,
{
    if i > 0 {
        lemma_spaced_prefix(ds, p, i - 1);
        assert((ds.len() - (i - 1)) % 3 == (p.len() - (i - 1)) % 3);
    }
}

proof fn lemma_spaced_grouped(ds: Seq<char>)
    ensures
        spaced(ds, ds.len() as int) == grouped(ds),
    decreases ds.len(),
{
    let n = ds.len() as int;
    if n <= 3 {
        assert(spaced(ds, 0) =~= seq![]);
        if n >= 1 {
            assert(spaced(ds, 1) =~= ds.take(1));
        }
        if n >= 2 {
            assert(spaced(ds, 2) =~= ds.take(2));
        }
        if n >= 3 {
            assert(spaced(ds, 3) =~= ds.take(3));
        }
        assert(ds.take(n) =~= ds);
    } else {
        let p = ds.take(n - 3);
        lemma_spaced_grouped(p);
        lemma_spaced_prefix(ds, p, n - 3);
        let base = spaced(ds, n - 3);
        assert(spaced(ds, n - 2) =~= base + seq![' '] + seq![ds[n - 3]]);
        assert(spaced(ds, n - 1) =~= base + seq![' '] + seq![ds[n - 3]] + seq![ds[n - 2]]);
        assert(spaced(ds, n) =~= base + seq![' '] + seq![ds[n - 3], ds[n - 2], ds[n - 1]]);
        assert(seq![ds[n - 3], ds[n - 2], ds[n - 1]] =~= ds.skip(n - 3));
        assert(spaced(ds, n) =~= grouped(p) + seq![' '] + ds.skip(n - 3));
    }
}

/// Whether `c` is a decimal digit.
pub open spec fn digit_like(c: char) -> bool {
    c == '0' || c == '1' || c == '2' || c == '3' || c == '4' || c == '5' || c == '6' || c == '7'
        || c == '8' || c == '9'
}

/// A one-character string for a digit or a space.
fn char_str(c: char) -> (r: &'static str)
    requires
        c == ' ' || c == '0' || c == '1' || c == '2' || c == '3' || c == '4' || c == '5' || c == '6'
            || c == '7' || c == '8' || c == '9',
    ensures
        r@ == seq![c],
{
    proof {
        reveal_strlit(" ");
        reveal_strlit("0");
        reveal_strlit("1");
        reveal_strlit("2");
        reveal_strlit("3");
        reveal_strlit("4");
        reveal_strlit("5");
        reveal_strlit("6");
        reveal_strlit("7");
        reveal_strlit("8");
        reveal_strlit("9");
    }
    match c {
        ' ' => " ",
        '0' => "0",
        '1' => "1",
        '2' => "2",
        '3' => "3",
        '4' => "4",
        '5' => "5",
        '6' => "6",
        '7' => "7",
        '8' => "8",
        _ => "9",
    }
}

/// The digit `d` (below 10).
fn digit(d: u64) -> (c: char)
    requires
        d < 10,
    ensures
        c == digit_char(d as int),
{
    match d {
        0 => '0',
        1 => '1',
        2 => '2',
        3 => '3',
        4 => '4',
        5 => '5',
        6 => '6',
        7 => '7',
        8 => '8',
        _ => '9',
    }
}

/// A count with its digits in groups of three: `65027295` gives
/// `"65 027 295"`.
pub fn fmt(n: u64) -> (r: String)
    ensures
        r@ == grouped(digits_of(n as nat)),
{
    // Digits, least significant first.
    let mut rev: Vec<char> = Vec::new();
    let mut m: u64 = n;
    let d0 = digit(m % 10);
    rev.push(d0);
    m = m / 10;
    proof {
        lemma_digits_step(n as nat);
        assert(rev@.reverse() =~= seq![d0]);
    }
    while m > 0
        invariant
            m > 0 ==> digits_of(n as nat) == digits_of(m as nat) + rev@.reverse(),
            m == 0 ==> digits_of(n as nat) == rev@.reverse(),
            forall|j: int| 0 <= j < rev@.len() ==> digit_like(#[trigger] rev@[j]),
        decreases m,
    {
        let d = digit(m % 10);
        let ghost before = rev@;
        rev.push(d);
        proof {
            lemma_digits_step(m as nat);
            assert(rev@.reverse() =~= seq![d] + before.reverse());
            if m >= 10 {
                assert(digits_of((m / 10) as nat).push(d) + before.reverse() =~= digits_of((m / 10) as nat)
                    + rev@.reverse());
            } else {
                assert(seq![d] + before.reverse() =~= rev@.reverse());
            }
        }
        m = m / 10;
    }
    let mut ds: Vec<char> = Vec::new();
    let mut j: usize = rev.len();
    while j > 0
        invariant
            j <= rev@.len(),
            ds@ == rev@.subrange(j as int, rev@.len() as int).reverse(),
            forall|q: int| 0 <= q < rev@.len() ==> digit_like(#[trigger] rev@[q]),
            forall|q: int| 0 <= q < ds@.len() ==> digit_like(#[trigger] ds@[q]),
        decreases j,
    {
        j -= 1;
        let ghost before = ds@;
        ds.push(rev[j]);
        proof {
            assert(ds@ =~= rev@.subrange(j as int, rev@.len() as int).reverse());
        }
    }
    proof {
        assert(rev@.subrange(0, rev@.len() as int) =~= rev@);
        assert(ds@ == digits_of(n as nat));
    }
    let len = ds.len();
    let mut out = String::new();
    let mut i: usize = 0;
    while i < len
        invariant
            i <= len,
            len == ds@.len(),
            out@ == spaced(ds@, i as int),
            forall|j: int| 0 <= j < ds@.len() ==> digit_like(#[trigger] ds@[j]),
        decreases len - i,
    {
        if i > 0 && (len - i) % 3 == 0 {
            out.append(char_str(' '));
        }
        out.append(char_str(ds[i]));
        i += 1;
    }
    proof {
        lemma_spaced_grouped(ds@);
    }
    out
}

} // verus!
