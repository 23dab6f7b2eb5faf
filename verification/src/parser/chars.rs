//! Character-level helpers over windows `[lo, hi)` of a line's characters:
//! Unicode whitespace, trimming and searching.

use vstd::prelude::*;

verus! {

/// Unicode `White_Space` (what `char::is_whitespace` tests).
pub open spec fn is_ws(c: char) -> bool {
    let u = c as u32;
    ||| 0x9 <= u <= 0xd
    ||| u == 0x20
    ||| u == 0x85
    ||| u == 0xa0
    ||| u == 0x1680
    ||| 0x2000 <= u <= 0x200a
    ||| u == 0x2028
    ||| u == 0x2029
    ||| u == 0x202f
    ||| u == 0x205f
    ||| u == 0x3000
}

/// Whether `c` is Unicode whitespace.
pub fn is_whitespace(c: char) -> (b: bool)
    ensures
        b == is_ws(c),
{
    let u = c as u32;
    (0x9 <= u && u <= 0xd) || u == 0x20 || u == 0x85 || u == 0xa0 || u == 0x1680
        || (0x2000 <= u && u <= 0x200a) || u == 0x2028 || u == 0x2029 || u == 0x202f
        || u == 0x205f || u == 0x3000
}

/// Number of leading whitespace characters.
pub open spec fn leading_ws(t: Seq<char>) -> nat
    decreases t.len(),
{
    if t.len() > 0 && is_ws(t[0]) {
        1 + leading_ws(t.drop_first())
    } else {
        0
    }
}

/// Number of trailing whitespace characters.
pub open spec fn trailing_ws(t: Seq<char>) -> nat
    decreases t.len(),
{
    if t.len() > 0 && is_ws(t.last()) {
        1 + trailing_ws(t.drop_last())
    } else {
        0
    }
}

/// `t` without its leading whitespace (`str::trim_start`).
pub open spec fn trim_start(t: Seq<char>) -> Seq<char> {
    t.skip(leading_ws(t) as int)
}

/// `t` without its trailing whitespace (`str::trim_end`).
pub open spec fn trim_end(t: Seq<char>) -> Seq<char> {
    t.take(t.len() - trailing_ws(t))
}

/// `t` without leading and trailing whitespace (`str::trim`).
pub open spec fn trim(t: Seq<char>) -> Seq<char> {
    trim_end(trim_start(t))
}

/// Index of the first `c` in `t`.
pub open spec fn find_char(t: Seq<char>, c: char) -> Option<int>
    decreases t.len(),
{
    if t.len() == 0 {
        None
    } else if t[0] == c {
        Some(0)
    } else {
        match find_char(t.drop_first(), c) {
            Some(i) => Some(i + 1),
            None => None,
        }
    }
}

/// Index of the first occurrence of the pair `a b` in `t`.
pub open spec fn find_pair(t: Seq<char>, a: char, b: char) -> Option<int>
    decreases t.len(),
{
    if t.len() < 2 {
        None
    } else if t[0] == a && t[1] == b {
        Some(0)
    } else {
        match find_pair(t.drop_first(), a, b) {
            Some(i) => Some(i + 1),
            None => None,
        }
    }
}

/// `k` leading characters are whitespace and the next one (if any) is not.
pub open spec fn ws_prefix(t: Seq<char>, k: int) -> bool {
    &&& 0 <= k <= t.len()
    &&& forall|i: int| 0 <= i < k ==> is_ws(#[trigger] t[i])
    &&& (k < t.len() ==> !is_ws(t[k]))
}

/// `k` trailing characters are whitespace and the one before (if any) is not.
pub open spec fn ws_suffix(t: Seq<char>, k: int) -> bool {
    &&& 0 <= k <= t.len()
    &&& forall|i: int| t.len() - k <= i < t.len() ==> is_ws(#[trigger] t[i])
    &&& (k < t.len() ==> !is_ws(t[t.len() - k - 1]))
}

/// `i` is the first position of `c`, or `None` when `c` does not occur.
pub open spec fn first_char(t: Seq<char>, c: char, r: Option<int>) -> bool {
    match r {
        Some(i) => 0 <= i < t.len() && t[i] == c && forall|j: int| 0 <= j < i ==> t[j] != c,
        None => forall|j: int| 0 <= j < t.len() ==> t[j] != c,
    }
}

/// `i` is the first position of the pair `a b`, or `None` when it does not occur.
pub open spec fn first_pair(t: Seq<char>, a: char, b: char, r: Option<int>) -> bool {
    match r {
        Some(i) => 0 <= i && i + 1 < t.len() && t[i] == a && t[i + 1] == b && forall|j: int|
            0 <= j < i ==> !(#[trigger] t[j] == a && t[j + 1] == b),
        None => forall|j: int| 0 <= j && j + 1 < t.len() ==> !(#[trigger] t[j] == a && t[j + 1] == b),
    }
}

pub proof fn lemma_leading_ws(t: Seq<char>, k: int)
    requires
        ws_prefix(t, k),
    ensures
        leading_ws(t) == k,
    decreases t.len(),
{
    if t.len() > 0 && is_ws(t[0]) {
        assert(k > 0);
        let d = t.drop_first();
        assert(ws_prefix(d, k - 1)) by {
            assert forall|i: int| 0 <= i < k - 1 implies is_ws(#[trigger] d[i]) by {
                assert(d[i] == t[i + 1]);
            }
        }
        lemma_leading_ws(d, k - 1);
    } else if t.len() > 0 {
        assert(k == 0);
    }
}

pub proof fn lemma_trailing_ws(t: Seq<char>, k: int)
    requires
        ws_suffix(t, k),
    ensures
        trailing_ws(t) == k,
    decreases t.len(),
{
    if t.len() > 0 && is_ws(t.last()) {
        assert(k > 0);
        let d = t.drop_last();
        assert(ws_suffix(d, k - 1)) by {
            assert forall|i: int| d.len() - (k - 1) <= i < d.len() implies is_ws(#[trigger] d[i]) by {
                assert(d[i] == t[i]);
            }
        }
        lemma_trailing_ws(d, k - 1);
    } else if t.len() > 0 {
        assert(k == 0);
    }
}

pub proof fn lemma_find_char(t: Seq<char>, c: char, r: Option<int>)
    requires
        first_char(t, c, r),
    ensures
        find_char(t, c) == r,
    decreases t.len(),
{
    if t.len() > 0 && t[0] != c {
        let d = t.drop_first();
        let rd = match r {
            Some(i) => Some(i - 1),
            None => None,
        };
        assert(first_char(d, c, rd)) by {
            match r {
                Some(i) => {
                    assert(i > 0);
                    assert forall|j: int| 0 <= j < i - 1 implies d[j] != c by {
                        assert(d[j] == t[j + 1]);
                    }
                },
                None => {
                    assert forall|j: int| 0 <= j < d.len() implies d[j] != c by {
                        assert(d[j] == t[j + 1]);
                    }
                },
            }
        }
        lemma_find_char(d, c, rd);
    } else if t.len() > 0 {
        assert(r == Some(0int)) by {
            match r {
                Some(i) => {
                    if i > 0 {
                        assert(t[0] != c);
                    }
                },
                None => {
                    assert(t[0] != c);
                },
            }
        }
    }
}

pub proof fn lemma_find_pair(t: Seq<char>, a: char, b: char, r: Option<int>)
    requires
        first_pair(t, a, b, r),
    ensures
        find_pair(t, a, b) == r,
    decreases t.len(),
{
    if t.len() >= 2 && !(t[0] == a && t[1] == b) {
        let d = t.drop_first();
        let rd = match r {
            Some(i) => Some(i - 1),
            None => None,
        };
        assert(first_pair(d, a, b, rd)) by {
            match r {
                Some(i) => {
                    assert(i > 0);
                    assert forall|j: int| 0 <= j < i - 1 implies !(#[trigger] d[j] == a && d[j + 1] == b) by {
                        assert(d[j] == t[j + 1]);
                        assert(d[j + 1] == t[j + 2]);
                    }
                },
                None => {
                    assert forall|j: int| 0 <= j && j + 1 < d.len() implies !(#[trigger] d[j] == a && d[j + 1] == b) by {
                        assert(d[j] == t[j + 1]);
                        assert(d[j + 1] == t[j + 2]);
                    }
                },
            }
        }
        lemma_find_pair(d, a, b, rd);
    } else if t.len() >= 2 {
        assert(r == Some(0int)) by {
            match r {
                Some(i) => {
                    if i > 0 {
                        assert(!(t[0] == a && t[1] == b));
                    }
                },
                None => {},
            }
        }
    } else {
        match r {
            Some(i) => {},
            None => {},
        }
    }
}

/// `find_char` gives the first occurrence.
pub proof fn lemma_find_char_first(t: Seq<char>, c: char)
    ensures
        first_char(t, c, find_char(t, c)),
    decreases t.len(),
{
    if t.len() > 0 && t[0] != c {
        let d = t.drop_first();
        lemma_find_char_first(d, c);
        assert forall|j: int| 1 <= j < t.len() implies t[j] == d[j - 1] by {}
    }
}

pub proof fn lemma_find_char_bounds(t: Seq<char>, c: char)
    ensures
        find_char(t, c) matches Some(i) ==> 0 <= i < t.len() && t[i] == c,
    decreases t.len(),
{
    if t.len() > 0 && t[0] != c {
        lemma_find_char_bounds(t.drop_first(), c);
    }
}

pub proof fn lemma_find_pair_bounds(t: Seq<char>, a: char, b: char)
    ensures
        find_pair(t, a, b) matches Some(i) ==> 0 <= i && i + 1 < t.len() && t[i] == a && t[i + 1] == b,
    decreases t.len(),
{
    if t.len() >= 2 && !(t[0] == a && t[1] == b) {
        lemma_find_pair_bounds(t.drop_first(), a, b);
    }
}

/// Trimming a string whose start is already trimmed.
pub proof fn lemma_trim_start_idempotent(t: Seq<char>)
    ensures
        trim(trim_start(t)) == trim(t),
{
    let s = trim_start(t);
    lemma_leading_ws_prefix(t);
    assert(ws_prefix(s, 0));
    lemma_leading_ws(s, 0);
    assert(trim_start(s) =~= s);
}

/// Trimming the start twice trims nothing more; a string that is blank once
/// trimmed is blank once its start is trimmed.
pub proof fn lemma_trim_start_twice(t: Seq<char>)
    ensures
        trim_start(trim_start(t)) == trim_start(t),
        trim(t).len() == 0 ==> trim_start(t).len() == 0,
{
    let s = trim_start(t);
    lemma_leading_ws_prefix(t);
    assert(ws_prefix(s, 0));
    lemma_leading_ws(s, 0);
    assert(trim_start(s) =~= s);
    if s.len() > 0 {
        lemma_trailing_ws_short(s);
    }
}

/// A string that starts with a non-whitespace character is not all
/// trailing whitespace.
pub proof fn lemma_trailing_ws_short(s: Seq<char>)
    requires
        s.len() > 0,
        !is_ws(s[0]),
    ensures
        trailing_ws(s) < s.len(),
    decreases s.len(),
{
    if s.len() > 1 && is_ws(s.last()) {
        let d = s.drop_last();
        assert(d[0] == s[0]);
        lemma_trailing_ws_short(d);
    }
}

/// There is no more trailing whitespace than characters.
proof fn lemma_trailing_ws_bound(t: Seq<char>)
    ensures
        trailing_ws(t) <= t.len(),
    decreases t.len(),
{
    if t.len() > 0 && is_ws(t.last()) {
        lemma_trailing_ws_bound(t.drop_last());
    }
}

/// The trimmed text is a window of the text: it starts after the leading
/// whitespace.
pub proof fn lemma_trim_window(t: Seq<char>)
    ensures
        leading_ws(t) <= t.len(),
        trim(t).len() <= t.len() - leading_ws(t),
        forall|j: int| 0 <= j < trim(t).len() ==> #[trigger] trim(t)[j] == t[j + leading_ws(t)],
{
    lemma_leading_ws_prefix(t);
    lemma_trailing_ws_bound(trim_start(t));
}

/// `trailing_ws` counts exactly the trailing whitespace.
proof fn lemma_trailing_ws_suffix(t: Seq<char>)
    ensures
        ws_suffix(t, trailing_ws(t) as int),
    decreases t.len(),
{
    if t.len() > 0 && is_ws(t.last()) {
        let d = t.drop_last();
        lemma_trailing_ws_suffix(d);
        assert forall|i: int| t.len() - trailing_ws(t) <= i < t.len() implies is_ws(#[trigger] t[i]) by {
            if i < t.len() - 1 {
                assert(t[i] == d[i]);
            }
        }
        if trailing_ws(t) < t.len() {
            assert(t[t.len() - trailing_ws(t) - 1] == d[d.len() - trailing_ws(d) - 1]);
        }
    }
}

/// Trimming twice trims nothing more.
pub proof fn lemma_trim_twice(t: Seq<char>)
    ensures
        trim(trim(t)) == trim(t),
{
    let y = trim_start(t);
    let x = trim(t);
    lemma_leading_ws_prefix(t);
    assert(ws_prefix(y, 0));
    lemma_leading_ws(y, 0);
    lemma_trailing_ws_suffix(y);
    lemma_trailing_ws_bound(y);
    if x.len() > 0 {
        assert(x[0] == y[0]);
        assert(ws_prefix(x, 0));
        lemma_leading_ws(x, 0);
        assert(x.last() == y[y.len() - trailing_ws(y) - 1]);
        assert(ws_suffix(x, 0));
        lemma_trailing_ws(x, 0);
        assert(trim_start(x) =~= x);
        assert(trim(x) =~= x);
    } else {
        assert(trim(x) =~= x);
    }
}

/// `leading_ws` counts exactly the leading whitespace.
pub proof fn lemma_leading_ws_prefix(t: Seq<char>)
    ensures
        ws_prefix(t, leading_ws(t) as int),
    decreases t.len(),
{
    if t.len() > 0 && is_ws(t[0]) {
        let d = t.drop_first();
        lemma_leading_ws_prefix(d);
        assert forall|i: int| 0 <= i < leading_ws(t) implies is_ws(#[trigger] t[i]) by {
            if i > 0 {
                assert(t[i] == d[i - 1]);
            }
        }
        if leading_ws(t) < t.len() {
            assert(t[leading_ws(t) as int] == d[leading_ws(d) as int]);
        }
    }
}

/// A line without the `\r` of a `\r\n` line ending.
pub open spec fn strip_cr(s: Seq<char>) -> Seq<char> {
    if s.len() > 0 && s.last() == '\r' {
        s.drop_last()
    } else {
        s
    }
}

/// The lines of a text (`str::lines`): split at `\n`, a `\r` before the `\n`
/// dropped, no empty last line after a final `\n`.
pub open spec fn text_lines(t: Seq<char>) -> Seq<Seq<char>>
    decreases t.len(),
{
    if t.len() == 0 {
        seq![]
    } else {
        match find_char(t, '\n') {
            Some(i) => {
                proof {
                    lemma_find_char_bounds(t, '\n');
                }
                seq![strip_cr(t.take(i))] + text_lines(t.skip(i + 1))
            },
            None => seq![t],
        }
    }
}

/// Characters of a string, in a vector.
pub fn chars_of(s: &str) -> (v: Vec<char>)
    ensures
        v@ == s@,
{
    let mut v: Vec<char> = Vec::new();
    let n = s.unicode_len();
    let mut i: usize = 0;
    while i < n
        invariant
            n == s@.len(),
            i <= n,
            v@ == s@.take(i as int),
        decreases n - i,
    {
        let c = s.get_char(i);
        v.push(c);
        i += 1;
        assert(v@ =~= s@.take(i as int));
    }
    assert(s@.take(n as int) =~= s@);
    v
}

/// Start of the window without its leading whitespace.
pub fn skip_ws(v: &Vec<char>, lo: usize, hi: usize) -> (r: usize)
    requires
        lo <= hi <= v@.len(),
    ensures
        lo <= r <= hi,
        r - lo == leading_ws(v@.subrange(lo as int, hi as int)),
{
    let mut i = lo;
    while i < hi && is_whitespace(v[i])
        invariant
            lo <= i <= hi <= v@.len(),
            forall|j: int| lo <= j < i ==> is_ws(#[trigger] v@[j]),
        decreases hi - i,
    {
        i += 1;
    }
    proof {
        let w = v@.subrange(lo as int, hi as int);
        assert(ws_prefix(w, i - lo)) by {
            assert forall|j: int| 0 <= j < i - lo implies is_ws(#[trigger] w[j]) by {
                assert(w[j] == v@[lo + j]);
            }
        }
        lemma_leading_ws(w, i - lo);
    }
    i
}

/// End of the window without its trailing whitespace.
pub fn skip_ws_back(v: &Vec<char>, lo: usize, hi: usize) -> (r: usize)
    requires
        lo <= hi <= v@.len(),
    ensures
        lo <= r <= hi,
        hi - r == trailing_ws(v@.subrange(lo as int, hi as int)),
{
    let mut i = hi;
    while i > lo && is_whitespace(v[i - 1])
        invariant
            lo <= i <= hi <= v@.len(),
            forall|j: int| i <= j < hi ==> is_ws(#[trigger] v@[j]),
        decreases i - lo,
    {
        i -= 1;
    }
    proof {
        let w = v@.subrange(lo as int, hi as int);
        assert(ws_suffix(w, hi - i)) by {
            assert forall|j: int| w.len() - (hi - i) <= j < w.len() implies is_ws(#[trigger] w[j]) by {
                assert(w[j] == v@[lo + j]);
            }
            if hi - i < w.len() {
                assert(w[w.len() - (hi - i) - 1] == v@[i - 1]);
            }
        }
        lemma_trailing_ws(w, hi - i);
    }
    i
}

/// Bounds of the trimmed window.
pub fn trim_window(v: &Vec<char>, lo: usize, hi: usize) -> (r: (usize, usize))
    requires
        lo <= hi <= v@.len(),
    ensures
        lo <= r.0 <= r.1 <= hi,
        v@.subrange(r.0 as int, r.1 as int) == trim(v@.subrange(lo as int, hi as int)),
{
    let a = skip_ws(v, lo, hi);
    let b = skip_ws_back(v, a, hi);
    proof {
        let w = v@.subrange(lo as int, hi as int);
        assert(trim_start(w) =~= v@.subrange(a as int, hi as int));
        assert(trim_end(trim_start(w)) =~= v@.subrange(a as int, b as int));
    }
    (a, b)
}

/// First position of `c` in the window.
pub fn find_char_window(v: &Vec<char>, lo: usize, hi: usize, c: char) -> (r: Option<usize>)
    requires
        lo <= hi <= v@.len(),
    ensures
        match r {
            Some(i) => lo <= i < hi && find_char(v@.subrange(lo as int, hi as int), c) == Some(i - lo),
            None => find_char(v@.subrange(lo as int, hi as int), c) == None::<int>,
        },
{
    let ghost w = v@.subrange(lo as int, hi as int);
    let mut i = lo;
    while i < hi
        invariant
            lo <= i <= hi <= v@.len(),
            w == v@.subrange(lo as int, hi as int),
            forall|j: int| lo <= j < i ==> v@[j] != c,
        decreases hi - i,
    {
        if v[i] == c {
            proof {
                assert forall|j: int| 0 <= j < i - lo implies w[j] != c by {
                    assert(w[j] == v@[lo + j]);
                }
                lemma_find_char(w, c, Some(i - lo));
            }
            return Some(i);
        }
        i += 1;
    }
    proof {
        assert forall|j: int| 0 <= j < w.len() implies w[j] != c by {
            assert(w[j] == v@[lo + j]);
        }
        lemma_find_char(w, c, None);
    }
    None
}

/// First position of the pair `a b` in the window.
pub fn find_pair_window(v: &Vec<char>, lo: usize, hi: usize, a: char, b: char) -> (r: Option<usize>)
    requires
        lo <= hi <= v@.len(),
    ensures
        match r {
            Some(i) => lo <= i && i + 1 < hi && find_pair(v@.subrange(lo as int, hi as int), a, b) == Some(i - lo),
            None => find_pair(v@.subrange(lo as int, hi as int), a, b) == None::<int>,
        },
{
    let ghost w = v@.subrange(lo as int, hi as int);
    let mut i = lo;
    while i < hi && i + 1 < hi
        invariant
            lo <= i <= hi <= v@.len(),
            w == v@.subrange(lo as int, hi as int),
            forall|j: int| lo <= j < i && j + 1 < hi ==> !(#[trigger] v@[j] == a && v@[j + 1] == b),
        decreases hi - i,
    {
        if v[i] == a && v[i + 1] == b {
            proof {
                assert forall|j: int| 0 <= j < i - lo implies !(#[trigger] w[j] == a && w[j + 1] == b) by {
                    assert(w[j] == v@[lo + j]);
                    assert(w[j + 1] == v@[lo + j + 1]);
                }
                lemma_find_pair(w, a, b, Some(i - lo));
            }
            return Some(i);
        }
        i += 1;
    }
    proof {
        assert forall|j: int| 0 <= j && j + 1 < w.len() implies !(#[trigger] w[j] == a && w[j + 1] == b) by {
            assert(w[j] == v@[lo + j]);
            assert(w[j + 1] == v@[lo + j + 1]);
        }
        lemma_find_pair(w, a, b, None);
    }
    None
}

} // verus!
