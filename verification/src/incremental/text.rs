//! Lines of a UTF-8 text by byte offsets: where each line starts, and the
//! text of a line without its line ending.

use vstd::prelude::*;
use vstd::utf8::*;
use crate::engine::bytes::NEWLINE;
use crate::parser::chars::{find_char, lemma_find_char_first, strip_cr, text_lines};

verus! {

/// Byte `\r`.
pub const CR: u8 = 0x0d;

/// Line starts among the first `k` bytes: 0, then one past each `\n`.
pub open spec fn starts_upto(b: Seq<u8>, k: int) -> Seq<usize>
    decreases k,
{
    if k <= 0 {
        seq![0usize]
    } else if b[k - 1] == NEWLINE {
        starts_upto(b, k - 1).push(k as usize)
    } else {
        starts_upto(b, k - 1)
    }
}

/// Byte offsets of the line starts of `b`.
pub open spec fn starts_of(b: Seq<u8>) -> Seq<usize> {
    starts_upto(b, b.len() as int)
}

/// The entries of `s` after the first, each moved by `d`.
pub open spec fn shifted_tail(s: Seq<usize>, d: int) -> Seq<usize> {
    s.skip(1).map_values(|x: usize| (x + d) as usize)
}

/// Well-formed line starts of a text of `n` bytes: they begin at 0, increase
/// strictly, and each is at most `n`.
pub open spec fn starts_wf(s: Seq<usize>, n: int) -> bool {
    &&& s.len() > 0
    &&& s[0] == 0
    &&& forall|i: int, j: int| 0 <= i < j < s.len() ==> s[i] < s[j]
    &&& forall|i: int| 0 <= i < s.len() ==> #[trigger] s[i] <= n
}

/// Facts about `starts_upto`: well formed, one past each `\n` among the
/// first `k` bytes and nothing else.
pub proof fn lemma_starts_upto(b: Seq<u8>, k: int)
    requires
        0 <= k <= b.len(),
        k <= usize::MAX,
    ensures
        starts_wf(starts_upto(b, k), k),
        forall|i: int| 0 < i < starts_upto(b, k).len() ==> b[#[trigger] starts_upto(b, k)[i] - 1] == NEWLINE,
        forall|p: int|
            0 <= p < k && b[p] == NEWLINE ==> exists|i: int|
                0 < i < starts_upto(b, k).len() && #[trigger] starts_upto(b, k)[i] == p + 1,
    decreases k,
{
    if k > 0 {
        lemma_starts_upto(b, k - 1);
        let s = starts_upto(b, k - 1);
        if b[k - 1] == NEWLINE {
            let t = s.push(k as usize);
            assert(starts_upto(b, k) == t);
            assert forall|p: int| 0 <= p < k && b[p] == NEWLINE implies exists|i: int|
                0 < i < t.len() && #[trigger] t[i] == p + 1 by {
                if p == k - 1 {
                    assert(t[s.len() as int] == p + 1);
                } else {
                    let i = choose|i: int| 0 < i < s.len() && #[trigger] s[i] == p + 1;
                    assert(t[i] == p + 1);
                }
            }
        }
    }
}

/// Line starts of a concatenation: those of the first part, then those of
/// the second after its leading 0, moved by the length of the first part.
pub proof fn lemma_starts_concat(x: Seq<u8>, y: Seq<u8>, k: int)
    requires
        0 <= k <= y.len(),
        x.len() + y.len() <= usize::MAX,
    ensures
        starts_upto(x + y, x.len() + k) == starts_of(x) + shifted_tail(starts_upto(y, k), x.len() as int),
    decreases k,
{
    let xy = x + y;
    if k == 0 {
        assert(starts_upto(xy, x.len() as int) == starts_upto(x, x.len() as int)) by {
            assert(xy.take(x.len() as int) =~= x.take(x.len() as int));
            lemma_starts_prefix(xy, x, x.len() as int);
        }
        assert(shifted_tail(starts_upto(y, 0), x.len() as int) =~= seq![]);
        assert(starts_of(x) + seq![] =~= starts_of(x));
    } else {
        lemma_starts_concat(x, y, k - 1);
        let d = x.len() as int;
        let prev = shifted_tail(starts_upto(y, k - 1), d);
        assert(xy[x.len() + k - 1] == y[k - 1]);
        lemma_starts_upto(y, k - 1);
        if y[k - 1] == NEWLINE {
            let s = starts_upto(y, k - 1);
            assert(s.push(k as usize).skip(1) =~= s.skip(1).push(k as usize));
            assert(shifted_tail(starts_upto(y, k), d) =~= prev.push((x.len() + k) as usize));
            assert(starts_of(x) + prev.push((x.len() + k) as usize) =~= (starts_of(x) + prev).push(
                (x.len() + k) as usize,
            ));
        }
    }
}

/// Line starts up to `k` depend on the first `k` bytes only.
pub proof fn lemma_starts_prefix(a: Seq<u8>, b: Seq<u8>, k: int)
    requires
        0 <= k <= a.len(),
        k <= b.len(),
        a.take(k) == b.take(k),
    ensures
        starts_upto(a, k) == starts_upto(b, k),
    decreases k,
{
    if k > 0 {
        assert(a.take(k - 1) =~= a.take(k).take(k - 1));
        assert(b.take(k - 1) =~= b.take(k).take(k - 1));
        lemma_starts_prefix(a, b, k - 1);
        assert(a[k - 1] == a.take(k)[k - 1]);
        assert(b[k - 1] == b.take(k)[k - 1]);
    }
}

/// Line starts of a concatenation of three parts.
pub proof fn lemma_starts_of3(x: Seq<u8>, y: Seq<u8>, z: Seq<u8>)
    requires
        x.len() + y.len() + z.len() <= usize::MAX,
    ensures
        starts_of(x + y + z) == starts_of(x) + shifted_tail(starts_of(y), x.len() as int)
            + shifted_tail(starts_of(z), (x.len() + y.len()) as int),
        starts_of(x + y) == starts_of(x) + shifted_tail(starts_of(y), x.len() as int),
{
    lemma_starts_concat(x, y, y.len() as int);
    lemma_starts_concat(x + y, z, z.len() as int);
    assert((x + y).len() == x.len() + y.len());
}

/// The moved tail of the line starts of `y`: each entry is a start of `y`
/// after the first, moved by `d`, so it lies in `(d, d + |y|]`, and the
/// entries increase strictly.
pub proof fn lemma_shifted_tail(y: Seq<u8>, d: int)
    requires
        0 <= d,
        d + y.len() <= usize::MAX,
    ensures
        shifted_tail(starts_of(y), d).len() == starts_of(y).len() - 1,
        forall|k: int|
            0 <= k < shifted_tail(starts_of(y), d).len() ==> {
                &&& #[trigger] shifted_tail(starts_of(y), d)[k] == starts_of(y)[k + 1] + d
                &&& d < shifted_tail(starts_of(y), d)[k] <= d + y.len()
                &&& y[starts_of(y)[k + 1] - 1] == NEWLINE
            },
        forall|k1: int, k2: int|
            0 <= k1 < k2 < shifted_tail(starts_of(y), d).len() ==> shifted_tail(starts_of(y), d)[k1]
                < shifted_tail(starts_of(y), d)[k2],
{
    lemma_starts_upto(y, y.len() as int);
    let s = starts_of(y);
    let t = shifted_tail(s, d);
    assert forall|k: int| 0 <= k < t.len() implies {
        &&& #[trigger] t[k] == s[k + 1] + d
        &&& d < t[k] <= d + y.len()
        &&& y[s[k + 1] - 1] == NEWLINE
    } by {
        assert(s[0] < s[k + 1]);
        assert(s[k + 1] <= y.len());
    }
    assert forall|k1: int, k2: int| 0 <= k1 < k2 < t.len() implies t[k1] < t[k2] by {
        assert(s[k1 + 1] < s[k2 + 1]);
    }
}

/// UTF-8 encoding of a concatenation.
pub proof fn lemma_encode_concat(x: Seq<char>, y: Seq<char>)
    ensures
        encode_utf8(x + y) == encode_utf8(x) + encode_utf8(y),
    decreases x.len(),
{
    if x.len() == 0 {
        assert(x + y =~= y);
        assert(encode_utf8(x) + encode_utf8(y) =~= encode_utf8(y));
    } else {
        lemma_encode_concat(x.drop_first(), y);
        assert((x + y).drop_first() =~= x.drop_first() + y);
        assert((x + y)[0] == x[0]);
        assert(encode_utf8(x + y) =~= encode_scalar(x[0] as u32) + encode_utf8(x.drop_first() + y));
    }
}

/// End of line `i`: the next line start, or the end of the text.
pub open spec fn line_end(s: Seq<usize>, n: int, i: int) -> int {
    if i + 1 < s.len() {
        s[i + 1] as int
    } else {
        n
    }
}

/// Bytes of line `i`, line ending included.
pub open spec fn raw_line(b: Seq<u8>, s: Seq<usize>, i: int) -> Seq<u8> {
    b.subrange(s[i] as int, line_end(s, b.len() as int, i))
}

/// A line without its ending: a final `\n` goes, and then a `\r` before it.
pub open spec fn strip_ending(l: Seq<u8>) -> Seq<u8> {
    if l.len() > 0 && l.last() == NEWLINE {
        let m = l.drop_last();
        if m.len() > 0 && m.last() == CR {
            m.drop_last()
        } else {
            m
        }
    } else {
        l
    }
}

/// Text of line `i` without its ending.
pub open spec fn line_text(b: Seq<u8>, s: Seq<usize>, i: int) -> Seq<char> {
    decode_utf8(strip_ending(raw_line(b, s, i)))
}

/// In valid UTF-8, a position is a character boundary exactly when it is the
/// end or holds no continuation byte.
pub proof fn lemma_boundary(b: Seq<u8>, k: int)
    requires
        valid_utf8(b),
        0 <= k <= b.len(),
    ensures
        is_char_boundary(b, k) <==> (k == b.len() || !is_continuation_byte(b[k])),
{
    if k == b.len() {
        is_char_boundary_start_end_of_seq(b);
    } else {
        is_char_boundary_iff_not_is_continuation_byte(b, k);
    }
}

/// In valid UTF-8 the position after an ASCII byte is a character boundary.
pub proof fn lemma_after_ascii(b: Seq<u8>, p: int)
    requires
        valid_utf8(b),
        0 <= p < b.len(),
        b[p] < 0x80,
    ensures
        is_char_boundary(b, p + 1),
{
    lemma_boundary(b, p);
    valid_utf8_split(b, p);
    let c = b.subrange(p, b.len() as int);
    assert(c[0] == b[p]);
    assert(pop_first_scalar(c) =~= b.subrange(p + 1, b.len() as int));
    if p + 1 < b.len() {
        let d = b.subrange(p + 1, b.len() as int);
        assert(valid_utf8(d));
        assert(valid_first_scalar(d));
        assert(d[0] == b[p + 1]);
        lemma_boundary(b, p + 1);
    } else {
        lemma_boundary(b, p + 1);
    }
}

/// Line starts of valid UTF-8 are character boundaries.
pub proof fn lemma_starts_boundaries(b: Seq<u8>, i: int)
    requires
        valid_utf8(b),
        b.len() <= usize::MAX,
        0 <= i < starts_of(b).len(),
    ensures
        is_char_boundary(b, starts_of(b)[i] as int),
{
    lemma_starts_upto(b, b.len() as int);
    let s = starts_of(b);
    if i == 0 {
        is_char_boundary_start_end_of_seq(b);
    } else {
        assert(b[s[i] - 1] == NEWLINE);
        lemma_after_ascii(b, s[i] - 1);
    }
}

/// A line that ends before the end of the first part of `x + y + z` is a
/// line of `x`.
pub proof fn lemma_line_in_head(x: Seq<u8>, y: Seq<u8>, z: Seq<u8>, i: int)
    requires
        x.len() + y.len() + z.len() <= usize::MAX,
        0 <= i,
        i + 1 < starts_of(x).len(),
    ensures
        raw_line(x + y + z, starts_of(x + y + z), i) == x.subrange(
            starts_of(x)[i] as int,
            starts_of(x)[i + 1] as int,
        ),
{
    lemma_starts_of3(x, y, z);
    lemma_starts_upto(x, x.len() as int);
    let u = x + y + z;
    let su = starts_of(u);
    assert(su[i] == starts_of(x)[i]);
    assert(su[i + 1] == starts_of(x)[i + 1]);
    assert(starts_of(x)[i] < starts_of(x)[i + 1] <= x.len());
    assert(raw_line(u, su, i) =~= x.subrange(starts_of(x)[i] as int, starts_of(x)[i + 1] as int));
}

/// End of line `k` of `z` among its line starts.
pub open spec fn tail_end(z: Seq<u8>, k: int) -> int {
    if k + 1 < starts_of(z).len() {
        starts_of(z)[k + 1] as int
    } else {
        z.len() as int
    }
}

/// A line that starts after the second part of `x + y + z` is a line of
/// `z`, whatever `y` is.
pub proof fn lemma_line_in_tail(x: Seq<u8>, y: Seq<u8>, z: Seq<u8>, m: int)
    requires
        x.len() + y.len() + z.len() <= usize::MAX,
        0 <= m,
        m + 1 < starts_of(z).len(),
    ensures
        raw_line(x + y + z, starts_of(x + y + z), starts_of(x).len() + starts_of(y).len() - 1 + m)
            == z.subrange(starts_of(z)[m + 1] as int, tail_end(z, m + 1)),
        starts_of(x).len() + starts_of(y).len() - 1 + m < starts_of(x + y + z).len(),
{
    lemma_starts_of3(x, y, z);
    lemma_starts_upto(x, x.len() as int);
    lemma_starts_upto(y, y.len() as int);
    lemma_starts_upto(z, z.len() as int);
    lemma_shifted_tail(y, x.len() as int);
    lemma_shifted_tail(z, (x.len() + y.len()) as int);
    let u = x + y + z;
    let su = starts_of(u);
    let d = (x.len() + y.len()) as int;
    let shz = shifted_tail(starts_of(z), d);
    let j = starts_of(x).len() + starts_of(y).len() - 1 + m;
    let sx_shy = starts_of(x).len() + shifted_tail(starts_of(y), x.len() as int).len();
    assert(j == sx_shy + m);
    assert(su[j] == shz[m]);
    if j + 1 < su.len() {
        assert(su[j + 1] == shz[m + 1]);
    }
    let a = starts_of(z)[m + 1] as int;
    let e = tail_end(z, m + 1);
    assert(a <= e <= z.len()) by {
        if m + 2 < starts_of(z).len() {
            assert(starts_of(z)[m + 1] < starts_of(z)[m + 2]);
        }
    }
    assert(raw_line(u, su, j) =~= z.subrange(a, e));
}

/// The bytes of a character's encoding: itself below `0x80`, else bytes of
/// `0x80` and above.
pub proof fn lemma_scalar_bytes(c: char)
    ensures
        encode_scalar(c as u32).len() >= 1,
        (c as u32) < 0x80 ==> encode_scalar(c as u32) == seq![(c as u32) as u8],
        (c as u32) >= 0x80 ==> forall|j: int|
            0 <= j < encode_scalar(c as u32).len() ==> #[trigger] encode_scalar(c as u32)[j] >= 0x80,
{
    char_is_scalar(c);
    let v = c as u32;
    if has_width_1_encoding(v) {
        assert((v & 0x7F) as u8 == v as u8) by (bit_vector)
            requires
                v <= 0x7F,
        ;
    } else {
        assert(leading_byte_width_2(v) >= 0x80 && leading_byte_width_3(v) >= 0x80 && leading_byte_width_4(v)
            >= 0x80 && last_continuation_byte(v) >= 0x80 && second_last_continuation_byte(v) >= 0x80
            && third_last_continuation_byte(v) >= 0x80) by (bit_vector);
    }
}

/// Two characters with the same code are the same.
pub proof fn lemma_char_code(c: char, d: char)
    requires
        c as u32 == d as u32,
    ensures
        c == d,
{
    char_u32_cast(c, c as u32);
    char_u32_cast(d, d as u32);
}

/// The encoding of a one-character sequence is the encoding of the character.
pub proof fn lemma_encode_one(c: char)
    ensures
        encode_utf8(seq![c]) == encode_scalar(c as u32),
{
    assert(seq![c].drop_first() =~= Seq::<char>::empty());
    assert(encode_utf8(seq![c]) =~= encode_scalar(c as u32) + encode_utf8(Seq::<char>::empty()));
}

/// A text without `\n` has no `\n` byte.
pub proof fn lemma_encode_no_newline(x: Seq<char>)
    requires
        forall|k: int| 0 <= k < x.len() ==> x[k] != '\n',
    ensures
        forall|j: int| 0 <= j < encode_utf8(x).len() ==> #[trigger] encode_utf8(x)[j] != NEWLINE,
    decreases x.len(),
{
    if x.len() > 0 {
        lemma_encode_no_newline(x.drop_first());
        lemma_scalar_bytes(x[0]);
        let e0 = encode_scalar(x[0] as u32);
        let r = encode_utf8(x.drop_first());
        assert(encode_utf8(x) == e0 + r);
        assert forall|j: int| 0 <= j < encode_utf8(x).len() implies #[trigger] encode_utf8(x)[j] != NEWLINE by {
            if j < e0.len() {
                if (x[0] as u32) < 0x80 {
                    if e0[j] == NEWLINE {
                        assert(x[0] as u32 == '\n' as u32);
                        lemma_char_code(x[0], '\n');
                    }
                }
            } else {
                assert(encode_utf8(x)[j] == r[j - e0.len()]);
            }
        }
    }
}

/// The line starts of a text without `\n` are just 0.
pub proof fn lemma_starts_no_newline(b: Seq<u8>, k: int)
    requires
        0 <= k <= b.len(),
        forall|j: int| 0 <= j < b.len() ==> #[trigger] b[j] != NEWLINE,
    ensures
        starts_upto(b, k) == seq![0usize],
    decreases k,
{
    if k > 0 {
        lemma_starts_no_newline(b, k - 1);
    }
}

/// The encoding of `x` ends with `\r` exactly when `x` does, and then the
/// bytes before it encode the characters before it.
pub proof fn lemma_encode_last_cr(x: Seq<char>)
    requires
        x.len() > 0,
    ensures
        encode_utf8(x).len() > 0,
        encode_utf8(x).last() == CR <==> x.last() == '\r',
        x.last() == '\r' ==> encode_utf8(x).drop_last() == encode_utf8(x.drop_last()),
        encode_utf8(x).last() == NEWLINE <==> x.last() == '\n',
{
    let init = x.drop_last();
    let c = x.last();
    assert(x =~= init + seq![c]);
    lemma_encode_concat(init, seq![c]);
    lemma_encode_one(c);
    lemma_scalar_bytes(c);
    let e = encode_scalar(c as u32);
    assert(encode_utf8(x) == encode_utf8(init) + e);
    assert(encode_utf8(x).last() == e[e.len() - 1]);
    if (c as u32) < 0x80 {
        if e[0] == CR {
            lemma_char_code(c, '\r');
        }
        if e[0] == NEWLINE {
            lemma_char_code(c, '\n');
        }
        if c == '\r' {
            assert(encode_utf8(x).drop_last() =~= encode_utf8(init));
        }
    } else {
        assert(e[e.len() - 1] >= 0x80);
        assert(c != '\r' && c != '\n') by {
            if c == '\r' || c == '\n' {
                assert((c as u32) < 0x80);
            }
        }
    }
}

/// Number of lines that `str::lines` gives: one per line start, less the
/// empty last line after a final `\n` (or of an empty text).
pub open spec fn lines_count(b: Seq<u8>) -> int {
    if b.len() == 0 || b.last() == NEWLINE {
        starts_of(b).len() - 1
    } else {
        starts_of(b).len() as int
    }
}

/// After a first line `p` that ends with its only `\n`, line `k + 1` of
/// `p + z` is line `k` of `z`.
pub proof fn lemma_lines_after(p: Seq<u8>, z: Seq<u8>, k: int)
    requires
        p.len() > 0,
        starts_of(p) == seq![0usize, p.len() as usize],
        p.len() + z.len() <= usize::MAX,
        0 <= k < starts_of(z).len(),
    ensures
        starts_of(p + z).len() == starts_of(z).len() + 1,
        raw_line(p + z, starts_of(p + z), k + 1) == raw_line(z, starts_of(z), k),
{
    lemma_starts_of3(p, z, seq![]);
    lemma_starts_upto(z, z.len() as int);
    lemma_shifted_tail(z, p.len() as int);
    let b = p + z;
    let sb = starts_of(b);
    let sz = starts_of(z);
    assert(sb == starts_of(p) + shifted_tail(sz, p.len() as int));
    assert(sb[k + 1] == sz[k] + p.len()) by {
        if k > 0 {
            assert(sb[k + 1] == shifted_tail(sz, p.len() as int)[k - 1]);
        }
    }
    if k + 2 < sb.len() {
        assert(sb[k + 2] == shifted_tail(sz, p.len() as int)[k]);
    }
    let e = line_end(sz, z.len() as int, k);
    assert(sz[k] <= e <= z.len()) by {
        if k + 1 < sz.len() {
            assert(sz[k] < sz[k + 1]);
        }
    }
    assert(raw_line(b, sb, k + 1) =~= raw_line(z, sz, k));
}

/// A first line `x` (without `\n`) followed by its `\n`: its bytes have line
/// starts 0 and their end, and the first line of anything after them is
/// `x` without a final `\r`.
pub proof fn lemma_first_line(x: Seq<char>, ey: Seq<u8>)
    requires
        forall|k: int| 0 <= k < x.len() ==> x[k] != '\n',
        encode_utf8(x).len() + 1 + ey.len() <= usize::MAX,
    ensures
        starts_of(encode_utf8(x) + seq![NEWLINE]) == seq![0usize, (encode_utf8(x).len() + 1) as usize],
        line_text(
            encode_utf8(x) + seq![NEWLINE] + ey,
            starts_of(encode_utf8(x) + seq![NEWLINE] + ey),
            0,
        ) == strip_cr(x),
{
    let ex = encode_utf8(x);
    let p = ex + seq![NEWLINE];
    lemma_encode_no_newline(x);
    lemma_starts_no_newline(ex, ex.len() as int);
    assert(p.take(ex.len() as int) =~= ex.take(ex.len() as int));
    lemma_starts_prefix(p, ex, ex.len() as int);
    assert(p[ex.len() as int] == NEWLINE);
    assert(starts_of(p) =~= seq![0usize, p.len() as usize]);
    let b = p + ey;
    lemma_starts_of3(p, ey, seq![]);
    lemma_starts_upto(ey, ey.len() as int);
    let sb = starts_of(b);
    assert(sb == starts_of(p) + shifted_tail(starts_of(ey), p.len() as int));
    assert(sb[1] == p.len());
    assert(raw_line(b, sb, 0) =~= p);
    assert(p.drop_last() =~= ex);
    if x.len() > 0 {
        lemma_encode_last_cr(x);
        encode_utf8_decode_utf8(x.drop_last());
    }
    encode_utf8_decode_utf8(x);
}

/// The lines of a text as `str::lines` splits them are the lines of its
/// UTF-8 bytes by line starts, without their endings.
#[verifier::rlimit(40)]
pub proof fn lemma_text_lines_bytes(t: Seq<char>)
    requires
        encode_utf8(t).len() <= usize::MAX,
    ensures
        lines_count(encode_utf8(t)) == text_lines(t).len(),
        forall|i: int|
            0 <= i < text_lines(t).len() ==> line_text(encode_utf8(t), starts_of(encode_utf8(t)), i)
                == #[trigger] text_lines(t)[i],
    decreases t.len(),
{
    let b = encode_utf8(t);
    if t.len() == 0 {
        assert(b =~= Seq::<u8>::empty());
    } else {
        lemma_find_char_first(t, '\n');
        match find_char(t, '\n') {
            None => {
                lemma_encode_no_newline(t);
                lemma_starts_no_newline(b, b.len() as int);
                lemma_encode_last_cr(t);
                assert(raw_line(b, starts_of(b), 0) =~= b);
                encode_utf8_decode_utf8(t);
            },
            Some(i) => {
                let x = t.take(i);
                let y = t.skip(i + 1);
                assert(t =~= x + seq!['\n'] + y);
                lemma_encode_concat(x + seq!['\n'], y);
                lemma_encode_concat(x, seq!['\n']);
                lemma_encode_one('\n');
                lemma_scalar_bytes('\n');
                let ex = encode_utf8(x);
                let ey = encode_utf8(y);
                let p = ex + seq![NEWLINE];
                assert(b == p + ey);
                lemma_first_line(x, ey);
                lemma_text_lines_bytes(y);
                assert(text_lines(t) == seq![strip_cr(x)] + text_lines(y));
                let sb = starts_of(b);
                assert forall|k: int| 0 <= k < text_lines(t).len() implies line_text(b, sb, k)
                    == #[trigger] text_lines(t)[k] by {
                    if k > 0 {
                        lemma_starts_upto(ey, ey.len() as int);
                        lemma_lines_after(p, ey, k - 1);
                        assert(text_lines(t)[k] == text_lines(y)[k - 1]);
                    }
                }
                lemma_starts_upto(ey, ey.len() as int);
                lemma_lines_after(p, ey, 0);
                if y.len() > 0 {
                    lemma_encode_last_cr(y);
                    lemma_encode_last_cr(t);
                    assert(t.last() == y.last());
                    assert(b.last() == ey.last());
                } else {
                    assert(ey =~= Seq::<u8>::empty());
                    assert(b.last() == NEWLINE);
                }
            },
        }
    }
}

/// Text of line `idx` of `src`, without its line ending; empty past the
/// last line.
pub fn line_slice<'a>(src: &'a str, starts: &[usize], idx: usize) -> (r: &'a str)
    requires
        starts@ == starts_of(encode_utf8(src@)),
    ensures
        r@ == if idx < starts@.len() { line_text(encode_utf8(src@), starts@, idx as int) } else { seq![] },
{
    if idx >= starts.len() {
        proof {
            reveal_strlit("");
        }
        return "";
    }
    let ghost b = encode_utf8(src@);
    let all = src.as_bytes();
    let total = all.len();
    proof {
        assert(all@ == b);
        encode_utf8_valid_utf8(src@);
        lemma_starts_upto(b, b.len() as int);
        lemma_starts_boundaries(b, idx as int);
    }
    let start = starts[idx];
    let end = if idx + 1 < starts.len() { starts[idx + 1] } else { total };
    let (_, rest) = src.split_at(start);
    let ghost c = b.subrange(start as int, b.len() as int);
    proof {
        valid_utf8_split(b, start as int);
        assert(encode_utf8(rest@) == c);
        if idx + 1 < starts@.len() {
            assert(b[end - 1] == NEWLINE);
            assert(c[end - start - 1] == b[end - 1]);
            lemma_after_ascii(c, end - start - 1);
        } else {
            is_char_boundary_start_end_of_seq(c);
        }
    }
    let (line, _) = rest.split_at(end - start);
    let ghost raw = raw_line(b, starts@, idx as int);
    proof {
        assert(encode_utf8(line@) =~= raw);
        valid_utf8_split(c, (end - start) as int);
        encode_utf8_decode_utf8(line@);
    }
    let lb = line.as_bytes();
    let n = lb.len();
    if n > 0 && lb[n - 1] == NEWLINE {
        proof {
            lemma_boundary(raw, n - 1);
        }
        let (m, _) = line.split_at(n - 1);
        let ghost mraw = raw.drop_last();
        proof {
            assert(encode_utf8(m@) =~= mraw);
            valid_utf8_split(raw, n - 1);
            encode_utf8_decode_utf8(m@);
        }
        let mb = m.as_bytes();
        let k = mb.len();
        if k > 0 && mb[k - 1] == CR {
            proof {
                lemma_boundary(mraw, k - 1);
            }
            let (mm, _) = m.split_at(k - 1);
            proof {
                assert(encode_utf8(mm@) =~= mraw.drop_last());
                encode_utf8_decode_utf8(mm@);
            }
            mm
        } else {
            m
        }
    } else {
        line
    }
}

/// Byte offsets of the line starts of `text`: 0, then one past each `\n`.
pub fn build_line_starts(text: &str) -> (r: Vec<usize>)
    ensures
        r@ == starts_of(encode_utf8(text@)),
{
    let bytes = text.as_bytes();
    let ghost b = encode_utf8(text@);
    let mut starts: Vec<usize> = vec![0usize];
    let mut i: usize = 0;
    assert(starts@ =~= starts_upto(b, 0));
    while i < bytes.len()
        invariant
            bytes@ == b,
            i <= b.len(),
            starts@ == starts_upto(b, i as int),
        decreases b.len() - i,
    {
        if bytes[i] == NEWLINE {
            starts.push(i + 1);
        }
        i += 1;
    }
    starts
}

} // verus!
