//! Stage 1: search for the bytes of interest, in blocks of 16 bytes. Each
//! block with at least one byte of interest gives a bit mask: bit `i` is set
//! when `text[offset + i]` is one of the target bytes. Blocks without a byte
//! of interest give nothing.
//!
//! Two ways of classifying a byte give the same masks: membership in the
//! target list, and a lookup in a pair of nibble tables (`build_tables`),
//! which is exact for targets below `0x80`.

use vstd::prelude::*;

verus! {

/// Size of a scan block in bytes.
pub const BLOCK: usize = 16;

/// A byte of interest and its position.
#[derive(Debug, Clone, Copy, PartialEq, Eq, Structural)]
pub struct Event {
    pub position: usize,
    pub byte: u8,
}

/// Mask of the first `k` bytes of the block at `offset`: bit `i` is set
/// when `text[offset + i]` is a target.
pub open spec fn mask_upto(text: Seq<u8>, targets: Seq<u8>, offset: int, k: nat) -> u32
    decreases k,
{
    if k == 0 {
        0
    } else {
        let m = mask_upto(text, targets, offset, (k - 1) as nat);
        if targets.contains(text[offset + k - 1]) {
            m | (1u32 << ((k - 1) as u32))
        } else {
            m
        }
    }
}

/// Number of bytes of the block at `offset`.
pub open spec fn block_len(len: int, offset: int) -> int {
    if len - offset < 16 {
        len - offset
    } else {
        16
    }
}

/// Mask of the block at `offset`.
pub open spec fn block_mask(text: Seq<u8>, targets: Seq<u8>, offset: int) -> u32 {
    mask_upto(text, targets, offset, block_len(text.len() as int, offset) as nat)
}

/// The `(offset, mask)` pairs of the blocks from `offset` on whose mask is
/// not zero, in order.
pub open spec fn scan_from(text: Seq<u8>, targets: Seq<u8>, offset: int) -> Seq<(usize, u32)>
    decreases text.len() - offset,
{
    if offset < 0 || offset >= text.len() {
        seq![]
    } else {
        let m = block_mask(text, targets, offset);
        let rest = if offset + 16 < text.len() {
            scan_from(text, targets, offset + 16)
        } else {
            seq![]
        };
        if m != 0 {
            seq![(offset as usize, m)] + rest
        } else {
            rest
        }
    }
}

/// The masks of the whole text.
pub open spec fn scan_masks(text: Seq<u8>, targets: Seq<u8>) -> Seq<(usize, u32)> {
    scan_from(text, targets, 0)
}

proof fn lemma_bit_or(m: u32, j: u32, rel: u32)
    requires
        j < 32,
        rel < 32,
    ensures
        ((m | (1u32 << j)) & (1u32 << rel)) != 0 <==> ((m & (1u32 << rel)) != 0 || rel == j),
{
    assert(((m | (1u32 << j)) & (1u32 << rel)) != 0 <==> ((m & (1u32 << rel)) != 0 || rel == j))
        by (bit_vector)
        requires
            j < 32,
            rel < 32,
    ;
}

/// Bit `rel` of the mask of the first `k` bytes is set exactly when
/// `rel < k` and that byte is a target.
pub proof fn lemma_mask_bits(text: Seq<u8>, targets: Seq<u8>, offset: int, k: nat)
    requires
        k <= 32,
    ensures
        forall|rel: u32|
            rel < 32 ==> ((#[trigger] (mask_upto(text, targets, offset, k) & (1u32 << rel))) != 0
                <==> (rel < k && targets.contains(text[offset + rel]))),
    decreases k,
{
    if k == 0 {
        assert forall|rel: u32| rel < 32 implies (#[trigger] (0u32 & (1u32 << rel))) == 0 by {
            assert((0u32 & (1u32 << rel)) == 0) by (bit_vector);
        }
    } else {
        lemma_mask_bits(text, targets, offset, (k - 1) as nat);
        let m = mask_upto(text, targets, offset, (k - 1) as nat);
        assert forall|rel: u32| rel < 32 implies ((#[trigger] (mask_upto(text, targets, offset, k)
            & (1u32 << rel))) != 0 <==> (rel < k && targets.contains(text[offset + rel]))) by {
            if targets.contains(text[offset + k - 1]) {
                lemma_bit_or(m, (k - 1) as u32, rel);
            }
            assert((m & (1u32 << rel)) != 0 <==> (rel < k - 1 && targets.contains(
                text[offset + rel],
            )));
        }
    }
}

/// Start of the block that holds position `p`.
pub open spec fn block_of(p: int) -> int {
    p - p % 16
}

proof fn lemma_scan_from(text: Seq<u8>, targets: Seq<u8>, offset: int)
    requires
        offset >= 0,
        offset % 16 == 0,
        text.len() <= usize::MAX,
    ensures
        forall|k: int|
            0 <= k < scan_from(text, targets, offset).len() ==> {
                let (o, m) = #[trigger] scan_from(text, targets, offset)[k];
                &&& offset <= o < text.len()
                &&& o % 16 == 0
                &&& m == block_mask(text, targets, o as int)
                &&& m != 0
            },
        forall|i: int, j: int|
            0 <= i < j < scan_from(text, targets, offset).len() ==> scan_from(text, targets, offset)[i].0
                + 16 <= scan_from(text, targets, offset)[j].0,
        forall|p: int|
            offset <= p < text.len() && #[trigger] block_mask(text, targets, block_of(p)) != 0 ==> exists|k: int|
                0 <= k < scan_from(text, targets, offset).len() && #[trigger] scan_from(
                    text,
                    targets,
                    offset,
                )[k].0 == block_of(p),
    decreases text.len() - offset,
{
    if offset < text.len() {
        let rest = if offset + 16 < text.len() {
            scan_from(text, targets, offset + 16)
        } else {
            seq![]
        };
        if offset + 16 < text.len() {
            lemma_scan_from(text, targets, offset + 16);
        }
        let r = scan_from(text, targets, offset);
        let m = block_mask(text, targets, offset);
        if m != 0 {
            assert(r == seq![(offset as usize, m)] + rest);
            assert forall|p: int|
                offset <= p < text.len() && #[trigger] block_mask(text, targets, block_of(p)) != 0 implies exists|
                k: int,
            | 0 <= k < r.len() && #[trigger] r[k].0 == block_of(p) by {
                if p < offset + 16 {
                    assert(p % 16 == p - offset);
                    assert(r[0].0 == block_of(p));
                } else {
                    let k = choose|k: int| 0 <= k < rest.len() && #[trigger] rest[k].0 == block_of(p);
                    assert(r[k + 1].0 == block_of(p));
                }
            }
        } else {
            assert forall|p: int|
                offset <= p < text.len() && #[trigger] block_mask(text, targets, block_of(p)) != 0 implies exists|
                k: int,
            | 0 <= k < r.len() && #[trigger] r[k].0 == block_of(p) by {
                if p < offset + 16 {
                    assert(block_of(p) == offset);
                } else {
                    let k = choose|k: int| 0 <= k < rest.len() && #[trigger] rest[k].0 == block_of(p);
                    assert(r[k].0 == block_of(p));
                }
            }
        }
    }
}

/// What `scan` reports is exactly the bytes of interest, in order: the
/// offsets are multiples of 16 and strictly increasing, and a position `p`
/// holds a target exactly when some reported block covers `p` with bit
/// `p - offset` of its mask set.
pub proof fn lemma_scan_exact(text: Seq<u8>, targets: Seq<u8>)
    requires
        text.len() <= usize::MAX,
    ensures
        forall|i: int, j: int|
            0 <= i < j < scan_masks(text, targets).len() ==> scan_masks(text, targets)[i].0 + 16
                <= scan_masks(text, targets)[j].0,
        forall|k: int|
            0 <= k < scan_masks(text, targets).len() ==> (#[trigger] scan_masks(text, targets)[k]).0
                % 16 == 0 && scan_masks(text, targets)[k].0 < text.len(),
        forall|p: int|
            0 <= p < text.len() ==> (targets.contains(text[p]) <==> exists|k: int|
                0 <= k < scan_masks(text, targets).len() && (#[trigger] scan_masks(text, targets)[k]).0
                    <= p < scan_masks(text, targets)[k].0 + 16 && (scan_masks(text, targets)[k].1
                    & (1u32 << ((p - scan_masks(text, targets)[k].0) as u32))) != 0),
{
    let r = scan_masks(text, targets);
    lemma_scan_from(text, targets, 0);
    assert forall|p: int| 0 <= p < text.len() implies (targets.contains(text[p]) <==> exists|k: int|
        0 <= k < r.len() && (#[trigger] r[k]).0 <= p < r[k].0 + 16 && (r[k].1 & (1u32 << ((p
            - r[k].0) as u32))) != 0) by {
        let o = p - p % 16;
        let n = block_len(text.len() as int, o);
        lemma_mask_bits(text, targets, o, n as nat);
        let rel = (p % 16) as u32;
        assert(rel < n);
        if targets.contains(text[p]) {
            assert((block_mask(text, targets, o) & (1u32 << rel)) != 0);
            assert(block_mask(text, targets, o) != 0) by {
                if block_mask(text, targets, o) == 0 {
                    assert((0u32 & (1u32 << rel)) == 0) by (bit_vector);
                }
            }
            assert(block_mask(text, targets, block_of(p)) != 0);
            let k = choose|k: int| 0 <= k < r.len() && #[trigger] r[k].0 == block_of(p);
            assert(r[k].0 <= p < r[k].0 + 16);
            assert((p - r[k].0) as u32 == rel);
        }
        if exists|k: int|
            0 <= k < r.len() && (#[trigger] r[k]).0 <= p < r[k].0 + 16 && (r[k].1 & (1u32 << ((p
                - r[k].0) as u32))) != 0 {
            let k = choose|k: int|
                0 <= k < r.len() && (#[trigger] r[k]).0 <= p < r[k].0 + 16 && (r[k].1 & (1u32 << ((p
                    - r[k].0) as u32))) != 0;
            assert(r[k].0 == o);
        }
    }
}

/// Positions below `k` that hold a target, increasing.
pub open spec fn target_positions(text: Seq<u8>, targets: Seq<u8>, k: int) -> Seq<usize>
    decreases k,
{
    if k <= 0 {
        seq![]
    } else if targets.contains(text[k - 1]) {
        target_positions(text, targets, k - 1).push((k - 1) as usize)
    } else {
        target_positions(text, targets, k - 1)
    }
}

/// Without a target in `[lo, hi)`, the positions below `hi` are those below
/// `lo`.
pub proof fn lemma_target_positions_gap(text: Seq<u8>, targets: Seq<u8>, lo: int, hi: int)
    requires
        0 <= lo <= hi <= text.len(),
        forall|p: int| lo <= p < hi ==> !targets.contains(#[trigger] text[p]),
    ensures
        target_positions(text, targets, hi) == target_positions(text, targets, lo),
    decreases hi - lo,
{
    if hi > lo {
        lemma_target_positions_gap(text, targets, lo, hi - 1);
    }
}

/// No target lies between the block before `idx` and block `idx` of the
/// scan (or the end of the text).
proof fn lemma_scan_gap(text: Seq<u8>, targets: Seq<u8>, idx: int)
    requires
        text.len() <= usize::MAX,
        0 <= idx <= scan_masks(text, targets).len(),
    ensures
        forall|p: int|
            (if idx == 0 { 0 } else { scan_masks(text, targets)[idx - 1].0 + 16 }) <= p < (if idx
                < scan_masks(text, targets).len() {
                scan_masks(text, targets)[idx].0 as int
            } else {
                text.len() as int
            }) ==> !targets.contains(#[trigger] text[p]),
{
    let r = scan_masks(text, targets);
    lemma_scan_from(text, targets, 0);
    let lo = if idx == 0 { 0 } else { r[idx - 1].0 + 16 };
    let hi = if idx < r.len() { r[idx].0 as int } else { text.len() as int };
    assert forall|p: int| lo <= p < hi implies !targets.contains(#[trigger] text[p]) by {
        if targets.contains(text[p]) {
            let o = block_of(p);
            let n = block_len(text.len() as int, o);
            lemma_mask_bits(text, targets, o, n as nat);
            let rel = (p % 16) as u32;
            assert((block_mask(text, targets, o) & (1u32 << rel)) != 0);
            assert(block_mask(text, targets, o) != 0) by {
                if block_mask(text, targets, o) == 0 {
                    assert((0u32 & (1u32 << rel)) == 0) by (bit_vector);
                }
            }
            let k = choose|k: int| 0 <= k < r.len() && #[trigger] r[k].0 == block_of(p);
            if idx > 0 {
                assert(r[idx - 1].0 % 16 == 0);
                assert(o >= lo);
                if k <= idx - 1 {
                    if k < idx - 1 {
                        assert(r[k].0 + 16 <= r[idx - 1].0);
                    }
                }
            }
            if idx < r.len() {
                assert(r[idx].0 % 16 == 0);
                if k > idx {
                    assert(r[idx].0 + 16 <= r[k].0);
                }
            }
        }
    }
}

/// Positions of the target bytes of `text`, in order, read off the masks
/// of `scan`.
pub fn positions_of(text: &[u8], targets: &[u8]) -> (r: Vec<usize>)
    ensures
        r@ == target_positions(text@, targets@, text@.len() as int),
{
    let blocks = scan(text, targets);
    let len = text.len();
    let mut out: Vec<usize> = Vec::new();
    let mut idx: usize = 0;
    let mut cur: usize = 0;
    proof {
        lemma_scan_from(text@, targets@, 0);
    }
    while idx < blocks.len()
        invariant
            blocks@ == scan_masks(text@, targets@),
            len == text@.len(),
            idx <= blocks@.len(),
            cur <= len,
            cur == (if idx == 0 { 0 } else if blocks@[idx - 1].0 + 16 <= len { blocks@[idx - 1].0 + 16 } else { len as int }),
            out@ == target_positions(text@, targets@, cur as int),
        decreases blocks@.len() - idx,
    {
        let (o, m) = blocks[idx];
        proof {
            lemma_scan_from(text@, targets@, 0);
            lemma_scan_gap(text@, targets@, idx as int);
            lemma_target_positions_gap(text@, targets@, cur as int, o as int);
        }
        let n: usize = if len - o < BLOCK { len - o } else { BLOCK };
        proof {
            lemma_mask_bits(text@, targets@, o as int, n as nat);
        }
        let mut rel: usize = 0;
        while rel < n
            invariant
                len == text@.len(),
                n == block_len(len as int, o as int),
                o + n <= len,
                n <= 16,
                rel <= n,
                m == block_mask(text@, targets@, o as int),
                forall|q: u32|
                    q < 32 ==> ((#[trigger] (m & (1u32 << q))) != 0 <==> (q < n && targets@.contains(
                        text@[o + q],
                    ))),
                out@ == target_positions(text@, targets@, o + rel),
            decreases n - rel,
        {
            let hit = (m & (1u32 << (rel as u32))) != 0;
            if hit {
                out.push(o + rel);
            }
            rel += 1;
        }
        cur = o + n;
        idx += 1;
    }
    proof {
        lemma_scan_gap(text@, targets@, idx as int);
        lemma_target_positions_gap(text@, targets@, cur as int, len as int);
    }
    out
}

/// Whether `b` occurs in `targets`.
pub fn contains_byte(targets: &[u8], b: u8) -> (r: bool)
    ensures
        r == targets@.contains(b),
{
    let mut i: usize = 0;
    while i < targets.len()
        invariant
            i <= targets@.len(),
            forall|j: int| 0 <= j < i ==> targets@[j] != b,
        decreases targets@.len() - i,
    {
        if targets[i] == b {
            assert(targets@[i as int] == b);
            return true;
        }
        i += 1;
    }
    false
}

/// Whether every target is below `0x80`.
pub open spec fn all_ascii(targets: Seq<u8>) -> bool {
    forall|i: int| 0 <= i < targets.len() ==> targets[i] < 0x80
}

/// Whether the nibble tables classify `b` as a target: the entry of `e` for
/// the low nibble of `b` has the bit that `bit` gives for its high nibble.
pub open spec fn table_hit(e: Seq<u8>, bit: Seq<u8>, b: u8) -> bool {
    b < 0x80 && (e[(b & 15) as int] & bit[(b >> 4) as int]) != 0
}

/// `e` and `bit` are the nibble tables of `targets`: `bit[n]` is `1 << n`
/// for `n < 8` and zero above, and the tables hit exactly the targets.
pub open spec fn tables_for(targets: Seq<u8>, e: Seq<u8>, bit: Seq<u8>) -> bool {
    &&& e.len() == 16
    &&& bit.len() == 16
    &&& forall|i: int| 0 <= i < 8 ==> bit[i] == (1u8 << (i as u8))
    &&& forall|i: int| 8 <= i < 16 ==> bit[i] == 0
    &&& forall|b: u8| #[trigger] table_hit(e, bit, b) <==> targets.contains(b)
}

proof fn lemma_byte_bit_or(m: u8, j: u8, g: u8)
    requires
        j < 8,
        g < 8,
    ensures
        ((m | (1u8 << j)) & (1u8 << g)) != 0 <==> ((m & (1u8 << g)) != 0 || g == j),
{
    assert(((m | (1u8 << j)) & (1u8 << g)) != 0 <==> ((m & (1u8 << g)) != 0 || g == j))
        by (bit_vector)
        requires
            j < 8,
            g < 8,
    ;
}

proof fn lemma_nibbles(b: u8, t: u8)
    ensures
        (b & 15) < 16,
        b < 0x80 ==> (b >> 4) < 8,
        ((b >> 4) == (t >> 4) && (b & 15) == (t & 15)) <==> b == t,
{
    assert((b & 15) < 16) by (bit_vector);
    assert(b < 0x80 ==> (b >> 4) < 8) by (bit_vector);
    assert(((b >> 4) == (t >> 4) && (b & 15) == (t & 15)) <==> b == t) by (bit_vector);
}

proof fn lemma_contains_push(s: Seq<u8>, x: u8, b: u8)
    ensures
        s.push(x).contains(b) <==> (s.contains(b) || b == x),
{
    if s.contains(b) {
        let k = choose|k: int| 0 <= k < s.len() && #[trigger] s[k] == b;
        assert(s.push(x)[k] == b);
    }
    if b == x {
        assert(s.push(x)[s.len() as int] == b);
    }
    if s.push(x).contains(b) {
        let k = choose|k: int| 0 <= k < s.len() + 1 && #[trigger] s.push(x)[k] == b;
        if k < s.len() {
            assert(s[k] == b);
        }
    }
}

/// Builds the nibble tables `(E, BIT)` of the targets: bit `h` of `E[n]` is
/// set when the byte `(h << 4) | n` is a target, and `BIT[n] = 1 << n`.
/// `None` when a target is `0x80` or above: its high nibble does not fit in
/// the eight bits of an entry of `E`.
pub fn build_tables(targets: &[u8]) -> (r: Option<([u8; 16], [u8; 16])>)
    ensures
        r is None <==> !all_ascii(targets@),
        r matches Some(t) ==> tables_for(targets@, t.0@, t.1@),
{
    let mut e: [u8; 16] = [0u8; 16];
    let mut i: usize = 0;
    proof {
        assert forall|b: u8| b < 0x80 implies ((#[trigger] (e@[(b & 15) as int] & (1u8 << (b
            >> 4)))) != 0 <==> targets@.take(0).contains(b)) by {
            lemma_nibbles(b, b);
            assert(e@[(b & 15) as int] == 0);
            assert((0u8 & (1u8 << (b >> 4))) == 0) by (bit_vector);
        }
    }
    while i < targets.len()
        invariant
            i <= targets@.len(),
            e@.len() == 16,
            forall|j: int| 0 <= j < i ==> targets@[j] < 0x80,
            forall|b: u8|
                b < 0x80 ==> ((#[trigger] (e@[(b & 15) as int] & (1u8 << (b >> 4)))) != 0
                    <==> targets@.take(i as int).contains(b)),
        decreases targets@.len() - i,
    {
        let t = targets[i];
        if t >= 0x80 {
            return None;
        }
        let hi: u8 = t >> 4;
        let lo: u8 = t & 15;
        proof {
            lemma_nibbles(t, t);
        }
        let ghost old_e = e@;
        e[lo as usize] = e[lo as usize] | (1u8 << hi);
        proof {
            assert(targets@.take(i + 1) =~= targets@.take(i as int).push(t));
            assert forall|b: u8| b < 0x80 implies ((#[trigger] (e@[(b & 15) as int] & (1u8 << (b
                >> 4)))) != 0 <==> targets@.take(i + 1).contains(b)) by {
                lemma_nibbles(b, t);
                assert(old_e[(b & 15) as int] & (1u8 << (b >> 4)) != 0 <==> targets@.take(
                    i as int,
                ).contains(b));
                lemma_contains_push(targets@.take(i as int), t, b);
                if (b & 15) == lo {
                    lemma_byte_bit_or(old_e[lo as int], hi, b >> 4);
                } else {
                    assert(e@[(b & 15) as int] == old_e[(b & 15) as int]);
                }
            }
        }
        i += 1;
    }
    let mut bit: [u8; 16] = [0u8; 16];
    let mut n: u8 = 0;
    while n < 8
        invariant
            n <= 8,
            bit@.len() == 16,
            forall|j: int| 0 <= j < n ==> bit@[j] == (1u8 << (j as u8)),
            forall|j: int| n <= j < 16 ==> bit@[j] == 0,
        decreases 8 - n,
    {
        bit[n as usize] = 1u8 << n;
        n += 1;
    }
    proof {
        assert(targets@.take(targets@.len() as int) =~= targets@);
        assert forall|b: u8| #[trigger] table_hit(e@, bit@, b) <==> targets@.contains(b) by {
            lemma_nibbles(b, b);
            if targets@.contains(b) {
                let k = choose|k: int| 0 <= k < targets@.len() && #[trigger] targets@[k] == b;
                assert(targets@[k] < 0x80);
            }
            if b < 0x80 {
                assert(bit@[(b >> 4) as int] == (1u8 << (b >> 4)));
            }
        }
    }
    Some((e, bit))
}

/// Whether `b` is a target, by the tables where there are any, else by the
/// target list.
fn classify(b: u8, targets: &[u8], tables: &Option<([u8; 16], [u8; 16])>) -> (r: bool)
    requires
        tables matches Some(t) ==> tables_for(targets@, t.0@, t.1@),
    ensures
        r == targets@.contains(b),
{
    match tables {
        Some(t) => {
            proof {
                lemma_nibbles(b, b);
            }
            let hit = b < 0x80 && (t.0[(b & 15) as usize] & t.1[(b >> 4) as usize]) != 0;
            assert(hit == table_hit(t.0@, t.1@, b));
            hit
        },
        None => contains_byte(targets, b),
    }
}

/// The block loop shared by both classifiers.
fn scan_with(text: &[u8], targets: &[u8], tables: &Option<([u8; 16], [u8; 16])>) -> (r: Vec<(usize, u32)>)
    requires
        tables matches Some(t) ==> tables_for(targets@, t.0@, t.1@),
    ensures
        r@ == scan_masks(text@, targets@),
{
    let len = text.len();
    let mut out: Vec<(usize, u32)> = Vec::new();
    let mut offset: usize = 0;
    while offset < len
        invariant
            len == text@.len(),
            offset <= len,
            tables matches Some(t) ==> tables_for(targets@, t.0@, t.1@),
            out@ + scan_from(text@, targets@, offset as int) == scan_masks(text@, targets@),
        decreases len - offset,
    {
        let n: usize = if len - offset < BLOCK { len - offset } else { BLOCK };
        let mut mask: u32 = 0;
        let mut rel: usize = 0;
        while rel < n
            invariant
                n == block_len(len as int, offset as int),
                len == text@.len(),
                offset + n <= len,
                n <= BLOCK,
                rel <= n,
                tables matches Some(t) ==> tables_for(targets@, t.0@, t.1@),
                mask == mask_upto(text@, targets@, offset as int, rel as nat),
            decreases n - rel,
        {
            if classify(text[offset + rel], targets, tables) {
                mask = mask | (1u32 << (rel as u32));
            }
            rel += 1;
        }
        let ghost old_out = out@;
        if mask != 0 {
            out.push((offset, mask));
        }
        proof {
            let rest = if offset + 16 < len {
                scan_from(text@, targets@, offset + 16)
            } else {
                seq![]
            };
            assert(scan_from(text@, targets@, (offset + n) as int) == rest);
            if mask != 0 {
                assert(out@ + rest =~= old_out + (seq![(offset, mask)] + rest));
            }
        }
        offset = offset + n;
    }
    out
}

/// Scans `text` for the bytes of `targets`: one `(offset, mask)` pair per
/// block of 16 bytes whose mask is not zero, bit `i` of the mask set when
/// `text[offset + i]` is a target. Classifies by the nibble tables when all
/// targets are below `0x80`, else by comparing with each target.
pub fn scan(text: &[u8], targets: &[u8]) -> (r: Vec<(usize, u32)>)
    ensures
        r@ == scan_masks(text@, targets@),
{
    let tables = build_tables(targets);
    scan_with(text, targets, &tables)
}

/// Scans `text` for the bytes of `targets` by comparing each byte with the
/// target list; gives the same masks as `scan`.
pub fn scan_scalar(text: &[u8], targets: &[u8]) -> (r: Vec<(usize, u32)>)
    ensures
        r@ == scan_masks(text@, targets@),
{
    scan_with(text, targets, &None)
}

} // verus!
