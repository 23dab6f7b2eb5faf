//! The incremental document: the source text, its line starts, the AST of
//! each line and the merged AST. An edit reparses only the lines it changed
//! and merges the line ASTs again.

use vstd::prelude::*;
use vstd::utf8::*;
use crate::ast::{LineAST, MarkupDoc};
use crate::ast::line::{copy_line, line_models, Line};
use crate::engine::bytes::NEWLINE;
use crate::incremental::text::{
    build_line_starts, lemma_boundary, lemma_encode_concat, lemma_line_in_head, lemma_line_in_tail,
    lemma_shifted_tail, lemma_starts_of3, lemma_starts_upto, lemma_text_lines_bytes, line_slice,
    line_text, lines_count, raw_line, shifted_tail, starts_of, starts_upto, strip_ending,
};
use crate::parser::chars::{text_lines, trim_start};
use crate::parser::line::{lone_bar, parse_line, parsed_line};
use crate::parser::merge::{
    lemma_trailing_empty_lines, merge, merged, no_lone_bar, parsed_lines,
};
use crate::viewport::{is_line_index, line_number, strictly_sorted, Viewport};

verus! {

/// AST of one line of text: an empty line is `Empty`, any other goes
/// through the line parser.
pub open spec fn line_model(cs: Seq<char>) -> Line {
    if cs.len() == 0 {
        Line::Empty
    } else {
        parsed_line(cs)
    }
}

/// An empty line parses to `Empty` too, so a line's AST is its parse.
pub proof fn lemma_line_model(cs: Seq<char>)
    ensures
        line_model(cs) == parsed_line(cs),
{
    if cs.len() == 0 {
        assert(trim_start(cs) =~= cs);
    }
}

/// Lines `[lo, hi)` of `b` can all be parsed (none is a lone `|`).
pub open spec fn lines_parsable(b: Seq<u8>, lo: int, hi: int) -> bool {
    forall|i: int| lo <= i < hi ==> !lone_bar(#[trigger] line_text(b, starts_of(b), i))
}

/// Incremental document.
pub struct IncrementalDoc {
    /// Source text.
    pub source: String,
    /// Byte offsets of the line starts (`line_starts[i]` is where line `i`
    /// begins).
    pub line_starts: Vec<usize>,
    /// AST of each line.
    pub line_asts: Vec<LineAST>,
    /// Merged AST.
    pub merged_ast: MarkupDoc,
}

/// Parses a line, or gives `Empty` for an empty one.
fn parse_line_or_empty(line: &str) -> (r: LineAST)
    requires
        !lone_bar(line@),
    ensures
        r.model() == line_model(line@),
{
    if line.is_empty() {
        LineAST::Empty
    } else {
        parse_line(line)
    }
}

impl IncrementalDoc {
    /// UTF-8 bytes of the source.
    pub open spec fn bytes(&self) -> Seq<u8> {
        encode_utf8(self.source@)
    }

    /// The line starts are those of the source (the line ASTs may be any
    /// number: a line without one counts as `Empty`).
    pub open spec fn wf(&self) -> bool {
        &&& self.line_starts@ == starts_of(self.bytes())
        &&& self.bytes().len() <= usize::MAX
    }

    /// There is at most one AST per line, every line AST is the parse of its
    /// line, and a line without an AST is empty.
    pub open spec fn synced(&self) -> bool {
        &&& self.line_asts@.len() <= self.line_starts@.len()
        &&& forall|i: int|
            0 <= i < self.line_asts@.len() ==> (#[trigger] self.line_asts@[i]).model() == line_model(
                line_text(self.bytes(), self.line_starts@, i),
            )
        &&& forall|i: int|
            self.line_asts@.len() <= i < self.line_starts@.len() ==> (#[trigger] line_text(
                self.bytes(),
                self.line_starts@,
                i,
            )).len() == 0
    }

    /// A document over `text`: its line starts, the AST of each of its lines
    /// (as `str::lines` splits them) and their merge.
    pub fn new(text: &str) -> (d: Self)
        requires
            no_lone_bar(text@),
        ensures
            d.source@ == text@,
            d.wf(),
            d.synced(),
            line_models(d.line_asts@) == parsed_lines(text_lines(text@)),
            d.merged_ast.model() == merged(parsed_lines(text_lines(text@))),
    {
        let ghost b = encode_utf8(text@);
        let bytes = text.as_bytes();
        let line_starts = build_line_starts(text);
        let n = bytes.len();
        proof {
            assert(bytes@ == b);
            lemma_starts_upto(b, b.len() as int);
            lemma_text_lines_bytes(text@);
            assert forall|i: int| 0 <= i < lines_count(b) implies !lone_bar(#[trigger] line_text(b, starts_of(b), i)) by {
                assert(line_text(b, starts_of(b), i) == text_lines(text@)[i]);
            }
        }
        let count = if n == 0 || bytes[n - 1] == NEWLINE { line_starts.len() - 1 } else { line_starts.len() };
        let mut line_asts: Vec<LineAST> = Vec::new();
        let mut i: usize = 0;
        while i < count
            invariant
                bytes@ == b,
                b == encode_utf8(text@),
                line_starts@ == starts_of(b),
                count == lines_count(b),
                count <= line_starts@.len(),
                i <= count,
                lines_parsable(b, 0, lines_count(b)),
                line_asts@.len() == i,
                forall|j: int| 0 <= j < i ==> (#[trigger] line_asts@[j]).model() == line_model(line_text(b, starts_of(b), j)),
            decreases count - i,
        {
            let line = line_slice(text, &line_starts, i);
            assert(!lone_bar(line_text(b, starts_of(b), i as int)));
            line_asts.push(parse_line_or_empty(line));
            i += 1;
        }
        let merged_ast = merge(&line_asts);
        let source = text.to_owned();
        let d = IncrementalDoc { source, line_starts, line_asts, merged_ast };
        proof {
            assert(d.bytes() == b);
            assert forall|j: int| 0 <= j < line_models(d.line_asts@).len() implies line_models(d.line_asts@)[j]
                == #[trigger] parsed_lines(text_lines(text@))[j] by {
                lemma_line_model(line_text(b, starts_of(b), j));
            }
            assert(line_models(d.line_asts@) =~= parsed_lines(text_lines(text@)));
            if count < line_starts@.len() {
                let last = line_starts@.len() - 1;
                assert(line_starts@[last] == b.len());
                assert(raw_line(b, starts_of(b), last) =~= seq![]);
                assert(strip_ending(seq![]) =~= seq![]);
                assert(decode_utf8(seq![]) =~= seq![]);
            }
        }
        d
    }

    /// Text of line `idx` without its ending; empty past the last line.
    fn get_line_text(&self, idx: usize) -> (r: &str)
        requires
            self.line_starts@ == starts_of(self.bytes()),
        ensures
            r@ == if idx < self.line_starts@.len() { line_text(self.bytes(), self.line_starts@, idx as int) } else { seq![] },
    {
        line_slice(self.source.as_str(), &self.line_starts, idx)
    }

    /// Line number of a byte offset (clamped to the end of the source): the
    /// last line that starts at or before it.
    pub fn line_number(&self, byte_pos: usize) -> (r: usize)
        ensures
            strictly_sorted(self.line_starts@) ==> is_line_index(
                self.line_starts@,
                if byte_pos < self.bytes().len() { byte_pos } else { self.bytes().len() as usize },
                r as int,
            ),
            self.line_starts@.len() > 0 ==> r < self.line_starts@.len(),
            self.line_starts@.len() == 0 ==> r == 0,
    {
        let b = self.source.as_str().as_bytes();
        let len = b.len();
        let pos = if byte_pos < len { byte_pos } else { len };
        line_number(&self.line_starts, pos)
    }

    /// Number of lines.
    pub fn num_lines(&self) -> (r: usize)
        ensures
            r == self.line_starts@.len(),
    {
        self.line_starts.len()
    }
}

/// Bytes after replacing `[from, to)` of `ob` by `t`.
pub open spec fn edited_bytes(ob: Seq<u8>, from: int, to: int, t: Seq<u8>) -> Seq<u8> {
    ob.take(from) + t + ob.skip(to)
}

/// An edit of the bytes is undone by the edit that puts the removed bytes
/// back in place of the inserted ones.
pub proof fn lemma_edited_bytes_undone(ob: Seq<u8>, from: int, to: int, t: Seq<u8>)
    requires
        0 <= from <= to <= ob.len(),
    ensures
        edited_bytes(edited_bytes(ob, from, to, t), from, from + t.len(), ob.subrange(from, to)) == ob,
{
    let e = edited_bytes(ob, from, to, t);
    assert(e.take(from) =~= ob.take(from));
    assert(e.skip(from + t.len()) =~= ob.skip(to));
    assert(edited_bytes(e, from, from + t.len(), ob.subrange(from, to)) =~= ob);
}

/// Line that holds byte `x` of `b`.
pub open spec fn line_of_byte(b: Seq<u8>, x: int) -> int {
    starts_of(b.take(x)).len() - 1
}

/// The AST of line `k` of a list padded with `Empty` lines.
pub open spec fn padded(ls: Seq<Line>, k: int) -> Line {
    if 0 <= k < ls.len() {
        ls[k]
    } else {
        Line::Empty
    }
}

/// Line starts after replacing `[from, to)` of `ob` by `t`: those before the
/// edit, those of the inserted text and those after it, moved.
pub open spec fn edited_starts(ob: Seq<u8>, from: int, to: int, t: Seq<u8>) -> Seq<usize> {
    starts_of(ob.take(from)) + shifted_tail(starts_of(t), from) + shifted_tail(
        starts_of(ob.skip(to)),
        from + t.len(),
    )
}

/// The line that `line_number` finds for byte `x` is the number of line
/// starts up to `x`, less one.
pub proof fn lemma_line_of_byte(b: Seq<u8>, x: int, r: int)
    requires
        0 <= x <= b.len() <= usize::MAX,
        is_line_index(starts_of(b), x as usize, r),
    ensures
        r == line_of_byte(b, x),
        r + 1 <= starts_of(b).len(),
{
    let p = b.take(x);
    let q = b.skip(x);
    assert(b =~= p + q);
    lemma_starts_of3(p, q, seq![]);
    lemma_starts_upto(p, p.len() as int);
    lemma_shifted_tail(q, x);
    let sp = starts_of(p);
    let s = starts_of(b);
    assert(s == sp + shifted_tail(starts_of(q), x));
    if r < sp.len() - 1 {
        assert(s[sp.len() - 1] == sp[sp.len() - 1]);
    }
    if r >= sp.len() {
        assert(s[r] == shifted_tail(starts_of(q), x)[r - sp.len()]);
    }
}

impl IncrementalDoc {
    /// New line starts once `[from, to_old)` of the old bytes `ob` became
    /// `text`: the starts up to the line of `from` are kept, one is added
    /// after each `\n` of `text`, and those after the removed range move by
    /// the change of length; starts inside the removed range go.
    #[verifier::rlimit(40)]
    fn rebuild_line_starts(
        &mut self,
        from: usize,
        to_old: usize,
        text: &str,
        removed_ends_with_newline: bool,
        Ghost(ob): Ghost<Seq<u8>>,
    )
        requires
            old(self).line_starts@ == starts_of(ob),
            from <= to_old <= ob.len(),
            removed_ends_with_newline == (to_old > from && ob[to_old - 1] == NEWLINE),
            ob.len() - (to_old - from) + encode_utf8(text@).len() <= usize::MAX,
            ob.len() <= usize::MAX,
        ensures
            final(self).line_starts@ == edited_starts(ob, from as int, to_old as int, encode_utf8(text@)),
            final(self).source == old(self).source,
            final(self).line_asts == old(self).line_asts,
            final(self).merged_ast == old(self).merged_ast,
    {
        let ghost p = ob.take(from as int);
        let ghost dd = ob.subrange(from as int, to_old as int);
        let ghost sfx = ob.skip(to_old as int);
        let ghost t = encode_utf8(text@);
        let tb = text.as_bytes();
        let tlen = tb.len();
        proof {
            assert(ob =~= p + dd + sfx);
            lemma_starts_of3(p, dd, sfx);
            lemma_starts_upto(p, p.len() as int);
            lemma_shifted_tail(dd, from as int);
            lemma_shifted_tail(sfx, to_old as int);
            lemma_shifted_tail(t, from as int);
            lemma_shifted_tail(sfx, from + tlen);
        }
        let ghost os = self.line_starts@;
        let ghost sp = starts_of(p);
        let ghost shd = shifted_tail(starts_of(dd), from as int);
        let ghost shs = shifted_tail(starts_of(sfx), to_old as int);
        let ghost sht = shifted_tail(starts_of(t), from as int);
        let ghost shn = shifted_tail(starts_of(sfx), from + tlen);
        assert(os == sp + shd + shs);
        let start_idx = line_number(&self.line_starts, from);
        proof {
            assert(strictly_sorted(os)) by {
                lemma_starts_upto(ob, ob.len() as int);
            }
            if start_idx + 1 < sp.len() {
                assert(os[sp.len() - 1] == sp[sp.len() - 1]);
                assert(sp[sp.len() - 1] <= p.len());
            }
            if start_idx + 1 > sp.len() {
                assert(os[start_idx as int] == shd[start_idx - sp.len()]);
            }
        }
        assert(start_idx + 1 == sp.len());
        // The starts before the edit.
        let mut result: Vec<usize> = Vec::new();
        let total = self.line_starts.len();
        assert(start_idx < total);
        let keep = start_idx + 1;
        let mut k: usize = 0;
        while k < keep
            invariant
                keep == start_idx + 1,
                k <= start_idx + 1,
                start_idx + 1 == sp.len(),
                sp.len() <= os.len(),
                self.line_starts@ == os,
                os == sp + shd + shs,
                result@ == sp.take(k as int),
            decreases keep - k,
        {
            result.push(self.line_starts[k]);
            k += 1;
            assert(result@ =~= sp.take(k as int));
        }
        assert(sp.take(sp.len() as int) =~= sp);
        // One start after each `\n` of the inserted text.
        let mut i: usize = 0;
        assert(shifted_tail(starts_upto(t, 0), from as int) =~= seq![]);
        assert(result@ =~= sp + shifted_tail(starts_upto(t, 0), from as int));
        while i < tlen
            invariant
                tb@ == t,
                tlen == t.len(),
                i <= tlen,
                from + tlen <= usize::MAX,
                result@ == sp + shifted_tail(starts_upto(t, i as int), from as int),
            decreases tlen - i,
        {
            let ghost before = starts_upto(t, i as int);
            proof {
                lemma_starts_upto(t, i as int);
            }
            if tb[i] == NEWLINE {
                result.push(from + i + 1);
                proof {
                    assert(before.push((i + 1) as usize).skip(1) =~= before.skip(1).push((i + 1) as usize));
                    assert(shifted_tail(starts_upto(t, i + 1), from as int) =~= shifted_tail(before, from as int).push(
                        (from + i + 1) as usize,
                    ));
                }
            }
            i += 1;
        }
        assert(result@ == sp + sht);
        // The starts after the removed range, moved.
        let n = self.line_starts.len();
        let ghost el = sp.len() + shd.len() - 1;
        let mut m: usize = start_idx + 1;
        while m < n
            invariant
                n == os.len(),
                p == ob.take(from as int),
                dd == ob.subrange(from as int, to_old as int),
                sfx == ob.skip(to_old as int),
                from <= to_old <= ob.len(),
                ob.len() <= usize::MAX,
                tlen == t.len(),
                from + tlen + sfx.len() <= usize::MAX,
                sp == starts_of(p),
                shd == shifted_tail(starts_of(dd), from as int),
                shs == shifted_tail(starts_of(sfx), to_old as int),
                sht == shifted_tail(starts_of(t), from as int),
                shn == shifted_tail(starts_of(sfx), from + tlen),
                os == sp + shd + shs,
                self.line_starts@ == os,
                start_idx + 1 == sp.len(),
                start_idx + 1 <= m <= n,
                el == sp.len() + shd.len() - 1,
                shs.len() == shn.len(),
                result@ == sp + sht + shn.take(if m > el + 1 { m - el - 1 } else { 0 }),
                removed_ends_with_newline == (to_old > from && ob[to_old - 1] == NEWLINE),
            decreases n - m,
        {
            let old_pos = self.line_starts[m];
            proof {
                lemma_starts_upto(p, p.len() as int);
                lemma_shifted_tail(dd, from as int);
                lemma_shifted_tail(sfx, to_old as int);
                lemma_shifted_tail(t, from as int);
                lemma_shifted_tail(sfx, from + tlen);
                if m <= el {
                    let j = m - sp.len();
                    assert(os[m as int] == shd[j]);
                    if old_pos == to_old {
                        assert(starts_of(dd)[j + 1] == dd.len());
                        assert(dd[dd.len() - 1] == ob[to_old - 1]);
                    }
                } else {
                    assert(os[m as int] == shs[m - el - 1]);
                }
            }
            if old_pos < to_old {
            } else if old_pos == to_old && removed_ends_with_newline {
            } else {
                let new_pos = old_pos - to_old + from + tlen;
                let len = result.len();
                let ghost j = m - el - 1;
                proof {
                    assert(new_pos == shn[j]);
                    if j > 0 {
                        assert(result@[len - 1] == shn[j - 1]);
                    } else {
                        assert(sp.len() > 0);
                        if sht.len() > 0 {
                            assert(result@[len - 1] == sht[sht.len() - 1]);
                        } else {
                            assert(result@[len - 1] == sp[sp.len() - 1]);
                            assert(sp[sp.len() - 1] <= p.len());
                        }
                    }
                }
                if len == 0 || new_pos > result[len - 1] {
                    result.push(new_pos);
                }
                proof {
                    assert(result@ =~= sp + sht + shn.take(j + 1));
                }
            }
            m += 1;
        }
        proof {
            assert(shn.take(shn.len() as int) =~= shn);
        }
        self.line_starts = result;
    }

    /// Replaces `[from, to)` of the source by `text`; nothing else changes.
    fn replace_source(&mut self, from: usize, to: usize, text: &str)
        requires
            from <= to <= old(self).bytes().len(),
            is_char_boundary(old(self).bytes(), from as int),
            is_char_boundary(old(self).bytes(), to as int),
        ensures
            final(self).source@ == decode_utf8(old(self).bytes().take(from as int)) + text@ + decode_utf8(
                old(self).bytes().skip(to as int),
            ),
            final(self).bytes() == edited_bytes(old(self).bytes(), from as int, to as int, encode_utf8(text@)),
            final(self).line_starts == old(self).line_starts,
            final(self).line_asts == old(self).line_asts,
            final(self).merged_ast == old(self).merged_ast,
    {
        let ghost ob = self.bytes();
        let ghost p = ob.take(from as int);
        let ghost sfx = ob.skip(to as int);
        proof {
            encode_utf8_valid_utf8(self.source@);
        }
        let src = self.source.as_str();
        let (a, rest) = src.split_at(from);
        proof {
            assert(encode_utf8(rest@) == ob.skip(from as int));
            valid_utf8_split(ob, from as int);
            lemma_boundary(ob, to as int);
            lemma_boundary(ob.skip(from as int), (to - from) as int);
            if to < ob.len() {
                assert(ob.skip(from as int)[to - from] == ob[to as int]);
            }
        }
        let (_, c) = rest.split_at(to - from);
        proof {
            assert(encode_utf8(c@) =~= sfx);
            assert(encode_utf8(a@) =~= p);
            encode_utf8_decode_utf8(a@);
            encode_utf8_decode_utf8(c@);
        }
        let mut ns = a.to_owned();
        ns.append(text);
        ns.append(c);
        proof {
            lemma_encode_concat(a@, text@);
            lemma_encode_concat(a@ + text@, c@);
        }
        self.source = ns;
    }

    /// Parses lines `[lo, hi)` of the source into `asts`.
    fn reparse_lines(&self, asts: &mut Vec<LineAST>, lo: usize, hi: usize)
        requires
            self.line_starts@ == starts_of(self.bytes()),
            lo <= hi <= old(asts)@.len(),
            hi <= self.line_starts@.len(),
            lines_parsable(self.bytes(), lo as int, hi as int),
        ensures
            final(asts)@.len() == old(asts)@.len(),
            forall|j: int| 0 <= j < final(asts)@.len() && !(lo <= j < hi) ==> #[trigger] final(asts)@[j] == old(asts)@[j],
            forall|j: int| lo <= j < hi ==> (#[trigger] final(asts)@[j]).model() == line_model(
                line_text(self.bytes(), self.line_starts@, j),
            ),
    {
        let mut i: usize = lo;
        while i < hi
            invariant
                self.line_starts@ == starts_of(self.bytes()),
                lo <= i <= hi <= asts@.len(),
                hi <= self.line_starts@.len(),
                lines_parsable(self.bytes(), lo as int, hi as int),
                asts@.len() == old(asts)@.len(),
                forall|j: int| 0 <= j < asts@.len() && !(lo <= j < i) ==> #[trigger] asts@[j] == old(asts)@[j],
                forall|j: int| lo <= j < i ==> (#[trigger] asts@[j]).model() == line_model(
                    line_text(self.bytes(), self.line_starts@, j),
                ),
            decreases hi - i,
        {
            let line = self.get_line_text(i);
            assert(!lone_bar(line_text(self.bytes(), starts_of(self.bytes()), i as int)));
            asts.set(i, parse_line_or_empty(line));
            i += 1;
        }
    }

    /// Applies an edit: `[from, to)` of the source becomes `text`. The lines
    /// before the edit keep their ASTs, the lines it touched are parsed
    /// again, the lines after it keep theirs under their new numbers; the
    /// merged AST is the merge of all the line ASTs. When every line AST
    /// matched its line before the edit, they match after it, and the merged
    /// AST is what a full parse of the new text gives.
    #[verifier::spinoff_prover]
    #[verifier::rlimit(80)]
    pub fn edit(&mut self, from: usize, to: usize, text: &str) -> (r: &MarkupDoc)
        requires
            old(self).wf(),
            from <= to <= old(self).bytes().len(),
            is_char_boundary(old(self).bytes(), from as int),
            is_char_boundary(old(self).bytes(), to as int),
            old(self).bytes().len() - (to - from) + encode_utf8(text@).len() <= usize::MAX,
            lines_parsable(
                edited_bytes(old(self).bytes(), from as int, to as int, encode_utf8(text@)),
                line_of_byte(old(self).bytes(), from as int),
                line_of_byte(old(self).bytes(), from as int) + starts_of(encode_utf8(text@)).len(),
            ),
        ensures
            final(self).source@ == decode_utf8(old(self).bytes().take(from as int)) + text@ + decode_utf8(
                old(self).bytes().skip(to as int),
            ),
            final(self).bytes() == edited_bytes(old(self).bytes(), from as int, to as int, encode_utf8(text@)),
            final(self).wf(),
            final(self).line_asts@.len() == final(self).line_starts@.len(),
            ({
                let sl = line_of_byte(old(self).bytes(), from as int);
                let el = line_of_byte(old(self).bytes(), to as int);
                let shift = sl + starts_of(encode_utf8(text@)).len();
                &&& forall|i: int| 0 <= i < sl ==> (#[trigger] final(self).line_asts@[i]).model()
                    == padded(line_models(old(self).line_asts@), i)
                &&& forall|i: int| sl <= i < shift ==> (#[trigger] final(self).line_asts@[i]).model()
                    == line_model(line_text(final(self).bytes(), final(self).line_starts@, i))
                &&& forall|i: int| shift <= i < final(self).line_starts@.len() ==> (#[trigger] final(self).line_asts@[i]).model()
                    == padded(line_models(old(self).line_asts@), i - shift + el + 1)
            }),
            old(self).synced() ==> final(self).synced(),
            final(self).merged_ast.model() == merged(line_models(final(self).line_asts@)),
            old(self).synced() ==> final(self).merged_ast.model() == merged(
                parsed_lines(text_lines(final(self).source@)),
            ),
            r == final(self).merged_ast,
    {
        let ghost ob = self.bytes();
        let ghost t = encode_utf8(text@);
        let ghost old_self = *self;
        let ghost p = ob.take(from as int);
        let ghost dd = ob.subrange(from as int, to as int);
        let ghost sfx = ob.skip(to as int);
        let ghost nb = p + t + sfx;
        proof {
            lemma_edit_layout(ob, from as int, to as int, t);
        }
        proof {
            lemma_starts_upto(ob, ob.len() as int);
        }
        let start_line = self.line_number(from);
        proof {
            lemma_line_of_byte(ob, from as int, start_line as int);
        }
        let end_line_old = if to > from { self.line_number(to) } else { start_line };
        proof {
            lemma_line_of_byte(ob, to as int, end_line_old as int);
        }
        let old_starts_len = self.line_starts.len();
        let removed_ends_with_newline = if to > from {
            let bs = self.source.as_str().as_bytes();
            bs[to - 1] == NEWLINE
        } else {
            false
        };
        self.replace_source(from, to, text);
        self.rebuild_line_starts(from, to, text, removed_ends_with_newline, Ghost(ob));
        let new_starts_len = self.line_starts.len();
        let preserved_old_count = old_starts_len - (end_line_old + 1);
        let shift_new_start = new_starts_len - preserved_old_count;
        let mut new_asts = spliced_asts(&self.line_asts, start_line, end_line_old, old_starts_len, shift_new_start);
        self.reparse_lines(&mut new_asts, start_line, shift_new_start);
        self.line_asts = new_asts;
        proof {
            if old_self.synced() {
                lemma_edit_synced(old_self, *self, from as int, to as int, t);
            }
        }
        self.merged_ast = merge(&self.line_asts);
        proof {
            if old_self.synced() {
                lemma_synced_merge_is_full_parse(*self);
            }
        }
        &self.merged_ast
    }

    /// Applies an edit like `edit`, but parses and merges only as far as the
    /// viewport reaches. The lines outside the viewport are not parsed
    /// again: the lines before the edit keep their ASTs and the lines after
    /// the text it touched keep theirs under their new numbers. The lines
    /// from the edit to the last visible line are parsed; touched lines past
    /// the viewport are left `Empty`. The merged AST covers the lines up to
    /// the last visible one; an edit below the viewport keeps it as it was.
    #[verifier::spinoff_prover]
    #[verifier::rlimit(60)]
    pub fn edit_visible(&mut self, from: usize, to: usize, text: &str, viewport: &Viewport) -> (r: &MarkupDoc)
        requires
            old(self).wf(),
            from <= to <= old(self).bytes().len(),
            is_char_boundary(old(self).bytes(), from as int),
            is_char_boundary(old(self).bytes(), to as int),
            old(self).bytes().len() - (to - from) + encode_utf8(text@).len() <= usize::MAX,
            lines_parsable(
                edited_bytes(old(self).bytes(), from as int, to as int, encode_utf8(text@)),
                line_of_byte(old(self).bytes(), from as int),
                visible_end(
                    line_of_byte(old(self).bytes(), from as int),
                    viewport.last_line as int,
                    starts_of(edited_bytes(old(self).bytes(), from as int, to as int, encode_utf8(text@))).len() as int,
                ),
            ),
        ensures
            final(self).source@ == decode_utf8(old(self).bytes().take(from as int)) + text@ + decode_utf8(
                old(self).bytes().skip(to as int),
            ),
            final(self).bytes() == edited_bytes(old(self).bytes(), from as int, to as int, encode_utf8(text@)),
            final(self).wf(),
            final(self).line_asts@.len() == final(self).line_starts@.len(),
            ({
                let sl = line_of_byte(old(self).bytes(), from as int);
                let el = line_of_byte(old(self).bytes(), to as int);
                let shift = sl + starts_of(encode_utf8(text@)).len();
                let pe = visible_end(sl, viewport.last_line as int, final(self).line_starts@.len() as int);
                &&& forall|i: int| 0 <= i < sl ==> (#[trigger] final(self).line_asts@[i]).model()
                    == padded(line_models(old(self).line_asts@), i)
                &&& forall|i: int| sl <= i < pe ==> (#[trigger] final(self).line_asts@[i]).model()
                    == line_model(line_text(final(self).bytes(), final(self).line_starts@, i))
                &&& forall|i: int| sl <= i <= viewport.last_line && i < final(self).line_starts@.len() ==> (
                #[trigger] final(self).line_asts@[i]).model() == line_model(
                    line_text(final(self).bytes(), final(self).line_starts@, i),
                )
                &&& forall|i: int| pe <= i < shift ==> (#[trigger] final(self).line_asts@[i]).model()
                    == Line::Empty
                &&& forall|i: int| pe <= i && shift <= i < final(self).line_asts@.len() ==> (#[trigger] final(self).line_asts@[i]).model()
                    == padded(line_models(old(self).line_asts@), i - shift + el + 1)
                &&& final(self).merged_ast.model() == if sl <= viewport.last_line {
                    merged(line_models(final(self).line_asts@).take(pe))
                } else {
                    old(self).merged_ast.model()
                }
            }),
            r == final(self).merged_ast,
    {
        let ghost ob = self.bytes();
        let ghost t = encode_utf8(text@);
        proof {
            lemma_edit_layout(ob, from as int, to as int, t);
            lemma_starts_upto(ob, ob.len() as int);
        }
        let start_line = self.line_number(from);
        proof {
            lemma_line_of_byte(ob, from as int, start_line as int);
        }
        let end_line_old = if to > from { self.line_number(to) } else { start_line };
        proof {
            lemma_line_of_byte(ob, to as int, end_line_old as int);
        }
        let old_starts_len = self.line_starts.len();
        let removed_ends_with_newline = if to > from {
            let bs = self.source.as_str().as_bytes();
            bs[to - 1] == NEWLINE
        } else {
            false
        };
        self.replace_source(from, to, text);
        self.rebuild_line_starts(from, to, text, removed_ends_with_newline, Ghost(ob));
        let new_line_count = self.line_starts.len();
        let preserved_old_count = old_starts_len - (end_line_old + 1);
        let shift_new_start = new_line_count - preserved_old_count;
        // The lines outside the touched text keep their ASTs; the touched
        // ones are Empty until parsed.
        let mut asts = spliced_asts(&self.line_asts, start_line, end_line_old, old_starts_len, shift_new_start);
        let parse_end = if start_line <= viewport.last_line {
            if viewport.last_line < new_line_count { viewport.last_line + 1 } else { new_line_count }
        } else {
            self.line_asts = asts;
            return &self.merged_ast;
        };
        self.reparse_lines(&mut asts, start_line, parse_end);
        self.line_asts = asts;
        let merged_ast = merge(&self.line_asts[0..parse_end]);
        proof {
            assert(line_models(self.line_asts@.subrange(0, parse_end as int)) =~= line_models(self.line_asts@).take(
                parse_end as int,
            ));
        }
        self.merged_ast = merged_ast;
        &self.merged_ast
    }
}

/// End of the lines parsed by `edit_visible`: one past the last visible
/// line (at most the line count) when the edit starts at or above it, else
/// the edit's own line.
pub open spec fn visible_end(sl: int, last: int, count: int) -> int {
    if sl <= last {
        if last < count {
            last + 1
        } else {
            count
        }
    } else {
        sl
    }
}

/// The layout of an edit: the old and new line starts in three parts, and
/// the line of each end of the removed range.
pub proof fn lemma_edit_layout(ob: Seq<u8>, from: int, to: int, t: Seq<u8>)
    requires
        0 <= from <= to <= ob.len() <= usize::MAX,
        ob.len() - (to - from) + t.len() <= usize::MAX,
    ensures
        ob == ob.take(from) + ob.subrange(from, to) + ob.skip(to),
        starts_of(ob) == starts_of(ob.take(from)) + shifted_tail(starts_of(ob.subrange(from, to)), from)
            + shifted_tail(starts_of(ob.skip(to)), to),
        starts_of(edited_bytes(ob, from, to, t)) == edited_starts(ob, from, to, t),
        line_of_byte(ob, from) == starts_of(ob.take(from)).len() - 1,
        line_of_byte(ob, to) == starts_of(ob.take(from)).len() + starts_of(ob.subrange(from, to)).len() - 2,
        starts_of(ob.take(from)).len() >= 1,
        starts_of(ob.subrange(from, to)).len() >= 1,
        starts_of(t).len() >= 1,
        starts_of(edited_bytes(ob, from, to, t)).len() == starts_of(ob.take(from)).len() + starts_of(t).len()
            + starts_of(ob.skip(to)).len() - 2,
        starts_of(ob).len() == starts_of(ob.take(from)).len() + starts_of(ob.subrange(from, to)).len()
            + starts_of(ob.skip(to)).len() - 2,
{
    let p = ob.take(from);
    let dd = ob.subrange(from, to);
    let sfx = ob.skip(to);
    assert(ob =~= p + dd + sfx);
    assert(ob.take(to) =~= p + dd);
    lemma_starts_of3(p, dd, sfx);
    lemma_starts_of3(p, t, sfx);
    lemma_starts_upto(p, p.len() as int);
    lemma_starts_upto(dd, dd.len() as int);
    lemma_starts_upto(t, t.len() as int);
    lemma_starts_upto(sfx, sfx.len() as int);
    lemma_shifted_tail(dd, from);
    lemma_shifted_tail(t, from);
    lemma_shifted_tail(sfx, to);
    lemma_shifted_tail(sfx, from + t.len());
}

/// Line ASTs laid out for an edit: the ASTs of the lines before
/// `start_line`, `Empty` up to `shift` (those lines are parsed next), then
/// the ASTs of the old lines after `end_line`; an old line without an AST
/// counts as `Empty`.
fn spliced_asts(old: &Vec<LineAST>, start_line: usize, end_line: usize, old_len: usize, shift: usize) -> (r: Vec<LineAST>)
    requires
        start_line <= end_line < old_len,
        start_line <= shift,
        shift + (old_len - end_line - 1) <= usize::MAX,
    ensures
        r@.len() == shift + (old_len - end_line - 1),
        forall|j: int| 0 <= j < start_line ==> (#[trigger] r@[j]).model() == padded(line_models(old@), j),
        forall|j: int| start_line <= j < shift ==> (#[trigger] r@[j]).model() == Line::Empty,
        forall|j: int| shift <= j < r@.len() ==> (#[trigger] r@[j]).model() == padded(
            line_models(old@),
            j - shift + end_line + 1,
        ),
{
    let mut r: Vec<LineAST> = Vec::new();
    let mut k: usize = 0;
    while k < shift
        invariant
            start_line <= shift,
            k <= shift,
            r@.len() == k,
            forall|j: int| 0 <= j < k && j < start_line ==> (#[trigger] r@[j]).model() == padded(line_models(old@), j),
            forall|j: int| start_line <= j < k ==> (#[trigger] r@[j]).model() == Line::Empty,
        decreases shift - k,
    {
        if k < start_line && k < old.len() {
            r.push(copy_line(&old[k]));
        } else {
            r.push(LineAST::Empty);
        }
        k += 1;
    }
    let mut k: usize = end_line + 1;
    while k < old_len
        invariant
            start_line <= shift,
            end_line + 1 <= k <= old_len,
            r@.len() == shift + (k - end_line - 1),
            forall|j: int| 0 <= j < start_line ==> (#[trigger] r@[j]).model() == padded(line_models(old@), j),
            forall|j: int| start_line <= j < shift ==> (#[trigger] r@[j]).model() == Line::Empty,
            forall|j: int| shift <= j < r@.len() ==> (#[trigger] r@[j]).model() == padded(
                line_models(old@),
                j - shift + end_line + 1,
            ),
        decreases old_len - k,
    {
        if k < old.len() {
            r.push(copy_line(&old[k]));
        } else {
            r.push(LineAST::Empty);
        }
        k += 1;
    }
    r
}

/// After an edit of a synced document, the document is synced: the lines
/// before and after the edit keep their text, and the touched lines were
/// parsed again.
#[verifier::spinoff_prover]
#[verifier::rlimit(40)]
proof fn lemma_edit_synced(d0: IncrementalDoc, d1: IncrementalDoc, from: int, to: int, t: Seq<u8>)
    requires
        d0.wf(),
        d0.synced(),
        0 <= from <= to <= d0.bytes().len(),
        d0.bytes().len() - (to - from) + t.len() <= usize::MAX,
        d1.bytes() == edited_bytes(d0.bytes(), from, to, t),
        d1.line_starts@ == starts_of(d1.bytes()),
        d1.line_asts@.len() == d1.line_starts@.len(),
        ({
            let sl = line_of_byte(d0.bytes(), from);
            let el = line_of_byte(d0.bytes(), to);
            let shift = sl + starts_of(t).len();
            &&& forall|i: int| 0 <= i < sl ==> (#[trigger] d1.line_asts@[i]).model()
                == padded(line_models(d0.line_asts@), i)
            &&& forall|i: int| sl <= i < shift ==> (#[trigger] d1.line_asts@[i]).model()
                == line_model(line_text(d1.bytes(), d1.line_starts@, i))
            &&& forall|i: int| shift <= i < d1.line_starts@.len() ==> (#[trigger] d1.line_asts@[i]).model()
                == padded(line_models(d0.line_asts@), i - shift + el + 1)
        }),
    ensures
        d1.synced(),
{
    let ob = d0.bytes();
    let nb = d1.bytes();
    let p = ob.take(from);
    let dd = ob.subrange(from, to);
    let sfx = ob.skip(to);
    lemma_edit_layout(ob, from, to, t);
    assert(nb == p + t + sfx);
    let sl = line_of_byte(ob, from);
    let el = line_of_byte(ob, to);
    let shift = sl + starts_of(t).len();
    assert forall|i: int| 0 <= i < d1.line_asts@.len() implies (#[trigger] d1.line_asts@[i]).model()
        == line_model(line_text(nb, d1.line_starts@, i)) by {
        if i < sl {
            lemma_line_in_head(p, dd, sfx, i);
            lemma_line_in_head(p, t, sfx, i);
            if i < d0.line_asts@.len() {
                assert(d0.line_asts@[i].model() == line_model(line_text(ob, d0.line_starts@, i)));
            } else {
                assert(line_text(ob, d0.line_starts@, i).len() == 0);
            }
        } else if i >= shift {
            let m = i - shift;
            lemma_line_in_tail(p, dd, sfx, m);
            lemma_line_in_tail(p, t, sfx, m);
            let k = i - shift + el + 1;
            if k < d0.line_asts@.len() {
                assert(d0.line_asts@[k].model() == line_model(line_text(ob, d0.line_starts@, k)));
            } else {
                assert(line_text(ob, d0.line_starts@, k).len() == 0);
            }
        }
    }
}

/// The line ASTs of a synced document merge as a full parse of its text
/// does: what `parse_full` gives on the source.
pub proof fn lemma_synced_merge_is_full_parse(d: IncrementalDoc)
    requires
        d.wf(),
        d.synced(),
    ensures
        merged(line_models(d.line_asts@)) == merged(parsed_lines(text_lines(d.source@))),
{
    let b = d.bytes();
    let s = d.line_starts@;
    let a = line_models(d.line_asts@);
    let p = parsed_lines(text_lines(d.source@));
    lemma_text_lines_bytes(d.source@);
    lemma_starts_upto(b, b.len() as int);
    let lc = lines_count(b);
    let na = a.len() as int;
    let m = if na < lc { na } else { lc };
    assert forall|j: int| 0 <= j < m implies #[trigger] a[j] == p[j] by {
        lemma_line_model(line_text(b, s, j));
        assert(line_text(b, s, j) == text_lines(d.source@)[j]);
    }
    assert forall|j: int| m <= j < na implies #[trigger] a[j] == Line::Empty by {
        let last = s.len() - 1;
        assert(j == last);
        assert(s[last] == b.len());
        assert(raw_line(b, s, last) =~= seq![]);
        assert(strip_ending(seq![]) =~= seq![]);
        assert(decode_utf8(seq![]) =~= seq![]);
        assert(d.line_asts@[j].model() == line_model(line_text(b, s, j)));
    }
    assert forall|j: int| m <= j < lc implies #[trigger] p[j] == Line::Empty by {
        assert(line_text(b, s, j).len() == 0);
        assert(line_text(b, s, j) == text_lines(d.source@)[j]);
        lemma_line_model(line_text(b, s, j));
    }
    lemma_trailing_empty_lines(a, m);
    lemma_trailing_empty_lines(p, m);
    assert(a.take(m) =~= p.take(m));
}

/// Two synced documents over the same text have the same line ASTs, line by
/// line, and the lines that only one of them has an AST for are `Empty`:
/// after any run of edits from `new`, the line ASTs are those of a document
/// built from the resulting text.
pub proof fn lemma_synced_docs_agree(d1: IncrementalDoc, d2: IncrementalDoc)
    requires
        d1.wf(),
        d1.synced(),
        d2.wf(),
        d2.synced(),
        d1.source@ == d2.source@,
    ensures
        forall|i: int| 0 <= i < d1.line_asts@.len() && i < d2.line_asts@.len() ==> (#[trigger] d1.line_asts@[i]).model()
            == d2.line_asts@[i].model(),
        forall|i: int| d2.line_asts@.len() <= i < d1.line_asts@.len() ==> (#[trigger] d1.line_asts@[i]).model()
            == Line::Empty,
{
    assert forall|i: int| d2.line_asts@.len() <= i < d1.line_asts@.len() implies (#[trigger] d1.line_asts@[i]).model()
        == Line::Empty by {
        assert(line_text(d2.bytes(), d2.line_starts@, i).len() == 0);
    }
}

} // verus!
