//! An edit of the byte buffer: delete `[position, position + delete_len)`
//! and insert `insert` there.

use vstd::prelude::*;

verus! {

/// An edit: delete `[position, position + delete_len)`, insert `insert`.
#[derive(Debug, Clone, PartialEq, Eq)]
pub struct Edit {
    pub position: usize,
    pub delete_len: usize,
    pub insert: Vec<u8>,
}

/// The buffer after the edit: the deleted range is clipped to the buffer.
pub open spec fn edited(text: Seq<u8>, position: usize, delete_len: usize, insert: Seq<u8>) -> Seq<u8> {
    let end = if position + delete_len > text.len() { text.len() as int } else { position + delete_len };
    text.take(position as int) + insert + text.skip(end)
}

/// An edit is undone by the edit that puts the deleted bytes back in place
/// of the inserted ones; the text before the position and after the deleted
/// range is kept.
pub proof fn lemma_edit_undone(text: Seq<u8>, position: usize, delete_len: usize, insert: Seq<u8>)
    requires
        position + delete_len <= text.len(),
        position + insert.len() <= usize::MAX,
    ensures
        edited(
            edited(text, position, delete_len, insert),
            position,
            insert.len() as usize,
            text.subrange(position as int, position + delete_len),
        ) == text,
        edited(text, position, delete_len, insert).len() == text.len() - delete_len + insert.len(),
        edited(text, position, delete_len, insert).take(position as int) == text.take(position as int),
        edited(text, position, delete_len, insert).subrange(position as int, position + insert.len()) == insert,
        edited(text, position, delete_len, insert).skip(position + insert.len()) == text.skip(position + delete_len),
{
    let e = edited(text, position, delete_len, insert);
    let p = position as int;
    assert(e.take(p) =~= text.take(p));
    assert(e.subrange(p, p + insert.len()) =~= insert);
    assert(e.skip(p + insert.len()) =~= text.skip(p + delete_len));
    let back = edited(e, position, insert.len() as usize, text.subrange(p, p + delete_len));
    assert(back =~= text);
}

impl Edit {
    /// An edit of `delete_len` bytes at `position`, replaced by `insert`.
    pub fn new(position: usize, delete_len: usize, insert: &[u8]) -> (e: Self)
        ensures
            e.position == position,
            e.delete_len == delete_len,
            e.insert@ == insert@,
    {
        let mut v: Vec<u8> = Vec::new();
        let mut i: usize = 0;
        while i < insert.len()
            invariant
                i <= insert@.len(),
                v@ == insert@.take(i as int),
            decreases insert@.len() - i,
        {
            v.push(insert[i]);
            i += 1;
            assert(v@ =~= insert@.take(i as int));
        }
        assert(insert@.take(insert@.len() as int) =~= insert@);
        Edit { position, delete_len, insert: v }
    }

    /// Applies the edit to the buffer.
    pub fn apply(&self, text: &mut Vec<u8>)
        requires
            self.position <= old(text)@.len(),
        ensures
            final(text)@ == edited(old(text)@, self.position, self.delete_len, self.insert@),
    {
        let end = if self.position > usize::MAX - self.delete_len || self.position + self.delete_len > text.len() {
            text.len()
        } else {
            self.position + self.delete_len
        };
        let mut out: Vec<u8> = Vec::new();
        let mut i: usize = 0;
        while i < self.position
            invariant
                i <= self.position <= text@.len(),
                out@ == text@.take(i as int),
            decreases self.position - i,
        {
            out.push(text[i]);
            i += 1;
            assert(out@ =~= text@.take(i as int));
        }
        let mut j: usize = 0;
        while j < self.insert.len()
            invariant
                self.position <= text@.len(),
                j <= self.insert@.len(),
                out@ == text@.take(self.position as int) + self.insert@.take(j as int),
            decreases self.insert@.len() - j,
        {
            out.push(self.insert[j]);
            j += 1;
            assert(out@ =~= text@.take(self.position as int) + self.insert@.take(j as int));
        }
        assert(self.insert@.take(self.insert@.len() as int) =~= self.insert@);
        let mut k = end;
        while k < text.len()
            invariant
                end <= k <= text@.len(),
                out@ == text@.take(self.position as int) + self.insert@ + text@.subrange(end as int, k as int),
            decreases text@.len() - k,
        {
            out.push(text[k]);
            k += 1;
            assert(out@ =~= text@.take(self.position as int) + self.insert@ + text@.subrange(end as int, k as int));
        }
        assert(text@.subrange(end as int, text@.len() as int) =~= text@.skip(end as int));
        *text = out;
    }
}

} // verus!
