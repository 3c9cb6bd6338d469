//! Half-open `[pos, end)` windows into a byte buffer, with the range
//! arithmetic the read cache needs to manage its two segments.
use vstd::prelude::*;
use vstd::slice::slice_index_get;
use vstd::slice::slice_subrange;

verus! {

/// Error returned by `Segment::write` when the source does not fit.
#[derive(Clone, Copy, PartialEq, Eq, Structural, Debug)]
pub struct WriteErr;

/// A `(pos, len)` window; `end` is kept equal to `pos + len`.
#[derive(Clone, Copy, PartialEq, Eq, Structural, Debug)]
pub struct Segment {
    pub pos: usize,
    pub len: usize,
    pub end: usize,
}

impl Segment {
    /// The derived field stays consistent: `end == pos + len`.
    pub open spec fn wf(&self) -> bool {
        self.end == self.pos + self.len
    }

    pub fn new(pos: usize, len: usize) -> (r: Segment)
        requires
            pos + len <= usize::MAX,
        ensures
            r.pos == pos && r.len == len && r.end == pos + len,
            r.wf(),
    {
        Segment { pos, len, end: pos + len }
    }

    pub fn empty(&self) -> (r: bool)
        ensures
            r == (self.len == 0),
    {
        self.len == 0
    }

    /// Grow the window forward by `n` bytes.
    pub fn lengthen(&mut self, n: usize)
        requires
            old(self).wf(),
            old(self).end + n <= usize::MAX,
        ensures
            final(self).pos == old(self).pos,
            final(self).len == old(self).len + n,
            final(self).end == old(self).end + n,
            final(self).wf(),
    {
        self.len = self.len + n;
        self.end = self.pos + self.len;
    }

    /// Move the start to `new_pos`, leaving the end fixed (shortening).
    pub fn change_pos(&mut self, new_pos: usize)
        requires
            old(self).wf(),
            new_pos <= old(self).end,
        ensures
            final(self).pos == new_pos,
            final(self).end == old(self).end,
            final(self).len == old(self).end - new_pos,
            final(self).wf(),
    {
        self.pos = new_pos;
        self.len = self.end - new_pos;
    }

    /// The adjacent window of length `len` starting where this one ends.
    pub fn next(&self, len: usize) -> (r: Segment)
        requires
            self.pos + self.len + len <= usize::MAX,
        ensures
            r.pos == self.pos + self.len && r.len == len && r.end == r.pos + len,
            r.wf(),
    {
        Segment::new(self.pos + self.len, len)
    }

    /// The window as a `start..end` range.
    pub fn range(&self) -> (r: core::ops::Range<usize>)
        ensures
            r.start == self.pos && r.end == self.end,
    {
        self.pos..self.end
    }

    /// The bytes of `buf` under this window, or `None` if out of bounds.
    pub fn read<'a>(&self, buf: &'a [u8]) -> (r: Option<&'a [u8]>)
        requires
            self.wf(),
        ensures
            match r {
                Some(s) => self.end <= buf@.len() && s@ == buf@.subrange(
                    self.pos as int,
                    self.end as int,
                ),
                None => self.end > buf@.len(),
            },
    {
        if self.end <= buf.len() {
            Some(slice_subrange(buf, self.pos, self.end))
        } else {
            None
        }
    }

    /// Copy `src` into `buf[pos..pos + src.len()]`; error if it does not fit.
    pub fn write(&self, buf: &mut Vec<u8>, src: &[u8]) -> (r: Result<(), WriteErr>)
        ensures
            final(buf)@.len() == old(buf)@.len(),
            match r {
                Ok(()) => {
                    &&& self.pos + src@.len() <= old(buf)@.len()
                    &&& forall|i: int|
                        self.pos <= i < self.pos + src@.len() ==> final(buf)@[i] == src@[i
                            - self.pos]
                    &&& forall|i: int|
                        0 <= i < old(buf)@.len() && !(self.pos <= i < self.pos + src@.len())
                            ==> final(buf)@[i] == old(buf)@[i]
                },
                Err(WriteErr) => {
                    &&& self.pos + src@.len() > old(buf)@.len()
                    &&& final(buf)@ == old(buf)@
                },
            },
    {
        if src.len() > buf.len() || self.pos > buf.len() - src.len() {
            return Err(WriteErr);
        }
        let mut i: usize = 0;
        while i < src.len()
            invariant
                0 <= i <= src@.len(),
                buf@.len() == old(buf)@.len(),
                buf@.len() <= usize::MAX,
                self.pos + src@.len() <= buf@.len(),
                forall|k: int| self.pos <= k < self.pos + i ==> buf@[k] == src@[k - self.pos],
                forall|k: int|
                    0 <= k < buf@.len() && !(self.pos <= k < self.pos + i) ==> buf@[k] == old(
                        buf,
                    )@[k],
            decreases src@.len() - i,
        {
            let b = *slice_index_get(src, i);
            assert(self.pos + i < buf@.len());
            let idx = self.pos + i;
            buf[idx] = b;
            i = i + 1;
        }
        Ok(())
    }
}

} // verus!
