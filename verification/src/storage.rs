//! The storage adapter the log writes through: an append-only byte sink
//! with positional read. The in-memory adapter here is verified; a durable
//! adapter may implement the same trait outside the library.
use crate::fixvec::FixVec;
use vstd::pervasive::unreached;
use vstd::prelude::*;
use vstd::slice::slice_index_get;

verus! {

/// Error from the storage adapter's append.
#[derive(Clone, Copy, PartialEq, Eq, Structural, Debug)]
pub struct AppendErr;

/// Append-only byte sink with positional read.
pub trait Storage: Sized {
    /// The bytes durably held so far.
    spec fn contents(&self) -> Seq<u8>;

    /// Append `data`; on success all of it was written, in order, at the
    /// end of the held bytes.
    fn append(&mut self, data: &[u8]) -> (r: Result<usize, AppendErr>)
        ensures
            match r {
                Ok(n) => {
                    &&& n == data@.len()
                    &&& final(self).contents() == old(self).contents() + data@
                    &&& old(self).contents().len() + data@.len() <= usize::MAX
                },
                Err(AppendErr) => final(self).contents() == old(self).contents(),
            },
    ;

    /// Fill `buf`, keeping its length, with the bytes starting at `offset`.
    fn read(&self, buf: &mut FixVec<u8>, offset: usize)
        requires
            offset + old(buf)@.len() <= self.contents().len(),
            old(buf)@.len() <= old(buf).spec_capacity(),
        ensures
            final(buf)@ == self.contents().subrange(
                offset as int,
                offset + old(buf)@.len(),
            ),
            final(buf).spec_capacity() == old(buf).spec_capacity(),
    ;
}

/// In-memory storage: one growable byte buffer, appended to at the end.
pub struct AppendOnlyMemory {
    bytes: Vec<u8>,
}

impl AppendOnlyMemory {
    pub fn new() -> (r: AppendOnlyMemory)
        ensures
            r.contents() == Seq::<u8>::empty(),
    {
        AppendOnlyMemory { bytes: Vec::new() }
    }
}

impl Storage for AppendOnlyMemory {
    closed spec fn contents(&self) -> Seq<u8> {
        self.bytes@
    }

    /// The in-memory sink never refuses an append.
    fn append(&mut self, data: &[u8]) -> (r: Result<usize, AppendErr>)
        ensures
            r.is_ok(),
    {
        let mut i: usize = 0;
        assert(old(self).bytes@ + data@.subrange(0, 0) =~= old(self).bytes@);
        while i < data.len()
            invariant
                0 <= i <= data@.len(),
                self.bytes@ == old(self).bytes@ + data@.subrange(0, i as int),
            decreases data@.len() - i,
        {
            self.bytes.push(*slice_index_get(data, i));
            assert(self.bytes@ =~= old(self).bytes@ + data@.subrange(0, i + 1));
            i = i + 1;
        }
        assert(data@.subrange(0, data@.len() as int) =~= data@);
        let total = self.bytes.len();
        assert(total == old(self).contents().len() + data@.len());
        Ok(data.len())
    }

    fn read(&self, buf: &mut FixVec<u8>, offset: usize) {
        let n = buf.len();
        let m = self.bytes.len();
        buf.clear();
        let mut i: usize = 0;
        assert(self.bytes@.subrange(offset as int, offset as int) =~= Seq::<u8>::empty());
        while i < n
            invariant
                0 <= i <= n,
                offset + n <= m,
                m == self.bytes@.len(),
                n <= buf.spec_capacity(),
                buf.spec_capacity() == old(buf).spec_capacity(),
                buf@ == self.bytes@.subrange(offset as int, offset + i),
            decreases n - i,
        {
            let b = self.bytes[offset + i];
            match buf.push(b) {
                Ok(()) => (),
                Err(_) => unreached(),
            }
            assert(buf@ =~= self.bytes@.subrange(offset as int, offset + i + 1));
            i = i + 1;
        }
    }
}

} // verus!
