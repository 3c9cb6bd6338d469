//! Fixed-capacity vector: a bounded container that never grows past the
//! capacity chosen at construction, so the hot path performs no reallocation.
use crate::segment::Segment;
use vstd::prelude::*;
use vstd::slice::slice_index_get;
use vstd::slice::slice_subrange;

verus! {

/// A container whose live elements can be viewed through a `Segment`.
pub trait Segmentable<T> {
    spec fn items(&self) -> Seq<T>;

    /// The elements under `index`, or `None` when it overruns the live
    /// part.
    fn segment(&self, index: &Segment) -> (r: Option<&[T]>)
        requires
            index.wf(),
        ensures
            match r {
                Some(s) => index.end <= self.items().len() && s@ == self.items().subrange(
                    index.pos as int,
                    index.end as int,
                ),
                None => index.end > self.items().len(),
            },
    ;
}

/// Error returned when an operation would push the length past the capacity.
#[derive(Clone, Copy, PartialEq, Eq, Structural, Debug)]
pub struct FixVecOverflow;

/// Fixed-capacity vector. There IS a limit.
pub struct FixVec<T> {
    elems: Vec<T>,
    cap: usize,
}

impl<T> FixVec<T> {
    pub closed spec fn view(&self) -> Seq<T> {
        self.elems@
    }

    pub closed spec fn spec_capacity(&self) -> usize {
        self.cap
    }

    /// The live length never exceeds the capacity.
    pub open spec fn wf(&self) -> bool {
        self@.len() <= self.spec_capacity()
    }

    pub fn new(capacity: usize) -> (r: FixVec<T>)
        ensures
            r@ == Seq::<T>::empty(),
            r.spec_capacity() == capacity,
    {
        FixVec { elems: Vec::new(), cap: capacity }
    }

    pub fn capacity(&self) -> (r: usize)
        ensures
            r == self.spec_capacity(),
    {
        self.cap
    }

    pub fn len(&self) -> (r: usize)
        ensures
            r == self@.len(),
    {
        self.elems.len()
    }

    pub fn clear(&mut self)
        ensures
            final(self)@ == Seq::<T>::empty(),
            final(self).spec_capacity() == old(self).spec_capacity(),
    {
        self.elems.clear();
    }

    pub fn push(&mut self, value: T) -> (r: Result<(), FixVecOverflow>)
        ensures
            final(self).spec_capacity() == old(self).spec_capacity(),
            match r {
                Ok(()) => old(self)@.len() < old(self).spec_capacity() && final(self)@ == old(self)@.push(value),
                Err(FixVecOverflow) => old(self)@.len() >= old(self).spec_capacity() && final(self)@ == old(self)@,
            },
    {
        if self.elems.len() < self.cap {
            self.elems.push(value);
            Ok(())
        } else {
            Err(FixVecOverflow)
        }
    }

    pub fn get(&self, index: usize) -> (r: Option<&T>)
        ensures
            match r {
                Some(v) => index < self@.len() && *v == self@[index as int],
                None => index >= self@.len(),
            },
    {
        if index < self.elems.len() {
            Some(&self.elems[index])
        } else {
            None
        }
    }

    pub fn as_slice(&self) -> (r: &[T])
        ensures
            r@ == self@,
    {
        self.elems.as_slice()
    }
}

impl<T: Copy> FixVec<T> {
    pub fn resize(&mut self, new_len: usize, value: T) -> (r: Result<(), FixVecOverflow>)
        ensures
            final(self).spec_capacity() == old(self).spec_capacity(),
            match r {
                Ok(()) => {
                    &&& new_len <= old(self).spec_capacity()
                    &&& final(self)@.len() == new_len
                    &&& (forall|i: int|
                        0 <= i < new_len && i < old(self)@.len() ==> final(self)@[i] == old(self)@[i])
                    &&& (forall|i: int|
                        old(self)@.len() <= i < new_len ==> final(self)@[i] == value)
                },
                Err(FixVecOverflow) => new_len > old(self).spec_capacity() && final(self)@ == old(self)@,
            },
    {
        if new_len > self.cap {
            return Err(FixVecOverflow);
        }
        if new_len <= self.elems.len() {
            self.elems.truncate(new_len);
            assert(self.elems@ =~= old(self)@.subrange(0, new_len as int));
        } else {
            while self.elems.len() < new_len
                invariant
                    old(self)@.len() <= self.elems@.len() <= new_len,
                    new_len <= self.cap,
                    self.cap == old(self).cap,
                    self.elems@.subrange(0, old(self)@.len() as int) == old(self)@,
                    forall|i: int|
                        old(self)@.len() <= i < self.elems@.len() ==> self.elems@[i] == value,
                decreases new_len - self.elems@.len(),
            {
                self.elems.push(value);
                assert(self.elems@.subrange(0, old(self)@.len() as int) =~= old(self)@);
            }
            assert forall|i: int| 0 <= i < new_len && i < old(self)@.len() implies self.elems@[i]
                == old(self)@[i] by {
                assert(old(self)@.subrange(0, old(self)@.len() as int) == old(self)@);
            }
        }
        Ok(())
    }

    pub fn extend_from_slice(&mut self, other: &[T]) -> (r: Result<(), FixVecOverflow>)
        ensures
            final(self).spec_capacity() == old(self).spec_capacity(),
            match r {
                Ok(()) => {
                    &&& old(self)@.len() + other@.len() <= old(self).spec_capacity()
                    &&& final(self)@ == old(self)@ + other@
                },
                Err(FixVecOverflow) => {
                    &&& old(self)@.len() + other@.len() > old(self).spec_capacity()
                    &&& final(self)@ == old(self)@
                },
            },
    {
        if other.len() > self.cap || self.cap - other.len() < self.elems.len() {
            return Err(FixVecOverflow);
        }
        let mut i: usize = 0;
        assert(old(self)@ + other@.subrange(0, 0) =~= old(self)@);
        while i < other.len()
            invariant
                0 <= i <= other@.len(),
                self.cap == old(self).cap,
                old(self)@.len() + other@.len() <= self.cap,
                self.elems@ == old(self)@ + other@.subrange(0, i as int),
            decreases other@.len() - i,
        {
            self.elems.push(*slice_index_get(other, i));
            assert(self.elems@ =~= old(self)@ + other@.subrange(0, i + 1));
            i = i + 1;
        }
        assert(other@.subrange(0, other@.len() as int) =~= other@);
        Ok(())
    }
}

impl<T> Segmentable<T> for FixVec<T> {
    open spec fn items(&self) -> Seq<T> {
        self@
    }

    fn segment(&self, index: &Segment) -> (r: Option<&[T]>) {
        if index.end <= self.len() {
            Some(slice_subrange(self.as_slice(), index.pos, index.end))
        } else {
            None
        }
    }
}

} // verus!
