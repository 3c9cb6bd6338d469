//! A plain circular buffer over a fixed capacity, and the skeleton of a
//! bipartite buffer. These stand beside the read cache as the simpler
//! ring-buffer shapes the project grew out of.
use vstd::prelude::*;
use vstd::slice::slice_index_get;

verus! {

/// Error from `CircBuf::extend_from_slice`: the copy would wrap around.
#[derive(Clone, Copy, PartialEq, Eq, Structural, Debug)]
pub struct CircBufWrapAround;

/// Fixed-capacity ring: once full, each push overwrites the oldest slot.
pub struct CircBuf<T> {
    elems: Vec<T>,
    cap: usize,
    write_idx: usize,
    len: usize,
}

impl<T> CircBuf<T> {
    pub closed spec fn view(&self) -> Seq<T> {
        self.elems@
    }

    pub closed spec fn spec_capacity(&self) -> usize {
        self.cap
    }

    pub closed spec fn spec_write_idx(&self) -> usize {
        self.write_idx
    }

    pub closed spec fn spec_len(&self) -> usize {
        self.len
    }

    /// The slots filled so far are materialized; until the ring is full the
    /// write cursor sits at its end.
    pub open spec fn wf(&self) -> bool {
        &&& self@.len() == self.spec_len() <= self.spec_capacity()
        &&& (self.spec_len() < self.spec_capacity() ==> self.spec_write_idx() == self.spec_len())
        &&& (self.spec_capacity() > 0 ==> self.spec_write_idx() < self.spec_capacity())
        &&& (self.spec_capacity() == 0 ==> self.spec_write_idx() == 0)
    }

    pub fn new(capacity: usize) -> (r: CircBuf<T>)
        ensures
            r.wf(),
            r@ == Seq::<T>::empty(),
            r.spec_capacity() == capacity,
            r.spec_write_idx() == 0,
            r.spec_len() == 0,
    {
        CircBuf { elems: Vec::new(), cap: capacity, write_idx: 0, len: 0 }
    }

    pub fn capacity(&self) -> (r: usize)
        ensures
            r == self.spec_capacity(),
    {
        self.cap
    }

    pub fn write_idx(&self) -> (r: usize)
        ensures
            r == self.spec_write_idx(),
    {
        self.write_idx
    }

    pub fn len(&self) -> (r: usize)
        ensures
            r == self.spec_len(),
    {
        self.len
    }

    /// Write at the cursor (overwriting once full), advance it cyclically,
    /// and saturate the length at the capacity.
    pub fn push(&mut self, item: T)
        requires
            old(self).wf(),
            old(self).spec_capacity() > 0,
        ensures
            final(self).wf(),
            final(self).spec_capacity() == old(self).spec_capacity(),
            final(self)@ == if old(self).spec_len() < old(self).spec_capacity() {
                old(self)@.push(item)
            } else {
                old(self)@.update(old(self).spec_write_idx() as int, item)
            },
            final(self).spec_write_idx() == ((old(self).spec_write_idx() + 1) as int % (old(
                self,
            ).spec_capacity() as int)) as usize,
            final(self).spec_len() == if old(self).spec_len() < old(self).spec_capacity() {
                (old(self).spec_len() + 1) as usize
            } else {
                old(self).spec_capacity()
            },
    {
        if self.elems.len() < self.cap {
            self.elems.push(item);
            self.len = self.len + 1;
        } else {
            let w = self.write_idx;
            self.elems[w] = item;
        }
        proof {
            let c = old(self).spec_capacity() as int;
            let w = old(self).spec_write_idx() as int;
            assert((w + 1) < c ==> (w + 1) % c == w + 1) by (nonlinear_arith)
                requires
                    c > 0,
                    w >= 0,
            ;
            assert((w + 1) == c ==> (w + 1) % c == 0) by (nonlinear_arith)
                requires
                    c > 0,
                    w >= 0,
            ;
        }
        self.write_idx = (self.write_idx + 1) % self.cap;
    }

    /// The slot `index` positions after the write cursor, modulo the live
    /// length; empty rings hold nothing.
    pub fn get(&self, index: usize) -> (r: Option<&T>)
        requires
            self.wf(),
            index + self.spec_write_idx() <= usize::MAX,
        ensures
            match r {
                Some(v) => self.spec_len() > 0 && *v == self@[(index + self.spec_write_idx())
                    % (self.spec_len() as int)],
                None => self.spec_len() == 0,
            },
    {
        if self.len == 0 {
            return None;
        }
        let j = (index + self.write_idx) % self.len;
        Some(&self.elems[j])
    }
}

impl<T: Copy> CircBuf<T> {
    /// Copy `slice` over the live prefix when it fits below the wrap point;
    /// the wrapping copy is not provided, so the call always errors.
    pub fn extend_from_slice(&mut self, slice: &[T]) -> (r: Result<(), CircBufWrapAround>)
        requires
            old(self).wf(),
            old(self).spec_capacity() - old(self).spec_write_idx() > slice@.len() ==> slice@.len()
                == old(self).spec_len(),
        ensures
            r == Result::<(), CircBufWrapAround>::Err(CircBufWrapAround),
            final(self).wf(),
            final(self).spec_capacity() == old(self).spec_capacity(),
            final(self).spec_write_idx() == old(self).spec_write_idx(),
            final(self).spec_len() == old(self).spec_len(),
            final(self)@ == if old(self).spec_capacity() - old(self).spec_write_idx()
                > slice@.len() {
                slice@
            } else {
                old(self)@
            },
    {
        let space_left = self.cap - self.write_idx;
        if space_left > slice.len() {
            let mut i: usize = 0;
            while i < slice.len()
                invariant
                    0 <= i <= slice@.len(),
                    slice@.len() == self.elems@.len(),
                    self.cap == old(self).cap,
                    self.write_idx == old(self).write_idx,
                    self.len == old(self).len,
                    forall|x: int| 0 <= x < i ==> self.elems@[x] == slice@[x],
                    forall|x: int|
                        i <= x < self.elems@.len() ==> self.elems@[x] == old(self).elems@[x],
                decreases slice@.len() - i,
            {
                let v = *slice_index_get(slice, i);
                self.elems[i] = v;
                i = i + 1;
            }
            proof {
                assert(self.elems@ =~= slice@);
            }
        }
        Err(CircBufWrapAround)
    }
}

/// The two-segment buffer in outline: its cursors only, with `clear`.
pub struct BipBuf<T> {
    buf: Vec<T>,
    cap: usize,
    a_start: usize,
    a_end: usize,
    b_start: usize,
    b_end: usize,
    reserve_start: usize,
    reserve_end: usize,
}

impl<T> BipBuf<T> {
    pub closed spec fn spec_capacity(&self) -> usize {
        self.cap
    }

    /// Every cursor sits at zero: nothing committed, nothing reserved.
    pub closed spec fn is_cleared(&self) -> bool {
        &&& self.a_start == 0
        &&& self.a_end == 0
        &&& self.b_start == 0
        &&& self.b_end == 0
        &&& self.reserve_start == 0
        &&& self.reserve_end == 0
    }

    pub fn new(capacity: usize) -> (r: BipBuf<T>)
        ensures
            r.is_cleared(),
            r.spec_capacity() == capacity,
    {
        BipBuf {
            buf: Vec::new(),
            cap: capacity,
            a_start: 0,
            a_end: 0,
            b_start: 0,
            b_end: 0,
            reserve_start: 0,
            reserve_end: 0,
        }
    }

    pub fn clear(&mut self)
        ensures
            final(self).is_cleared(),
            final(self).spec_capacity() == old(self).spec_capacity(),
    {
        self.a_start = 0;
        self.a_end = 0;
        self.b_start = 0;
        self.b_end = 0;
        self.reserve_start = 0;
        self.reserve_end = 0;
    }
}

} // verus!
