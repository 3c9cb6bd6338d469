//! LIFO read cache over a single fixed byte buffer, kept as two contiguous
//! segments so that no event is ever split across the wrap boundary. The
//! top segment `A` holds the older cached events; the bottom segment `B`
//! starts at byte 0 and grows toward `A`, evicting whole events from `A`'s
//! front as it needs room.
use crate::addr::Addr;
use crate::codec;
use crate::codec::Event;
use crate::segment::Segment;
use crate::segment::WriteErr;
use vstd::pervasive::unreached;
use vstd::prelude::*;

verus! {

/// Cache of the most recent byte suffix of the log. `logical_start` is the
/// logical position of the first cached event.
pub struct ReadCache {
    mem: Vec<u8>,
    pub logical_start: usize,
    a: Segment,
    b: Segment,
    origin: Ghost<Addr>,
    cached: Ghost<Seq<(u64, Seq<u8>)>>,
    n_a: Ghost<int>,
}

impl ReadCache {
    /// The logical position of the first cached event, for contracts.
    pub closed spec fn spec_start(&self) -> usize {
        self.logical_start
    }

    /// The origin address of the events this cache holds.
    pub closed spec fn spec_origin(&self) -> Addr {
        self.origin@
    }

    /// The cached events, oldest first, as `(logical position, payload)`.
    pub closed spec fn entries(&self) -> Seq<(u64, Seq<u8>)> {
        self.cached@
    }

    pub closed spec fn spec_capacity(&self) -> int {
        self.mem@.len() as int
    }

    pub closed spec fn seg_a(&self) -> Segment {
        self.a
    }

    pub closed spec fn seg_b(&self) -> Segment {
        self.b
    }

    /// How many of the cached events sit in segment `A`.
    pub closed spec fn split(&self) -> int {
        self.n_a@
    }

    pub closed spec fn a_bytes(&self) -> Seq<u8> {
        self.mem@.subrange(self.a.pos as int, self.a.end as int)
    }

    pub closed spec fn b_bytes(&self) -> Seq<u8> {
        self.mem@.subrange(0, self.b.end as int)
    }

    /// The cached byte suffix of the log: segment `A` then segment `B`.
    pub open spec fn contents(&self) -> Seq<u8> {
        self.a_bytes() + self.b_bytes()
    }

    /// Every entry decodes cleanly: positions and payload lengths fit.
    pub open spec fn entry_bounds(es: Seq<(u64, Seq<u8>)>) -> bool {
        forall|j: int|
            0 <= j < es.len() ==> (#[trigger] es[j]).0 <= usize::MAX && es[j].1.len()
                <= usize::MAX
    }

    /// Geometry and contents: `B` starts at 0 below `A`, both segments hold
    /// whole events, and together they are the stream of `entries()`.
    pub open spec fn wf(&self) -> bool {
        &&& self.seg_a().wf()
        &&& self.seg_b().wf()
        &&& self.seg_b().pos == 0
        &&& self.seg_a().end <= self.spec_capacity()
        &&& self.seg_b().end <= self.seg_a().pos
        &&& (self.seg_b().len == 0 ==> self.seg_a().pos == 0)
        &&& 0 <= self.split() <= self.entries().len()
        &&& (self.seg_b().len == 0 ==> self.split() == self.entries().len())
        &&& self.a_bytes() == codec::stream(
            self.spec_origin(),
            self.entries().take(self.split()),
        )
        &&& self.b_bytes() == codec::stream(
            self.spec_origin(),
            self.entries().skip(self.split()),
        )
        &&& codec::entries_ok(self.entries())
        &&& Self::entry_bounds(self.entries())
        &&& self.a_bytes().len() == self.seg_a().len
        &&& self.b_bytes().len() == self.seg_b().end
        &&& self.contents().len() <= self.spec_capacity()
        &&& self.spec_start() + self.entries().len() <= usize::MAX
        &&& self.spec_capacity() <= usize::MAX
    }

    /// The logical position of the first cached event.
    pub fn start(&self) -> (r: usize)
        ensures
            r == self.spec_start(),
    {
        self.logical_start
    }

    pub fn new(capacity: usize, origin: Ghost<Addr>) -> (r: ReadCache)
        ensures
            r.wf(),
            r.entries() == Seq::<(u64, Seq<u8>)>::empty(),
            r.spec_capacity() == capacity,
            r.spec_origin() == origin@,
            r.spec_start() == 0,
    {
        let mem = vec![0u8; capacity];
        let r = ReadCache {
            mem,
            logical_start: 0,
            a: Segment::new(0, 0),
            b: Segment::new(0, 0),
            origin,
            cached: Ghost(Seq::empty()),
            n_a: Ghost(0),
        };
        proof {
            assert(r.a_bytes() =~= Seq::<u8>::empty());
            assert(r.b_bytes() =~= Seq::<u8>::empty());
            assert(r.entries().take(0) =~= Seq::<(u64, Seq<u8>)>::empty());
            assert(r.entries().skip(0) =~= Seq::<(u64, Seq<u8>)>::empty());
        }
        r
    }

    /// Append `src` after the end of `region` inside `dest`, growing the
    /// region; the region must start at byte 0 of its coordinate space.
    pub fn extend(region: &mut Segment, dest: &mut Vec<u8>, src: &[u8]) -> (r: Result<
        (),
        WriteErr,
    >)
        requires
            old(region).wf(),
            old(region).pos == 0,
        ensures
            final(dest)@.len() == old(dest)@.len(),
            match r {
                Ok(()) => {
                    &&& old(region).end + src@.len() <= old(dest)@.len()
                    &&& final(region).pos == 0
                    &&& final(region).end == old(region).end + src@.len()
                    &&& final(region).len == final(region).end
                    &&& final(region).wf()
                    &&& (forall|i: int|
                        old(region).end <= i < old(region).end + src@.len() ==> final(dest)@[i]
                            == src@[i - old(region).end])
                    &&& (forall|i: int|
                        0 <= i < old(dest)@.len() && !(old(region).end <= i < old(region).end
                            + src@.len()) ==> final(dest)@[i] == old(dest)@[i])
                },
                Err(WriteErr) => {
                    &&& old(region).end + src@.len() > old(dest)@.len()
                    &&& final(dest)@ == old(dest)@
                    &&& *final(region) == *old(region)
                },
            },
    {
        if src.len() > dest.len() || region.len > dest.len() - src.len() {
            return Err(WriteErr);
        }
        let extension = Segment::new(region.len, src.len());
        match extension.write(dest, src) {
            Ok(()) => (),
            Err(_) => unreached(),
        }
        region.lengthen(src.len());
        Ok(())
    }

    /// The boundary after `A`'s events equals `A`'s byte length, and the
    /// one after all entries equals the total cached byte length.
    proof fn lemma_geometry(&self)
        requires
            self.wf(),
        ensures
            codec::offset_of(self.entries(), self.split()) == self.a_bytes().len(),
            codec::offset_of(self.entries(), self.entries().len() as int) == self.contents().len(),
            self.b_bytes().len() == self.contents().len() - self.a_bytes().len(),
    {
        let es = self.entries();
        let na = self.split();
        codec::lemma_stream_len(self.spec_origin(), es.take(na));
        codec::lemma_offset_prefix(es, na, na);
        assert(es.take(na).take(na) =~= es.take(na));
        codec::lemma_offset_stream(self.spec_origin(), es.take(na), na);
        codec::lemma_stream_len(self.spec_origin(), es.skip(na));
        codec::lemma_offset_skip(es, na, es.len() as int);
    }

    /// Walk whole events from `A`'s front: the smallest count `k` whose
    /// eviction leaves room for `B` to grow to `b.end + es_len`.
    fn scan_a(&self, es_len: usize) -> (r: (bool, usize, usize))
        requires
            self.wf(),
        ensures
            ({
                let (found, k, off) = r;
                &&& 0 <= k <= self.split()
                &&& off == codec::offset_of(self.entries(), k as int)
                &&& forall|j: int|
                    0 <= j < k ==> self.seg_a().pos + codec::offset_of(self.entries(), j)
                        < self.seg_b().end + es_len
                &&& (found ==> self.seg_a().pos + off >= self.seg_b().end + es_len)
                &&& (!found ==> k == self.split() && self.seg_a().pos + off < self.seg_b().end
                    + es_len)
            }),
    {
        let a_slice = match self.a.read(self.mem.as_slice()) {
            Some(s) => s,
            None => unreached(),
        };
        proof {
            self.lemma_geometry();
        }
        let mut k: usize = 0;
        let mut off: usize = 0;
        loop
            invariant
                self.wf(),
                a_slice@ == self.a_bytes(),
                0 <= k <= self.split(),
                off == codec::offset_of(self.entries(), k as int),
                off <= self.seg_a().len,
                codec::offset_of(self.entries(), self.split()) == self.a_bytes().len(),
                forall|j: int|
                    0 <= j < k ==> self.seg_a().pos + codec::offset_of(self.entries(), j)
                        < self.seg_b().end + es_len,
            decreases self.split() - k,
        {
            if (self.a.pos - self.b.end) + off >= es_len {
                return (true, k, off);
            }
            match codec::read(a_slice, off) {
                None => {
                    proof {
                        if (k as int) < self.split() {
                            codec::lemma_offset_prefix(self.entries(), self.split(), k as int);
                            codec::lemma_stream_decode(
                                self.spec_origin(),
                                self.entries().take(self.split()),
                                k as int,
                                self.a_bytes(),
                            );
                            assert(false);
                        }
                    }
                    return (false, k, off);
                },
                Some(e) => {
                    proof {
                        if k as int == self.split() {
                            assert(off == self.a_bytes().len());
                            assert(!codec::parse_ok(self.a_bytes(), off as int));
                            assert(false);
                        }
                        codec::lemma_offset_prefix(self.entries(), self.split(), k as int);
                        codec::lemma_stream_decode(
                            self.spec_origin(),
                            self.entries().take(self.split()),
                            k as int,
                            self.a_bytes(),
                        );
                        codec::lemma_offset_mono(self.entries(), k + 1, self.split());
                    }
                    let size = e.on_disk_size();
                    off = off + size;
                    k = k + 1;
                },
            }
        }
    }

    /// Decode the event at `relative_byte_pos` within the cached bytes:
    /// from `A` if the position falls there, else from `B`. The position
    /// must be an event boundary (or lie at/past the cached end).
    pub fn read(&self, relative_byte_pos: usize) -> (r: Option<Event<'_>>)
        requires
            self.wf(),
            (exists|j: int|
                0 <= j <= self.entries().len() && relative_byte_pos == codec::offset_of(
                    self.entries(),
                    j,
                )) || relative_byte_pos >= self.contents().len(),
        ensures
            match r {
                Some(e) => exists|j: int|
                    {
                        &&& 0 <= j < self.entries().len()
                        &&& relative_byte_pos == codec::offset_of(self.entries(), j)
                        &&& e.payload@ == (#[trigger] self.entries()[j]).1
                        &&& e.id.origin == self.spec_origin()
                        &&& e.id.logical_pos as u64 == self.entries()[j].0
                    },
                None => forall|j: int|
                    0 <= j < self.entries().len() ==> relative_byte_pos != codec::offset_of(
                        self.entries(),
                        j,
                    ),
            },
    {
        let ghost es = self.entries();
        let ghost na = self.split();
        let ghost origin = self.spec_origin();
        proof {
            self.lemma_geometry();
        }
        let a_slice = match self.a.read(self.mem.as_slice()) {
            Some(s) => s,
            None => unreached(),
        };
        match codec::read(a_slice, relative_byte_pos) {
            Some(e) => {
                proof {
                    let rel = relative_byte_pos as int;
                    if !(exists|j: int|
                        0 <= j <= es.len() && rel == codec::offset_of(es, j))
                        && rel >= self.contents().len() {
                        assert(!codec::parse_ok(self.a_bytes(), rel));
                        assert(false);
                    }
                    let j0 = choose|j: int| 0 <= j <= es.len() && rel == codec::offset_of(es, j);
                    if j0 >= na {
                        codec::lemma_offset_mono(es, na, j0);
                        assert(!codec::parse_ok(self.a_bytes(), rel));
                        assert(false);
                    }
                    codec::lemma_offset_prefix(es, na, j0);
                    codec::lemma_stream_decode(origin, es.take(na), j0, self.a_bytes());
                }
                Some(e)
            },
            None => {
                proof {
                    let rel = relative_byte_pos as int;
                    if exists|j: int| 0 <= j <= es.len() && rel == codec::offset_of(es, j) {
                        let j0 = choose|j: int|
                            0 <= j <= es.len() && rel == codec::offset_of(es, j);
                        if j0 < na {
                            codec::lemma_offset_prefix(es, na, j0);
                            codec::lemma_stream_decode(origin, es.take(na), j0, self.a_bytes());
                            assert(false);
                        }
                        codec::lemma_offset_mono(es, na, j0);
                        assert(relative_byte_pos >= self.a_bytes().len());
                    } else {
                        assert(relative_byte_pos >= self.contents().len());
                    }
                }
                let rel2 = relative_byte_pos - a_slice.len();
                let b_slice = match self.b.read(self.mem.as_slice()) {
                    Some(s) => s,
                    None => unreached(),
                };
                assert(b_slice@ == self.b_bytes());
                let r2 = codec::read(b_slice, rel2);
                proof {
                    let rel = relative_byte_pos as int;
                    let alen = self.a_bytes().len() as int;
                    assert forall|j: int|
                        na <= j < es.len() && rel == codec::offset_of(es, j) implies {
                        &&& codec::parse_ok(self.b_bytes(), rel - alen)
                        &&& codec::decoded_payload(self.b_bytes(), rel - alen) == es[j].1
                        &&& codec::decoded_pos(self.b_bytes(), rel - alen) == es[j].0
                        &&& codec::decoded_w0(self.b_bytes(), rel - alen) == origin.w0
                        &&& codec::decoded_w1(self.b_bytes(), rel - alen) == origin.w1
                    } by {
                        codec::lemma_offset_skip(es, na, j);
                        codec::lemma_stream_decode(origin, es.skip(na), j - na, self.b_bytes());
                    }
                    if !codec::parse_ok(self.b_bytes(), rel - alen) {
                        assert forall|j: int|
                            0 <= j < es.len() implies rel != codec::offset_of(es, j) by {
                            if rel == codec::offset_of(es, j) {
                                if j < na {
                                    codec::lemma_offset_prefix(es, na, j);
                                    codec::lemma_stream_decode(
                                        origin,
                                        es.take(na),
                                        j,
                                        self.a_bytes(),
                                    );
                                }
                            }
                        }
                    } else {
                        let j0 = choose|j: int|
                            0 <= j <= es.len() && rel == codec::offset_of(es, j);
                        if !(exists|j: int| 0 <= j <= es.len() && rel == codec::offset_of(es, j)) {
                            assert(rel >= self.contents().len());
                            assert(!codec::parse_ok(self.b_bytes(), rel - alen));
                            assert(false);
                        }
                        if j0 == es.len() {
                            assert(rel - alen == self.b_bytes().len());
                            assert(!codec::parse_ok(self.b_bytes(), rel - alen));
                            assert(false);
                        }
                        if j0 < na {
                            codec::lemma_offset_prefix(es, na, j0);
                            codec::lemma_stream_decode(origin, es.take(na), j0, self.a_bytes());
                            assert(false);
                        }
                    }
                }
                r2
            },
        }
    }

    /// Size and bounds facts survive dropping a prefix and appending a batch.
    pub proof fn lemma_bounds_concat_skip(oldc: Seq<(u64, Seq<u8>)>, new: Seq<(u64, Seq<u8>)>, k: int)
        requires
            codec::entries_ok(oldc),
            codec::entries_ok(new),
            Self::entry_bounds(oldc),
            Self::entry_bounds(new),
            0 <= k <= oldc.len(),
        ensures
            codec::entries_ok(oldc.skip(k) + new),
            Self::entry_bounds(oldc.skip(k) + new),
    {
        let c = oldc.skip(k) + new;
        assert forall|j: int| 0 <= j < c.len() implies codec::size_of_event(
            (#[trigger] c[j]).1.len() as int,
        ) <= usize::MAX && c[j].0 <= usize::MAX && c[j].1.len() <= usize::MAX by {
            if j < oldc.len() - k {
                assert(c[j] == oldc[k + j]);
            } else {
                assert(c[j] == new[j - (oldc.len() - k)]);
            }
        }
    }

    /// Whether evicting the first `k` whole events of `A` frees the room
    /// `B` needs to grow by `es_len` bytes.
    pub open spec fn evict_frees(old_c: ReadCache, es_len: int, k: int) -> bool {
        old_c.seg_a().pos + codec::offset_of(old_c.entries(), k) >= old_c.seg_b().end + es_len
    }

    /// What `update` leaves behind, exactly. A batch larger than the whole
    /// buffer empties the cache. An empty cache, or one whose `A` has room
    /// while `B` is empty, takes the batch whole. Otherwise the fewest
    /// whole events leave `A`'s front that give `B` its room; when even
    /// evicting all of `A` is not enough, `B`'s events become the new `A`
    /// and the batch goes after them, or — when that too overflows — the
    /// cache starts over holding exactly the batch. `logical_start` moves
    /// past each evicted event, or is reseeded from the batch's first.
    pub open spec fn updated(
        old_c: ReadCache,
        new_c: ReadCache,
        new_es: Seq<(u64, Seq<u8>)>,
        es_len: int,
    ) -> bool {
        if es_len > old_c.spec_capacity() {
            new_c.entries() == Seq::<(u64, Seq<u8>)>::empty() && new_c.spec_start() as u64
                == new_es[0].0
        } else if old_c.entries().len() == 0 {
            &&& new_c.entries() == new_es
            &&& new_c.spec_start() as u64 == new_es[0].0
            &&& new_c.split() == new_c.entries().len()
        } else if old_c.seg_b().len == 0 && old_c.seg_a().end + es_len <= old_c.spec_capacity() {
            &&& new_c.entries() == old_c.entries() + new_es
            &&& new_c.spec_start() == old_c.spec_start()
            &&& new_c.split() == new_c.entries().len()
        } else if exists|k: int|
            0 <= k <= old_c.split() && Self::evict_frees(old_c, es_len, k) {
            exists|k: int|
                {
                    &&& 0 <= k <= old_c.split()
                    &&& Self::evict_frees(old_c, es_len, k)
                    &&& forall|j: int| 0 <= j < k ==> !Self::evict_frees(old_c, es_len, j)
                    &&& new_c.entries() == old_c.entries().skip(k) + new_es
                    &&& new_c.spec_start() == old_c.spec_start() + k
                    &&& new_c.split() == old_c.split() - k
                    &&& new_c.seg_a().pos == old_c.seg_a().pos + codec::offset_of(
                        old_c.entries(),
                        k,
                    )
                }
        } else if old_c.seg_b().end + es_len <= old_c.spec_capacity() {
            &&& new_c.entries() == old_c.entries().skip(old_c.split()) + new_es
            &&& new_c.spec_start() == old_c.spec_start() + old_c.split()
            &&& new_c.split() == new_c.entries().len()
        } else {
            &&& new_c.entries() == new_es
            &&& new_c.spec_start() as u64 == new_es[0].0
            &&& new_c.split() == new_c.entries().len()
        }
    }

    /// The cached bytes bound the cached events: each takes at least a
    /// header's worth, and everything fits the buffer. In particular a
    /// zero-capacity cache holds no event.
    pub proof fn lemma_capacity_bounds(&self)
        requires
            self.wf(),
        ensures
            (codec::HEADER_SIZE as int) * self.entries().len() <= self.contents().len(),
            self.contents().len() <= self.spec_capacity(),
    {
        self.lemma_geometry();
        codec::lemma_offset_mono(self.entries(), 0, self.entries().len() as int);
    }

    /// Take in the bytes of a freshly committed batch. A batch that cannot
    /// fit even an empty buffer leaves the cache empty rather than failing
    /// the commit.
    pub fn update(&mut self, es: &[u8], new: Ghost<Seq<(u64, Seq<u8>)>>) -> (r: Result<
        (),
        WriteErr,
    >)
        requires
            old(self).wf(),
            es@ == codec::stream(old(self).spec_origin(), new@),
            new@.len() > 0,
            codec::entries_ok(new@),
            Self::entry_bounds(new@),
            old(self).spec_start() + old(self).entries().len() + new@.len() <= usize::MAX,
            new@[0].0 + new@.len() <= usize::MAX,
        ensures
            final(self).wf(),
            r.is_ok(),
            final(self).spec_capacity() == old(self).spec_capacity(),
            final(self).spec_origin() == old(self).spec_origin(),
            Self::updated(*old(self), *final(self), new@, es@.len() as int),
    {
        let ghost origin = self.spec_origin();
        if es.len() > self.mem.len() {
            self.a = Segment::new(0, 0);
            self.b = Segment::new(0, 0);
            self.set_logical_start(es, new);
            self.cached = Ghost(Seq::empty());
            self.n_a = Ghost(0);
            proof {
                assert(self.a_bytes() =~= Seq::<u8>::empty());
                assert(self.b_bytes() =~= Seq::<u8>::empty());
                assert(self.entries().take(0) =~= Seq::<(u64, Seq<u8>)>::empty());
                assert(self.entries().skip(0) =~= Seq::<(u64, Seq<u8>)>::empty());
            }
            return Ok(());
        }
        if self.a.empty() && self.b.empty() {
            proof {
                let es0 = self.entries();
                codec::lemma_stream_len(origin, es0.take(self.split()));
                codec::lemma_offset_mono(es0.take(self.split()), 0, self.split());
                assert(self.split() == 0);
                assert(es0.len() == 0);
            }
            self.set_logical_start(es, new);
            match Self::extend(&mut self.a, &mut self.mem, es) {
                Ok(()) => (),
                Err(_) => unreached(),
            }
            self.cached = Ghost(new@);
            self.n_a = Ghost(new@.len() as int);
            proof {
                assert(self.a_bytes() =~= es@);
                assert(self.entries().take(self.split()) =~= new@);
                assert(self.b_bytes() =~= Seq::<u8>::empty());
                assert(self.entries().skip(self.split()) =~= Seq::<(u64, Seq<u8>)>::empty());
            }
            return Ok(());
        }
        proof {
            if old(self).entries().len() == 0 {
                let es0 = old(self).entries();
                assert(es0.take(old(self).split()) =~= Seq::<(u64, Seq<u8>)>::empty());
                assert(es0.skip(old(self).split()) =~= Seq::<(u64, Seq<u8>)>::empty());
                assert(codec::stream(old(self).spec_origin(), es0.take(old(self).split()))
                    == Seq::<u8>::empty());
                assert(codec::stream(old(self).spec_origin(), es0.skip(old(self).split()))
                    == Seq::<u8>::empty());
                assert(old(self).a_bytes().len() == 0 && old(self).b_bytes().len() == 0);
                assert(old(self).seg_a().len == 0 && old(self).seg_b().len == 0);
                assert(false);
            }
        }
        if self.b.empty() {
            if es.len() <= self.mem.len() - self.a.end {
                let ghost old_a = self.a_bytes();
                match Self::extend(&mut self.a, &mut self.mem, es) {
                    Ok(()) => (),
                    Err(_) => unreached(),
                }
                self.cached = Ghost(self.cached@ + new@);
                self.n_a = Ghost(self.n_a@ + new@.len() as int);
                proof {
                    Self::lemma_bounds_concat_skip(old(self).entries(), new@, 0);
                    assert(old(self).entries().skip(0) + new@ =~= old(self).entries() + new@);
                    assert(self.a_bytes() =~= old_a + es@);
                    assert(old(self).entries().take(old(self).split()) =~= old(self).entries());
                    codec::lemma_stream_concat(origin, old(self).entries(), new@);
                    assert(self.entries().take(self.split()) =~= self.entries());
                    assert(self.b_bytes() =~= Seq::<u8>::empty());
                    assert(self.entries().skip(self.split()) =~= Seq::<(u64, Seq<u8>)>::empty());
                    assert((old(self).entries() + new@).skip(0) =~= self.entries());
                }
                return Ok(());
            }
            return self.wrap_around(es, new);
        }
        self.wrap_around(es, new)
    }

    /// `B` needs room it does not have: evict the fewest whole events from
    /// `A`'s front that make space, or failing that promote `B` to be the
    /// new `A`, or failing that start over with just this batch.
    #[verifier::rlimit(100)]
    #[verifier::spinoff_prover]
    fn wrap_around(&mut self, es: &[u8], new: Ghost<Seq<(u64, Seq<u8>)>>) -> (r: Result<
        (),
        WriteErr,
    >)
        requires
            old(self).wf(),
            es@ == codec::stream(old(self).spec_origin(), new@),
            new@.len() > 0,
            codec::entries_ok(new@),
            Self::entry_bounds(new@),
            es@.len() <= old(self).spec_capacity(),
            old(self).entries().len() > 0,
            old(self).seg_b().len > 0 || old(self).seg_a().end + es@.len() > old(
                self,
            ).spec_capacity(),
            old(self).spec_start() + old(self).entries().len() + new@.len() <= usize::MAX,
            new@[0].0 + new@.len() <= usize::MAX,
        ensures
            final(self).wf(),
            r.is_ok(),
            final(self).spec_capacity() == old(self).spec_capacity(),
            final(self).spec_origin() == old(self).spec_origin(),
            Self::updated(*old(self), *final(self), new@, es@.len() as int),
    {
        let ghost origin = self.spec_origin();
        let ghost oldc = self.entries();
        let ghost na = self.split();
        proof {
            self.lemma_geometry();
            codec::lemma_stream_nonempty(origin, new@);
        }
        let (found, k, off) = self.scan_a(es.len());
        proof {
            codec::lemma_offset_mono(oldc, k as int, na);
        }
        if found {
            let new_a_pos = self.a.pos + off;
            self.a.change_pos(new_a_pos);
            self.logical_start = self.logical_start + k;
            self.cached = Ghost(self.cached@.skip(k as int) + new@);
            self.n_a = Ghost(self.n_a@ - k as int);
            let ghost old_a = old(self).a_bytes();
            let ghost old_b = old(self).b_bytes();
            match Self::extend(&mut self.b, &mut self.mem, es) {
                Ok(()) => (),
                Err(_) => unreached(),
            }
            proof {
                Self::lemma_bounds_concat_skip(oldc, new@, k as int);
                codec::lemma_offset_prefix(oldc, na, k as int);
                codec::lemma_stream_skip(origin, oldc.take(na), k as int);
                assert(oldc.take(na).skip(k as int) =~= self.entries().take(self.split()));
                assert(self.a_bytes() =~= old_a.skip(off as int));
                assert(old_a.skip(off as int) == codec::stream(
                    origin,
                    self.entries().take(self.split()),
                ));
                assert(oldc.take(na).skip(k as int).take(na - k) =~= oldc.take(na).skip(
                    k as int,
                ));
                assert(self.entries().skip(self.split()) =~= oldc.skip(na) + new@);
                codec::lemma_stream_concat(origin, oldc.skip(na), new@);
                assert(self.b_bytes() =~= old_b + es@);
                assert(Self::evict_frees(*old(self), es@.len() as int, k as int));
            }
            Ok(())
        } else {
            self.logical_start = self.logical_start + k;
            let b_end = self.b.end;
            self.a = Segment::new(0, b_end);
            self.b = Segment::new(0, 0);
            self.cached = Ghost(self.cached@.skip(na));
            self.n_a = Ghost(self.cached@.len() as int);
            proof {
                assert(self.a_bytes() =~= old(self).b_bytes());
                assert(self.entries().take(self.split()) =~= self.entries());
                assert(self.entries() == oldc.skip(na));
            }
            if es.len() <= self.mem.len() - b_end {
                let ghost mid_a = self.a_bytes();
                match Self::extend(&mut self.a, &mut self.mem, es) {
                    Ok(()) => (),
                    Err(_) => unreached(),
                }
                self.cached = Ghost(self.cached@ + new@);
                self.n_a = Ghost(self.cached@.len() as int);
                proof {
                    Self::lemma_bounds_concat_skip(oldc, new@, na);
                    assert(self.a_bytes() =~= mid_a + es@);
                    codec::lemma_stream_concat(origin, oldc.skip(na), new@);
                    assert(self.entries().take(self.split()) =~= self.entries());
                    assert(self.b_bytes() =~= Seq::<u8>::empty());
                    assert(self.entries().skip(self.split()) =~= Seq::<(u64, Seq<u8>)>::empty());
                    assert(forall|j: int|
                        0 <= j <= na ==> !Self::evict_frees(*old(self), es@.len() as int, j));
                }
                Ok(())
            } else {
                self.a = Segment::new(0, 0);
                self.set_logical_start(es, new);
                match Self::extend(&mut self.a, &mut self.mem, es) {
                    Ok(()) => (),
                    Err(_) => unreached(),
                }
                self.cached = Ghost(new@);
                self.n_a = Ghost(new@.len() as int);
                proof {
                    assert(self.a_bytes() =~= es@);
                    assert(self.entries().take(self.split()) =~= new@);
                    assert(self.b_bytes() =~= Seq::<u8>::empty());
                    assert(self.entries().skip(self.split()) =~= Seq::<(u64, Seq<u8>)>::empty());
                    assert(forall|j: int|
                        0 <= j <= na ==> !Self::evict_frees(*old(self), es@.len() as int, j));
                }
                Ok(())
            }
        }
    }

    /// Reseed `logical_start` from the first event of `es`.
    fn set_logical_start(&mut self, es: &[u8], new: Ghost<Seq<(u64, Seq<u8>)>>)
        requires
            es@ == codec::stream(old(self).spec_origin(), new@),
            new@.len() > 0,
            new@[0].0 <= usize::MAX,
            new@[0].1.len() <= usize::MAX,
        ensures
            final(self).logical_start as u64 == new@[0].0,
            final(self).mem == old(self).mem,
            final(self).a == old(self).a,
            final(self).b == old(self).b,
            final(self).origin == old(self).origin,
            final(self).cached == old(self).cached,
            final(self).n_a == old(self).n_a,
    {
        proof {
            codec::lemma_stream_decode(self.spec_origin(), new@, 0, es@);
        }
        match codec::read(es, 0) {
            Some(e) => {
                self.logical_start = e.id.logical_pos;
            },
            None => unreached(),
        }
    }
}

} // verus!
