//! The log itself: enqueue events into a transaction write buffer, commit
//! the whole buffer to storage in one append, keep the offset index and the
//! read cache in step, and serve point reads from cache or storage.
use crate::addr::Addr;
use crate::cache::ReadCache;
use crate::codec;
use crate::codec::Event;
use crate::codec::HEADER_SIZE;
use crate::codec::ID;
use crate::fixvec::FixVec;
use crate::fixvec::FixVecOverflow;
use crate::segment::WriteErr;
use crate::storage::AppendErr;
use crate::storage::Storage;
use vstd::pervasive::unreached;
use vstd::prelude::*;

verus! {

/// `enqueue` failed: the write buffer cannot hold another event.
#[derive(Debug)]
pub struct EnqueueErr(pub FixVecOverflow);

/// Why a `commit` failed.
#[derive(Debug)]
pub enum CommitErr {
    Disk(AppendErr),
    ReadCache(WriteErr),
    EmptyTransaction,
    KeyIndex(FixVecOverflow),
}

/// A served event, and whether the cache supplied it.
#[derive(Debug)]
pub struct Read<'a> {
    pub cache_hit: bool,
    pub event: Event<'a>,
}

/// The four buffer capacities, all fixed at construction.
pub struct Config {
    pub read_cache_capacity: usize,
    pub key_index_capacity: usize,
    pub txn_write_buf_capacity: usize,
    pub disk_read_buf_capacity: usize,
}

/// An append-only event log owned by a single producer.
pub struct Log<S: Storage> {
    id: Addr,
    disk: S,
    /// Total bytes persisted; always a multiple of 8.
    byte_len: usize,
    read_cache: ReadCache,
    /// Maps logical positions to disk offsets, one entry per event.
    key_index: FixVec<usize>,
    /// Serialized staged events, flushed to storage in one call.
    txn_write_buf: FixVec<u8>,
    /// Scratch for reads the cache cannot serve.
    disk_read_buf: FixVec<u8>,
    committed: Ghost<Seq<(u64, Seq<u8>)>>,
    staged: Ghost<Seq<(u64, Seq<u8>)>>,
}

impl<S: Storage> Log<S> {
    pub closed spec fn spec_id(&self) -> Addr {
        self.id
    }

    /// The committed events, in order: `(logical position, payload)`. The
    /// recorded position of an event is the log length when its batch began
    /// to be staged.
    pub closed spec fn committed_events(&self) -> Seq<(u64, Seq<u8>)> {
        self.committed@
    }

    /// Events staged in the write buffer, awaiting commit.
    pub closed spec fn staged_events(&self) -> Seq<(u64, Seq<u8>)> {
        self.staged@
    }

    pub closed spec fn spec_byte_len(&self) -> usize {
        self.byte_len
    }

    pub closed spec fn index(&self) -> Seq<usize> {
        self.key_index@
    }

    pub closed spec fn cache(&self) -> ReadCache {
        self.read_cache
    }

    pub closed spec fn disk_contents(&self) -> Seq<u8> {
        self.disk.contents()
    }

    pub closed spec fn txn_buf(&self) -> Seq<u8> {
        self.txn_write_buf@
    }

    pub closed spec fn key_capacity(&self) -> usize {
        self.key_index.spec_capacity()
    }

    pub closed spec fn txn_capacity(&self) -> usize {
        self.txn_write_buf.spec_capacity()
    }

    pub closed spec fn disk_buf_capacity(&self) -> usize {
        self.disk_read_buf.spec_capacity()
    }

    /// The committed payload of event `i`, as contracts speak of it.
    pub open spec fn payload(&self, i: int) -> Seq<u8> {
        self.committed_events()[i].1
    }

    /// The whole in-memory and on-disk state agrees: storage holds exactly
    /// the stream of committed events, `byte_len` is its (8-byte aligned)
    /// length, the index maps each event to its byte offset, the write
    /// buffer holds exactly the staged events (each stamped with the
    /// current log length), and the cache holds a suffix of the committed
    /// events starting at `logical_start`.
    pub open spec fn wf(&self) -> bool {
        let n = self.committed_events().len() as int;
        &&& self.disk_contents() == codec::stream(self.spec_id(), self.committed_events())
        &&& self.spec_byte_len() == self.disk_contents().len()
        &&& self.spec_byte_len() % 8 == 0
        &&& self.index().len() == n
        &&& self.index().len() <= self.key_capacity()
        &&& (forall|i: int|
            0 <= i < n ==> #[trigger] self.index()[i] as int == codec::offset_of(
                self.committed_events(),
                i,
            ))
        &&& self.txn_buf() == codec::stream(self.spec_id(), self.staged_events())
        &&& (forall|j: int|
            0 <= j < self.staged_events().len() ==> (#[trigger] self.staged_events()[j]).0
                == n as u64)
        &&& codec::entries_ok(self.committed_events())
        &&& codec::entries_ok(self.staged_events())
        &&& ReadCache::entry_bounds(self.committed_events())
        &&& ReadCache::entry_bounds(self.staged_events())
        &&& self.cache().wf()
        &&& self.cache().spec_origin() == self.spec_id()
        &&& (self.cache().entries().len() > 0 ==> {
            &&& self.cache().spec_start() + self.cache().entries().len() == n
            &&& self.cache().entries() == self.committed_events().skip(
                self.cache().spec_start() as int,
            )
        })
        &&& self.cache().spec_start() <= n
        &&& (n > 0 ==> (self.cache().spec_start() as int) < n)
    }

    /// A new, empty log over empty storage.
    pub fn new(id: Addr, disk: S, config: Config) -> (r: Log<S>)
        requires
            disk.contents() == Seq::<u8>::empty(),
        ensures
            r.wf(),
            r.spec_id() == id,
            r.committed_events() == Seq::<(u64, Seq<u8>)>::empty(),
            r.staged_events() == Seq::<(u64, Seq<u8>)>::empty(),
            r.spec_byte_len() == 0,
            r.cache().spec_capacity() == config.read_cache_capacity,
            r.key_capacity() == config.key_index_capacity,
            r.txn_capacity() == config.txn_write_buf_capacity,
            r.disk_buf_capacity() == config.disk_read_buf_capacity,
    {
        let r = Log {
            id,
            disk,
            byte_len: 0,
            read_cache: ReadCache::new(config.read_cache_capacity, Ghost(id)),
            key_index: FixVec::new(config.key_index_capacity),
            txn_write_buf: FixVec::new(config.txn_write_buf_capacity),
            disk_read_buf: FixVec::new(config.disk_read_buf_capacity),
            committed: Ghost(Seq::empty()),
            staged: Ghost(Seq::empty()),
        };
        proof {
            assert(codec::stream(id, r.committed_events()) == Seq::<u8>::empty());
            assert(codec::stream(id, r.staged_events()) == Seq::<u8>::empty());
        }
        r
    }

    /// Serialize one event into the write buffer; storage, cache and index
    /// are untouched. The event's logical position is the current committed
    /// length.
    pub fn enqueue(&mut self, payload: &[u8]) -> (r: Result<(), EnqueueErr>)
        requires
            old(self).wf(),
        ensures
            final(self).wf(),
            final(self).spec_id() == old(self).spec_id(),
            final(self).committed_events() == old(self).committed_events(),
            final(self).spec_byte_len() == old(self).spec_byte_len(),
            final(self).index() == old(self).index(),
            final(self).cache() == old(self).cache(),
            final(self).disk_contents() == old(self).disk_contents(),
            final(self).key_capacity() == old(self).key_capacity(),
            final(self).txn_capacity() == old(self).txn_capacity(),
            final(self).disk_buf_capacity() == old(self).disk_buf_capacity(),
            final(self).cache().spec_capacity() == old(self).cache().spec_capacity(),
            match r {
                Ok(()) => {
                    &&& old(self).txn_buf().len() + codec::size_of_event(payload@.len() as int)
                        <= old(self).txn_capacity()
                    &&& final(self).staged_events() == old(self).staged_events().push(
                        (old(self).committed_events().len() as u64, payload@),
                    )
                },
                Err(_) => {
                    &&& old(self).txn_buf().len() + codec::size_of_event(payload@.len() as int)
                        > old(self).txn_capacity()
                    &&& final(self).staged_events() == old(self).staged_events()
                    &&& final(self).txn_buf() == old(self).txn_buf()
                },
            },
    {
        let logical_pos = self.key_index.len();
        let e = Event { id: ID { origin: self.id, logical_pos }, payload };
        match codec::append(&mut self.txn_write_buf, &e) {
            Ok(()) => {
                let ghost entry = (logical_pos as u64, payload@);
                self.staged = Ghost(self.staged@.push(entry));
                proof {
                    codec::lemma_stream_concat(self.id, old(self).staged@, seq![entry]);
                    codec::lemma_stream_single(self.id, entry);
                    assert(self.staged@ =~= old(self).staged@ + seq![entry]);
                    assert(self.txn_buf() == codec::stream(self.spec_id(), self.staged@));
                    assert forall|j: int| 0 <= j < self.staged@.len() implies {
                        &&& (#[trigger] self.staged@[j]).0 == self.committed@.len() as u64
                        &&& codec::size_of_event(self.staged@[j].1.len() as int) <= usize::MAX
                        &&& self.staged@[j].0 <= usize::MAX
                        &&& self.staged@[j].1.len() <= usize::MAX
                    } by {
                        if j < old(self).staged@.len() {
                            assert(self.staged@[j] == old(self).staged@[j]);
                        } else {
                            assert(self.staged@[j] == entry);
                            codec::lemma_size_of_event(payload@.len() as int);
                        }
                    }
                }
                Ok(())
            },
            Err(overflow) => Err(EnqueueErr(overflow)),
        }
    }
    /// Flush every staged event to storage in one append, take the same
    /// bytes into the read cache, record one index entry per event, advance
    /// `byte_len`, and clear the write buffer.
    #[verifier::rlimit(100)]
    #[verifier::spinoff_prover]
    pub fn commit(&mut self) -> (r: Result<(), CommitErr>)
        requires
            old(self).wf(),
        ensures
            final(self).spec_id() == old(self).spec_id(),
            final(self).key_capacity() == old(self).key_capacity(),
            final(self).txn_capacity() == old(self).txn_capacity(),
            final(self).disk_buf_capacity() == old(self).disk_buf_capacity(),
            final(self).cache().spec_capacity() == old(self).cache().spec_capacity(),
            match r {
                Ok(()) => {
                    &&& old(self).staged_events().len() > 0
                    &&& old(self).committed_events().len() + old(self).staged_events().len()
                        <= old(self).key_capacity()
                    &&& final(self).wf()
                    &&& final(self).committed_events() == old(self).committed_events() + old(self).staged_events()
                    &&& final(self).staged_events() == Seq::<(u64, Seq<u8>)>::empty()
                    &&& final(self).spec_byte_len() == old(self).spec_byte_len() + old(self).txn_buf().len()
                    &&& ReadCache::updated(
                        old(self).cache(),
                        final(self).cache(),
                        old(self).staged_events(),
                        old(self).txn_buf().len() as int,
                    )
                },
                Err(CommitErr::EmptyTransaction) => {
                    &&& old(self).staged_events().len() == 0
                    &&& *final(self) == *old(self)
                },
                Err(CommitErr::Disk(_)) => {
                    &&& old(self).staged_events().len() > 0
                    &&& final(self).wf()
                    &&& final(self).committed_events() == old(self).committed_events()
                    &&& final(self).staged_events() == old(self).staged_events()
                    &&& final(self).spec_byte_len() == old(self).spec_byte_len()
                    &&& final(self).disk_contents() == old(self).disk_contents()
                    &&& final(self).index() == old(self).index()
                    &&& final(self).cache() == old(self).cache()
                    &&& final(self).txn_buf() == old(self).txn_buf()
                },
                Err(CommitErr::KeyIndex(_)) => {
                    &&& old(self).committed_events().len() + old(self).staged_events().len()
                        > old(self).key_capacity()
                    &&& final(self).spec_byte_len() == old(self).spec_byte_len()
                    &&& final(self).spec_byte_len() % 8 == 0
                    &&& final(self).committed_events() == old(self).committed_events()
                    &&& final(self).staged_events() == old(self).staged_events()
                    &&& final(self).txn_buf() == old(self).txn_buf()
                    &&& final(self).disk_contents() == codec::stream(
                        old(self).spec_id(),
                        old(self).committed_events() + old(self).staged_events(),
                    )
                    &&& final(self).cache().wf()
                    &&& final(self).cache().spec_origin() == old(self).spec_id()
                    &&& ReadCache::updated(
                        old(self).cache(),
                        final(self).cache(),
                        old(self).staged_events(),
                        old(self).txn_buf().len() as int,
                    )
                    &&& final(self).index().len() == old(self).key_capacity()
                    &&& (forall|i: int|
                        0 <= i < old(self).committed_events().len() ==> #[trigger] final(self).index()[i] == old(self).index()[i])
                    &&& (forall|i: int|
                        old(self).committed_events().len() <= i < final(self).index().len()
                            ==> #[trigger] final(self).index()[i] as int == old(self).spec_byte_len() + codec::offset_of(
                            old(self).staged_events(),
                            i - old(self).committed_events().len(),
                        ))
                },
                Err(CommitErr::ReadCache(_)) => false,
            },
    {
        let ghost comm = self.committed@;
        let ghost st = self.staged@;
        let ghost n = comm.len() as int;
        let ghost s = st.len() as int;
        let staged_bytes_len = self.txn_write_buf.len();
        if staged_bytes_len < HEADER_SIZE {
            proof {
                if st.len() > 0 {
                    codec::lemma_stream_nonempty(self.id, st);
                    assert(false);
                }
            }
            return Err(CommitErr::EmptyTransaction);
        }
        proof {
            if st.len() == 0 {
                assert(self.txn_buf().len() == 0);
                assert(false);
            }
            codec::lemma_stream_len(self.id, comm);
            codec::lemma_offset_mono(comm, 0, n);
            codec::lemma_stream_len(self.id, st);
            codec::lemma_offset_mono(st, 0, s);
        }
        let bytes_flushed = match self.disk.append(self.txn_write_buf.as_slice()) {
            Ok(flushed) => flushed,
            Err(e) => {
                return Err(CommitErr::Disk(e));
            },
        };
        proof {
            assert(old(self).spec_byte_len() + staged_bytes_len <= usize::MAX);
            assert(HEADER_SIZE * n <= old(self).spec_byte_len());
            assert(HEADER_SIZE * s <= staged_bytes_len);
            assert(n + s <= HEADER_SIZE * (n + s));
        }
        match self.read_cache.update(self.txn_write_buf.as_slice(), Ghost(st)) {
            Ok(()) => (),
            Err(e) => {
                return Err(CommitErr::ReadCache(e));
            },
        }
        let ghost cache_snap = self.read_cache;
        let ghost disk_snap = self.disk;
        proof {
            codec::lemma_stream_concat(old(self).spec_id(), comm, st);
        }
        let mut cursor: usize = 0;
        let mut disk_offset: usize = self.byte_len;
        let ghost mut j: int = 0;
        while cursor < staged_bytes_len
            invariant
                0 <= j <= s,
                s == st.len(),
                st == old(self).staged_events(),
                comm == old(self).committed_events(),
                n == old(self).committed_events().len(),
                cursor == codec::offset_of(st, j),
                disk_offset == old(self).spec_byte_len() + cursor,
                staged_bytes_len == old(self).txn_buf().len(),
                bytes_flushed == old(self).txn_buf().len(),
                codec::offset_of(st, s) == staged_bytes_len,
                old(self).spec_byte_len() + staged_bytes_len <= usize::MAX,
                old(self).wf(),
                codec::entries_ok(st),
                ReadCache::entry_bounds(st),
                self.read_cache.spec_capacity() == old(self).cache().spec_capacity(),
                self.id == old(self).spec_id(),
                self.byte_len == old(self).spec_byte_len(),
                self.txn_write_buf == old(self).txn_write_buf,
                self.disk_read_buf == old(self).disk_read_buf,
                self.staged@ == st,
                self.committed@ == comm,
                self.read_cache == cache_snap,
                cache_snap.wf(),
                cache_snap.spec_origin() == old(self).spec_id(),
                ReadCache::updated(old(self).cache(), cache_snap, st, staged_bytes_len as int),
                self.disk == disk_snap,
                self.disk.contents() == codec::stream(old(self).spec_id(), comm + st),
                self.txn_buf() == codec::stream(old(self).spec_id(), st),
                self.key_index.spec_capacity() == old(self).key_capacity(),
                self.key_index@.len() == n + j,
                j > 0 ==> n + j <= self.key_index.spec_capacity(),
                forall|i: int|
                    0 <= i < n ==> #[trigger] self.key_index@[i] == old(self).index()[i],
                forall|jj: int|
                    0 <= jj < j ==> #[trigger] self.key_index@[n + jj] as int == old(self).spec_byte_len() + codec::offset_of(st, jj),
            decreases s - j,
        {
            proof {
                codec::lemma_offset_mono(st, j, s);
                assert(j < s);
                codec::lemma_stream_decode(old(self).spec_id(), st, j, self.txn_buf());
            }
            let e = match codec::read(self.txn_write_buf.as_slice(), cursor) {
                Some(e) => e,
                None => unreached(),
            };
            match self.key_index.push(disk_offset) {
                Ok(()) => (),
                Err(ov) => {
                    proof {
                        assert(self.key_index@.len() == old(self).key_capacity());
                        assert forall|i: int|
                            n <= i < self.key_index@.len() implies #[trigger] self.key_index@[i]
                            as int == old(self).spec_byte_len() + codec::offset_of(
                            st,
                            i - n,
                        ) by {
                            assert(self.key_index@[n + (i - n)] as int == old(
                                self,
                            ).spec_byte_len() + codec::offset_of(st, i - n));
                        }
                    }
                    return Err(CommitErr::KeyIndex(ov));
                },
            }
            proof {
                codec::lemma_offset_mono(st, j + 1, s);
            }
            let size = e.on_disk_size();
            cursor = cursor + size;
            disk_offset = disk_offset + size;
            proof {
                j = j + 1;
            }
        }
        proof {
            codec::lemma_offset_mono(st, j, s);
            assert(j == s);
        }
        self.byte_len = self.byte_len + bytes_flushed;
        self.txn_write_buf.clear();
        self.committed = Ghost(comm + st);
        self.staged = Ghost(Seq::empty());
        proof {
            let id = old(self).spec_id();
            let comm2 = comm + st;
            codec::lemma_stream_concat(id, comm, st);
            codec::lemma_stream_len(id, st);
            codec::lemma_offset_aligned(st, s);
            assert(codec::stream(id, self.staged@) == Seq::<u8>::empty());
            // index entries name the offsets within the grown stream
            assert forall|i: int| 0 <= i < n + s implies #[trigger] self.key_index@[i] as int
                == codec::offset_of(comm2, i) by {
                assert(forall|x: int| 0 <= x < n ==> comm2[x] == comm[x]);
                if i < n {
                    codec::lemma_offset_eq(comm2, comm, i);
                    assert(self.key_index@[i] == old(self).index()[i]);
                    assert(old(self).index()[i] as int == codec::offset_of(comm, i));
                } else {
                    codec::lemma_offset_eq(comm2, comm, n);
                    codec::lemma_offset_skip(comm2, n, i);
                    assert(comm2.skip(n) =~= st);
                    assert(codec::offset_of(comm2.skip(n), i - n) == codec::offset_of(st, i - n));
                    assert(self.key_index@[n + (i - n)] as int == old(self).spec_byte_len()
                        + codec::offset_of(st, i - n));
                }
            }
            ReadCache::lemma_bounds_concat_skip(comm, st, 0);
            assert(comm.skip(0) + st =~= comm2);
            // the cache still holds a suffix of the committed events
            Self::lemma_cache_link(
                old(self).cache(),
                cache_snap,
                comm,
                st,
                staged_bytes_len as int,
            );
        }
        Ok(())
    }

    /// After an update with a freshly committed batch, the cache again
    /// holds exactly a suffix of the grown log.
    proof fn lemma_cache_link(
        oldc: ReadCache,
        newc: ReadCache,
        comm: Seq<(u64, Seq<u8>)>,
        st: Seq<(u64, Seq<u8>)>,
        es_len: int,
    )
        requires
            oldc.wf(),
            ReadCache::updated(oldc, newc, st, es_len),
            st.len() > 0,
            st[0].0 == comm.len() as u64,
            comm.len() <= usize::MAX,
            oldc.entries().len() > 0 ==> oldc.spec_start() + oldc.entries().len() == comm.len()
                && oldc.entries() == comm.skip(oldc.spec_start() as int),
            oldc.spec_start() <= comm.len(),
        ensures
            newc.entries().len() > 0 ==> newc.spec_start() + newc.entries().len() == comm.len()
                + st.len() && newc.entries() == (comm + st).skip(newc.spec_start() as int),
            newc.spec_start() <= comm.len() + st.len(),
            (newc.spec_start() as int) < comm.len() + st.len(),
    {
        let n = comm.len() as int;
        let s = st.len() as int;
        let comm2 = comm + st;
        let ls0 = oldc.spec_start() as int;
        if es_len > oldc.spec_capacity() {
            assert(newc.entries().len() == 0);
            assert(newc.spec_start() == n);
        } else if oldc.entries().len() == 0 {
            assert(newc.spec_start() == n);
            assert(comm2.skip(n) =~= st);
            assert(newc.entries() == comm2.skip(newc.spec_start() as int));
        } else if oldc.seg_b().len == 0 && oldc.seg_a().end + es_len <= oldc.spec_capacity() {
            assert(oldc.entries() == comm.skip(ls0));
            assert(comm.skip(ls0) + st =~= comm2.skip(ls0));
            assert(newc.entries() == comm2.skip(newc.spec_start() as int));
            assert(newc.spec_start() + newc.entries().len() == n + s);
        } else if exists|k: int|
            0 <= k <= oldc.split() && ReadCache::evict_frees(oldc, es_len, k) {
            let k = choose|k: int|
                {
                    &&& 0 <= k <= oldc.split()
                    &&& ReadCache::evict_frees(oldc, es_len, k)
                    &&& forall|j: int| 0 <= j < k ==> !ReadCache::evict_frees(oldc, es_len, j)
                    &&& newc.entries() == oldc.entries().skip(k) + st
                    &&& newc.spec_start() == oldc.spec_start() + k
                };
            assert(oldc.entries() == comm.skip(ls0));
            assert(comm.skip(ls0).skip(k) =~= comm.skip(ls0 + k));
            assert(comm.skip(ls0 + k) + st =~= comm2.skip(ls0 + k));
            assert(newc.entries() == comm2.skip(newc.spec_start() as int));
            assert(newc.spec_start() + newc.entries().len() == n + s);
        } else if oldc.seg_b().end + es_len <= oldc.spec_capacity() {
            let k = oldc.split();
            assert(oldc.entries() == comm.skip(ls0));
            assert(comm.skip(ls0).skip(k) =~= comm.skip(ls0 + k));
            assert(comm.skip(ls0 + k) + st =~= comm2.skip(ls0 + k));
            assert(newc.entries() == comm2.skip(newc.spec_start() as int));
            assert(newc.spec_start() + newc.entries().len() == n + s);
        } else {
            assert(newc.spec_start() == n);
            assert(comm2.skip(n) =~= st);
            assert(newc.entries() == comm2.skip(newc.spec_start() as int));
        }
    }

    /// Whether a read of `logical_pos` is served by the cache: its window
    /// covers exactly the suffix from `logical_start`.
    pub open spec fn in_cache(&self, logical_pos: usize) -> bool {
        self.cache().entries().len() > 0 && self.cache().spec_start() <= logical_pos
    }

    /// Serve event `logical_pos`: from the cache when its window covers the
    /// position, else from storage through the scratch read buffer. `None`
    /// only for a position past the end, or for a cache miss whose event
    /// does not fit the scratch buffer.
    #[verifier::rlimit(100)]
    #[verifier::spinoff_prover]
    pub fn read(&mut self, logical_pos: usize) -> (r: Option<Read<'_>>)
        requires
            old(self).wf(),
        ensures
            final(self).wf(),
            final(self).spec_id() == old(self).spec_id(),
            final(self).committed_events() == old(self).committed_events(),
            final(self).staged_events() == old(self).staged_events(),
            final(self).spec_byte_len() == old(self).spec_byte_len(),
            final(self).index() == old(self).index(),
            final(self).cache() == old(self).cache(),
            final(self).disk_contents() == old(self).disk_contents(),
            final(self).txn_buf() == old(self).txn_buf(),
            final(self).key_capacity() == old(self).key_capacity(),
            final(self).txn_capacity() == old(self).txn_capacity(),
            final(self).disk_buf_capacity() == old(self).disk_buf_capacity(),
            match r {
                Some(rd) => {
                    &&& logical_pos < old(self).committed_events().len()
                    &&& rd.event.payload@ == old(self).payload(logical_pos as int)
                    &&& rd.event.id.origin == old(self).spec_id()
                    &&& rd.event.id.logical_pos as u64 == old(self).committed_events()[
                        logical_pos as int].0
                    &&& rd.cache_hit == old(self).in_cache(logical_pos)
                },
                None => {
                    ||| logical_pos >= old(self).committed_events().len()
                    ||| {
                        &&& logical_pos < old(self).committed_events().len()
                        &&& !old(self).in_cache(logical_pos)
                        &&& codec::size_of_event(old(self).payload(logical_pos as int).len() as int)
                            > old(self).disk_buf_capacity()
                    }
                },
            },
    {
        let ghost comm = self.committed@;
        let ghost n = comm.len() as int;
        let ghost id = self.id;
        let n_exec = self.key_index.len();
        let byte_pos = match self.key_index.get(logical_pos) {
            Some(p) => *p,
            None => {
                return None;
            },
        };
        let ls = self.read_cache.start();
        proof {
            assert(n > 0);
            assert((ls as int) < n);
        }
        let byte_start = match self.key_index.get(ls) {
            Some(p) => *p,
            None => unreached(),
        };
        let ghost ces = self.read_cache.entries();
        if byte_pos >= byte_start {
            proof {
                if logical_pos < ls {
                    codec::lemma_offset_mono(comm, logical_pos as int, ls as int);
                    assert(false);
                }
                if ces.len() > 0 {
                    codec::lemma_offset_skip(comm, ls as int, logical_pos as int);
                    assert(codec::offset_of(ces, logical_pos - ls) == byte_pos - byte_start);
                } else {
                    assert(ces.take(old(self).cache().split())
                        =~= Seq::<(u64, Seq<u8>)>::empty());
                    assert(ces.skip(old(self).cache().split())
                        =~= Seq::<(u64, Seq<u8>)>::empty());
                    assert(old(self).cache().contents().len() == 0);
                }
            }
            let rel = byte_pos - byte_start;
            match self.read_cache.read(rel) {
                Some(event) => {
                    proof {
                        let j1 = choose|j: int|
                            {
                                &&& 0 <= j < ces.len()
                                &&& rel as int == codec::offset_of(ces, j)
                                &&& event.payload@ == (#[trigger] ces[j]).1
                                &&& event.id.origin == old(self).cache().spec_origin()
                                &&& event.id.logical_pos as u64 == ces[j].0
                            };
                        if j1 < logical_pos - ls {
                            codec::lemma_offset_mono(ces, j1, logical_pos - ls);
                            assert(false);
                        }
                        if j1 > logical_pos - ls {
                            codec::lemma_offset_mono(ces, logical_pos - ls, j1);
                            assert(false);
                        }
                        assert(ces[logical_pos - ls] == comm[logical_pos as int]);
                    }
                    return Some(Read { cache_hit: true, event });
                },
                None => {
                    proof {
                        if ces.len() > 0 {
                            assert(rel as int == codec::offset_of(ces, logical_pos - ls));
                            assert(false);
                        }
                        assert(!old(self).in_cache(logical_pos));
                    }
                },
            }
        } else {
            proof {
                if ces.len() > 0 && ls <= logical_pos {
                    codec::lemma_offset_mono(comm, ls as int, logical_pos as int);
                    assert(false);
                }
                assert(!old(self).in_cache(logical_pos));
            }
        }
        let next_byte_pos = if logical_pos + 1 == n_exec {
            proof {
                codec::lemma_stream_len(id, comm);
            }
            self.byte_len
        } else {
            match self.key_index.get(logical_pos + 1) {
                Some(p) => *p,
                None => unreached(),
            }
        };
        proof {
            assert(next_byte_pos as int == codec::offset_of(comm, logical_pos + 1));
            codec::lemma_size_of_event(comm[logical_pos as int].1.len() as int);
        }
        let len = next_byte_pos - byte_pos;
        if len > self.disk_read_buf.capacity() {
            return None;
        }
        match self.disk_read_buf.resize(len, 0u8) {
            Ok(()) => (),
            Err(_) => unreached(),
        }
        proof {
            codec::lemma_stream_event(id, comm, logical_pos as int);
        }
        self.disk.read(&mut self.disk_read_buf, byte_pos);
        proof {
            let p = comm[logical_pos as int];
            assert(self.disk_read_buf@ == codec::encode(id, p.0, p.1));
            codec::lemma_encode_len(id, p.0, p.1);
            assert(self.disk_read_buf@.subrange(
                0,
                codec::size_of_event(p.1.len() as int),
            ) =~= self.disk_read_buf@);
            codec::lemma_parse_encode(id, p.0, p.1, self.disk_read_buf@, 0);
        }
        let event = match codec::read(self.disk_read_buf.as_slice(), 0) {
            Some(e) => e,
            None => unreached(),
        };
        Some(Read { cache_hit: false, event })
    }

    /// The address this log writes as.
    pub fn id(&self) -> (r: Addr)
        ensures
            r == self.spec_id(),
    {
        self.id
    }

    /// Total bytes persisted to storage so far.
    pub fn byte_len(&self) -> (r: usize)
        ensures
            r == self.spec_byte_len(),
    {
        self.byte_len
    }

    /// The logical position of the first event the cache holds.
    pub fn cache_logical_start(&self) -> (r: usize)
        ensures
            r == self.cache().spec_start(),
    {
        self.read_cache.start()
    }

    /// The index is strictly increasing, and consecutive entries differ by
    /// exactly the on-disk size of the event between them.
    pub proof fn lemma_index_monotonic(&self, i: int)
        requires
            self.wf(),
            0 <= i,
            i + 1 < self.committed_events().len(),
        ensures
            self.index()[i] < self.index()[i + 1],
            self.index()[i + 1] - self.index()[i] == codec::size_of_event(
                self.payload(i).len() as int,
            ),
    {
        codec::lemma_size_of_event(self.payload(i).len() as int);
    }

    /// Cache geometry after every mutation: `B` starts at byte 0 and never
    /// overlaps `A`, and each segment begins and ends on an event boundary —
    /// `A` is the stream of the first `split` cached events, `B` of the rest.
    pub proof fn lemma_cache_invariants(&self)
        requires
            self.wf(),
        ensures
            self.cache().seg_b().pos == 0,
            self.cache().seg_b().end <= self.cache().seg_a().pos,
            self.cache().a_bytes() == codec::stream(
                self.spec_id(),
                self.cache().entries().take(self.cache().split()),
            ),
            self.cache().b_bytes() == codec::stream(
                self.spec_id(),
                self.cache().entries().skip(self.cache().split()),
            ),
    {
    }

    /// Cache coverage is a single integer range: whenever anything is
    /// cached, the cached events are exactly the committed events from
    /// `logical_start` up to the end of the log.
    pub proof fn lemma_cache_coverage(&self)
        requires
            self.wf(),
            self.cache().entries().len() > 0,
        ensures
            self.cache().spec_start() + self.cache().entries().len()
                == self.committed_events().len(),
            forall|i: int|
                self.cache().spec_start() <= i < self.committed_events().len()
                    ==> #[trigger] self.cache().entries()[i - self.cache().spec_start()]
                    == self.committed_events()[i],
    {
        let ls = self.cache().spec_start() as int;
        assert forall|i: int|
            ls <= i < self.committed_events().len() implies #[trigger] self.cache().entries()[i
            - ls] == self.committed_events()[i] by {
            assert(self.cache().entries()[i - ls] == self.committed_events().skip(ls)[i - ls]);
        }
    }

    /// The persisted byte length is 8-byte aligned at every observable
    /// point.
    pub proof fn lemma_byte_len_aligned(&self)
        requires
            self.wf(),
        ensures
            self.spec_byte_len() % 8 == 0,
    {
    }

    /// A read served from storage is right: decoding the stored bytes at
    /// `key_index[i]` yields exactly committed event `i`, so a cache miss
    /// returns the same payload a direct storage reader would.
    pub proof fn lemma_disk_oracle(&self, i: int)
        requires
            self.wf(),
            0 <= i < self.committed_events().len(),
        ensures
            codec::parse_ok(self.disk_contents(), self.index()[i] as int),
            codec::decoded_payload(self.disk_contents(), self.index()[i] as int) == self.payload(
                i,
            ),
            codec::decoded_pos(self.disk_contents(), self.index()[i] as int)
                == self.committed_events()[i].0,
            codec::decoded_w0(self.disk_contents(), self.index()[i] as int) == self.spec_id().w0,
            codec::decoded_w1(self.disk_contents(), self.index()[i] as int) == self.spec_id().w1,
    {
        codec::lemma_stream_decode(
            self.spec_id(),
            self.committed_events(),
            i,
            self.disk_contents(),
        );
    }
}

} // verus!
