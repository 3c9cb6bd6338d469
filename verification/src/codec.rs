//! On-disk event layout: a 32-byte little-endian header (origin address,
//! logical position, payload length), the payload, and zero padding so each
//! event's on-disk size is a multiple of 8. This module holds the byte-level
//! model of that layout, the encoder into a fixed-capacity buffer, and the
//! decoder over a byte slice.
use crate::addr::Addr;
use crate::fixvec::FixVec;
use crate::fixvec::FixVecOverflow;
use vstd::bytes::lemma_auto_spec_u64_to_from_le_bytes;
use vstd::bytes::spec_u64_from_le_bytes;
use vstd::bytes::spec_u64_to_le_bytes;
use vstd::bytes::u64_from_le_bytes;
use vstd::bytes::u64_to_le_bytes;
use vstd::pervasive::unreached;
use vstd::prelude::*;
use vstd::slice::slice_subrange;

verus! {

/// Bytes of the fixed event header: origin (16), logical position (8),
/// payload length (8).
pub const HEADER_SIZE: usize = 32;

/// Zero padding that brings `l` payload bytes up to a multiple of 8.
pub open spec fn pad_of(l: int) -> int {
    (8 - l % 8) % 8
}

/// On-disk size of an event with an `l`-byte payload.
pub open spec fn size_of_event(l: int) -> int {
    HEADER_SIZE + l + pad_of(l)
}

pub open spec fn zeros(n: int) -> Seq<u8> {
    Seq::new(n as nat, |i: int| 0u8)
}

/// The full on-disk bytes of one event.
pub open spec fn encode(origin: Addr, pos: u64, p: Seq<u8>) -> Seq<u8> {
    spec_u64_to_le_bytes(origin.w0) + spec_u64_to_le_bytes(origin.w1) + spec_u64_to_le_bytes(pos)
        + spec_u64_to_le_bytes(p.len() as u64) + p + zeros(pad_of(p.len() as int))
}

/// The byte stream of a sequence of events, each given as
/// `(logical position, payload)`.
pub open spec fn stream(origin: Addr, es: Seq<(u64, Seq<u8>)>) -> Seq<u8>
    decreases es.len(),
{
    if es.len() == 0 {
        Seq::empty()
    } else {
        encode(origin, es[0].0, es[0].1) + stream(origin, es.skip(1))
    }
}

/// Byte offset of event `i` within the stream of `es`: the sum of the
/// on-disk sizes of the events before it.
pub open spec fn offset_of(es: Seq<(u64, Seq<u8>)>, i: int) -> int
    decreases i,
{
    if i <= 0 {
        0
    } else {
        offset_of(es, i - 1) + size_of_event(es[i - 1].1.len() as int)
    }
}

/// Every event's on-disk size fits in a `usize`.
pub open spec fn entries_ok(es: Seq<(u64, Seq<u8>)>) -> bool {
    forall|j: int|
        0 <= j < es.len() ==> size_of_event((#[trigger] es[j]).1.len() as int) <= usize::MAX
}

pub proof fn lemma_size_of_event(l: int)
    requires
        l >= 0,
    ensures
        0 <= pad_of(l) < 8,
        size_of_event(l) % 8 == 0,
        HEADER_SIZE <= size_of_event(l) <= l + HEADER_SIZE + 7,
{
    assert(0 <= l % 8 < 8);
    assert((32 + l + (8 - l % 8) % 8) % 8 == 0) by (nonlinear_arith)
        requires
            l >= 0,
    ;
}

pub proof fn lemma_encode_len(origin: Addr, pos: u64, p: Seq<u8>)
    ensures
        encode(origin, pos, p).len() == size_of_event(p.len() as int),
{
    lemma_auto_spec_u64_to_from_le_bytes();
    lemma_size_of_event(p.len() as int);
}

pub proof fn lemma_stream_concat(origin: Addr, a: Seq<(u64, Seq<u8>)>, b: Seq<(u64, Seq<u8>)>)
    ensures
        stream(origin, a + b) == stream(origin, a) + stream(origin, b),
    decreases a.len(),
{
    if a.len() == 0 {
        assert(a + b =~= b);
        assert(stream(origin, a) + stream(origin, b) =~= stream(origin, b));
    } else {
        assert((a + b).skip(1) =~= a.skip(1) + b);
        lemma_stream_concat(origin, a.skip(1), b);
        assert(stream(origin, a + b) =~= stream(origin, a) + stream(origin, b));
    }
}

/// The offset of event `i` is the length of the stream of the first `i`
/// events.
pub proof fn lemma_offset_stream(origin: Addr, es: Seq<(u64, Seq<u8>)>, i: int)
    requires
        0 <= i <= es.len(),
    ensures
        stream(origin, es.take(i)).len() == offset_of(es, i),
    decreases i,
{
    if i > 0 {
        lemma_offset_stream(origin, es, i - 1);
        let single = seq![es[i - 1]];
        assert(es.take(i) =~= es.take(i - 1) + single);
        lemma_stream_concat(origin, es.take(i - 1), single);
        assert(single.skip(1) =~= Seq::<(u64, Seq<u8>)>::empty());
        lemma_encode_len(origin, es[i - 1].0, es[i - 1].1);
        assert(single[0] == es[i - 1]);
        assert(stream(origin, single) == encode(origin, es[i - 1].0, es[i - 1].1) + stream(
            origin,
            single.skip(1),
        ));
        assert(stream(origin, single.skip(1)) == Seq::<u8>::empty());
        assert(encode(origin, es[i - 1].0, es[i - 1].1) + Seq::<u8>::empty() =~= encode(
            origin,
            es[i - 1].0,
            es[i - 1].1,
        ));
    }
}

pub proof fn lemma_stream_len(origin: Addr, es: Seq<(u64, Seq<u8>)>)
    ensures
        stream(origin, es).len() == offset_of(es, es.len() as int),
{
    assert(es.take(es.len() as int) =~= es);
    lemma_offset_stream(origin, es, es.len() as int);
}

/// Offsets grow by at least `HEADER_SIZE` per event.
pub proof fn lemma_offset_mono(es: Seq<(u64, Seq<u8>)>, i: int, j: int)
    requires
        0 <= i <= j,
    ensures
        offset_of(es, i) + (j - i) * (HEADER_SIZE as int) <= offset_of(es, j),
    decreases j - i,
{
    if i < j {
        lemma_offset_mono(es, i, j - 1);
        lemma_size_of_event(es[j - 1].1.len() as int);
    }
}

/// Splitting a stream at an event boundary.
pub proof fn lemma_stream_skip(origin: Addr, es: Seq<(u64, Seq<u8>)>, k: int)
    requires
        0 <= k <= es.len(),
    ensures
        stream(origin, es).subrange(0, offset_of(es, k)) == stream(origin, es.take(k)),
        stream(origin, es).skip(offset_of(es, k)) == stream(origin, es.skip(k)),
        0 <= offset_of(es, k) <= stream(origin, es).len(),
    decreases k,
{
    assert(es =~= es.take(k) + es.skip(k));
    lemma_stream_concat(origin, es.take(k), es.skip(k));
    lemma_offset_stream(origin, es, k);
    lemma_stream_len(origin, es);
    lemma_offset_mono(es, k, es.len() as int);
    assert(stream(origin, es).subrange(0, offset_of(es, k)) =~= stream(origin, es.take(k)));
    assert(stream(origin, es).skip(offset_of(es, k)) =~= stream(origin, es.skip(k)));
}

/// The bytes of event `i` sit at its offset within the stream.
pub proof fn lemma_stream_event(origin: Addr, es: Seq<(u64, Seq<u8>)>, i: int)
    requires
        0 <= i < es.len(),
    ensures
        0 <= offset_of(es, i),
        offset_of(es, i) + size_of_event(es[i].1.len() as int) <= stream(origin, es).len(),
        stream(origin, es).subrange(
            offset_of(es, i),
            offset_of(es, i) + size_of_event(es[i].1.len() as int),
        ) == encode(origin, es[i].0, es[i].1),
{
    lemma_stream_skip(origin, es, i);
    lemma_stream_skip(origin, es, i + 1);
    let tail = es.skip(i);
    assert(tail[0] == es[i]);
    lemma_encode_len(origin, es[i].0, es[i].1);
    lemma_offset_stream(origin, es, i);
    lemma_offset_stream(origin, es, i + 1);
    let off = offset_of(es, i);
    let size = size_of_event(es[i].1.len() as int);
    assert(offset_of(es, i + 1) == off + size);
    lemma_offset_mono(es, i + 1, es.len() as int);
    lemma_stream_len(origin, es);
    let s = stream(origin, es);
    assert(s.skip(off) == stream(origin, tail));
    assert(stream(origin, tail) == encode(origin, es[i].0, es[i].1) + stream(
        origin,
        tail.skip(1),
    ));
    assert forall|x: int| 0 <= x < size implies s.subrange(off, off + size)[x] == encode(
        origin,
        es[i].0,
        es[i].1,
    )[x] by {
        assert(s.subrange(off, off + size)[x] == s[off + x]);
        assert(s.skip(off)[x] == s[off + x]);
    }
    assert(s.subrange(off, off + size) =~= encode(origin, es[i].0, es[i].1));
}

/// Offsets depend only on the events before them.
pub proof fn lemma_offset_prefix(es: Seq<(u64, Seq<u8>)>, n: int, k: int)
    requires
        0 <= k <= n <= es.len(),
    ensures
        offset_of(es.take(n), k) == offset_of(es, k),
    decreases k,
{
    if k > 0 {
        lemma_offset_prefix(es, n, k - 1);
        assert(es.take(n)[k - 1] == es[k - 1]);
    }
}

/// Offsets within a suffix are the full offsets shifted by the cut point.
pub proof fn lemma_offset_skip(es: Seq<(u64, Seq<u8>)>, k: int, j: int)
    requires
        0 <= k <= j <= es.len(),
    ensures
        offset_of(es.skip(k), j - k) == offset_of(es, j) - offset_of(es, k),
    decreases j - k,
{
    if j > k {
        lemma_offset_skip(es, k, j - 1);
        assert(es.skip(k)[j - 1 - k] == es[j - 1]);
    }
}

pub open spec fn decoded_w0(b: Seq<u8>, off: int) -> u64 {
    spec_u64_from_le_bytes(b.subrange(off, off + 8))
}

pub open spec fn decoded_w1(b: Seq<u8>, off: int) -> u64 {
    spec_u64_from_le_bytes(b.subrange(off + 8, off + 16))
}

pub open spec fn decoded_pos(b: Seq<u8>, off: int) -> u64 {
    spec_u64_from_le_bytes(b.subrange(off + 16, off + 24))
}

pub open spec fn decoded_len(b: Seq<u8>, off: int) -> u64 {
    spec_u64_from_le_bytes(b.subrange(off + 24, off + 32))
}

/// A whole event can be decoded at `off`: the header is in bounds, the
/// declared payload fits in the buffer, and position and length fit `usize`.
pub open spec fn parse_ok(b: Seq<u8>, off: int) -> bool {
    &&& 0 <= off
    &&& off + HEADER_SIZE <= b.len()
    &&& decoded_pos(b, off) <= usize::MAX
    &&& decoded_len(b, off) <= usize::MAX
    &&& off + HEADER_SIZE + decoded_len(b, off) <= b.len()
}

pub open spec fn decoded_payload(b: Seq<u8>, off: int) -> Seq<u8> {
    b.subrange(off + HEADER_SIZE, off + HEADER_SIZE + decoded_len(b, off))
}

/// A window of `b` equal to `e` has the matching sub-windows of `e`.
proof fn lemma_subrange_shift(b: Seq<u8>, e: Seq<u8>, off: int, lo: int, hi: int)
    requires
        0 <= off,
        0 <= lo <= hi <= e.len(),
        off + e.len() <= b.len(),
        b.subrange(off, off + e.len()) == e,
    ensures
        b.subrange(off + lo, off + hi) == e.subrange(lo, hi),
{
    assert forall|x: int| 0 <= x < hi - lo implies b.subrange(off + lo, off + hi)[x] == e.subrange(
        lo,
        hi,
    )[x] by {
        assert(b.subrange(off, off + e.len())[lo + x] == e[lo + x]);
        assert(b.subrange(off, off + e.len())[lo + x] == b[off + lo + x]);
        assert(b.subrange(off + lo, off + hi)[x] == b[off + lo + x]);
        assert(e.subrange(lo, hi)[x] == e[lo + x]);
    }
    assert(b.subrange(off + lo, off + hi) =~= e.subrange(lo, hi));
}

/// The header fields and the payload sit at their fixed places inside an
/// encoded event.
pub proof fn lemma_encode_fields(origin: Addr, pos: u64, p: Seq<u8>)
    ensures
        encode(origin, pos, p).len() == size_of_event(p.len() as int),
        encode(origin, pos, p).subrange(0, 8) == spec_u64_to_le_bytes(origin.w0),
        encode(origin, pos, p).subrange(8, 16) == spec_u64_to_le_bytes(origin.w1),
        encode(origin, pos, p).subrange(16, 24) == spec_u64_to_le_bytes(pos),
        encode(origin, pos, p).subrange(24, 32) == spec_u64_to_le_bytes(p.len() as u64),
        encode(origin, pos, p).subrange(32, 32 + p.len() as int) == p,
{
    lemma_auto_spec_u64_to_from_le_bytes();
    lemma_size_of_event(p.len() as int);
    lemma_encode_len(origin, pos, p);
    let a0 = spec_u64_to_le_bytes(origin.w0);
    let a1 = spec_u64_to_le_bytes(origin.w1);
    let a2 = spec_u64_to_le_bytes(pos);
    let a3 = spec_u64_to_le_bytes(p.len() as u64);
    let zz = zeros(pad_of(p.len() as int));
    let e = encode(origin, pos, p);
    assert(e == a0 + a1 + a2 + a3 + p + zz);
    assert forall|x: int| 0 <= x < 8 implies e[x] == a0[x] by {
        assert(e[x] == (a0 + a1)[x]);
    }
    assert forall|x: int| 0 <= x < 8 implies e[8 + x] == a1[x] by {
        assert(e[8 + x] == (a0 + a1)[8 + x]);
    }
    assert forall|x: int| 0 <= x < 8 implies e[16 + x] == a2[x] by {
        assert(e[16 + x] == (a0 + a1 + a2)[16 + x]);
        assert((a0 + a1 + a2)[16 + x] == a2[16 + x - (a0 + a1).len()]);
    }
    assert forall|x: int| 0 <= x < 8 implies e[24 + x] == a3[x] by {
        assert(e[24 + x] == (a0 + a1 + a2 + a3)[24 + x]);
        assert((a0 + a1 + a2 + a3)[24 + x] == a3[24 + x - (a0 + a1 + a2).len()]);
    }
    assert forall|x: int| 0 <= x < p.len() implies e[32 + x] == p[x] by {
        assert(e[32 + x] == (a0 + a1 + a2 + a3 + p)[32 + x]);
        assert((a0 + a1 + a2 + a3 + p)[32 + x] == p[32 + x - (a0 + a1 + a2 + a3).len()]);
    }
    assert(e.subrange(0, 8) =~= a0);
    assert(e.subrange(8, 16) =~= a1);
    assert(e.subrange(16, 24) =~= a2);
    assert(e.subrange(24, 32) =~= a3);
    assert(e.subrange(32, 32 + p.len() as int) =~= p);
}

/// Where the bytes at `off` are the encoding of an event, decoding yields
/// exactly that event back.
pub proof fn lemma_parse_encode(origin: Addr, pos: u64, p: Seq<u8>, b: Seq<u8>, off: int)
    requires
        0 <= off,
        off + size_of_event(p.len() as int) <= b.len(),
        b.subrange(off, off + size_of_event(p.len() as int)) == encode(origin, pos, p),
        p.len() <= usize::MAX,
        pos <= usize::MAX,
    ensures
        parse_ok(b, off),
        decoded_w0(b, off) == origin.w0,
        decoded_w1(b, off) == origin.w1,
        decoded_pos(b, off) == pos,
        decoded_len(b, off) == p.len(),
        decoded_payload(b, off) == p,
{
    lemma_auto_spec_u64_to_from_le_bytes();
    lemma_size_of_event(p.len() as int);
    let size = size_of_event(p.len() as int);
    let e = encode(origin, pos, p);
    lemma_encode_fields(origin, pos, p);
    lemma_subrange_shift(b, e, off, 0, 8);
    lemma_subrange_shift(b, e, off, 8, 16);
    lemma_subrange_shift(b, e, off, 16, 24);
    lemma_subrange_shift(b, e, off, 24, 32);
    lemma_subrange_shift(b, e, off, 32, 32 + p.len() as int);
    assert(b.subrange(off + 0, off + 8) == b.subrange(off, off + 8));
    assert(decoded_w0(b, off) == origin.w0);
    assert(decoded_w1(b, off) == origin.w1);
    assert(decoded_pos(b, off) == pos);
    assert(decoded_len(b, off) == p.len());
    assert(decoded_payload(b, off) == p);
}


/// A one-event stream is just that event's encoding.
pub proof fn lemma_stream_single(origin: Addr, e: (u64, Seq<u8>))
    ensures
        stream(origin, seq![e]) == encode(origin, e.0, e.1),
{
    let single = seq![e];
    assert(single.skip(1) =~= Seq::<(u64, Seq<u8>)>::empty());
    assert(stream(origin, single.skip(1)) == Seq::<u8>::empty());
    assert(encode(origin, e.0, e.1) + Seq::<u8>::empty() =~= encode(origin, e.0, e.1));
}

/// Every event boundary is 8-byte aligned.
pub proof fn lemma_offset_aligned(es: Seq<(u64, Seq<u8>)>, i: int)
    requires
        0 <= i,
    ensures
        offset_of(es, i) % 8 == 0,
    decreases i,
{
    if i > 0 {
        lemma_offset_aligned(es, i - 1);
        lemma_size_of_event(es[i - 1].1.len() as int);
    }
}

/// Offsets depend only on the events before them, whatever sequence holds
/// those events.
pub proof fn lemma_offset_eq(es1: Seq<(u64, Seq<u8>)>, es2: Seq<(u64, Seq<u8>)>, i: int)
    requires
        0 <= i,
        forall|j: int| 0 <= j < i ==> #[trigger] es1[j] == es2[j],
    ensures
        offset_of(es1, i) == offset_of(es2, i),
    decreases i,
{
    if i > 0 {
        lemma_offset_eq(es1, es2, i - 1);
    }
}

/// A nonempty batch encodes to at least one header's worth of bytes.
pub proof fn lemma_stream_nonempty(origin: Addr, es: Seq<(u64, Seq<u8>)>)
    requires
        es.len() > 0,
    ensures
        stream(origin, es).len() >= HEADER_SIZE,
{
    lemma_stream_len(origin, es);
    lemma_offset_mono(es, 0, es.len() as int);
}

/// Decoding a stream at the offset of event `i` yields exactly that event.
pub proof fn lemma_stream_decode(origin: Addr, es: Seq<(u64, Seq<u8>)>, i: int, b: Seq<u8>)
    requires
        b == stream(origin, es),
        0 <= i < es.len(),
        es[i].0 <= usize::MAX,
        es[i].1.len() <= usize::MAX,
    ensures
        parse_ok(b, offset_of(es, i)),
        decoded_w0(b, offset_of(es, i)) == origin.w0,
        decoded_w1(b, offset_of(es, i)) == origin.w1,
        decoded_pos(b, offset_of(es, i)) == es[i].0,
        decoded_len(b, offset_of(es, i)) == es[i].1.len(),
        decoded_payload(b, offset_of(es, i)) == es[i].1,
{
    lemma_stream_event(origin, es, i);
    lemma_parse_encode(origin, es[i].0, es[i].1, b, offset_of(es, i));
}

/// An event: its identity (origin log and logical position) and a payload
/// borrowed from the buffer it was decoded from or staged in.
#[derive(Clone, Copy, Debug)]
pub struct ID {
    pub origin: Addr,
    pub logical_pos: usize,
}

#[derive(Clone, Copy, Debug)]
pub struct Event<'a> {
    pub id: ID,
    pub payload: &'a [u8],
}

impl<'a> Event<'a> {
    /// Header plus payload, rounded up to the next multiple of 8.
    pub fn on_disk_size(&self) -> (r: usize)
        requires
            size_of_event(self.payload@.len() as int) <= usize::MAX,
        ensures
            r == size_of_event(self.payload@.len() as int),
    {
        let l = self.payload.len();
        let pad = (8 - l % 8) % 8;
        HEADER_SIZE + l + pad
    }
}

/// Decode the event whose header begins at `offset`, or `None` if the
/// header or the declared payload would overrun `bytes`.
pub fn read<'a>(bytes: &'a [u8], offset: usize) -> (r: Option<Event<'a>>)
    ensures
        match r {
            Some(e) => {
                &&& parse_ok(bytes@, offset as int)
                &&& e.id.origin.w0 == decoded_w0(bytes@, offset as int)
                &&& e.id.origin.w1 == decoded_w1(bytes@, offset as int)
                &&& e.id.logical_pos as u64 == decoded_pos(bytes@, offset as int)
                &&& e.payload@ == decoded_payload(bytes@, offset as int)
            },
            None => !parse_ok(bytes@, offset as int),
        },
{
    let n = bytes.len();
    if n < HEADER_SIZE || offset > n - HEADER_SIZE {
        return None;
    }
    let w0 = u64_from_le_bytes(slice_subrange(bytes, offset, offset + 8));
    let w1 = u64_from_le_bytes(slice_subrange(bytes, offset + 8, offset + 16));
    let pos64 = u64_from_le_bytes(slice_subrange(bytes, offset + 16, offset + 24));
    let len64 = u64_from_le_bytes(slice_subrange(bytes, offset + 24, offset + 32));
    if pos64 > usize::MAX as u64 || len64 > usize::MAX as u64 {
        return None;
    }
    let l = len64 as usize;
    if l > n - HEADER_SIZE - offset {
        return None;
    }
    let payload = slice_subrange(bytes, offset + HEADER_SIZE, offset + HEADER_SIZE + l);
    Some(Event { id: ID { origin: Addr { w0, w1 }, logical_pos: pos64 as usize }, payload })
}

/// Serialize header, payload and padding into `buf`; on overflow the buffer
/// is left unchanged so the caller can commit and retry.
pub fn append(buf: &mut FixVec<u8>, e: &Event<'_>) -> (r: Result<(), FixVecOverflow>)
    ensures
        final(buf).spec_capacity() == old(buf).spec_capacity(),
        match r {
            Ok(()) => {
                &&& old(buf)@.len() + size_of_event(e.payload@.len() as int) <= old(
                    buf,
                ).spec_capacity()
                &&& final(buf)@ == old(buf)@ + encode(
                    e.id.origin,
                    e.id.logical_pos as u64,
                    e.payload@,
                )
            },
            Err(_) => {
                &&& old(buf)@.len() + size_of_event(e.payload@.len() as int) > old(
                    buf,
                ).spec_capacity()
                &&& final(buf)@ == old(buf)@
            },
        },
{
    proof {
        lemma_size_of_event(e.payload@.len() as int);
        lemma_auto_spec_u64_to_from_le_bytes();
    }
    let cap = buf.capacity();
    let len = buf.len();
    if cap < HEADER_SIZE || cap - HEADER_SIZE < len {
        return Err(FixVecOverflow);
    }
    let rem = cap - len - HEADER_SIZE;
    let l = e.payload.len();
    if l > rem {
        return Err(FixVecOverflow);
    }
    let pad = (8 - l % 8) % 8;
    if rem - l < pad {
        return Err(FixVecOverflow);
    }
    let w0 = u64_to_le_bytes(e.id.origin.w0);
    match buf.extend_from_slice(w0.as_slice()) {
        Ok(()) => (),
        Err(_) => unreached(),
    }
    let w1 = u64_to_le_bytes(e.id.origin.w1);
    match buf.extend_from_slice(w1.as_slice()) {
        Ok(()) => (),
        Err(_) => unreached(),
    }
    let pos = u64_to_le_bytes(e.id.logical_pos as u64);
    match buf.extend_from_slice(pos.as_slice()) {
        Ok(()) => (),
        Err(_) => unreached(),
    }
    let plen = u64_to_le_bytes(l as u64);
    match buf.extend_from_slice(plen.as_slice()) {
        Ok(()) => (),
        Err(_) => unreached(),
    }
    match buf.extend_from_slice(e.payload) {
        Ok(()) => (),
        Err(_) => unreached(),
    }
    let mut k: usize = 0;
    while k < pad
        invariant
            0 <= k <= pad,
            pad == pad_of(e.payload@.len() as int),
            buf.spec_capacity() == old(buf).spec_capacity(),
            old(buf)@.len() + size_of_event(e.payload@.len() as int) <= old(buf).spec_capacity(),
            buf@ == old(buf)@ + spec_u64_to_le_bytes(e.id.origin.w0) + spec_u64_to_le_bytes(
                e.id.origin.w1,
            ) + spec_u64_to_le_bytes(e.id.logical_pos as u64) + spec_u64_to_le_bytes(
                e.payload@.len() as u64,
            ) + e.payload@ + zeros(k as int),
        decreases pad - k,
    {
        proof {
            lemma_auto_spec_u64_to_from_le_bytes();
            lemma_size_of_event(e.payload@.len() as int);
        }
        match buf.push(0u8) {
            Ok(()) => (),
            Err(_) => unreached(),
        }
        proof {
            assert(buf@ =~= old(buf)@ + spec_u64_to_le_bytes(e.id.origin.w0)
                + spec_u64_to_le_bytes(e.id.origin.w1) + spec_u64_to_le_bytes(
                e.id.logical_pos as u64,
            ) + spec_u64_to_le_bytes(e.payload@.len() as u64) + e.payload@ + zeros(k + 1));
        }
        k = k + 1;
    }
    proof {
        assert(buf@ =~= old(buf)@ + encode(e.id.origin, e.id.logical_pos as u64, e.payload@));
    }
    Ok(())
}

} // verus!
