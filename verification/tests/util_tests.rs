use eventlog::addr::Addr;
use eventlog::circbuf::BipBuf;
use eventlog::circbuf::CircBuf;
use eventlog::codec;
use eventlog::codec::Event;
use eventlog::codec::ID;
use eventlog::fixvec::FixVec;
use eventlog::fixvec::Segmentable;
use eventlog::segment::Segment;

fn collect(cb: &CircBuf<char>) -> String {
    (0..cb.len()).map(|k| *cb.get(k).unwrap()).collect()
}

#[test]
fn circ_buf() {
    let mut cb = CircBuf::new(4);

    // Preconditions
    assert_eq!(collect(&cb), "");
    assert_eq!(cb.write_idx(), 0);
    assert_eq!(cb.len(), 0);

    cb.push('s');
    assert_eq!(collect(&cb), "s");
    assert_eq!(cb.write_idx(), 1);
    assert_eq!(cb.len(), 1);

    cb.push('i');
    assert_eq!(collect(&cb), "si");
    assert_eq!(cb.write_idx(), 2);
    assert_eq!(cb.len(), 2);

    cb.push('l');
    assert_eq!(collect(&cb), "sil");
    assert_eq!(cb.write_idx(), 3);
    assert_eq!(cb.len(), 3);

    cb.push('m');
    assert_eq!(collect(&cb), "silm");
    assert_eq!(cb.write_idx(), 0);
    assert_eq!(cb.len(), 4);

    cb.push('a');
    assert_eq!(collect(&cb), "ilma");
    assert_eq!(cb.write_idx(), 1);
    assert_eq!(cb.len(), 4);

    cb.push('r');
    assert_eq!(collect(&cb), "lmar");
    assert_eq!(cb.write_idx(), 2);
    assert_eq!(cb.len(), 4);
}

#[test]
fn fixvec_push_and_overflow() {
    let mut v: FixVec<u8> = FixVec::new(2);
    assert_eq!(v.capacity(), 2);
    assert_eq!(v.len(), 0);
    assert!(v.push(10).is_ok());
    assert!(v.push(20).is_ok());
    assert!(v.push(30).is_err());
    assert_eq!(v.len(), 2);
    assert_eq!(*v.get(0).unwrap(), 10);
    assert_eq!(*v.get(1).unwrap(), 20);
    assert!(v.get(2).is_none());
    v.clear();
    assert_eq!(v.len(), 0);
    assert_eq!(v.capacity(), 2);
}

#[test]
fn fixvec_resize_and_extend() {
    let mut v: FixVec<u8> = FixVec::new(8);
    assert!(v.extend_from_slice(&[1, 2, 3]).is_ok());
    assert!(v.resize(6, 9).is_ok());
    assert_eq!(v.as_slice(), &[1, 2, 3, 9, 9, 9]);
    assert!(v.resize(2, 0).is_ok());
    assert_eq!(v.as_slice(), &[1, 2]);
    assert!(v.resize(9, 0).is_err());
    assert!(v.extend_from_slice(&[4, 5, 6, 7, 8, 9, 10]).is_err());
    assert_eq!(v.as_slice(), &[1, 2]);
}

#[test]
fn segment_arithmetic() {
    let mut s = Segment::new(4, 6);
    assert_eq!(s.end, 10);
    assert_eq!(s.range(), 4..10);
    s.lengthen(2);
    assert_eq!((s.pos, s.len, s.end), (4, 8, 12));
    s.change_pos(6);
    assert_eq!((s.pos, s.len, s.end), (6, 6, 12));
    let n = s.next(3);
    assert_eq!((n.pos, n.len, n.end), (12, 3, 15));
    assert!(!s.empty());
    assert!(Segment::new(5, 0).empty());
}

#[test]
fn segment_read_and_write() {
    let mut buf = vec![0u8; 10];
    let s = Segment::new(2, 3);
    assert!(s.write(&mut buf, &[7, 8, 9]).is_ok());
    assert_eq!(&buf, &[0, 0, 7, 8, 9, 0, 0, 0, 0, 0]);
    assert_eq!(s.read(&buf).unwrap(), &[7, 8, 9]);
    let oob = Segment::new(8, 5);
    assert!(oob.read(&buf).is_none());
    assert!(oob.write(&mut buf, &[1, 2, 3, 4, 5]).is_err());
    assert_eq!(&buf, &[0, 0, 7, 8, 9, 0, 0, 0, 0, 0]);
}

#[test]
fn circ_buf_extend_always_wraps() {
    let mut cb: CircBuf<u8> = CircBuf::new(4);
    assert!(cb.extend_from_slice(&[]).is_err());
    cb.push(1);
    cb.push(2);
    cb.push(3);
    cb.push(4);
    assert!(cb.extend_from_slice(&[9, 9, 9, 9, 9]).is_err());
    assert_eq!(*cb.get(0).unwrap(), 1);
}

#[test]
fn bip_buf_clear_resets_cursors() {
    let mut bb: BipBuf<u8> = BipBuf::new(16);
    bb.clear();
}

#[test]
fn event_layout_is_stable() {
    let mut buf: FixVec<u8> = FixVec::new(64);
    let e = Event {
        id: ID {
            origin: Addr::new(1, 2),
            logical_pos: 3,
        },
        payload: b"hello",
    };
    codec::append(&mut buf, &e).unwrap();
    assert_eq!(buf.len(), 40);
    let bytes = buf.as_slice();
    assert_eq!(&bytes[0..8], &[1, 0, 0, 0, 0, 0, 0, 0]);
    assert_eq!(&bytes[8..16], &[2, 0, 0, 0, 0, 0, 0, 0]);
    assert_eq!(&bytes[16..24], &[3, 0, 0, 0, 0, 0, 0, 0]);
    assert_eq!(&bytes[24..32], &[5, 0, 0, 0, 0, 0, 0, 0]);
    assert_eq!(&bytes[32..37], b"hello");
    assert_eq!(&bytes[37..40], &[0, 0, 0]);

    let back = codec::read(bytes, 0).unwrap();
    assert_eq!(back.id.origin, Addr::new(1, 2));
    assert_eq!(back.id.logical_pos, 3);
    assert_eq!(back.payload, b"hello");
    assert_eq!(back.on_disk_size(), 40);

    assert!(codec::read(bytes, 8).is_none());
    assert!(codec::read(&bytes[0..20], 0).is_none());
}

#[test]
fn append_overflow_leaves_buffer_unchanged() {
    let mut buf: FixVec<u8> = FixVec::new(48);
    let small = Event {
        id: ID {
            origin: Addr::new(0, 0),
            logical_pos: 0,
        },
        payload: b"ok",
    };
    codec::append(&mut buf, &small).unwrap();
    let snapshot: Vec<u8> = buf.as_slice().to_vec();
    let big = Event {
        id: ID {
            origin: Addr::new(0, 0),
            logical_pos: 1,
        },
        payload: &[7u8; 32],
    };
    assert!(codec::append(&mut buf, &big).is_err());
    assert_eq!(buf.as_slice(), snapshot.as_slice());
}

#[test]
fn fixvec_segments_its_live_elements() {
    let mut v: FixVec<u8> = FixVec::new(8);
    v.extend_from_slice(&[1, 2, 3, 4]).unwrap();
    assert_eq!(v.segment(&Segment::new(1, 2)).unwrap(), &[2, 3]);
    assert!(v.segment(&Segment::new(2, 3)).is_none());
}
