//! File-backed storage through rustix: a durable append-only sink. Its
//! contract is the storage-boundary assumption — bytes appended to the
//! exclusively owned file read back unchanged, and their count fits a
//! `usize` like the log's own byte length — stated on two trusted helpers
//! here, as no program can verify a filesystem.
use crate::fixvec::FixVec;
use crate::storage::AppendErr;
use crate::storage::Storage;
use vstd::prelude::*;

verus! {

#[verifier::external_type_specification]
#[verifier::external_body]
pub struct ExOwnedFd(rustix::fd::OwnedFd);

/// An append-only file, modelled by the bytes written to it so far.
pub struct FileLog {
    fd: rustix::fd::OwnedFd,
    written: Ghost<Seq<u8>>,
}

impl FileLog {
    /// Relies on rustix::fs::open with CREATE | RDWR | TRUNC: on success
    /// the named file exists, is empty, and its offset is at its start.
    #[verifier::external_body]
    fn open_empty(path: &str) -> (r: Result<rustix::fd::OwnedFd, AppendErr>) {
        let flags = rustix::fs::OFlags::CREATE | rustix::fs::OFlags::RDWR
            | rustix::fs::OFlags::TRUNC;
        match rustix::fs::open(path, flags, rustix::fs::Mode::from_raw_mode(0o644)) {
            Ok(fd) => Ok(fd),
            Err(_) => Err(AppendErr),
        }
    }

    /// Create or truncate the file at `path` and model it as empty.
    pub fn create(path: &str) -> (r: Result<FileLog, AppendErr>)
        ensures
            match r {
                Ok(f) => f.contents() == Seq::<u8>::empty(),
                Err(AppendErr) => true,
            },
    {
        match Self::open_empty(path) {
            Ok(fd) => Ok(FileLog { fd, written: Ghost(Seq::empty()) }),
            Err(e) => Err(e),
        }
    }

    /// Relies on rustix::io::write on a descriptor nothing else moves: a
    /// full write puts exactly `data` after the bytes already written. A
    /// short write is rewound and reported as an error, so the file offset
    /// always names the modelled length.
    #[verifier::external_body]
    fn write_all(&mut self, data: &[u8]) -> (r: Result<usize, AppendErr>)
        ensures
            match r {
                Ok(n) => {
                    &&& n == data@.len()
                    &&& final(self).written@ == old(self).written@ + data@
                    &&& old(self).written@.len() + data@.len() <= usize::MAX
                },
                Err(AppendErr) => final(self).written@ == old(self).written@,
            },
    {
        match rustix::io::write(&self.fd, data) {
            Ok(n) if n == data.len() => Ok(n),
            Ok(n) => {
                let _ = rustix::fs::seek(&self.fd, rustix::fs::SeekFrom::Current(-(n as i64)));
                Err(AppendErr)
            },
            Err(_) => Err(AppendErr),
        }
    }

    /// Relies on rustix::io::pread on a regular file: the bytes at
    /// `offset`, which the caller proves were appended before, come back
    /// exactly as they were written.
    #[verifier::external_body]
    fn read_at(&self, buf: &mut FixVec<u8>, offset: usize)
        requires
            offset + old(buf)@.len() <= self.written@.len(),
            old(buf)@.len() <= old(buf).spec_capacity(),
        ensures
            final(buf)@ == self.written@.subrange(offset as int, offset + old(buf)@.len()),
            final(buf).spec_capacity() == old(buf).spec_capacity(),
    {
        let mut tmp = vec![0u8; buf.len()];
        let mut got: usize = 0;
        while got < tmp.len() {
            match rustix::io::pread(&self.fd, &mut tmp[got..], (offset + got) as u64) {
                Ok(k) if k > 0 => got += k,
                _ => break,
            }
        }
        buf.clear();
        for b in &tmp {
            let _ = buf.push(*b);
        }
    }
}

impl Storage for FileLog {
    closed spec fn contents(&self) -> Seq<u8> {
        self.written@
    }

    fn append(&mut self, data: &[u8]) -> (r: Result<usize, AppendErr>) {
        self.write_all(data)
    }

    fn read(&self, buf: &mut FixVec<u8>, offset: usize) {
        self.read_at(buf, offset)
    }
}

} // verus!
