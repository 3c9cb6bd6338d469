//! An append-only event log for a single producer: transactional batched
//! appends, an in-memory offset index, and a bipartite circular read cache
//! holding the most recent suffix of the log.
pub mod addr;
pub mod cache;
pub mod circbuf;
pub mod codec;
pub mod disk;
pub mod fixvec;
pub mod log;
pub mod segment;
pub mod storage;
