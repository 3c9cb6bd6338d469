use eventlog::addr::Addr;
use eventlog::disk::FileLog;
use eventlog::log::{Config, Log};

#[test]
fn file_backed_log_round_trips() {
    let path = "/tmp/eventlog-file-backed-log-test";
    let file = FileLog::create(path).unwrap();
    // No cache at all: every read must come back from the file itself.
    let mut log = Log::new(
        Addr::new(7, 9),
        file,
        Config {
            read_cache_capacity: 0,
            key_index_capacity: 64,
            txn_write_buf_capacity: 256,
            disk_read_buf_capacity: 128,
        },
    );
    log.enqueue(b"durable one").unwrap();
    log.commit().unwrap();
    log.enqueue(b"durable two").unwrap();
    log.commit().unwrap();
    assert_eq!(log.byte_len(), 48 + 48);

    let r0 = log.read(0).unwrap();
    assert!(!r0.cache_hit);
    assert_eq!(r0.event.payload, b"durable one");
    let r1 = log.read(1).unwrap();
    assert!(!r1.cache_hit);
    assert_eq!(r1.event.payload, b"durable two");

    let _ = rustix::fs::unlink(path);
}
