use eventlog::addr::Addr;
use eventlog::log::{CommitErr, Config, Log};
use eventlog::storage::AppendOnlyMemory;

fn on_disk_size(payload_len: usize) -> usize {
    32 + payload_len + (8 - payload_len % 8) % 8
}

fn new_log(config: Config) -> Log<AppendOnlyMemory> {
    Log::new(Addr::new(0x1234, 0x5678), AppendOnlyMemory::new(), config)
}

#[test]
fn log() {
    let mut log = new_log(Config {
        read_cache_capacity: 127,
        key_index_capacity: 0x10000,
        txn_write_buf_capacity: 512,
        disk_read_buf_capacity: 256,
    });

    log.enqueue(b"I have known the arcane law").unwrap();
    log.commit().unwrap();

    assert_eq!(
        log.read(0).unwrap().event.payload,
        b"I have known the arcane law"
    );

    log.enqueue(b"On strange roads, such visions met").unwrap();
    log.commit().unwrap();

    assert_eq!(
        log.read(1).unwrap().event.payload,
        b"On strange roads, such visions met"
    );
}

#[test]
fn reads_after_each_commit_hit_the_cache() {
    let mut log = new_log(Config {
        read_cache_capacity: 127,
        key_index_capacity: 0x10000,
        txn_write_buf_capacity: 512,
        disk_read_buf_capacity: 256,
    });

    log.enqueue(b"I have known the arcane law").unwrap();
    log.commit().unwrap();
    let first = log.read(0).unwrap();
    assert!(first.cache_hit);
    assert_eq!(first.event.payload, b"I have known the arcane law");

    log.enqueue(b"On strange roads, such visions met").unwrap();
    log.commit().unwrap();
    let second = log.read(1).unwrap();
    assert!(second.cache_hit);
    assert_eq!(second.event.payload, b"On strange roads, such visions met");
}

#[test]
fn tight_cache_keeps_only_the_most_recent_event() {
    // Room for one 20-byte event's on-disk form, plus one byte.
    let mut log = new_log(Config {
        read_cache_capacity: on_disk_size(20) + 1,
        key_index_capacity: 0x100,
        txn_write_buf_capacity: 512,
        disk_read_buf_capacity: 256,
    });

    for i in 0..10u8 {
        log.enqueue(&[i; 20]).unwrap();
        log.commit().unwrap();
    }

    for i in 0..10u8 {
        let r = log.read(i as usize).unwrap();
        assert_eq!(r.cache_hit, i == 9);
        assert_eq!(r.event.payload, &[i; 20]);
    }
}

#[test]
fn full_write_buffer_rejects_a_third_event() {
    // Exactly two 8-byte events fit the transaction buffer.
    let mut log = new_log(Config {
        read_cache_capacity: 256,
        key_index_capacity: 0x100,
        txn_write_buf_capacity: 2 * on_disk_size(8),
        disk_read_buf_capacity: 256,
    });

    log.enqueue(b"aaaaaaaa").unwrap();
    log.enqueue(b"bbbbbbbb").unwrap();
    assert!(log.enqueue(b"cccccccc").is_err());
    log.commit().unwrap();

    assert_eq!(log.read(0).unwrap().event.payload, b"aaaaaaaa");
    assert_eq!(log.read(1).unwrap().event.payload, b"bbbbbbbb");
    assert!(log.read(2).is_none());
}

#[test]
fn zero_capacity_cache_still_commits_and_reads() {
    let mut log = new_log(Config {
        read_cache_capacity: 0,
        key_index_capacity: 0x100,
        txn_write_buf_capacity: 512,
        disk_read_buf_capacity: 256,
    });

    for i in 0..3u8 {
        log.enqueue(&[i; 24]).unwrap();
        log.commit().unwrap();
        assert_eq!(log.byte_len() % 8, 0);
    }
    for i in 0..3u8 {
        let r = log.read(i as usize).unwrap();
        assert!(!r.cache_hit);
        assert_eq!(r.event.payload, &[i; 24]);
    }
}

#[test]
fn wrap_around_evicts_oldest_whole_events() {
    // Room for exactly three fixed-size events.
    let size = on_disk_size(16);
    let mut log = new_log(Config {
        read_cache_capacity: 3 * size,
        key_index_capacity: 0x100,
        txn_write_buf_capacity: 512,
        disk_read_buf_capacity: 256,
    });

    for i in 0..5u8 {
        log.enqueue(&[i; 16]).unwrap();
        log.commit().unwrap();
    }

    assert_eq!(log.cache_logical_start(), 2);
    for i in 0..5u8 {
        let r = log.read(i as usize).unwrap();
        assert_eq!(r.cache_hit, i >= 2);
        assert_eq!(r.event.payload, &[i; 16]);
    }
}

#[test]
fn batched_appends_round_trip() {
    let mut log = new_log(Config {
        read_cache_capacity: 4096,
        key_index_capacity: 0x1000,
        txn_write_buf_capacity: 4096,
        disk_read_buf_capacity: 256,
    });

    // Deterministic pseudo-random lengths in 1..=128, batches of 1..=16.
    let mut state: u64 = 0x243F6A8885A308D3;
    let mut next = move || {
        state ^= state << 13;
        state ^= state >> 7;
        state ^= state << 17;
        state
    };

    let mut payloads: Vec<Vec<u8>> = Vec::new();
    let mut expected_bytes: usize = 0;
    while payloads.len() < 1000 {
        let batch = (next() % 16 + 1) as usize;
        for _ in 0..batch {
            let len = (next() % 128 + 1) as usize;
            let fill = next() as u8;
            let p = vec![fill; len];
            log.enqueue(&p).unwrap();
            expected_bytes += on_disk_size(len);
            payloads.push(p);
        }
        log.commit().unwrap();
        assert_eq!(log.byte_len() % 8, 0);
    }

    assert_eq!(log.byte_len(), expected_bytes);
    for (i, p) in payloads.iter().enumerate() {
        let r = log.read(i).unwrap();
        assert_eq!(r.event.payload, p.as_slice());
    }
}

#[test]
fn byte_len_accumulates_on_disk_sizes() {
    let mut log = new_log(Config {
        read_cache_capacity: 512,
        key_index_capacity: 0x100,
        txn_write_buf_capacity: 512,
        disk_read_buf_capacity: 256,
    });

    assert_eq!(log.byte_len(), 0);
    log.enqueue(&[1u8; 8]).unwrap();
    log.commit().unwrap();
    assert_eq!(log.byte_len(), 40);
    log.enqueue(&[2u8; 16]).unwrap();
    log.commit().unwrap();
    assert_eq!(log.byte_len(), 40 + 48);
    log.enqueue(&[3u8; 17]).unwrap();
    log.commit().unwrap();
    assert_eq!(log.byte_len(), 40 + 48 + 56);
}

#[test]
fn empty_commit_is_rejected() {
    let mut log = new_log(Config {
        read_cache_capacity: 256,
        key_index_capacity: 0x100,
        txn_write_buf_capacity: 512,
        disk_read_buf_capacity: 256,
    });
    assert!(matches!(log.commit(), Err(CommitErr::EmptyTransaction)));
}

#[test]
fn exhausted_key_index_fails_the_commit() {
    let mut log = new_log(Config {
        read_cache_capacity: 256,
        key_index_capacity: 1,
        txn_write_buf_capacity: 512,
        disk_read_buf_capacity: 256,
    });
    log.enqueue(b"one").unwrap();
    log.enqueue(b"two").unwrap();
    assert!(matches!(log.commit(), Err(CommitErr::KeyIndex(_))));
}

#[test]
fn fresh_addresses_work_as_log_identities() {
    let id = Addr::fresh();
    let mut log = Log::new(
        id,
        AppendOnlyMemory::new(),
        Config {
            read_cache_capacity: 256,
            key_index_capacity: 0x100,
            txn_write_buf_capacity: 512,
            disk_read_buf_capacity: 256,
        },
    );
    log.enqueue(b"minted").unwrap();
    log.commit().unwrap();
    assert_eq!(log.read(0).unwrap().event.payload, b"minted");
}

#[test]
fn reads_past_the_end_are_none() {
    let mut log = new_log(Config {
        read_cache_capacity: 256,
        key_index_capacity: 0x100,
        txn_write_buf_capacity: 512,
        disk_read_buf_capacity: 256,
    });
    assert!(log.read(0).is_none());
    log.enqueue(b"only").unwrap();
    log.commit().unwrap();
    assert!(log.read(1).is_none());
}

#[test]
fn empty_payload_round_trips() {
    let mut log = new_log(Config {
        read_cache_capacity: 256,
        key_index_capacity: 0x100,
        txn_write_buf_capacity: 512,
        disk_read_buf_capacity: 256,
    });
    log.enqueue(b"").unwrap();
    log.commit().unwrap();
    assert_eq!(log.byte_len(), 32);
    assert_eq!(log.read(0).unwrap().event.payload, b"");
}

#[test]
fn addresses_render_as_hex_words() {
    assert_eq!(Addr::new(0xab, 0xcd).to_hex(), "abcd");
    assert_eq!(Addr::new(0xdeadbeef, 0x1).to_hex(), "deadbeef1");
}
