//! Compaction scenarios: the size policy, preservation of the logical
//! state across rewrites, and the space the rewritten segment takes.

use kvs::codec::{decode_frame, Tag};
use kvs::kv::{KvStore, SegmentSync};

fn fresh() -> KvStore {
    KvStore::open(0, Vec::new())
}

#[test]
fn many_small_records_stay_in_one_segment() {
    // 2^12 small records sum to well under the threshold: the segment id
    // never moves, and every key reads back.
    let mut store = fresh();
    for i in 1..4096u32 {
        store.set(format!("key{}", i), "value".to_string()).unwrap();
    }
    assert_eq!(store.segment_id(), 0);
    for i in 1..4096u32 {
        assert_eq!(
            store.get(format!("key{}", i)).unwrap(),
            Some("value".to_string())
        );
    }
}

#[test]
fn compaction_triggers_and_preserves_state() {
    // Overwrite a fixed set of keys with large values until the segment
    // crosses the threshold: compaction must fire, advance the segment
    // id, and leave every key's latest value intact in far less space.
    let mut store = fresh();
    let big = "x".repeat(100 * 1024);
    let mut total_written = 0usize;
    let mut rounds = 0u32;
    while store.segment_id() == 0 {
        for k in 0..5 {
            store.set(format!("key{}", k), format!("{}{}", big, rounds)).unwrap();
            total_written += big.len() + 32;
        }
        rounds += 1;
        assert!(total_written < 64 * 1024 * 1024, "compaction never fired");
    }
    assert!(store.segment_id() >= 1);
    for k in 0..5 {
        let got = store.get(format!("key{}", k)).unwrap().unwrap();
        assert!(got.starts_with(&big));
    }
    // five live records of ~100 KiB each: nowhere near the 4 MiB threshold
    assert!(store.segment_len() < 1024 * 1024);
}

#[test]
fn compacted_segment_holds_one_record_per_live_key() {
    let mut store = fresh();
    let big = "y".repeat(200 * 1024);
    // write — with regular tombstones — until a mutation triggers
    // compaction, then stop right there
    let mut done = false;
    while !done {
        for k in 0..4 {
            store.set(format!("key{}", k), big.clone()).unwrap();
            if store.segment_id() != 0 {
                done = true;
                break;
            }
        }
        if !done {
            store.set("doomed".to_string(), big.clone()).unwrap();
            if store.segment_id() != 0 {
                done = true;
            } else {
                store.remove("doomed".to_string()).unwrap();
                done = store.segment_id() != 0;
            }
        }
    }
    // walk the compacted segment: every frame is live, keys are unique
    let bytes = store.segment_bytes().clone();
    let mut pos = 0usize;
    let mut keys: Vec<String> = Vec::new();
    while pos < bytes.len() {
        let (entry, flen) = decode_frame(&bytes, pos).expect("compacted frame must decode");
        assert_eq!(entry.tag, Tag::Normal);
        assert!(!keys.contains(&entry.key), "duplicate record for a key");
        keys.push(entry.key);
        pos += flen;
    }
    assert_eq!(pos, bytes.len());
    assert!(keys.len() <= 5);
}

#[test]
fn sync_delta_reports_rewrite_after_compaction() {
    let mut store = fresh();
    let big = "w".repeat(250 * 1024);
    let mut mirror: Vec<u8> = Vec::new();
    let mut prev_id = 0u32;
    let mut saw_rewrite = false;
    for i in 0..40 {
        store.set(format!("key{}", i % 3), big.clone()).unwrap();
        match store.sync_delta(prev_id, mirror.len()) {
            SegmentSync::Append { bytes } => mirror.extend_from_slice(&bytes),
            SegmentSync::Rewrite { log_id, bytes } => {
                assert_ne!(log_id, prev_id);
                assert_eq!(log_id, store.segment_id());
                prev_id = log_id;
                mirror = bytes;
                saw_rewrite = true;
            }
        }
        assert_eq!(&mirror, store.segment_bytes());
    }
    assert!(saw_rewrite, "the size policy never triggered a rewrite");
    // the mirror reopens to the same state, as a restart would see it
    let mut reopened = KvStore::open(prev_id, mirror);
    for k in 0..3 {
        assert_eq!(
            reopened.get(format!("key{}", k)).unwrap(),
            store.get(format!("key{}", k)).unwrap()
        );
    }
}

#[test]
fn recovery_after_compaction() {
    let mut store = fresh();
    let big = "z".repeat(150 * 1024);
    let mut i = 0u32;
    while store.segment_id() == 0 {
        store.set(format!("key{}", i % 8), format!("{}{}", i, big)).unwrap();
        i += 1;
    }
    let id = store.segment_id();
    let bytes = store.segment_bytes().clone();
    let mut reopened = KvStore::open(id, bytes);
    for k in 0..8 {
        assert_eq!(
            reopened.get(format!("key{}", k)).unwrap(),
            store.get(format!("key{}", k)).unwrap()
        );
    }
}
