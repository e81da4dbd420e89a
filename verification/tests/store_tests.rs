//! End-to-end scenarios against the log engine, driven purely through its
//! public interface: the segment bytes stand in for the file an embedding
//! program would keep.

use kvs::kv::{KvStore, SegmentSync};
use kvs::KvError;

fn fresh() -> KvStore {
    KvStore::open(0, Vec::new())
}

#[test]
fn basic_round_trip() {
    let mut store = fresh();
    store.set("a".to_string(), "1".to_string()).unwrap();
    store.set("b".to_string(), "2".to_string()).unwrap();
    assert_eq!(store.get("a".to_string()).unwrap(), Some("1".to_string()));
    assert_eq!(store.get("b".to_string()).unwrap(), Some("2".to_string()));
    assert_eq!(store.get("c".to_string()).unwrap(), None);
}

#[test]
fn overwrite() {
    let mut store = fresh();
    store.set("k".to_string(), "v1".to_string()).unwrap();
    store.set("k".to_string(), "v2".to_string()).unwrap();
    assert_eq!(store.get("k".to_string()).unwrap(), Some("v2".to_string()));
}

#[test]
fn remove_then_get() {
    let mut store = fresh();
    store.set("k".to_string(), "v".to_string()).unwrap();
    store.remove("k".to_string()).unwrap();
    assert_eq!(store.get("k".to_string()).unwrap(), None);
    let again = store.remove("k".to_string());
    assert!(matches!(again, Err(KvError::KeyNotExit)));
}

#[test]
fn recovery() {
    let mut store = fresh();
    store.set("a".to_string(), "1".to_string()).unwrap();
    store.set("b".to_string(), "2".to_string()).unwrap();
    let id = store.segment_id();
    let bytes = store.segment_bytes().clone();
    drop(store);
    let mut reopened = KvStore::open(id, bytes);
    assert_eq!(reopened.get("a".to_string()).unwrap(), Some("1".to_string()));
    assert_eq!(reopened.get("b".to_string()).unwrap(), Some("2".to_string()));
    assert_eq!(reopened.get("c".to_string()).unwrap(), None);
}

#[test]
fn recovery_after_remove() {
    let mut store = fresh();
    store.set("a".to_string(), "1".to_string()).unwrap();
    store.set("b".to_string(), "2".to_string()).unwrap();
    store.remove("a".to_string()).unwrap();
    let bytes = store.segment_bytes().clone();
    let mut reopened = KvStore::open(store.segment_id(), bytes);
    assert_eq!(reopened.get("a".to_string()).unwrap(), None);
    assert_eq!(reopened.get("b".to_string()).unwrap(), Some("2".to_string()));
}

#[test]
fn empty_value_is_not_a_tombstone() {
    let mut store = fresh();
    store.set("k".to_string(), String::new()).unwrap();
    assert_eq!(store.get("k".to_string()).unwrap(), Some(String::new()));
    let bytes = store.segment_bytes().clone();
    let mut reopened = KvStore::open(store.segment_id(), bytes);
    assert_eq!(reopened.get("k".to_string()).unwrap(), Some(String::new()));
}

#[test]
fn unicode_keys_and_values() {
    let mut store = fresh();
    store.set("ключ".to_string(), "значение ☃".to_string()).unwrap();
    store.set("鍵".to_string(), "値".to_string()).unwrap();
    assert_eq!(
        store.get("ключ".to_string()).unwrap(),
        Some("значение ☃".to_string())
    );
    let bytes = store.segment_bytes().clone();
    let mut reopened = KvStore::open(store.segment_id(), bytes);
    assert_eq!(reopened.get("鍵".to_string()).unwrap(), Some("値".to_string()));
}

#[test]
fn remove_missing_writes_nothing() {
    let mut store = fresh();
    store.set("a".to_string(), "1".to_string()).unwrap();
    let len_before = store.segment_len();
    let r = store.remove("missing".to_string());
    assert!(matches!(r, Err(KvError::KeyNotExit)));
    assert_eq!(store.segment_len(), len_before);
}

#[test]
fn torn_tail_is_dropped_on_open() {
    let mut store = fresh();
    store.set("a".to_string(), "1".to_string()).unwrap();
    store.set("b".to_string(), "2".to_string()).unwrap();
    let clean_len = store.segment_len();
    let mut bytes = store.segment_bytes().clone();
    // a crash mid-append leaves a partial frame behind
    bytes.extend_from_slice(&[7, 0, 0, 0, 1, 2]);
    let mut reopened = KvStore::open(store.segment_id(), bytes);
    assert_eq!(reopened.segment_len(), clean_len);
    assert_eq!(reopened.get("a".to_string()).unwrap(), Some("1".to_string()));
    assert_eq!(reopened.get("b".to_string()).unwrap(), Some("2".to_string()));
}

#[test]
fn sync_delta_append_keeps_a_mirror_in_step() {
    let mut store = fresh();
    let mut mirror: Vec<u8> = Vec::new();
    let mut prev_id = store.segment_id();
    let mut prev_len = 0usize;
    for i in 0..20 {
        store.set(format!("key{}", i), format!("value{}", i)).unwrap();
        match store.sync_delta(prev_id, prev_len) {
            SegmentSync::Append { bytes } => mirror.extend_from_slice(&bytes),
            SegmentSync::Rewrite { log_id, bytes } => {
                mirror = bytes;
                prev_id = log_id;
            }
        }
        prev_len = mirror.len();
        assert_eq!(prev_id, store.segment_id());
    }
    assert_eq!(&mirror, store.segment_bytes());
    let mut reopened = KvStore::open(prev_id, mirror);
    assert_eq!(
        reopened.get("key7".to_string()).unwrap(),
        Some("value7".to_string())
    );
}
