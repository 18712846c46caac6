//! Tests of the collection stores and the log they write: the write
//! pipeline's record images, replay after reopening, multi-tenant
//! isolation, selective clear, compaction, batches, and torn tails.
//!
//! A log file is simulated by a byte vector that collects exactly the
//! images each operation hands back for appending.

use rustmap_db::config::{HashMapConfigBuilder, HashSetConfigBuilder};
use rustmap_db::db::to_raw_id;
use rustmap_db::log::parse_log;
use rustmap_db::record::{DBEntry, DecodeError};
use rustmap_db::store::{MapStore, SetStore};

fn b(s: &str) -> Vec<u8> {
    s.as_bytes().to_vec()
}

#[test]
fn tests_test_with_config() {
    let config = HashMapConfigBuilder::default()
        .shard_amount(8)
        .capacity(112)
        .build()
        .unwrap();
    let map = MapStore::with_config(vec![1], config);
    assert_eq!(map.len(), 0);
    assert_eq!(map.is_empty(), true);
    assert_eq!(map.capacity(), 112);
}

#[test]
fn hashmap_tests_test_with_config() {
    let config = HashMapConfigBuilder::default()
        .shard_amount(8)
        .capacity(112)
        .build()
        .unwrap();
    let map = MapStore::with_config(vec![1], config);
    assert_eq!(map.len(), 0);
    assert_eq!(map.is_empty(), true);
    assert_eq!(map.capacity(), 112);
}

#[test]
fn test_set_with_config_starts_empty() {
    let config = HashSetConfigBuilder::default().capacity(64).build().unwrap();
    let set = SetStore::with_config(vec![2], config);
    assert_eq!(set.len(), 0);
    assert!(set.is_empty());
    assert!(set.capacity() >= 64);
}

#[test]
fn test_map_insert_get_overwrite_remove() {
    let mut map = MapStore::new(b("m"));
    let (prev, _rec) = map.insert(b("k"), b("v1"));
    assert_eq!(prev, None);
    assert_eq!(map.get(&b("k")), Some(b("v1")));
    let (prev, _rec) = map.insert(b("k"), b("v2"));
    assert_eq!(prev, Some(b("v1")));
    assert_eq!(map.get(&b("k")), Some(b("v2")));
    assert_eq!(map.len(), 1);
    let removed = map.remove(&b("k"));
    let (value, _rec) = removed.expect("the key was present");
    assert_eq!(value, b("v2"));
    assert_eq!(map.get(&b("k")), None);
    assert!(map.remove(&b("nonexistent_key")).is_none());
    assert!(map.is_empty());
}

#[test]
fn test_map_insert_batch_and_get() {
    let mut map = MapStore::new(vec![2]);
    let entries = vec![(b("key1"), b("value1")), (b("key2"), b("value2"))];
    let (olds, _blob) = map.insert_batch(entries.clone());
    assert_eq!(olds, vec![None, None]);
    for (key, value) in entries {
        assert_eq!(map.get(&key), Some(value));
    }
}

#[test]
fn test_map_remove_batch_returns_pairs_in_order() {
    let mut map = MapStore::new(vec![3]);
    map.insert_batch(vec![(b("key3"), b("value3")), (b("key4"), b("value4"))]);
    let (removed, _blob) = map.remove_batch(vec![b("key4"), b("absent"), b("key3")]);
    assert_eq!(
        removed,
        vec![(b("key4"), b("value4")), (b("key3"), b("value3"))]
    );
    assert!(map.get(&b("key3")).is_none());
    assert!(map.get(&b("key4")).is_none());
}

#[test]
fn test_set_insert_get_remove() {
    let mut set = SetStore::new(b("s"));
    let (fresh, _rec) = set.insert(b("key_to_remove"));
    assert!(fresh);
    let (fresh, _rec) = set.insert(b("key_to_remove"));
    assert!(!fresh);
    assert!(set.get(&b("key_to_remove")).is_some());
    let removed = set.remove(&b("key_to_remove"));
    let (stored, _rec) = removed.expect("the key was present");
    assert_eq!(stored, b("key_to_remove"));
    assert!(set.get(&b("key_to_remove")).is_none());
    assert!(set.remove(&b("nonexistent_key")).is_none());
}

#[test]
fn test_set_batches() {
    let mut set = SetStore::new(vec![6]);
    let keys = vec![b("key3"), b("key4")];
    let (fresh, _blob) = set.insert_batch(keys.clone());
    assert_eq!(fresh, vec![true, true]);
    let (removed, _blob) = set.remove_batch(keys.clone());
    assert_eq!(removed, keys);
    for key in keys {
        assert!(set.get(&key).is_none());
    }
}

// S1: insert, reopen from the log, read back
#[test]
fn test_replay_after_insert() {
    let mut log: Vec<u8> = Vec::new();
    let mut map = MapStore::new(b("m"));
    let (prev, rec) = map.insert(b("k"), b("v"));
    assert_eq!(prev, None);
    log.extend_from_slice(&rec);
    assert_eq!(map.get(&b("k")), Some(b("v")));
    drop(map);
    let mut map = MapStore::new(b("m"));
    map.replay(&log).expect("replay of a clean log succeeds");
    assert_eq!(map.get(&b("k")), Some(b("v")));
}

// S2: an overwrite replays to the newest value
#[test]
fn test_replay_after_overwrite() {
    let mut log: Vec<u8> = Vec::new();
    let mut map = MapStore::new(b("m"));
    let (prev, rec) = map.insert(b("k"), b("v1"));
    assert_eq!(prev, None);
    log.extend_from_slice(&rec);
    let (prev, rec) = map.insert(b("k"), b("v2"));
    assert_eq!(prev, Some(b("v1")));
    log.extend_from_slice(&rec);
    assert_eq!(map.get(&b("k")), Some(b("v2")));
    let mut map = MapStore::new(b("m"));
    map.replay(&log).expect("replay of a clean log succeeds");
    assert_eq!(map.get(&b("k")), Some(b("v2")));
}

// S3: remove then re-insert, reopen, read the newest binding
#[test]
fn test_replay_after_remove_and_reinsert() {
    let mut log: Vec<u8> = Vec::new();
    let mut map = MapStore::new(b("m"));
    let (_, rec) = map.insert(b("k"), b("v"));
    log.extend_from_slice(&rec);
    let (value, rec) = map.remove(&b("k")).expect("the key was present");
    assert_eq!(value, b("v"));
    log.extend_from_slice(&rec);
    assert!(map.get(&b("k")).is_none());
    let (prev, rec) = map.insert(b("k"), b("w"));
    assert_eq!(prev, None);
    log.extend_from_slice(&rec);
    let mut map = MapStore::new(b("m"));
    map.replay(&log).expect("replay of a clean log succeeds");
    assert_eq!(map.get(&b("k")), Some(b("w")));
}

// S4: a map and a set coexist in one file
#[test]
fn test_map_and_set_share_one_log() {
    let mut log: Vec<u8> = Vec::new();
    let mut map = MapStore::new(to_raw_id("test_hashmap".to_string()));
    let mut set = SetStore::new(to_raw_id("test_hashset".to_string()));
    let (_, rec) = map.insert(b("key"), b("value"));
    log.extend_from_slice(&rec);
    let (_, rec) = set.insert(b("key"));
    log.extend_from_slice(&rec);
    drop(map);
    drop(set);
    let mut map = MapStore::new(to_raw_id("test_hashmap".to_string()));
    let mut set = SetStore::new(to_raw_id("test_hashset".to_string()));
    map.replay(&log).expect("replay of a clean log succeeds");
    set.replay(&log).expect("replay of a clean log succeeds");
    assert_eq!(map.get(&b("key")), Some(b("value")));
    assert!(set.get(&b("key")).is_some());
}

// S5: selective clear of one collection spares the other
#[test]
fn test_selective_clear_spares_other_collection() {
    let mut log: Vec<u8> = Vec::new();
    let mut a = MapStore::new(to_raw_id("test_clear".to_string()));
    let mut b2 = MapStore::new(to_raw_id("test_clear_2".to_string()));
    let (_, rec) = a.insert(b("key"), b("value"));
    log.extend_from_slice(&rec);
    let (_, rec) = b2.insert(b("key"), b("value"));
    log.extend_from_slice(&rec);
    assert_eq!(a.get(&b("key")), Some(b("value")));
    assert_eq!(b2.get(&b("key")), Some(b("value")));
    let log = a.clear(&log);
    assert!(a.is_empty());
    drop(a);
    drop(b2);
    let mut a = MapStore::new(to_raw_id("test_clear".to_string()));
    let mut b2 = MapStore::new(to_raw_id("test_clear_2".to_string()));
    a.replay(&log).expect("replay of a clean log succeeds");
    b2.replay(&log).expect("replay of a clean log succeeds");
    assert!(a.get(&b("key")).is_none());
    assert_eq!(b2.get(&b("key")), Some(b("value")));
}

// S6: the records of one batch sit contiguously in the log
#[test]
fn test_batch_records_are_contiguous() {
    let mut log: Vec<u8> = Vec::new();
    let mut m = MapStore::new(b("m"));
    let mut n = MapStore::new(b("n"));

    let (_, rec) = n.insert(b("before"), b("x"));
    log.extend_from_slice(&rec);

    let batch: Vec<(Vec<u8>, Vec<u8>)> = (0u8..100)
        .map(|i| (vec![i], vec![i]))
        .collect();
    let (_, blob) = m.insert_batch(batch.clone());
    log.extend_from_slice(&blob);

    let (_, rec) = n.insert(b("after"), b("y"));
    log.extend_from_slice(&rec);

    let entries = parse_log(&log).expect("the log parses cleanly");
    assert_eq!(entries.len(), 102);
    assert_eq!(entries[0], DBEntry::HashMapEntry(b("n"), b("before"), b("x")));
    for (i, (key, value)) in batch.iter().enumerate() {
        assert_eq!(
            entries[1 + i],
            DBEntry::HashMapEntry(b("m"), key.clone(), value.clone())
        );
    }
    assert_eq!(entries[101], DBEntry::HashMapEntry(b("n"), b("after"), b("y")));
}

// P6: a log cut at any offset replays to the fold of its complete prefix
#[test]
fn test_torn_tail_tolerance_at_every_offset() {
    let mut log: Vec<u8> = Vec::new();
    let mut boundaries: Vec<usize> = vec![0];
    let mut map = MapStore::new(b("m"));
    let ops: Vec<(Vec<u8>, Vec<u8>)> = vec![
        (b("a"), b("1")),
        (b("b"), b("2")),
        (b("a"), b("3")),
    ];
    for (key, value) in &ops {
        let (_, rec) = map.insert(key.clone(), value.clone());
        log.extend_from_slice(&rec);
        boundaries.push(log.len());
    }
    for cut in 0..=log.len() {
        let truncated: Vec<u8> = log[..cut].to_vec();
        let complete = boundaries.iter().filter(|&&o| o <= cut).count() - 1;
        let mut reopened = MapStore::new(b("m"));
        reopened
            .replay(&truncated)
            .expect("a torn tail does not fail replay");
        let mut reference = MapStore::new(b("m"));
        for (key, value) in ops.iter().take(complete) {
            reference.insert(key.clone(), value.clone());
        }
        assert_eq!(reopened.len(), reference.len());
        for (key, _) in &ops {
            assert_eq!(reopened.get(key), reference.get(key));
        }
    }
}

// P7: clearing twice leaves the very bytes one clear leaves
#[test]
fn test_selective_clear_is_idempotent() {
    let mut log: Vec<u8> = Vec::new();
    let mut a = MapStore::new(b("a"));
    let mut c = SetStore::new(b("c"));
    let (_, rec) = a.insert(b("k1"), b("v1"));
    log.extend_from_slice(&rec);
    let (_, rec) = c.insert(b("k2"));
    log.extend_from_slice(&rec);
    let (_, rec) = a.insert(b("k3"), b("v3"));
    log.extend_from_slice(&rec);
    let once = a.clear(&log);
    let twice = a.clear(&once);
    assert_eq!(once, twice);
}

#[test]
fn test_replay_fails_on_unknown_tag() {
    let mut log: Vec<u8> = Vec::new();
    let mut map = MapStore::new(b("m"));
    let (_, rec) = map.insert(b("k"), b("v"));
    log.extend_from_slice(&rec);
    log.push(42); // no known tag
    let mut reopened = MapStore::new(b("m"));
    let result = reopened.replay(&log);
    assert_eq!(result, Err(DecodeError::InvalidTag(42)));
    // everything before the bad byte is already applied
    assert_eq!(reopened.get(&b("k")), Some(b("v")));
}

#[test]
fn test_compact_keeps_live_pairs_and_other_collections() {
    let mut log: Vec<u8> = Vec::new();
    let mut m = MapStore::new(b("m"));
    let mut other = SetStore::new(b("o"));
    let (_, rec) = other.insert(b("stay"));
    log.extend_from_slice(&rec);
    let (_, rec) = m.insert(b("k1"), b("old"));
    log.extend_from_slice(&rec);
    let (_, rec) = m.insert(b("k2"), b("gone"));
    log.extend_from_slice(&rec);
    let (_, rec) = m.insert(b("k1"), b("new"));
    log.extend_from_slice(&rec);
    let (_, rec) = m.remove(&b("k2")).expect("the key was present");
    log.extend_from_slice(&rec);

    let compacted = m.compact_db(&log);
    // one insertion per live pair, tombstones and stale insertions gone
    let entries = parse_log(&compacted).expect("the compacted log parses cleanly");
    assert_eq!(entries.len(), 2);
    assert_eq!(entries[0], DBEntry::HashSetEntry(b("o"), b("stay")));
    assert_eq!(entries[1], DBEntry::HashMapEntry(b("m"), b("k1"), b("new")));

    let mut m2 = MapStore::new(b("m"));
    let mut o2 = SetStore::new(b("o"));
    m2.replay(&compacted).expect("replay of a clean log succeeds");
    o2.replay(&compacted).expect("replay of a clean log succeeds");
    assert_eq!(m2.get(&b("k1")), Some(b("new")));
    assert!(m2.get(&b("k2")).is_none());
    assert_eq!(m2.len(), 1);
    assert!(o2.get(&b("stay")).is_some());
}

#[test]
fn test_set_replay_and_clear() {
    let mut log: Vec<u8> = Vec::new();
    let mut set = SetStore::new(b("s"));
    let (_, rec) = set.insert(b("serial_key"));
    log.extend_from_slice(&rec);
    let mut reopened = SetStore::new(b("s"));
    reopened.replay(&log).expect("replay of a clean log succeeds");
    assert!(reopened.get(&b("serial_key")).is_some());
    let (_, rec) = reopened.remove(&b("serial_key")).expect("present");
    log.extend_from_slice(&rec);
    let mut reopened = SetStore::new(b("s"));
    reopened.replay(&log).expect("replay of a clean log succeeds");
    assert!(reopened.get(&b("serial_key")).is_none());

    let (_, rec) = reopened.insert(b("clear_key"));
    log.extend_from_slice(&rec);
    assert_eq!(reopened.is_empty(), false);
    let log = reopened.clear(&log);
    assert_eq!(reopened.is_empty(), true);
    let mut reopened = SetStore::new(b("s"));
    reopened.replay(&log).expect("replay of a clean log succeeds");
    assert!(reopened.is_empty());
}
