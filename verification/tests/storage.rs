use kvstore::protocol::ResponseBuilder;
use kvstore::storage::{Entry, EntryType, StorageEngine};
use kvstore::zset::{key_of_bits, ZSet};

/// The score key of a score.
fn key(score: f64) -> u64 {
    key_of_bits(score.to_bits())
}

fn int_body(v: i64) -> Vec<u8> {
    let mut b = vec![3u8];
    b.extend_from_slice(&v.to_le_bytes());
    b
}

/// The body of a finished response, after its length prefix.
fn body(resp: ResponseBuilder) -> Vec<u8> {
    resp.finish()[4..].to_vec()
}

#[test]
fn test_string_operations() {
    let mut engine: StorageEngine = StorageEngine::new();
    let mut resp = ResponseBuilder::new();

    engine.set(b"key1".to_vec(), b"value1".to_vec(), &mut resp);
    assert_eq!(body(resp), vec![0]);

    let mut resp = ResponseBuilder::new();
    engine.get(b"key1", &mut resp);
    // Should have string response
    let mut expected = vec![2u8, 6, 0, 0, 0];
    expected.extend_from_slice(b"value1");
    assert_eq!(body(resp), expected);

    let mut resp = ResponseBuilder::new();
    engine.del(b"key1", &mut resp);
    assert_eq!(body(resp), vec![3, 1, 0, 0, 0, 0, 0, 0, 0]);

    let mut resp = ResponseBuilder::new();
    engine.get(b"key1", &mut resp);
    // Should be nil
    assert_eq!(body(resp), vec![0]);
}

#[test]
fn storage_type_errors_on_sorted_sets() {
    let mut engine = StorageEngine::default();
    let mut resp = ResponseBuilder::new();
    engine.zadd(b"z".to_vec(), key(1.0), b"m".to_vec(), &mut resp);
    let mut resp = ResponseBuilder::new();
    engine.get(b"z", &mut resp);
    let mut expected = vec![1u8, 3, 0, 0, 0, 18, 0, 0, 0];
    expected.extend_from_slice(b"expect string type");
    assert_eq!(body(resp), expected.clone());

    let mut resp = ResponseBuilder::new();
    engine.set(b"z".to_vec(), b"v".to_vec(), &mut resp);
    assert_eq!(body(resp), expected);
    assert_eq!(engine.with_entry(b"z", |e| e.entry_type), Some(EntryType::ZSet));
    assert_eq!(engine.with_entry(b"z", |e| e.zset_value.as_ref().map(|z| z.len())), Some(Some(1)));
}

#[test]
fn storage_del_of_missing_key_replies_zero() {
    let mut engine: StorageEngine = StorageEngine::new();
    let mut resp = ResponseBuilder::new();
    assert!(!engine.del(b"nothing", &mut resp));
    assert_eq!(body(resp), vec![3, 0, 0, 0, 0, 0, 0, 0, 0]);
}

#[test]
fn storage_set_overwrites_and_keeps_one_entry() {
    let mut engine: StorageEngine = StorageEngine::new();
    let mut resp = ResponseBuilder::new();
    engine.set(b"k".to_vec(), b"a".to_vec(), &mut resp);
    engine.set(b"k".to_vec(), b"bc".to_vec(), &mut resp);
    assert_eq!(engine.size(), 1);
    let mut resp = ResponseBuilder::new();
    engine.get(b"k", &mut resp);
    assert_eq!(body(resp), vec![2, 2, 0, 0, 0, b'b', b'c']);
}

#[test]
fn storage_pexpire_and_process_expiry() {
    let mut engine: StorageEngine = StorageEngine::new();
    let mut resp = ResponseBuilder::new();
    for k in [b"a", b"b", b"c"] {
        engine.set(k.to_vec(), b"v".to_vec(), &mut resp);
    }
    let mut resp = ResponseBuilder::new();
    engine.pexpire(b"a", 5, 1_000, &mut resp); // expires at 6_000
    engine.pexpire(b"b", 1, 1_000, &mut resp); // expires at 2_000
    engine.pexpire(b"missing", 1, 1_000, &mut resp);
    let one = vec![3u8, 1, 0, 0, 0, 0, 0, 0, 0];
    let zero = vec![3u8, 0, 0, 0, 0, 0, 0, 0, 0];
    let mut expected = one.clone();
    expected.extend_from_slice(&one);
    expected.extend_from_slice(&zero);
    assert_eq!(body(resp), expected);
    assert_eq!(engine.next_expiry_us(), Some(2_000));

    // Nothing has expired yet at 2_000 (expiry is strictly before now).
    assert_eq!(engine.process_expiry(10, 2_000), 0);
    assert_eq!(engine.process_expiry(10, 2_001), 1);
    assert!(!engine.contains_key(b"b"));
    assert!(engine.contains_key(b"a"));
    assert_eq!(engine.next_expiry_us(), Some(6_000));

    // A later expiry time for the same key updates it in place.
    let mut resp = ResponseBuilder::new();
    engine.pexpire(b"a", 10, 1_000, &mut resp);
    assert_eq!(engine.next_expiry_us(), Some(11_000));

    // A negative time drops the expiry time.
    engine.pexpire(b"a", -1, 0, &mut resp);
    assert_eq!(engine.next_expiry_us(), None);
    assert_eq!(engine.process_expiry(10, u64::MAX), 0);
    assert_eq!(engine.size(), 2);
}

#[test]
fn storage_process_expiry_stops_at_max_work() {
    let mut engine: StorageEngine = StorageEngine::new();
    let mut resp = ResponseBuilder::new();
    for (i, k) in [b"a", b"b", b"c"].iter().enumerate() {
        engine.set(k.to_vec(), b"v".to_vec(), &mut resp);
        engine.pexpire(*k, i as i64, 0, &mut resp);
    }
    assert_eq!(engine.process_expiry(2, 10_000), 2);
    assert_eq!(engine.size(), 1);
    assert!(engine.contains_key(b"c"));
    assert_eq!(engine.process_expiry(2, 10_000), 1);
    assert_eq!(engine.size(), 0);
}

#[test]
fn storage_del_drops_the_expiry_time() {
    let mut engine: StorageEngine = StorageEngine::new();
    let mut resp = ResponseBuilder::new();
    engine.set(b"a".to_vec(), b"v".to_vec(), &mut resp);
    engine.pexpire(b"a", 3, 0, &mut resp);
    assert_eq!(engine.next_expiry_us(), Some(3_000));
    assert!(engine.del(b"a", &mut resp));
    assert_eq!(engine.next_expiry_us(), None);
}

#[test]
fn storage_entries_start_without_expiry() {
    let s = Entry::new_string(b"x".to_vec());
    assert_eq!(s.entry_type, EntryType::String);
    assert!(s.ttl_heap_idx.is_none());
    let z = Entry::new_zset(ZSet::new());
    assert_eq!(z.entry_type, EntryType::ZSet);
    assert!(z.ttl_heap_idx.is_none());
}

#[test]
fn storage_removing_one_expiry_keeps_the_others() {
    let mut engine: StorageEngine = StorageEngine::new();
    let mut resp = ResponseBuilder::new();
    engine.set(b"k1".to_vec(), b"v".to_vec(), &mut resp);
    engine.set(b"k2".to_vec(), b"v".to_vec(), &mut resp);
    engine.pexpire(b"k1", 1000, 5_000, &mut resp); // expires at 1_005_000
    engine.pexpire(b"k2", 10, 6_000, &mut resp); // expires at 16_000, moves to the top
    assert_eq!(engine.next_expiry_us(), Some(16_000));
    engine.pexpire(b"k1", -1, 7_000, &mut resp);
    assert_eq!(engine.next_expiry_us(), Some(16_000));
    assert_eq!(engine.process_expiry(10, 20_000), 1);
    assert!(!engine.contains_key(b"k2"));
    assert!(engine.contains_key(b"k1"));
    assert_eq!(engine.next_expiry_us(), None);
}

#[test]
fn storage_del_keeps_the_other_expiry_times() {
    let mut engine: StorageEngine = StorageEngine::new();
    let mut resp = ResponseBuilder::new();
    for k in [b"a", b"b", b"c"] {
        engine.set(k.to_vec(), b"v".to_vec(), &mut resp);
    }
    engine.pexpire(b"a", 30, 0, &mut resp);
    engine.pexpire(b"b", 20, 0, &mut resp);
    engine.pexpire(b"c", 10, 0, &mut resp);
    assert!(engine.del(b"c", &mut resp));
    assert_eq!(engine.next_expiry_us(), Some(20_000));
    assert!(engine.del(b"b", &mut resp));
    assert_eq!(engine.next_expiry_us(), Some(30_000));
    assert_eq!(engine.process_expiry(10, 40_000), 1);
    assert_eq!(engine.size(), 0);
}

#[test]
fn storage_zadd_keeps_the_expiry_time() {
    let mut engine = StorageEngine::new();
    let mut resp = ResponseBuilder::new();
    engine.zadd(b"z".to_vec(), key(1.0), b"a".to_vec(), &mut resp);
    engine.pexpire(b"z", 5, 0, &mut resp);
    engine.zadd(b"z".to_vec(), key(2.0), b"b".to_vec(), &mut resp);
    engine.zrem(b"z", b"a", &mut resp);
    assert_eq!(engine.next_expiry_us(), Some(5_000));
    assert_eq!(engine.process_expiry(10, 6_000), 1);
    assert!(!engine.contains_key(b"z"));
}

#[test]
fn test_zset_operations() {
    let mut engine = StorageEngine::new();
    let mut resp = ResponseBuilder::new();

    engine.zadd(b"myzset".to_vec(), key(100.0), b"alice".to_vec(), &mut resp);
    assert_eq!(body(resp), int_body(1));

    let mut resp = ResponseBuilder::new();
    engine.zscore(b"myzset", b"alice", &mut resp);
    let mut expected = vec![4u8];
    expected.extend_from_slice(&100.0f64.to_bits().to_le_bytes());
    assert_eq!(body(resp), expected);

    let mut resp = ResponseBuilder::new();
    engine.zrem(b"myzset", b"alice", &mut resp);
    assert_eq!(body(resp), int_body(1));
}

#[test]
fn storage_sorted_set_replies() {
    let mut engine = StorageEngine::new();
    let mut resp = ResponseBuilder::new();
    engine.zadd(b"z".to_vec(), key(10.0), b"a".to_vec(), &mut resp);
    engine.zadd(b"z".to_vec(), key(20.0), b"b".to_vec(), &mut resp);
    engine.zadd(b"z".to_vec(), key(15.0), b"a".to_vec(), &mut resp);
    assert_eq!(body(resp), [int_body(1), int_body(1), int_body(0)].concat());

    // Members from score 12 on: a (15), b (20).
    let mut resp = ResponseBuilder::new();
    engine.zquery(b"z", key(12.0), 0, 10, &mut resp);
    let mut expected = vec![5u8, 4, 0, 0, 0];
    for (name, score) in [(&b"a"[..], 15.0f64), (b"b", 20.0)] {
        expected.push(2);
        expected.extend_from_slice(&(name.len() as u32).to_le_bytes());
        expected.extend_from_slice(name);
        expected.push(4);
        expected.extend_from_slice(&score.to_bits().to_le_bytes());
    }
    assert_eq!(body(resp), expected);

    let mut resp = ResponseBuilder::new();
    engine.zquery(b"z", key(12.0), 1, 1, &mut resp);
    assert_eq!(body(resp)[..5], [5u8, 2, 0, 0, 0]);

    let mut resp = ResponseBuilder::new();
    engine.zquery(b"missing", key(0.0), 0, 10, &mut resp);
    assert_eq!(body(resp), vec![5u8, 0, 0, 0, 0]);

    let mut resp = ResponseBuilder::new();
    engine.zquery(b"z", key(0.0), -1, 10, &mut resp);
    let msg = b"offset and limit must be non-negative";
    let mut expected = vec![1u8, 2, 0, 0, 0, msg.len() as u8, 0, 0, 0];
    expected.extend_from_slice(msg);
    assert_eq!(body(resp), expected);

    let mut resp = ResponseBuilder::new();
    engine.set(b"s".to_vec(), b"v".to_vec(), &mut resp);
    let mut resp = ResponseBuilder::new();
    engine.zadd(b"s".to_vec(), key(1.0), b"a".to_vec(), &mut resp);
    let msg = b"expect zset type";
    let mut expected = vec![1u8, 3, 0, 0, 0, msg.len() as u8, 0, 0, 0];
    expected.extend_from_slice(msg);
    assert_eq!(body(resp), expected);

    let mut resp = ResponseBuilder::new();
    engine.zscore(b"z", b"nobody", &mut resp);
    engine.zrem(b"z", b"nobody", &mut resp);
    engine.zrem(b"missing", b"a", &mut resp);
    assert_eq!(body(resp), [vec![0u8], int_body(0), int_body(0)].concat());
}
