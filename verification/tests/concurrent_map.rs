use kvstore::concurrent_map::ConcurrentHashMap;

#[test]
fn test_basic_operations() {
    let mut map = ConcurrentHashMap::new();

    assert!(map.is_empty());

    map.insert(b"key1".to_vec(), 100);
    assert_eq!(map.get(b"key1"), Some(100));
    assert_eq!(map.len(), 1);

    map.insert(b"key2".to_vec(), 200);
    assert_eq!(map.len(), 2);

    assert_eq!(map.remove(b"key1"), Some(100));
    assert_eq!(map.len(), 1);
    assert_eq!(map.get(b"key1"), None);
}

#[test]
fn concurrent_map_test_update() {
    let mut map = ConcurrentHashMap::new();
    map.insert(b"counter".to_vec(), 0);

    map.update(b"counter", |v| *v += 1);
    assert_eq!(map.get(b"counter"), Some(1));

    map.update(b"counter", |v| *v += 10);
    assert_eq!(map.get(b"counter"), Some(11));
}

#[test]
fn test_shard_distribution() {
    let mut map = ConcurrentHashMap::with_shard_count(16);

    // Insert many keys
    for i in 0..1000 {
        map.insert(i.to_string().into_bytes(), i);
    }

    // Check that keys are distributed across shards (not all in one)
    let mut non_empty_shards = 0;
    for shard in 0..map.shard_count() {
        if map.shard_len(shard) > 0 {
            non_empty_shards += 1;
        }
    }

    // Should use multiple shards (not perfect distribution expected)
    assert!(non_empty_shards > 1);
}

#[test]
fn map_insert_returns_the_replaced_value() {
    let mut map = ConcurrentHashMap::with_capacity(4, 8);
    assert_eq!(map.insert(b"k".to_vec(), "one"), None);
    assert_eq!(map.insert(b"k".to_vec(), "two"), Some("one"));
    assert_eq!(map.get(b"k"), Some("two"));
    assert_eq!(map.len(), 1);
    assert!(map.contains_key(b"k"));
    assert!(!map.contains_key(b"K"));
    assert_eq!(map.remove(b"missing"), None);
}

#[test]
fn map_update_of_missing_key_is_false() {
    let mut map: ConcurrentHashMap<u32> = ConcurrentHashMap::new();
    assert!(!map.update(b"nothing", |v| *v += 1));
    assert!(map.is_empty());
}

#[test]
fn map_get_with_applies_the_function() {
    let mut map = ConcurrentHashMap::new();
    map.insert(b"name".to_vec(), vec![1u8, 2, 3]);
    assert_eq!(map.get_with(b"name", |v| v.len()), Some(3));
    assert_eq!(map.get_with(b"other", |v| v.len()), None);
}

#[test]
fn map_keys_lists_each_key_once() {
    let mut map = ConcurrentHashMap::with_shard_count(8);
    for k in ["a", "b", "c", "b", "a"] {
        map.insert(k.as_bytes().to_vec(), 0);
    }
    let mut keys = map.keys();
    keys.sort();
    assert_eq!(keys, vec![b"a".to_vec(), b"b".to_vec(), b"c".to_vec()]);
}

#[test]
fn map_for_each_visits_every_entry() {
    let mut map = ConcurrentHashMap::new();
    for i in 0..50u64 {
        map.insert(i.to_string().into_bytes(), i);
    }
    let mut sum = 0;
    let mut count = 0;
    map.for_each(|_k, v| {
        sum += *v;
        count += 1;
    });
    assert_eq!(count, 50);
    assert_eq!(sum, (0..50).sum::<u64>());
}

#[test]
fn map_retain_keeps_what_the_predicate_accepts() {
    let mut map = ConcurrentHashMap::with_shard_count(4);
    for i in 0..30u32 {
        map.insert(i.to_string().into_bytes(), i);
    }
    map.retain(|_k, v| v % 3 == 0);
    assert_eq!(map.len(), 10);
    for i in 0..30u32 {
        assert_eq!(map.contains_key(i.to_string().as_bytes()), i % 3 == 0);
    }
}

#[test]
fn map_clear_empties_every_shard() {
    let mut map = ConcurrentHashMap::default();
    for i in 0..100u32 {
        map.insert(i.to_string().into_bytes(), i);
    }
    assert_eq!(map.shard_count(), 256);
    map.clear();
    assert!(map.is_empty());
    assert_eq!(map.len(), 0);
    for s in 0..map.shard_count() {
        assert_eq!(map.shard_len(s), 0);
    }
}
