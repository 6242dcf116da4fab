use kvstore::zset::{bits_of_key, key_of_bits, ZSet};

/// The score key of a score.
fn key(score: f64) -> u64 {
    key_of_bits(score.to_bits())
}

/// The score a score key stands for.
fn score(key: u64) -> f64 {
    f64::from_bits(bits_of_key(key))
}

fn names(results: &[(Vec<u8>, u64)]) -> Vec<&[u8]> {
    results.iter().map(|(n, _)| n.as_slice()).collect()
}

#[test]
fn test_add_and_score() {
    let mut zset = ZSet::new();

    assert!(zset.add(b"alice".to_vec(), key(100.0)).unwrap());
    assert_eq!(zset.score(b"alice").map(score), Some(100.0));
    assert_eq!(zset.len(), 1);
}

#[test]
fn test_update_score() {
    let mut zset = ZSet::new();

    zset.add(b"alice".to_vec(), key(100.0));
    assert!(!zset.add(b"alice".to_vec(), key(200.0)).unwrap()); // Update
    assert_eq!(zset.score(b"alice").map(score), Some(200.0));
    assert_eq!(zset.len(), 1);
}

#[test]
fn test_remove() {
    let mut zset = ZSet::new();

    zset.add(b"alice".to_vec(), key(100.0));
    assert!(zset.remove(b"alice"));
    assert_eq!(zset.score(b"alice"), None);
    assert_eq!(zset.len(), 0);
}

#[test]
fn test_query() {
    let mut zset = ZSet::new();

    zset.add(b"a".to_vec(), key(10.0));
    zset.add(b"b".to_vec(), key(20.0));
    zset.add(b"c".to_vec(), key(30.0));
    zset.add(b"d".to_vec(), key(40.0));

    let results = zset.query(key(15.0), 0, 10);
    assert_eq!(results.len(), 3); // b, c, d
    assert_eq!(score(results[0].1), 20.0);
}

#[test]
fn test_query_with_offset() {
    let mut zset = ZSet::new();

    for i in 0..10 {
        zset.add(format!("key{}", i).into_bytes(), key(f64::from(i * 10)));
    }

    let results = zset.query(key(0.0), 2, 3);
    assert_eq!(results.len(), 3);
    assert_eq!(score(results[0].1), 20.0); // Third element
}

#[test]
fn test_sorted_order() {
    let mut zset = ZSet::new();

    // Insert in random order
    zset.add(b"charlie".to_vec(), key(30.0));
    zset.add(b"alice".to_vec(), key(10.0));
    zset.add(b"bob".to_vec(), key(20.0));

    let results = zset.query(key(0.0), 0, 10);
    assert_eq!(results[0].0, b"alice");
    assert_eq!(results[1].0, b"bob");
    assert_eq!(results[2].0, b"charlie");
}

#[test]
fn zset_equal_scores_order_by_name() {
    let mut zset = ZSet::new();
    for name in [&b"bb"[..], b"b", b"a", b"ab", b"ba"] {
        assert_eq!(zset.add(name.to_vec(), key(1.0)), Some(true));
    }
    let results = zset.query(key(1.0), 0, 10);
    assert_eq!(names(&results), vec![&b"a"[..], b"ab", b"b", b"ba", b"bb"]);
    assert_eq!(zset.rank(b"ba"), Some(3));
    assert_eq!(zset.rank(b"zz"), None);
}

#[test]
fn zset_keys_order_as_scores() {
    let scores = [-1e300, -2.5, -1.0, -f64::MIN_POSITIVE, 0.0, f64::MIN_POSITIVE, 0.5, 3.0, 1e300];
    for w in scores.windows(2) {
        assert!(key(w[0]) < key(w[1]));
    }
    for s in scores {
        assert_eq!(score(key(s)), s);
    }
    let mut zset = ZSet::new();
    for (i, s) in scores.iter().rev().enumerate() {
        zset.add(vec![i as u8], key(*s));
    }
    let results = zset.query(key(-1.0), 0, 100);
    let got: Vec<f64> = results.iter().map(|(_, k)| score(*k)).collect();
    assert_eq!(got, vec![-1.0, -f64::MIN_POSITIVE, 0.0, f64::MIN_POSITIVE, 0.5, 3.0, 1e300]);
}

#[test]
fn zset_removes_and_updates_keep_the_rest_in_order() {
    let mut zset = ZSet::new();
    for i in 0..50u32 {
        zset.add(format!("m{:02}", i).into_bytes(), key(f64::from(i % 7)));
    }
    for i in (0..50u32).step_by(3) {
        assert!(zset.remove(format!("m{:02}", i).as_bytes()));
    }
    assert!(!zset.remove(b"m00"));
    for i in (1..50u32).step_by(5) {
        zset.add(format!("m{:02}", i).into_bytes(), key(100.0 + f64::from(i)));
    }
    let all = zset.query(0, 0, 1000);
    assert_eq!(all.len(), zset.len());
    for w in all.windows(2) {
        assert!((w[0].1, &w[0].0) < (w[1].1, &w[1].0));
    }
    for (i, (name, k)) in all.iter().enumerate() {
        assert_eq!(zset.score(name), Some(*k));
        assert_eq!(zset.rank(name), Some(i));
    }
    assert_eq!(zset.query(key(100.0), 2, 2).len(), 2);
    assert_eq!(zset.query(key(1000.0), 0, 10).len(), 0);
    assert_eq!(zset.query(0, 1000, 10).len(), 0);
    assert_eq!(zset.query(0, 0, 0).len(), 0);
    assert!(!zset.is_empty());
}
