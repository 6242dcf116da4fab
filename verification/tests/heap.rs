use kvstore::heap::{HeapItem, TtlHeap};

#[test]
fn test_min_heap_property() {
    let mut heap = TtlHeap::new();

    heap.push(HeapItem { expiry_us: 100, key: "key1" });
    heap.push(HeapItem { expiry_us: 50, key: "key2" });
    heap.push(HeapItem { expiry_us: 200, key: "key3" });

    assert_eq!(heap.peek().unwrap().expiry_us, 50);
    assert_eq!(heap.pop().unwrap().expiry_us, 50);
    assert_eq!(heap.pop().unwrap().expiry_us, 100);
    assert_eq!(heap.pop().unwrap().expiry_us, 200);
}

#[test]
fn test_get_expired() {
    let mut heap = TtlHeap::new();

    heap.push(HeapItem { expiry_us: 100, key: 1 });
    heap.push(HeapItem { expiry_us: 200, key: 2 });
    heap.push(HeapItem { expiry_us: 50, key: 3 });

    let expired = heap.get_expired(150);
    assert_eq!(expired.len(), 2); // 50 and 100
    assert_eq!(heap.len(), 1); // 200 remains
}

#[test]
fn heap_test_update() {
    let mut heap = TtlHeap::new();

    heap.push(HeapItem { expiry_us: 100, key: "a" });
    heap.push(HeapItem { expiry_us: 200, key: "b" });
    heap.push(HeapItem { expiry_us: 150, key: "c" });

    // Update index 0 (100 -> 300)
    heap.update_by_index(0, 300);

    assert_eq!(heap.peek().unwrap().expiry_us, 150);
}

#[test]
fn test_remove_by_index() {
    let mut heap = TtlHeap::new();

    heap.push(HeapItem { expiry_us: 100, key: 1 });
    heap.push(HeapItem { expiry_us: 200, key: 2 });
    heap.push(HeapItem { expiry_us: 150, key: 3 });

    assert_eq!(heap.len(), 3);
    heap.remove_by_index(1);
    assert_eq!(heap.len(), 2);
}

#[test]
fn heap_pops_in_nondecreasing_order() {
    let mut heap = TtlHeap::with_capacity(4);
    for (i, t) in [40u64, 10, 30, 10, 20, 50, 0].iter().enumerate() {
        heap.push(HeapItem { expiry_us: *t, key: i });
    }
    let mut out = Vec::new();
    while let Some(item) = heap.pop() {
        out.push(item.expiry_us);
    }
    assert_eq!(out, vec![0, 10, 10, 20, 30, 40, 50]);
    assert!(heap.is_empty());
    assert!(heap.pop().is_none());
    assert!(heap.peek().is_none());
}

#[test]
fn heap_get_expired_is_sorted_and_strict() {
    let mut heap = TtlHeap::new();
    for t in [5u64, 3, 9, 7, 1] {
        heap.push(HeapItem { expiry_us: t, key: t });
    }
    let expired: Vec<u64> = heap.get_expired(7).iter().map(|i| i.expiry_us).collect();
    assert_eq!(expired, vec![1, 3, 5]);
    assert_eq!(heap.peek().unwrap().expiry_us, 7);
    assert_eq!(heap.len(), 2);
}

#[test]
fn heap_out_of_range_index_changes_nothing() {
    let mut heap = TtlHeap::new();
    heap.push(HeapItem { expiry_us: 8, key: 'x' });
    heap.update_by_index(5, 1);
    assert!(heap.remove_by_index(5).is_none());
    assert_eq!(heap.len(), 1);
    assert_eq!(heap.peek().unwrap().expiry_us, 8);
}

#[test]
fn heap_update_to_earlier_moves_up() {
    let mut heap = TtlHeap::new();
    heap.push(HeapItem { expiry_us: 10, key: 'a' });
    heap.push(HeapItem { expiry_us: 20, key: 'b' });
    heap.push(HeapItem { expiry_us: 30, key: 'c' });
    heap.update_by_index(2, 5);
    let top = heap.peek().unwrap();
    assert_eq!(top.expiry_us, 5);
    assert_eq!(top.key, 'c');
}

#[test]
fn heap_remove_by_index_returns_that_item() {
    let mut heap = TtlHeap::new();
    heap.push(HeapItem { expiry_us: 10, key: 'a' });
    heap.push(HeapItem { expiry_us: 20, key: 'b' });
    heap.push(HeapItem { expiry_us: 30, key: 'c' });
    let removed = heap.remove_by_index(0).unwrap();
    assert_eq!(removed.key, 'a');
    assert_eq!(heap.peek().unwrap().expiry_us, 20);
    heap.clear();
    assert!(heap.is_empty());
    let d: TtlHeap<u8> = TtlHeap::default();
    assert_eq!(d.len(), 0);
}
