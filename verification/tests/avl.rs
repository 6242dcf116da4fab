use kvstore::avl::{AvlTree, INVALID_IDX};

#[test]
fn test_insert_and_size() {
    let mut tree = AvlTree::new();
    assert!(tree.is_empty());

    tree.insert(5, i32::cmp);
    tree.insert(3, i32::cmp);
    tree.insert(7, i32::cmp);

    assert_eq!(tree.size(), 3);
}

#[test]
fn test_balance() {
    let mut tree = AvlTree::new();

    // Insert in ascending order (worst case for unbalanced tree)
    for i in 0..10 {
        tree.insert(i, i32::cmp);
    }

    // Check that tree remains balanced (depth should be ~log(n))
    let root_depth = tree.get(tree.root()).unwrap().depth;
    assert!(root_depth <= 5); // log2(10) ≈ 3.3, with balance factor max 4-5
}

#[test]
fn test_delete() {
    let mut tree = AvlTree::new();

    let idx1 = tree.insert(5, i32::cmp);
    tree.insert(3, i32::cmp);
    tree.insert(7, i32::cmp);

    assert_eq!(tree.size(), 3);

    let val = tree.delete(idx1);
    assert_eq!(val, 5);
    assert_eq!(tree.size(), 2);
}

/// The elements in in-order, walking from the first slot by offsets.
fn in_order(tree: &AvlTree<i32>) -> Vec<i32> {
    let mut out = Vec::new();
    if tree.is_empty() {
        return out;
    }
    let root = tree.root();
    let size = tree.size() as i64;
    let mut first = root;
    while tree.get(first).unwrap().left != INVALID_IDX {
        first = tree.get(first).unwrap().left;
    }
    for k in 0..size {
        let idx = tree.offset(first, k).unwrap();
        out.push(tree.get(idx).unwrap().data);
    }
    out
}

#[test]
fn avl_in_order_is_sorted_after_inserts() {
    let mut tree = AvlTree::new();
    for x in [50, 20, 80, 10, 30, 70, 90, 25, 35, 5] {
        tree.insert(x, i32::cmp);
    }
    assert_eq!(tree.size(), 10);
    assert_eq!(in_order(&tree), vec![5, 10, 20, 25, 30, 35, 50, 70, 80, 90]);
}

#[test]
fn avl_delete_keeps_order_of_the_rest() {
    let mut tree = AvlTree::new();
    let mut slots = Vec::new();
    for x in 0..20 {
        slots.push(tree.insert(x, i32::cmp));
    }
    let root_data = tree.get(tree.root()).unwrap().data;
    let removed = tree.delete(tree.root());
    assert_eq!(removed, root_data);
    let expected: Vec<i32> = (0..20).filter(|x| *x != root_data).collect();
    assert_eq!(in_order(&tree), expected);
    assert_eq!(tree.size(), 19);
}

#[test]
fn avl_offset_walks_both_ways_and_stops_at_the_ends() {
    let mut tree = AvlTree::new();
    let mut slots = Vec::new();
    for x in 0..8 {
        slots.push(tree.insert(x * 10, i32::cmp));
    }
    // slots[k] holds k * 10, whose in-order position is k.
    let from = slots[3];
    assert_eq!(tree.offset(from, 0), Some(from));
    assert_eq!(tree.get(tree.offset(from, 2).unwrap()).unwrap().data, 50);
    assert_eq!(tree.get(tree.offset(from, -3).unwrap()).unwrap().data, 0);
    assert_eq!(tree.get(tree.offset(from, 4).unwrap()).unwrap().data, 70);
    assert_eq!(tree.offset(from, 5), None);
    assert_eq!(tree.offset(from, -4), None);
}

#[test]
fn avl_offset_from_a_free_slot() {
    let mut tree = AvlTree::new();
    let a = tree.insert(1, i32::cmp);
    tree.insert(2, i32::cmp);
    // `a` has a right subtree, so the successor's slot is the one freed.
    let freed = tree.get(a).unwrap().right;
    assert_eq!(tree.delete(a), 1);
    assert!(tree.get(freed).is_none());
    assert_eq!(tree.offset(freed, 0), Some(freed));
    assert_eq!(tree.offset(freed, 1), None);
}

#[test]
fn avl_get_records_height_and_size() {
    let mut tree = AvlTree::new();
    for x in 0..7 {
        tree.insert(x, i32::cmp);
    }
    let root = tree.get(tree.root()).unwrap();
    assert_eq!(root.cnt, 7);
    assert_eq!(root.depth, 3);
    assert_eq!(root.parent, INVALID_IDX);
    assert!(tree.get(100).is_none());
}

#[test]
fn avl_get_mut_rewrites_data() {
    let mut tree = AvlTree::new();
    let a = tree.insert(4, i32::cmp);
    tree.insert(9, i32::cmp);
    tree.get_mut(a).unwrap().data = 6;
    assert_eq!(tree.get(a).unwrap().data, 6);
    assert!(tree.get_mut(55).is_none());
}

#[test]
fn avl_equal_elements_go_right() {
    let mut tree = AvlTree::new();
    let first = tree.insert(1, i32::cmp);
    let second = tree.insert(1, i32::cmp);
    // The second copy follows the first in in-order.
    assert_eq!(tree.offset(first, 1), Some(second));
}

#[test]
fn avl_default_is_empty() {
    let tree: AvlTree<i32> = AvlTree::default();
    assert!(tree.is_empty());
    assert_eq!(tree.size(), 0);
    assert_eq!(tree.root(), INVALID_IDX);
}

/// Checks every node reachable from `idx`: recorded heights and sizes match
/// the subtrees and the two sides differ by at most one level.
fn check_subtree(tree: &AvlTree<i32>, idx: usize) -> (u32, u32) {
    if idx == INVALID_IDX {
        return (0, 0);
    }
    let n = tree.get(idx).unwrap();
    let (lh, lc) = check_subtree(tree, n.left);
    let (rh, rc) = check_subtree(tree, n.right);
    assert!(lh <= rh + 1 && rh <= lh + 1);
    assert_eq!(n.depth, 1 + lh.max(rh));
    assert_eq!(n.cnt, 1 + lc + rc);
    (n.depth, n.cnt)
}

#[test]
fn avl_stays_balanced_under_mixed_operations() {
    let mut tree = AvlTree::new();
    let mut slots = Vec::new();
    let mut x: i32 = 7;
    for _ in 0..300 {
        x = (x * 31 + 17) % 1009;
        slots.push(tree.insert(x, i32::cmp));
    }
    check_subtree(&tree, tree.root());
    let mut removed = 0;
    for (k, s) in slots.iter().enumerate() {
        if k % 3 == 0 && tree.get(*s).is_some() {
            tree.delete(*s);
            removed += 1;
            check_subtree(&tree, tree.root());
        }
    }
    assert_eq!(tree.size() as usize, 300 - removed);
    let (h, c) = check_subtree(&tree, tree.root());
    assert_eq!(c as usize, 300 - removed);
    assert!(h <= 12);
    let order = in_order(&tree);
    assert!(order.windows(2).all(|w| w[0] <= w[1]));
}

#[test]
fn avl_delete_moves_the_successor_into_the_slot() {
    let mut tree = AvlTree::new();
    let i5 = tree.insert(5, i32::cmp);
    let i3 = tree.insert(3, i32::cmp);
    let i7 = tree.insert(7, i32::cmp);
    assert_eq!(tree.delete(i5), 5);
    assert_eq!(tree.size(), 2);
    // Slot `i5` now holds 7, the element after 5; the slot of 7 is freed.
    assert_eq!(tree.get(i5).unwrap().data, 7);
    assert!(tree.get(i7).is_none());
    assert_eq!(tree.get(i3).unwrap().data, 3);
    assert_eq!(tree.offset(i3, 1), Some(i5));
    assert_eq!(tree.arena_len(), 3);
}

#[test]
fn avl_fresh_tree_has_no_root_node() {
    let tree: AvlTree<i32> = AvlTree::new();
    assert_eq!(tree.root(), usize::MAX);
    assert!(tree.get(tree.root()).is_none());
    assert_eq!(tree.arena_len(), 0);
}
