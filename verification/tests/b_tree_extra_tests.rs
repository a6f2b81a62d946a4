use b_tree::b_tree::{BTree, Node};

/// In-order walk of a subtree: left slot, key, next slot, ...
fn in_order_keys(node: &Option<Node>, out: &mut Vec<i64>) {
    if let Some(n) = node {
        for i in 0..n.children.len() {
            in_order_keys(&n.children[i], out);
            if i < n.keys.len() {
                out.push(n.keys[i]);
            }
        }
    }
}

/// Slot count is one more than key count, at every node of the subtree.
fn check_slot_counts(node: &Option<Node>) {
    if let Some(n) = node {
        assert_eq!(n.children.len(), n.keys.len() + 1);
        for c in n.children.iter() {
            check_slot_counts(c);
        }
    }
}

#[test]
fn test_enable_debug_flag_only() {
    let mut b_tree: BTree = BTree::new(4);
    b_tree.push(10);
    assert!(!b_tree.enable_debug);
    b_tree.enable_debug();
    assert!(b_tree.enable_debug);
    if let Some(r) = &b_tree.root {
        assert_eq!(r.keys, vec![10]);
    } else {
        panic!("root expected");
    }
}

#[test]
fn test_pop_absent_value_is_noop() {
    let mut b_tree: BTree = BTree::new(4);
    [10, 20, 30].iter().for_each(|&i| b_tree.push(i));
    b_tree.pop(25);

    if let Some(r) = b_tree.root {
        assert_eq!(r.keys, vec![10, 20, 30]);
        assert_eq!(r.children.len(), 4);
    } else {
        panic!("root expected");
    }
}

#[test]
fn test_pop_on_empty_tree_is_noop() {
    let mut b_tree: BTree = BTree::new(4);
    b_tree.pop(7);
    assert!(b_tree.root.is_none());
}

/// In-order traversal after insertions yields all inserted values, sorted,
/// as long as every split promotes into the top of its parent's key range.
#[test]
fn test_in_order_sorted_after_pushes() {
    let mut b_tree: BTree = BTree::new(4);
    let values = [10, 20, 30, 40, 50, 60, 70, 80, 90, 100, 12, 14, 15, 16, 17, 18, 19];
    for v in values {
        b_tree.push(v);
    }
    check_slot_counts(&b_tree.root);

    let mut seen: Vec<i64> = Vec::new();
    in_order_keys(&b_tree.root, &mut seen);

    let mut expected: Vec<i64> = values.to_vec();
    expected.sort();
    assert_eq!(seen, expected);
}

/// Every node keeps one more child slot than keys, over a mixed work load.
#[test]
fn test_slot_counts_after_pushes() {
    let mut b_tree: BTree = BTree::new(4);
    for v in [5, 3, 8, 1, 9, 7, 2, 6, 4, 10, 11, 12, 13, 0, 14] {
        b_tree.push(v);
    }
    check_slot_counts(&b_tree.root);
}

/// Duplicates are accepted; they all show up in the traversal.
#[test]
fn test_duplicate_keys_kept() {
    let mut b_tree: BTree = BTree::new(4);
    for v in [10, 10, 10, 10, 10] {
        b_tree.push(v);
    }
    let mut seen: Vec<i64> = Vec::new();
    in_order_keys(&b_tree.root, &mut seen);
    assert_eq!(seen, vec![10, 10, 10, 10, 10]);
}

/// Deleting a key held by an internal node removes the key and the child
/// slot to its right, dropping that slot's whole subtree: here the subtree
/// holding 30 disappears with the key 20. This documents the deliberately
/// partial deletion; it is not classical B-tree deletion.
#[test]
fn test_pop_internal_key_drops_subtree() {
    let mut b_tree: BTree = BTree::new(4);
    for v in [10, 20, 30, 40, 50, 60] {
        b_tree.push(v);
    }
    // root [20, 40] over [10], [30], [50, 60]
    b_tree.pop(20);

    if let Some(r) = b_tree.root {
        assert_eq!(r.keys, vec![40]);
        assert_eq!(r.children.len(), 2);
        if let Some(c0) = &r.children[0] {
            assert_eq!(c0.keys, vec![10]);
        } else {
            panic!("first child expected");
        }
        if let Some(c1) = &r.children[1] {
            assert_eq!(c1.keys, vec![50, 60]);
        } else {
            panic!("second child expected");
        }
        // 30 is gone even though it was never popped
        let mut seen: Vec<i64> = Vec::new();
        in_order_keys(&Some(r), &mut seen);
        assert!(!seen.contains(&30));
    } else {
        panic!("root expected");
    }
}

/// Deleting the last key of a leaf below the root leaves an empty node in
/// its slot: the tree does not rebalance after deletion.
#[test]
fn test_pop_leaf_key_leaves_empty_node() {
    let mut b_tree: BTree = BTree::new(4);
    for v in [10, 20, 30, 40, 50, 60] {
        b_tree.push(v);
    }
    b_tree.pop(10);

    if let Some(r) = b_tree.root {
        assert_eq!(r.keys, vec![20, 40]);
        assert_eq!(r.children.len(), 3);
        if let Some(c0) = &r.children[0] {
            assert!(c0.keys.is_empty());
            assert!(c0.children.is_empty());
        } else {
            panic!("first child expected");
        }
    } else {
        panic!("root expected");
    }
}

/// The level walk yields each depth's slots in traversal order, empty slots
/// included, and nothing past the deepest level's slots.
#[test]
fn test_nodes_at_level() {
    let mut b_tree: BTree = BTree::new(4);
    for v in [10, 20, 30, 40] {
        b_tree.push(v);
    }
    // root [20] over [10], [30, 40]

    let level1 = b_tree.nodes_at_level(1);
    assert_eq!(level1.len(), 1);
    assert_eq!(level1[0].as_ref().unwrap().keys, vec![20]);

    let level2 = b_tree.nodes_at_level(2);
    assert_eq!(level2.len(), 2);
    assert_eq!(level2[0].as_ref().unwrap().keys, vec![10]);
    assert_eq!(level2[1].as_ref().unwrap().keys, vec![30, 40]);

    let level3 = b_tree.nodes_at_level(3);
    assert_eq!(level3.len(), 5);
    assert!(level3.iter().all(|s| s.is_none()));

    let level4 = b_tree.nodes_at_level(4);
    assert!(level4.is_empty());
}

/// A duplicate is equal in shape and contents and shares nothing with the
/// original.
#[test]
fn test_duplicate_copies_subtree() {
    let mut b_tree: BTree = BTree::new(4);
    for v in [10, 20, 30, 40, 50, 60] {
        b_tree.push(v);
    }
    let root = b_tree.root.as_ref().unwrap();
    let copy = root.duplicate();
    assert_eq!(copy.keys, root.keys);
    assert_eq!(copy.children.len(), root.children.len());
    for i in 0..copy.children.len() {
        let a = copy.children[i].as_ref().unwrap();
        let b = root.children[i].as_ref().unwrap();
        assert_eq!(a.keys, b.keys);
        assert_eq!(a.children.len(), b.children.len());
    }
}

/// A split out of a middle child promotes its key by an append followed by
/// one swap, which displaces the key it lands on to the end of the run: the
/// root's keys come out of order. This documents the insertion-order anomaly
/// of the split protocol; the multiset of keys is still intact.
#[test]
fn test_middle_child_split_displaces_key() {
    let mut b_tree: BTree = BTree::new(4);
    for v in [10, 20, 30, 40, 50, 60, 70, 80] {
        b_tree.push(v);
    }
    // root [20, 40, 60] over [10], [30], [50], [70, 80]
    for v in [22, 24, 26] {
        b_tree.push(v);
    }

    if let Some(r) = b_tree.root {
        // the displaced 40 ends up after 60 in the right half of the split
        assert_eq!(r.keys, vec![24]);
        assert_eq!(r.children.len(), 2);
        if let Some(c0) = &r.children[0] {
            assert_eq!(c0.keys, vec![20]);
        } else {
            panic!("first child expected");
        }
        if let Some(c1) = &r.children[1] {
            assert_eq!(c1.keys, vec![60, 40]);
        } else {
            panic!("second child expected");
        }
        let mut seen: Vec<i64> = Vec::new();
        in_order_keys(&Some(r), &mut seen);
        let mut sorted = seen.clone();
        sorted.sort();
        assert_ne!(seen, sorted);
        let mut expected = vec![10, 20, 30, 40, 50, 60, 70, 80, 22, 24, 26];
        expected.sort();
        assert_eq!(sorted, expected);
    } else {
        panic!("root expected");
    }
}
