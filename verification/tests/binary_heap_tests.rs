use b_tree::binary_heap::{BinaryHeap, BinaryHeapType};

fn is_heap_vec(data: &Vec<i64>, min: bool) -> bool {
    for j in 1..data.len() {
        let parent: usize = (j - 1) / 2;
        let beats = if min { data[j] < data[parent] } else { data[j] > data[parent] };
        if beats {
            return false;
        }
    }
    true
}

#[test]
fn test_heap_new_empty() {
    let heap = BinaryHeap::new(BinaryHeapType::Min);
    assert!(heap.data.is_empty());
    assert!(matches!(heap.tree_type, BinaryHeapType::Min));
}

#[test]
fn test_heap_pop_empty_none() {
    let mut heap = BinaryHeap::new(BinaryHeapType::Max);
    assert_eq!(heap.pop(), None);
}

#[test]
fn test_min_heap_push_pop_sorted() {
    let mut heap = BinaryHeap::new(BinaryHeapType::Min);
    for v in [5, 1, 4, 2, 3] {
        heap.push(v);
        assert!(is_heap_vec(&heap.data, true));
    }
    let mut out: Vec<i64> = Vec::new();
    while let Some(v) = heap.pop() {
        out.push(v);
        assert!(is_heap_vec(&heap.data, true));
    }
    assert_eq!(out, vec![1, 2, 3, 4, 5]);
}

#[test]
fn test_max_heap_push_pop_sorted() {
    let mut heap = BinaryHeap::new(BinaryHeapType::Max);
    for v in [5, 1, 4, 2, 3, 3] {
        heap.push(v);
        assert!(is_heap_vec(&heap.data, false));
    }
    let mut out: Vec<i64> = Vec::new();
    while let Some(v) = heap.pop() {
        out.push(v);
    }
    assert_eq!(out, vec![5, 4, 3, 3, 2, 1]);
}

#[test]
fn test_pop_returns_root() {
    let mut heap = BinaryHeap::new(BinaryHeapType::Min);
    for v in [9, 7, 8] {
        heap.push(v);
    }
    let root: i64 = heap.data[0];
    assert_eq!(heap.pop(), Some(root));
    assert_eq!(heap.data.len(), 2);
}

/// `hipify` of a short vector: the single bottom-up pass suffices here and
/// the exact rearrangement is pinned down.
#[test]
fn test_hipify_small() {
    let heap = BinaryHeap::hipify(BinaryHeapType::Min, vec![3, 1, 2]);
    assert_eq!(heap.data, vec![1, 3, 2]);
    assert!(is_heap_vec(&heap.data, true));
}

#[test]
fn test_hipify_empty() {
    let heap = BinaryHeap::hipify(BinaryHeapType::Min, Vec::new());
    assert!(heap.data.is_empty());
}

/// `hipify` only sifts the last level up: elements of the input are all kept
/// (same multiset), but inner levels can stay out of heap order. This
/// documents the limitation of the single pass; it is not a full heapify.
#[test]
fn test_hipify_keeps_elements_but_not_always_a_heap() {
    let input = vec![3, 1, 4, 1, 5, 9, 2, 6];
    let heap = BinaryHeap::hipify(BinaryHeapType::Min, input.clone());
    assert_eq!(heap.data, vec![1, 3, 4, 1, 5, 9, 2, 6]);

    let mut kept = heap.data.clone();
    kept.sort();
    let mut expected = input.clone();
    expected.sort();
    assert_eq!(kept, expected);

    assert!(!is_heap_vec(&heap.data, true));
}
