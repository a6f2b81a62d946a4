use b_tree::b_tree::{BTree, Node};

fn check_keys(node: &Node, vector: Vec<i64>) {
    assert_eq!(node.keys.len(), vector.len());

    for i in 0..vector.len() {
        assert_eq!(node.keys[i], vector[i]);
    }
}

fn check_empty_children(node: &Node, vector: Vec<Vec<i64>>) {
    assert_eq!(node.children.len(), vector.len());

    for i in 0..vector.len() {
        assert!(&node.children[i].is_some());

        if let Some(node) = &node.children[i] {
            check_empty_child(node, &vector[i]);
        }
    }
}

fn check_empty_child(node: &Node, vector: &Vec<i64>) {
    assert_eq!(node.keys.len(), vector.len());

    for i in 0..vector.len() {
        assert_eq!(node.keys[i], vector[i]);
    }

    assert_eq!(node.children.len(), vector.len() + 1);
    for ch in node.children.iter() {
        assert!(ch.is_none());
    }
}

#[test]
fn test_b_tree_0() {
    let b_tree: BTree = BTree::new(4);
    assert_eq!(b_tree.max_degree, 4);
    assert!(b_tree.root.is_none());
}

#[test]
fn test_b_tree_push_1() {
    let mut b_tree: BTree = BTree::new(4);
    b_tree.push(10);

    assert_eq!(b_tree.max_degree, 4);
    assert!(b_tree.root.is_some());

    if let Some(r) = b_tree.root {
        check_empty_child(&r, &vec![10]);
    }
}

#[test]
fn test_b_tree_push_2() {
    let mut b_tree: BTree = BTree::new(4);

    for i in [10, 20] {
        b_tree.push(i);
    }

    assert_eq!(b_tree.max_degree, 4);
    assert!(b_tree.root.is_some());

    if let Some(r) = b_tree.root {
        check_empty_child(&r, &vec![10, 20]);
    }
}

#[test]
fn test_b_tree_push_3() {
    let mut b_tree: BTree = BTree::new(4);
    for i in [10, 20, 30] {
        b_tree.push(i);
    }

    assert_eq!(b_tree.max_degree, 4);
    assert!(b_tree.root.is_some());

    if let Some(r) = b_tree.root {
        check_empty_child(&r, &vec![10, 20, 30]);
    }
}

#[test]
fn test_b_tree_push_4() {
    let mut b_tree: BTree = BTree::new(4);
    for i in [10, 20, 30, 40] {
        b_tree.push(i);
    }

    assert_eq!(b_tree.max_degree, 4);
    assert!(b_tree.root.is_some());

    if let Some(r) = b_tree.root {
        check_keys(&r, vec![20]);
        check_empty_children(&r, vec![vec![10], vec![30, 40]]);
    }
}

#[test]
fn test_b_tree_push_5() {
    let mut b_tree: BTree = BTree::new(4);
    for i in [10, 20, 30, 40, 50] {
        b_tree.push(i);
    }

    assert_eq!(b_tree.max_degree, 4);
    assert!(b_tree.root.is_some());

    if let Some(r) = b_tree.root {
        check_keys(&r, vec![20]);
        check_empty_children(&r, vec![vec![10], vec![30, 40, 50]]);
    }
}

#[test]
fn test_b_tree_push_6() {
    let mut b_tree: BTree = BTree::new(4);
    for i in [10, 20, 30, 40, 50, 60] {
        b_tree.push(i);
    }

    assert_eq!(b_tree.max_degree, 4);
    assert!(b_tree.root.is_some());

    if let Some(r) = b_tree.root {
        check_keys(&r, vec![20, 40]);
        check_empty_children(&r, vec![vec![10], vec![30], vec![50, 60]]);
    }
}

#[test]
fn test_b_tree_push_8() {
    let mut b_tree: BTree = BTree::new(4);
    for i in [10, 20, 30, 40, 50, 60, 70, 80] {
        b_tree.push(i);
    }

    assert_eq!(b_tree.max_degree, 4);
    assert!(b_tree.root.is_some());

    if let Some(r) = b_tree.root {
        check_keys(&r, vec![20, 40, 60]);
        check_empty_children(&r, vec![vec![10], vec![30], vec![50], vec![70, 80]]);
    }
}

#[test]
fn test_b_tree_push_10() {
    let mut b_tree: BTree = BTree::new(4);
    for i in [10, 20, 30, 40, 50, 60, 70, 80, 90, 100] {
        b_tree.push(i);
    }

    assert_eq!(b_tree.max_degree, 4);
    assert!(b_tree.root.is_some());

    if let Some(r) = b_tree.root {
        check_keys(&r, vec![40]);

        assert_eq!(r.children.len(), 2);

        assert!(r.children[0].is_some());
        if let Some(child) = &r.children[0] {
            check_keys(child, vec![20]);
            check_empty_children(child, vec![vec![10], vec![30]]);
        }

        assert!(r.children[1].is_some());
        if let Some(child) = &r.children[1] {
            check_keys(child, vec![60, 80]);
            check_empty_children(child, vec![vec![50], vec![70], vec![90, 100]]);
        }
    }
}

#[test]
fn test_b_tree_push_13() {
    let mut b_tree: BTree = BTree::new(4);
    for i in [10, 20, 30, 40, 50, 60, 70, 80, 90, 100, 12, 14, 15] {
        b_tree.push(i);
    }

    assert_eq!(b_tree.max_degree, 4);
    assert!(b_tree.root.is_some());

    if let Some(r) = b_tree.root {
        check_keys(&r, vec![40]);

        assert_eq!(r.children.len(), 2);

        assert!(r.children[0].is_some());
        if let Some(child) = &r.children[0] {
            check_keys(child, vec![12, 20]);
            check_empty_children(child, vec![vec![10], vec![14, 15], vec![30]]);
        }

        assert!(r.children[1].is_some());
        if let Some(child) = &r.children[1] {
            check_keys(child, vec![60, 80]);
            check_empty_children(child, vec![vec![50], vec![70], vec![90, 100]]);
        }
    }
}

#[test]
fn test_b_tree_push_16() {
    let mut b_tree: BTree = BTree::new(4);
    for i in [
        10, 20, 30, 40, 50, 60, 70, 80, 90, 100, 12, 14, 15, 16, 17, 18,
    ] {
        b_tree.push(i);
    }

    assert_eq!(b_tree.max_degree, 4);
    assert!(b_tree.root.is_some());

    if let Some(r) = b_tree.root {
        check_keys(&r, vec![40]);

        assert_eq!(r.children.len(), 2);

        assert!(r.children[0].is_some());
        if let Some(child) = &r.children[0] {
            check_keys(child, vec![12, 15, 20]);
            check_empty_children(child, vec![vec![10], vec![14], vec![16, 17, 18], vec![30]]);
        }

        assert!(r.children[1].is_some());
        if let Some(child) = &r.children[1] {
            check_keys(child, vec![60, 80]);
            check_empty_children(child, vec![vec![50], vec![70], vec![90, 100]]);
        }
    }
}

#[test]
fn test_b_tree_push_17() {
    let mut b_tree: BTree = BTree::new(4);
    [
        10, 20, 30, 40, 50, 60, 70, 80, 90, 100, 12, 14, 15, 16, 17, 18, 19,
    ]
    .iter()
    .for_each(|&i| b_tree.push(i));

    assert_eq!(b_tree.max_degree, 4);
    assert!(b_tree.root.is_some());

    if let Some(r) = b_tree.root {
        check_keys(&r, vec![15, 40]);

        assert_eq!(r.children.len(), 3);

        assert!(r.children[0].is_some());
        if let Some(child) = &r.children[0] {
            check_keys(child, vec![12]);
            check_empty_children(child, vec![vec![10], vec![14]]);
        }

        assert!(r.children[1].is_some());
        if let Some(child) = &r.children[1] {
            check_keys(child, vec![17, 20]);
            check_empty_children(child, vec![vec![16], vec![18, 19], vec![30]]);
        }

        assert!(r.children[2].is_some());
        if let Some(child) = &r.children[2] {
            check_keys(child, vec![60, 80]);
            check_empty_children(child, vec![vec![50], vec![70], vec![90, 100]]);
        }
    }
}

#[test]
fn test_b_tree_push_1_pop_1() {
    let mut b_tree: BTree = BTree::new(4);
    b_tree.push(10);
    b_tree.pop(10);

    assert_eq!(b_tree.max_degree, 4);
    assert!(b_tree.root.is_none());
}

#[test]
fn test_b_tree_push_3_pop_1a() {
    let mut b_tree: BTree = BTree::new(4);
    [10, 20, 30].iter().for_each(|&i| b_tree.push(i));
    b_tree.pop(10);

    assert_eq!(b_tree.max_degree, 4);
    assert!(b_tree.root.is_some());

    if let Some(r) = b_tree.root {
        check_empty_child(&r, &vec![20, 30]);
    }
}

#[test]
fn test_b_tree_push_3_pop_1b() {
    let mut b_tree: BTree = BTree::new(4);
    [10, 20, 30].iter().for_each(|&i| b_tree.push(i));
    b_tree.pop(20);

    assert_eq!(b_tree.max_degree, 4);
    assert!(b_tree.root.is_some());

    if let Some(r) = b_tree.root {
        check_empty_child(&r, &vec![10, 30]);
    }
}

#[test]
fn test_b_tree_push_3_pop_1c() {
    let mut b_tree: BTree = BTree::new(4);
    [10, 20, 30].iter().for_each(|&i| b_tree.push(i));
    b_tree.pop(30);

    assert_eq!(b_tree.max_degree, 4);
    assert!(b_tree.root.is_some());

    if let Some(r) = b_tree.root {
        check_empty_child(&r, &vec![10, 20]);
    }
}
