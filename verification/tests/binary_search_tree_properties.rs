use algs4::tree::binary_search_tree::BinarySearchTree;

fn keys_of(bst: &BinarySearchTree<i64, i64>) -> Vec<i64> {
    let mut keys = Vec::new();
    let mut k = 0;
    while let Some(node) = bst.select(k) {
        keys.push(node.key);
        k += 1;
    }
    keys
}

#[test]
fn bst_empty() {
    let mut bst = BinarySearchTree::<i64, i64>::new();
    assert_eq!(bst.size(), 0);
    assert!(bst.min().is_none());
    assert!(bst.max().is_none());
    assert!(bst.get(1).is_none());
    assert!(bst.floor(1).is_none());
    assert!(bst.ceiling(1).is_none());
    assert!(bst.select(0).is_none());
    assert_eq!(bst.rank(1), 0);
    bst.delete_min();
    bst.delete_max();
    bst.delete(1);
    assert_eq!(bst.size(), 0);
}

#[test]
fn bst_put_get_delete() {
    let mut bst = BinarySearchTree::new();
    for i in 0..97_i64 {
        let key = (i * 31) % 97;
        bst.put(key, key * 2);
        assert_eq!(bst.get(key).as_ref().unwrap().val, key * 2);
        assert_eq!(bst.size(), i as usize + 1);
    }
    bst.put(5, -5);
    assert_eq!(bst.size(), 97);
    assert_eq!(bst.get(5).as_ref().unwrap().val, -5);
    assert_eq!(keys_of(&bst), (0..97).collect::<Vec<i64>>());
    for i in 0..97_i64 {
        let key = (i * 53) % 97;
        bst.delete(key);
        assert!(bst.get(key).is_none());
        assert_eq!(bst.size(), 96 - i as usize);
        let keys = keys_of(&bst);
        assert_eq!(keys.len(), bst.size());
        assert!(keys.windows(2).all(|pair| pair[0] < pair[1]));
    }
}

#[test]
fn bst_delete_absent_key() {
    let mut bst = BinarySearchTree::new();
    for key in [5_i64, 2, 8] {
        bst.put(key, key);
    }
    bst.delete(3);
    bst.delete(9);
    assert_eq!(keys_of(&bst), [2, 5, 8]);
}

#[test]
fn bst_delete_node_with_two_children() {
    let mut bst = BinarySearchTree::new();
    for key in [50_i64, 20, 80, 10, 30, 70, 90, 60, 75] {
        bst.put(key, key + 1);
    }
    bst.delete(50);
    assert_eq!(keys_of(&bst), [10, 20, 30, 60, 70, 75, 80, 90]);
    assert_eq!(bst.get(60).as_ref().unwrap().val, 61);
    bst.delete(80);
    assert_eq!(keys_of(&bst), [10, 20, 30, 60, 70, 75, 90]);
    bst.delete(10);
    bst.delete(20);
    assert_eq!(keys_of(&bst), [30, 60, 70, 75, 90]);
    assert_eq!(bst.size(), 5);
}

#[test]
fn bst_order_statistics() {
    let mut bst = BinarySearchTree::new();
    for i in 0..20_i64 {
        bst.put((i * 7) % 20 * 5, i);
    }
    for k in 0..20_usize {
        assert_eq!(bst.select(k).as_ref().unwrap().key, 5 * k as i64);
        assert_eq!(bst.rank(5 * k as i64), k);
        assert_eq!(bst.rank(5 * k as i64 + 1), k + 1);
    }
    assert!(bst.select(20).is_none());
    assert_eq!(bst.floor(12).as_ref().unwrap().key, 10);
    assert_eq!(bst.floor(10).as_ref().unwrap().key, 10);
    assert_eq!(bst.ceiling(12).as_ref().unwrap().key, 15);
    assert_eq!(bst.ceiling(15).as_ref().unwrap().key, 15);
    assert!(bst.floor(-1).is_none());
    assert!(bst.ceiling(96).is_none());
    assert_eq!(bst.min().as_ref().unwrap().key, 0);
    assert_eq!(bst.max().as_ref().unwrap().key, 95);
}

#[test]
fn bst_delete_min_and_max() {
    let mut bst = BinarySearchTree::new();
    for key in [4_i64, 2, 6, 1, 3, 5, 7] {
        bst.put(key, key);
    }
    bst.delete_min();
    assert_eq!(keys_of(&bst), [2, 3, 4, 5, 6, 7]);
    bst.delete_max();
    assert_eq!(keys_of(&bst), [2, 3, 4, 5, 6]);
    bst.delete_min();
    bst.delete_min();
    bst.delete_max();
    bst.delete_max();
    assert_eq!(keys_of(&bst), [4]);
    bst.delete_max();
    assert_eq!(bst.size(), 0);
}

#[test]
fn bst_node_accessors() {
    let mut bst = BinarySearchTree::new();
    for key in [5_i64, 2, 8, 1, 9] {
        bst.put(key, key * 10);
    }
    let node = bst.get(8).as_ref().unwrap();
    assert_eq!(*node.key(), 8);
    assert_eq!(*node.val(), 80);
    let least = bst.min().as_ref().unwrap();
    assert_eq!(*least.key(), 1);
    assert_eq!(*least.val(), 10);
}
