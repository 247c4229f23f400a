use algs4::tree::red_black_tree::RedBlackTree;

#[test]
fn red_black_tree_test() {
    let mut tree = RedBlackTree::<&str, isize>::new();
    // A C E H M R S X
    tree.put("S", 1);
    tree.put("E", 2);
    tree.put("X", 3);
    tree.put("A", 4);
    tree.put("R", 5);
    tree.put("C", 6);
    tree.put("H", 7);
    tree.put("M", 8);

    // a key that is not in the tree
    assert_eq!(tree.floor("J").as_ref().unwrap().key, "H");
    assert_eq!(tree.ceiling("J").as_ref().unwrap().key, "M");

    // a key that is in the tree is its own floor and ceiling
    assert_eq!(tree.floor("R").as_ref().unwrap().key, "R");
    assert_eq!(tree.ceiling("R").as_ref().unwrap().key, "R");

    assert_eq!(tree.min().as_ref().unwrap().key, "A");
    assert_eq!(tree.max().as_ref().unwrap().key, "X");

    assert_eq!(tree.select(0).as_ref().unwrap().key, "A");
    assert_eq!(tree.select(1).as_ref().unwrap().key, "C");
    assert_eq!(tree.select(2).as_ref().unwrap().key, "E");
    assert_eq!(tree.select(3).as_ref().unwrap().key, "H");
    assert_eq!(tree.select(4).as_ref().unwrap().key, "M");
    assert_eq!(tree.select(5).as_ref().unwrap().key, "R");
    assert_eq!(tree.select(6).as_ref().unwrap().key, "S");
    assert_eq!(tree.select(7).as_ref().unwrap().key, "X");
    assert!(tree.select(8).is_none());

    assert_eq!(tree.rank("A"), 0);
    assert_eq!(tree.rank("C"), 1);
    assert_eq!(tree.rank("E"), 2);
    assert_eq!(tree.rank("H"), 3);
    assert_eq!(tree.rank("M"), 4);
    assert_eq!(tree.rank("R"), 5);
    assert_eq!(tree.rank("S"), 6);
    assert_eq!(tree.rank("X"), 7);

    assert_eq!(tree.size(), 8);

    assert_eq!(tree.get("S"), Some(&1));

    tree.delete_min();
    assert_eq!(tree.size(), 7);
    assert!(tree.get("A").is_none());
    assert_eq!(tree.select(0).as_ref().unwrap().key, "C");

    tree.delete_max();
    assert_eq!(tree.size(), 6);
    assert!(tree.get("X").is_none());
    assert_eq!(tree.select(5).as_ref().unwrap().key, "S");

    tree.delete("S");
    assert_eq!(tree.size(), 5);
    assert!(tree.get("S").is_none());

    tree.pre_order();
}
