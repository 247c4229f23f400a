use algs4::tree::binary_search_tree::BinarySearchTree;

#[test]
fn binary_search_tree_test() {
    let mut bst = BinarySearchTree::<&str, isize>::new();
    assert_eq!(bst.size(), 0);

    bst.put("S", 1);
    bst.put("E", 2);
    bst.put("X", 3);
    bst.put("A", 4);
    bst.put("R", 5);
    bst.put("C", 6);
    bst.put("H", 7);
    bst.put("M", 8);

    assert_eq!(bst.size(), 8);

    match *bst.get("C") {
        Some(ref node) => assert_eq!(node.val, 6),
        None => assert!(false),
    }

    match *bst.min() {
        Some(ref node) => assert_eq!(node.key, "A"),
        None => assert!(false),
    }

    match *bst.max() {
        Some(ref node) => assert_eq!(node.key, "X"),
        None => assert!(false),
    }

    match *bst.floor("G") {
        Some(ref node) => assert_eq!(node.key, "E"),
        None => assert!(false),
    }

    match *bst.ceiling("G") {
        Some(ref node) => assert_eq!(node.key, "H"),
        None => assert!(false),
    }

    match *bst.select(5) {
        Some(ref node) => assert_eq!(node.key, "R"),
        None => assert!(false),
    }

    assert_eq!(bst.rank("R"), 5);

    bst.delete_min();
    assert_eq!(bst.size(), 7);

    match *bst.min() {
        Some(ref node) => assert_eq!(node.key, "C"),
        None => assert!(false),
    }

    bst.delete_max();
    assert_eq!(bst.size(), 6);

    match *bst.max() {
        Some(ref node) => assert_eq!(node.key, "S"),
        None => assert!(false),
    }

    bst.delete("E");
    match *bst.get("E") {
        Some(_) => assert!(false),
        None => assert!(true),
    }

    assert_eq!(bst.size(), 5);
}
