use algs4::rbt::node::{Link, ST};

#[test]
fn node_test() {
    let mut tree_node = Link::new("A", 1);
    assert_eq!(tree_node.is_red(), true);

    tree_node.change_black();
    assert_eq!(tree_node.is_red(), false);

    tree_node.change_red();
    assert_eq!(tree_node.is_red(), true);
}
