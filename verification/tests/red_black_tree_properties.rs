use algs4::rbt::node::Colors;
use algs4::tree::red_black_tree::RedBlackTree;

fn letters() -> RedBlackTree<&'static str, isize> {
    let mut tree = RedBlackTree::new();
    let mut val = 0;
    for key in ["S", "E", "X", "A", "R", "C", "H", "M"] {
        val += 1;
        tree.put(key, val);
    }
    tree
}

fn keys_in_order<V>(tree: &RedBlackTree<i64, V>) -> Vec<i64> {
    tree.in_order().iter().map(|node| node.key).collect()
}

fn assert_invariants<V>(tree: &RedBlackTree<i64, V>) {
    assert!(tree.is_balanced());
    assert!(tree.is_left_leaning());
    let keys = keys_in_order(tree);
    assert_eq!(keys.len(), tree.size());
    for pair in keys.windows(2) {
        assert!(pair[0] < pair[1]);
    }
}

#[test]
fn in_order_ascends_after_any_puts() {
    let mut tree = RedBlackTree::new();
    for i in 0..211_i64 {
        tree.put((i * 37) % 211, i);
        assert_invariants(&tree);
    }
    assert_eq!(keys_in_order(&tree), (0..211).collect::<Vec<i64>>());
}

#[test]
fn size_is_the_number_of_entries() {
    let mut tree = RedBlackTree::new();
    assert_eq!(tree.size(), 0);
    assert_eq!(tree.in_order().len(), 0);
    for i in 0..50_i64 {
        tree.put(i % 20, i);
        assert_eq!(tree.size(), tree.in_order().len());
    }
    assert_eq!(tree.size(), 20);
}

#[test]
fn invariants_hold_after_every_mutation() {
    let mut tree = RedBlackTree::new();
    for i in 0..101_i64 {
        tree.put((i * 61) % 101, ());
        assert_invariants(&tree);
    }
    for i in 0..40_i64 {
        tree.delete((i * 17) % 101);
        assert_invariants(&tree);
    }
    for _ in 0..20 {
        tree.delete_min();
        assert_invariants(&tree);
        tree.delete_max();
        assert_invariants(&tree);
    }
    assert_eq!(tree.size(), 21);
    while tree.size() > 0 {
        tree.delete_min();
        assert_invariants(&tree);
    }
    assert_eq!(tree.size(), 0);
}

#[test]
fn rank_of_selected_is_its_index() {
    let mut tree = RedBlackTree::new();
    for i in 0..64_i64 {
        tree.put((i * 5) % 64 * 3, i);
    }
    for k in 0..tree.size() {
        let key = tree.select(k).as_ref().unwrap().key;
        assert_eq!(key, 3 * k as i64);
        assert_eq!(tree.rank(key), k);
    }
    assert!(tree.select(tree.size()).is_none());
    assert_eq!(tree.rank(-1), 0);
    assert_eq!(tree.rank(1), 1);
    assert_eq!(tree.rank(1000), 64);
}

#[test]
fn floor_and_ceiling_bracket_the_key() {
    let mut tree = RedBlackTree::new();
    for i in 0..30_i64 {
        tree.put((i * 7) % 30 * 10, i);
    }
    for key in -5..300_i64 {
        let floor = tree.floor(key).as_ref().map(|node| node.key);
        let ceiling = tree.ceiling(key).as_ref().map(|node| node.key);
        if key < 0 {
            assert_eq!(floor, None);
        } else {
            assert_eq!(floor, Some(key / 10 * 10));
        }
        if key > 290 {
            assert_eq!(ceiling, None);
        } else {
            assert_eq!(ceiling, Some((key + 9).div_euclid(10) * 10));
        }
        if let (Some(floor), Some(ceiling)) = (floor, ceiling) {
            assert!(floor <= key && key <= ceiling);
        }
    }
}

#[test]
fn put_then_get_and_delete_then_get() {
    let mut tree = RedBlackTree::new();
    for i in 0..40_i64 {
        tree.put(i, i * i);
        assert_eq!(tree.get(i), Some(&(i * i)));
    }
    tree.put(7, -7);
    assert_eq!(tree.get(7), Some(&-7));
    assert_eq!(tree.size(), 40);
    for i in 0..40_i64 {
        tree.delete(i);
        assert_eq!(tree.get(i), None);
        if i < 39 {
            let next = i + 1;
            assert_eq!(tree.get(next), Some(&(if next == 7 { -7 } else { next * next })));
        }
    }
    assert_eq!(tree.size(), 0);
}

#[test]
fn letters_scenario() {
    let tree = letters();
    assert_eq!(tree.size(), 8);
    assert_eq!(tree.min().as_ref().unwrap().key, "A");
    assert_eq!(tree.max().as_ref().unwrap().key, "X");
    assert_eq!(tree.floor("J").as_ref().unwrap().key, "H");
    assert_eq!(tree.ceiling("J").as_ref().unwrap().key, "M");
    assert_eq!(tree.select(5).as_ref().unwrap().key, "R");
    assert_eq!(tree.rank("R"), 5);
    assert_eq!(tree.get("R"), Some(&5));
    assert!(tree.is_balanced());
    assert!(tree.is_left_leaning());
}

#[test]
fn letters_scenario_delete_min() {
    let mut tree = letters();
    tree.delete_min();
    assert_eq!(tree.size(), 7);
    assert!(tree.get("A").is_none());
    assert_eq!(tree.min().as_ref().unwrap().key, "C");
}

#[test]
fn letters_scenario_delete_node_with_two_children() {
    let mut tree = letters();
    assert_eq!(tree.pre_order()[0].key, "M");
    tree.delete("M");
    assert_eq!(tree.size(), 7);
    let keys: Vec<&str> = tree.in_order().iter().map(|node| node.key).collect();
    assert_eq!(keys, ["A", "C", "E", "H", "R", "S", "X"]);
    assert!(tree.get("M").is_none());
    assert!(tree.is_balanced());
    assert!(tree.is_left_leaning());
}

#[test]
fn letters_scenario_traversals() {
    let tree = letters();
    let keys = |nodes: Vec<&algs4::tree::red_black_tree::Node<&'static str, isize>>| {
        nodes.iter().map(|node| node.key).collect::<Vec<&str>>()
    };
    assert_eq!(keys(tree.pre_order()), ["M", "E", "C", "A", "H", "S", "R", "X"]);
    assert_eq!(keys(tree.in_order()), ["A", "C", "E", "H", "M", "R", "S", "X"]);
    assert_eq!(keys(tree.post_order()), ["A", "C", "H", "E", "R", "X", "S", "M"]);
    assert_eq!(keys(tree.level_order()), ["M", "E", "S", "C", "H", "R", "X", "A"]);
    let vals: Vec<isize> = tree.in_order().iter().map(|node| node.val).collect();
    assert_eq!(vals, [4, 6, 2, 7, 8, 5, 1, 3]);
}

#[test]
fn traversals_of_ten_keys() {
    let mut tree = RedBlackTree::new();
    for key in 1..=10_i64 {
        tree.put(key, ());
    }
    let keys = |nodes: Vec<&algs4::tree::red_black_tree::Node<i64, ()>>| {
        nodes.iter().map(|node| node.key).collect::<Vec<i64>>()
    };
    assert_eq!(keys(tree.pre_order()), [4, 2, 1, 3, 8, 6, 5, 7, 10, 9]);
    assert_eq!(keys(tree.post_order()), [1, 3, 2, 5, 7, 6, 9, 10, 8, 4]);
    assert_eq!(keys(tree.level_order()), [4, 2, 8, 1, 3, 6, 10, 5, 7, 9]);
    assert_eq!(keys(tree.in_order()), [1, 2, 3, 4, 5, 6, 7, 8, 9, 10]);
}

#[test]
fn empty_tree() {
    let mut tree = RedBlackTree::<i64, i64>::new();
    assert_eq!(tree.size(), 0);
    assert!(tree.min().is_none());
    assert!(tree.max().is_none());
    assert!(tree.select(0).is_none());
    assert!(tree.floor(1).is_none());
    assert!(tree.ceiling(1).is_none());
    assert_eq!(tree.rank(1), 0);
    assert_eq!(tree.get(1), None);
    assert!(tree.pre_order().is_empty());
    assert!(tree.in_order().is_empty());
    assert!(tree.post_order().is_empty());
    assert!(tree.level_order().is_empty());
    tree.delete_min();
    tree.delete_max();
    tree.delete(1);
    assert_eq!(tree.size(), 0);
    assert!(tree.is_balanced());
    assert!(tree.is_left_leaning());
}

#[test]
fn delete_of_an_absent_key_changes_nothing() {
    let mut tree = RedBlackTree::new();
    for key in [50_i64, 20, 80, 10, 30, 70, 90] {
        tree.put(key, key);
    }
    let before: Vec<(i64, i64)> = tree.pre_order().iter().map(|n| (n.key, n.val)).collect();
    for key in [0_i64, 15, 25, 55, 75, 85, 100] {
        tree.delete(key);
    }
    let after: Vec<(i64, i64)> = tree.pre_order().iter().map(|n| (n.key, n.val)).collect();
    assert_eq!(before, after);
    assert_eq!(tree.size(), 7);
}

#[test]
fn single_entry() {
    let mut tree = RedBlackTree::new();
    tree.put(3_i64, "three");
    assert_eq!(tree.size(), 1);
    assert_eq!(tree.min().as_ref().unwrap().key, 3);
    assert_eq!(tree.max().as_ref().unwrap().key, 3);
    assert_eq!(tree.floor(3).as_ref().unwrap().key, 3);
    assert_eq!(tree.ceiling(3).as_ref().unwrap().key, 3);
    assert!(tree.floor(2).is_none());
    assert!(tree.ceiling(4).is_none());
    tree.put(3, "drei");
    assert_eq!(tree.size(), 1);
    assert_eq!(tree.get(3), Some(&"drei"));
    tree.delete_max();
    assert_eq!(tree.size(), 0);
    tree.put(4, "four");
    tree.delete(4);
    assert_eq!(tree.size(), 0);
    tree.put(5, "five");
    tree.delete_min();
    assert_eq!(tree.size(), 0);
}

#[test]
fn delete_max_takes_the_greatest() {
    let mut tree = RedBlackTree::new();
    for i in 0..33_i64 {
        tree.put((i * 10) % 33, i);
    }
    for greatest in (0..33_i64).rev() {
        assert_eq!(tree.max().as_ref().unwrap().key, greatest);
        tree.delete_max();
        assert_eq!(tree.get(greatest), None);
        assert_eq!(tree.size(), greatest as usize);
        assert_invariants(&tree);
    }
}

fn shape_of(
    tree: &RedBlackTree<&'static str, isize>,
) -> Vec<(&'static str, bool, usize)> {
    tree.pre_order()
        .iter()
        .map(|node| (node.key, matches!(node.color, Colors::RED), node.n))
        .collect()
}

#[test]
fn shape_after_puts() {
    let tree = letters();
    assert_eq!(
        shape_of(&tree),
        [
            ("M", false, 8),
            ("E", false, 4),
            ("C", false, 2),
            ("A", true, 1),
            ("H", false, 1),
            ("S", false, 3),
            ("R", false, 1),
            ("X", false, 1),
        ]
    );
}

#[test]
fn shape_after_delete_min() {
    let mut tree = letters();
    tree.delete_min();
    assert_eq!(
        shape_of(&tree),
        [
            ("M", false, 7),
            ("E", false, 3),
            ("C", false, 1),
            ("H", false, 1),
            ("S", false, 3),
            ("R", false, 1),
            ("X", false, 1),
        ]
    );
}

#[test]
fn shape_after_delete_max() {
    let mut tree = letters();
    tree.delete_max();
    assert_eq!(
        shape_of(&tree),
        [
            ("M", false, 7),
            ("E", true, 4),
            ("C", false, 2),
            ("A", true, 1),
            ("H", false, 1),
            ("S", false, 2),
            ("R", true, 1),
        ]
    );
    let level: Vec<&str> = tree.level_order().iter().map(|node| node.key).collect();
    assert_eq!(level, ["M", "E", "S", "C", "H", "R", "A"]);
}

#[test]
fn shape_after_delete_of_the_root_key() {
    let mut tree = letters();
    tree.delete("M");
    assert_eq!(
        shape_of(&tree),
        [
            ("R", false, 7),
            ("E", true, 4),
            ("C", false, 2),
            ("A", true, 1),
            ("H", false, 1),
            ("X", false, 2),
            ("S", true, 1),
        ]
    );
    let post: Vec<&str> = tree.post_order().iter().map(|node| node.key).collect();
    assert_eq!(post, ["A", "C", "H", "E", "S", "X", "R"]);
    let level: Vec<&str> = tree.level_order().iter().map(|node| node.key).collect();
    assert_eq!(level, ["R", "E", "X", "C", "H", "S", "A"]);
}

#[test]
fn shape_after_delete_on_the_left() {
    let mut tree = letters();
    tree.delete("E");
    assert_eq!(
        shape_of(&tree),
        [
            ("M", false, 7),
            ("C", false, 3),
            ("A", false, 1),
            ("H", false, 1),
            ("S", false, 3),
            ("R", false, 1),
            ("X", false, 1),
        ]
    );
}

#[test]
fn node_accessors_of_the_tree() {
    let tree = letters();
    let least = tree.min().as_ref().unwrap();
    assert_eq!(*least.key(), "A");
    assert_eq!(*least.val(), 4);
    let picked = tree.select(5).as_ref().unwrap();
    assert_eq!(*picked.key(), "R");
    assert_eq!(*picked.val(), 5);
}

#[test]
fn put_of_a_bound_key_keeps_the_shape() {
    let mut tree = letters();
    let before = shape_of(&tree);
    tree.put("H", 70);
    assert_eq!(shape_of(&tree), before);
    assert_eq!(tree.get("H"), Some(&70));
    assert_eq!(tree.size(), 8);
}
