use algs4::rbt::node::{Colors, Link, ST};

#[test]
fn node_new_is_a_red_leaf() {
    let link: Link<i32, i32> = Link::new(1, 10);
    assert!(link.is_red());
    assert_eq!(link.size(), 1);
    assert_eq!(link.as_ref().unwrap().key, 1);
    assert_eq!(link.as_ref().unwrap().val, 10);
}

#[test]
fn node_absent_link_is_black_and_empty() {
    let mut link: Link<i32, i32> = None;
    assert!(!link.is_red());
    assert_eq!(link.size(), 0);
    link.change_red();
    assert!(!link.is_red());
    assert!(link.is_none());
}

#[test]
fn node_change_color() {
    let mut link: Link<i32, i32> = Link::new(1, 10);
    link.change_color(Colors::BLACK);
    assert!(!link.is_red());
    link.change_color(Colors::RED);
    assert!(link.is_red());
}

#[test]
fn node_put_keeps_sizes_and_leans_left() {
    let mut link: Link<i32, i32> = None;
    link.put(1, 10);
    assert_eq!(link.size(), 1);
    link.change_black();
    link.put(2, 20);
    // the new red right link was rotated to the left
    assert_eq!(link.as_ref().unwrap().key, 2);
    assert!(!link.is_red());
    assert_eq!(link.size(), 2);
    link.put(3, 30);
    // two red children were flipped upward
    assert_eq!(link.as_ref().unwrap().key, 2);
    assert!(link.is_red());
    assert_eq!(link.size(), 3);
    link.change_black();
    link.put(2, 22);
    assert_eq!(link.size(), 3);
    assert_eq!(link.as_ref().unwrap().val, 22);
}

#[test]
fn node_rotations_and_flip() {
    let mut link: Link<i32, i32> = None;
    link.put(2, 0);
    link.change_black();
    link.put(1, 0);
    // 2 with a red left child 1
    assert_eq!(link.as_ref().unwrap().key, 2);
    link.rotate_right();
    assert_eq!(link.as_ref().unwrap().key, 1);
    assert_eq!(link.size(), 2);
    assert!(!link.is_red());
    link.rotate_left();
    assert_eq!(link.as_ref().unwrap().key, 2);
    assert_eq!(link.size(), 2);
    link.flip_colors();
    assert!(link.is_red());
}
