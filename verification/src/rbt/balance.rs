//! The balance engine: rotations, color flips and the moves that lend a red
//! link downward. Each changes one node and its nearest descendants.

use super::laws::{
    lemma_balanced_up_fit, lemma_moved_red_left_fit, lemma_moved_red_right_fit, lemma_resized_fit,
    lemma_rotated_left_fit, lemma_rotated_right_fit,
};
use super::node::{Colors, Link, Node};
use super::shape::{
    balanced_up, count, fit, flipped, left_of, make, moved_red_left, moved_red_right, rebalanced,
    recolored, red, resized, right_of, rotated_left, rotated_right, with_left, with_right,
};
use vstd::prelude::*;

verus! {

/// The direction of a color flip.
pub(crate) enum FlipType {
    /// The node becomes red and its children black.
    UP,
    /// The node becomes black and its children red.
    DOWN,
}

/// A red leaf with the given entry.
pub(crate) fn new<K, V>(key: K, val: V) -> (link: Link<K, V>)
    ensures
        link == make(key, val, 1, Colors::RED, None, None),
{
    let boxed_node = Box::new(
        Node { key, val, n: 1, color: Colors::RED, left: None, right: None },
    );

    Some(boxed_node)
}

/// The size stored at the root; 0 for an absent link.
pub(crate) fn size<K, V>(link: &Link<K, V>) -> (n: usize)
    ensures
        n == count(*link),
{
    match link {
        Some(boxed_node) => boxed_node.n,
        None => 0,
    }
}

/// Sets the size stored at the root from the sizes stored at its children.
pub(crate) fn update_size<K, V>(link: &mut Link<K, V>)
    requires
        count(left_of(*old(link))) + count(right_of(*old(link))) + 1 <= usize::MAX,
    ensures
        *final(link) == resized(*old(link)),
{
    match link {
        Some(node) => {
            node.n = size(&node.left) + size(&node.right) + 1;
        },
        None => {},
    }
}

/// Whether the link is red; an absent link counts as black.
pub(crate) fn is_red<K, V>(link: &Link<K, V>) -> (r: bool)
    ensures
        r == red(*link),
{
    match link {
        Some(boxed_node) => {
            match boxed_node.color {
                Colors::RED => true,
                Colors::BLACK => false,
            }
        },
        None => false,
    }
}

/// The left child of the root.
pub(crate) fn left<K, V>(link: &Link<K, V>) -> (l: &Link<K, V>)
    requires
        link is Some,
    ensures
        *l == left_of(*link),
{
    &link.as_ref().unwrap().left
}

/// The left child of the root, for writing.
pub(crate) fn left_mut<K, V>(link: &mut Link<K, V>) -> (l: &mut Link<K, V>)
    requires
        *old(link) is Some,
    ensures
        *l == left_of(*old(link)),
        *final(link) == with_left(*old(link), *final(l)),
{
    &mut link.as_mut().unwrap().left
}

/// The right child of the root.
pub(crate) fn right<K, V>(link: &Link<K, V>) -> (r: &Link<K, V>)
    requires
        link is Some,
    ensures
        *r == right_of(*link),
{
    &link.as_ref().unwrap().right
}

/// The right child of the root, for writing.
pub(crate) fn right_mut<K, V>(link: &mut Link<K, V>) -> (r: &mut Link<K, V>)
    requires
        *old(link) is Some,
    ensures
        *r == right_of(*old(link)),
        *final(link) == with_right(*old(link), *final(r)),
{
    &mut link.as_mut().unwrap().right
}

/// Rotates the right child up: it takes the color and the stored size of the
/// root, which becomes its red left child.
pub(crate) fn rotate_left<K, V>(link: &mut Link<K, V>)
    requires
        right_of(*old(link)) is Some,
        count(left_of(*old(link))) + count(left_of(right_of(*old(link)))) + 1 <= usize::MAX,
    ensures
        *final(link) == rotated_left(*old(link)),
{
    let mut h = link.take();
    let mut x = right_mut(&mut h).take();

    match (&mut x, &h) {
        (Some(node), Some(top)) => {
            node.color = top.color;
            node.n = top.n;
        },
        _ => {},
    }

    match &mut h {
        Some(node) => {
            node.color = Colors::RED;
            node.right = left_mut(&mut x).take();
        },
        None => {},
    }

    update_size(&mut h);

    match &mut x {
        Some(node) => {
            node.left = h;
        },
        None => {},
    }

    *link = x;
}

/// Rotates the left child up: it takes the color and the stored size of the
/// root, which becomes its red right child.
pub(crate) fn rotate_right<K, V>(link: &mut Link<K, V>)
    requires
        left_of(*old(link)) is Some,
        count(right_of(left_of(*old(link)))) + count(right_of(*old(link))) + 1 <= usize::MAX,
    ensures
        *final(link) == rotated_right(*old(link)),
{
    let mut h = link.take();
    let mut x = left_mut(&mut h).take();

    match (&mut x, &h) {
        (Some(node), Some(top)) => {
            node.color = top.color;
            node.n = top.n;
        },
        _ => {},
    }

    match &mut h {
        Some(node) => {
            node.color = Colors::RED;
            node.left = right_mut(&mut x).take();
        },
        None => {},
    }

    update_size(&mut h);

    match &mut x {
        Some(node) => {
            node.right = h;
        },
        None => {},
    }

    *link = x;
}

/// Gives the root of `link` the color `color`, where there is a root.
pub(crate) fn change_color<K, V>(link: &mut Link<K, V>, color: Colors)
    ensures
        *final(link) == recolored(*old(link), color),
{
    match link {
        Some(node) => {
            node.color = color;
        },
        None => {},
    }
}

/// Flips the colors of the root and its children: upward, the root becomes
/// red and the children black; downward, the other way round.
pub(crate) fn flip_colors<K, V>(link: &mut Link<K, V>, flip_type: FlipType)
    ensures
        *final(link) == flipped(*old(link), flip_type is UP),
{
    match link {
        Some(node) => {
            match flip_type {
                FlipType::UP => {
                    node.color = Colors::RED;
                    change_color(&mut node.left, Colors::BLACK);
                    change_color(&mut node.right, Colors::BLACK);
                },
                FlipType::DOWN => {
                    node.color = Colors::BLACK;
                    change_color(&mut node.left, Colors::RED);
                    change_color(&mut node.right, Colors::RED);
                },
            }
        },
        None => {},
    }
}

/// The three steps that restore the left-leaning shape at the root: a red
/// right link beside a black left link is rotated left, two red left links
/// in a row are rotated right, and two red children are flipped upward.
pub(crate) fn rebalance<K, V>(link: &mut Link<K, V>)
    requires
        fit(*old(link)),
    ensures
        *final(link) == rebalanced(*old(link)),
{
    proof {
        reveal(rebalanced);
        lemma_balanced_up_fit(*link);
    }

    if !is_red(left(link)) && is_red(right(link)) {
        proof {
            lemma_rotated_left_fit(*link);
        }
        rotate_left(link);
    }

    if is_red(left(link)) && is_red(left(left(link))) {
        proof {
            lemma_rotated_right_fit(*link);
        }
        rotate_right(link);
    }

    if is_red(left(link)) && is_red(right(link)) {
        flip_colors(link, FlipType::UP);
    }
}

/// Restores the left-leaning shape at the root after a change below it, and
/// recomputes the root's size.
pub(crate) fn balance<K, V>(link: &mut Link<K, V>)
    requires
        fit(*old(link)),
    ensures
        *final(link) == balanced_up(*old(link)),
{
    proof {
        reveal(rebalanced);
        reveal(balanced_up);
        lemma_balanced_up_fit(*link);
    }
    rebalance(link);

    proof {
        lemma_resized_fit(*link);
    }
    update_size(link);
}

/// Lends a red link to the left child or to its left child, for a descent to
/// the left from a red root whose left child and that child's left link are
/// black.
pub(crate) fn move_red_left<K, V>(link: &mut Link<K, V>)
    requires
        red(*old(link)),
        !red(left_of(*old(link))),
        !red(left_of(left_of(*old(link)))),
        right_of(*old(link)) is Some,
        fit(*old(link)),
    ensures
        *final(link) == moved_red_left(*old(link)),
{
    proof {
        reveal(moved_red_left);
        lemma_moved_red_left_fit(*link);
    }
    flip_colors(link, FlipType::DOWN);

    if is_red(left(right(link))) {
        proof {
            lemma_rotated_right_fit(right_of(*link));
        }
        rotate_right(right_mut(link));
        proof {
            lemma_rotated_left_fit(*link);
        }
        rotate_left(link);
        flip_colors(link, FlipType::UP);
    }
}

/// Lends a red link to the right child or to its right child, for a descent
/// to the right from a red root whose right child and that child's left link
/// are black.
pub(crate) fn move_red_right<K, V>(link: &mut Link<K, V>)
    requires
        red(*old(link)),
        !red(right_of(*old(link))),
        !red(left_of(right_of(*old(link)))),
        left_of(*old(link)) is Some,
        fit(*old(link)),
    ensures
        *final(link) == moved_red_right(*old(link)),
{
    proof {
        reveal(moved_red_right);
        lemma_moved_red_right_fit(*link);
    }
    flip_colors(link, FlipType::DOWN);

    if is_red(left(left(link))) {
        proof {
            lemma_rotated_right_fit(*link);
        }
        rotate_right(link);
        flip_colors(link, FlipType::UP);
    }
}

} // verus!
