//! What a subtree is, as mathematics: its entries in key order, its colors
//! and black height, and the subtree that each balancing primitive makes of it.

use super::node::{Colors, Link, Node};
use crate::order::lt;
use vstd::prelude::*;

verus! {

/// The subtree with the given root fields.
pub open spec fn make<K, V>(
    key: K,
    val: V,
    n: usize,
    color: Colors,
    left: Link<K, V>,
    right: Link<K, V>,
) -> Link<K, V> {
    Some(Box::new(Node { key, val, n, color, left, right }))
}

/// The left child of the root; absent below an absent root.
pub open spec fn left_of<K, V>(link: Link<K, V>) -> Link<K, V> {
    match link {
        Some(node) => node.left,
        None => None,
    }
}

/// The right child of the root; absent below an absent root.
pub open spec fn right_of<K, V>(link: Link<K, V>) -> Link<K, V> {
    match link {
        Some(node) => node.right,
        None => None,
    }
}

/// The entry at the root.
pub open spec fn root_entry<K, V>(link: Link<K, V>) -> (K, V)
    recommends
        link is Some,
{
    (link.unwrap().key, link.unwrap().val)
}

/// The entries of the subtree, left to right.
#[verifier::opaque]
pub open spec fn entries<K, V>(link: Link<K, V>) -> Seq<(K, V)>
    decreases link,
{
    match link {
        None => Seq::empty(),
        Some(node) => entries(node.left).push((node.key, node.val)) + entries(node.right),
    }
}

/// The size stored at the root; 0 for an absent link.
pub open spec fn count<K, V>(link: Link<K, V>) -> usize {
    match link {
        Some(node) => node.n,
        None => 0,
    }
}

/// Every node stores the number of entries of its subtree.
#[verifier::opaque]
pub open spec fn sized<K, V>(link: Link<K, V>) -> bool
    decreases link,
{
    match link {
        None => true,
        Some(node) => node.n == entries(link).len() && sized(node.left) && sized(node.right),
    }
}

/// The subtree has a root, its children store their sizes, and its own size
/// can be stored: what the balancing primitives need to recompute sizes.
pub open spec fn fit<K, V>(link: Link<K, V>) -> bool {
    &&& link is Some
    &&& sized(left_of(link))
    &&& sized(right_of(link))
    &&& entries(link).len() <= usize::MAX
}

/// The link is red; an absent link counts as black.
pub open spec fn red<K, V>(link: Link<K, V>) -> bool {
    link matches Some(node) && node.color is RED
}

/// The number of black links from the link down its left spine to the end.
/// In a balanced subtree every path to an absent link has this many.
#[verifier::opaque]
pub open spec fn black_height<K, V>(link: Link<K, V>) -> nat
    decreases link,
{
    match link {
        None => 0,
        Some(node) => black_height(node.left) + if node.color is BLACK {
            1nat
        } else {
            0nat
        },
    }
}

/// Every path from the link to an absent link has the same number of black
/// links.
#[verifier::opaque]
pub open spec fn balanced<K, V>(link: Link<K, V>) -> bool
    decreases link,
{
    match link {
        None => true,
        Some(node) => black_height(node.left) == black_height(node.right) && balanced(node.left)
            && balanced(node.right),
    }
}

/// No node has a red right link while its left link is black.
#[verifier::opaque]
pub open spec fn left_leaning<K, V>(link: Link<K, V>) -> bool
    decreases link,
{
    match link {
        None => true,
        Some(node) => (red(node.right) ==> red(node.left)) && left_leaning(node.left)
            && left_leaning(node.right),
    }
}

/// No red link has a red left link.
#[verifier::opaque]
pub open spec fn red_apart<K, V>(link: Link<K, V>) -> bool
    decreases link,
{
    match link {
        None => true,
        Some(node) => !(node.color is RED && red(node.left)) && red_apart(node.left) && red_apart(
            node.right,
        ),
    }
}

/// The subtree with a black root whose children are both black made red at
/// the root, so that a deletion has a red link to lend.
pub open spec fn primed<K, V>(link: Link<K, V>) -> Link<K, V> {
    if !red(left_of(link)) && !red(right_of(link)) {
        recolored(link, Colors::RED)
    } else {
        link
    }
}

/// The subtree is a left-leaning red-black tree below a root of either
/// color: no right link is red, no red link has a red left link, and the
/// black heights agree at every node.
#[verifier::opaque]
pub open spec fn llrb<K, V>(link: Link<K, V>) -> bool
    decreases link,
{
    match link {
        None => true,
        Some(node) => {
            &&& !red(node.right)
            &&& !(node.color is RED && red(node.left))
            &&& black_height(node.left) == black_height(node.right)
            &&& llrb(node.left)
            &&& llrb(node.right)
        },
    }
}

/// Both children are left-leaning red-black trees of one black height, and a
/// red root has black children. The root's children may both be red, or the
/// right one alone: what `balance` mends.
pub open spec fn near<K, V>(link: Link<K, V>) -> bool {
    &&& link is Some
    &&& llrb(left_of(link))
    &&& llrb(right_of(link))
    &&& black_height(left_of(link)) == black_height(right_of(link))
    &&& red(link) ==> !red(left_of(link)) && !red(right_of(link))
}

/// A left-leaning red-black tree but for its red root having a red left
/// child.
pub open spec fn almost<K, V>(link: Link<K, V>) -> bool {
    &&& red(link)
    &&& red(left_of(link))
    &&& !red(right_of(link))
    &&& llrb(left_of(link))
    &&& llrb(right_of(link))
    &&& black_height(left_of(link)) == black_height(right_of(link))
}

/// What `delete_max` descends into: both children are left-leaning
/// red-black trees of one black height, and either the root is red above
/// black children, or the root is black and exactly one child is red.
pub open spec fn ripe<K, V>(link: Link<K, V>) -> bool {
    &&& near(link)
    &&& red(link) || red(left_of(link)) != red(right_of(link))
}

/// A subtree about to be entered on the left: `balance` mends it once its
/// left child, which has a red link to lend, was replaced by a left-leaning
/// red-black tree of the same black height that is black if the child was.
pub open spec fn open_left<K, V>(link: Link<K, V>) -> bool {
    &&& near(link)
    &&& left_of(link) is Some
    &&& red(left_of(link)) || red(left_of(left_of(link)))
}

/// A subtree about to be entered on the right: the mirror of `open_left`,
/// but that the right child itself may have a red right child.
pub open spec fn open_right<K, V>(link: Link<K, V>) -> bool {
    &&& link is Some
    &&& right_of(link) is Some
    &&& llrb(left_of(link))
    &&& ripe(right_of(link))
    &&& black_height(left_of(link)) == black_height(right_of(link))
    &&& red(link) ==> !red(left_of(link)) && !red(right_of(link))
}

/// The subtree with the root's stored size set from its children's.
pub open spec fn resized<K, V>(link: Link<K, V>) -> Link<K, V> {
    match link {
        Some(h) => make(
            h.key,
            h.val,
            (count(h.left) + count(h.right) + 1) as usize,
            h.color,
            h.left,
            h.right,
        ),
        None => None,
    }
}

/// The subtree with the root given the color `color`.
pub open spec fn recolored<K, V>(link: Link<K, V>, color: Colors) -> Link<K, V> {
    match link {
        Some(h) => make(h.key, h.val, h.n, color, h.left, h.right),
        None => None,
    }
}

/// The subtree with `left` as the root's left child.
pub open spec fn with_left<K, V>(link: Link<K, V>, left: Link<K, V>) -> Link<K, V> {
    match link {
        Some(h) => make(h.key, h.val, h.n, h.color, left, h.right),
        None => None,
    }
}

/// The subtree with `right` as the root's right child.
pub open spec fn with_right<K, V>(link: Link<K, V>, right: Link<K, V>) -> Link<K, V> {
    match link {
        Some(h) => make(h.key, h.val, h.n, h.color, h.left, right),
        None => None,
    }
}

/// The subtree with the root's entry replaced.
pub open spec fn with_entry<K, V>(link: Link<K, V>, key: K, val: V) -> Link<K, V> {
    match link {
        Some(h) => make(key, val, h.n, h.color, h.left, h.right),
        None => None,
    }
}

/// The subtree rotated left: the right child `x` becomes the root with the
/// old root's color and size; the old root `h` becomes its red left child,
/// takes `x`'s left child as its right child and has its size recomputed.
pub open spec fn rotated_left<K, V>(link: Link<K, V>) -> Link<K, V> {
    match link {
        Some(h) => match h.right {
            Some(x) => make(
                x.key,
                x.val,
                h.n,
                h.color,
                resized(make(h.key, h.val, h.n, Colors::RED, h.left, x.left)),
                x.right,
            ),
            None => link,
        },
        None => None,
    }
}

/// The subtree rotated right: the mirror image of `rotated_left`.
pub open spec fn rotated_right<K, V>(link: Link<K, V>) -> Link<K, V> {
    match link {
        Some(h) => match h.left {
            Some(x) => make(
                x.key,
                x.val,
                h.n,
                h.color,
                x.left,
                resized(make(h.key, h.val, h.n, Colors::RED, x.right, h.right)),
            ),
            None => link,
        },
        None => None,
    }
}

/// The subtree with its colors flipped: upward, the root red and its
/// children black; downward, the root black and its children red.
pub open spec fn flipped<K, V>(link: Link<K, V>, up: bool) -> Link<K, V> {
    let (top, low) = if up {
        (Colors::RED, Colors::BLACK)
    } else {
        (Colors::BLACK, Colors::RED)
    };
    match link {
        Some(h) => make(
            h.key,
            h.val,
            h.n,
            top,
            recolored(h.left, low),
            recolored(h.right, low),
        ),
        None => None,
    }
}

/// The subtree after a red link was moved to the left: colors flipped
/// downward and, where the right child's left link was red, that child
/// rotated right, the root rotated left and colors flipped upward.
#[verifier::opaque]
pub open spec fn moved_red_left<K, V>(link: Link<K, V>) -> Link<K, V> {
    let down = flipped(link, false);
    if red(left_of(right_of(down))) {
        flipped(rotated_left(with_right(down, rotated_right(right_of(down)))), true)
    } else {
        down
    }
}

/// The subtree after a red link was moved to the right: colors flipped
/// downward and, where the left child's left link was red, the root rotated
/// right and colors flipped upward.
#[verifier::opaque]
pub open spec fn moved_red_right<K, V>(link: Link<K, V>) -> Link<K, V> {
    let down = flipped(link, false);
    if red(left_of(left_of(down))) {
        flipped(rotated_right(down), true)
    } else {
        down
    }
}

/// The subtree as `delete_min` and `delete` enter it on the left: a red link
/// moved to the left where the left child and its left link are black.
#[verifier::opaque]
pub open spec fn lent_left<K, V>(link: Link<K, V>) -> Link<K, V> {
    if !red(left_of(link)) && !red(left_of(left_of(link))) {
        moved_red_left(link)
    } else {
        link
    }
}

/// The subtree as `delete_max` and `delete` turn it before they go right: a
/// red left link rotated to the right.
#[verifier::opaque]
pub open spec fn turned<K, V>(link: Link<K, V>) -> Link<K, V> {
    if red(left_of(link)) {
        rotated_right(link)
    } else {
        link
    }
}

/// The subtree as `delete_max` and `delete` enter it on the right: a red
/// link moved to the right where the right child and its left link are
/// black.
#[verifier::opaque]
pub open spec fn lent_right<K, V>(link: Link<K, V>) -> Link<K, V> {
    if !red(right_of(link)) && !red(left_of(right_of(link))) {
        moved_red_right(link)
    } else {
        link
    }
}

/// `sub` leads to a node of the subtree: to its root, or to a node below.
pub open spec fn within<K, V>(link: Link<K, V>, sub: Link<K, V>) -> bool
    decreases link,
{
    match link {
        Some(node) => sub == link || within(node.left, sub) || within(node.right, sub),
        None => false,
    }
}

/// The link on the way down from the root that leads to the node with the
/// key `key`; absent where the way ends without meeting the key.
pub open spec fn link_at<K: PartialOrd, V>(link: Link<K, V>, key: K) -> Link<K, V>
    decreases link,
{
    match link {
        Some(node) => if lt(key, node.key) {
            link_at(node.left, key)
        } else if lt(node.key, key) {
            link_at(node.right, key)
        } else {
            link
        },
        None => None,
    }
}

/// The link at the end of the left spine: the one that holds the least key.
pub open spec fn min_link<K, V>(link: Link<K, V>) -> Link<K, V>
    decreases link,
{
    match link {
        Some(node) => if node.left is Some {
            min_link(node.left)
        } else {
            link
        },
        None => link,
    }
}

/// The subtree with `least` in the place of the link at the end of its left
/// spine.
pub open spec fn with_min<K, V>(link: Link<K, V>, least: Link<K, V>) -> Link<K, V>
    decreases link,
{
    match link {
        Some(node) => if node.left is Some {
            with_left(link, with_min(node.left, least))
        } else {
            least
        },
        None => least,
    }
}

/// The link at the end of the right spine: the one that holds the greatest
/// key.
pub open spec fn max_link<K, V>(link: Link<K, V>) -> Link<K, V>
    decreases link,
{
    match link {
        Some(node) => if node.right is Some {
            max_link(node.right)
        } else {
            link
        },
        None => link,
    }
}

/// The first step of `balance`: a red right link beside a black left link is
/// rotated to the left.
pub open spec fn leaned_left<K, V>(link: Link<K, V>) -> Link<K, V> {
    if !red(left_of(link)) && red(right_of(link)) {
        rotated_left(link)
    } else {
        link
    }
}

/// The second step of `balance`: two red left links in a row are rotated to
/// the right.
pub open spec fn straightened<K, V>(link: Link<K, V>) -> Link<K, V> {
    if red(left_of(link)) && red(left_of(left_of(link))) {
        rotated_right(link)
    } else {
        link
    }
}

/// The third step of `balance`: two red children are flipped upward.
pub open spec fn split<K, V>(link: Link<K, V>) -> Link<K, V> {
    if red(left_of(link)) && red(right_of(link)) {
        flipped(link, true)
    } else {
        link
    }
}

/// The subtree after the three steps of `balance` in order.
#[verifier::opaque]
pub open spec fn rebalanced<K, V>(link: Link<K, V>) -> Link<K, V> {
    split(straightened(leaned_left(link)))
}

/// The subtree after `balance`: its three steps in order, then the root's
/// size recomputed.
#[verifier::opaque]
pub open spec fn balanced_up<K, V>(link: Link<K, V>) -> Link<K, V> {
    resized(rebalanced(link))
}

/// The number of nodes of the subtree.
pub open spec fn nodes<K, V>(link: Link<K, V>) -> nat
    decreases link,
{
    match link {
        None => 0,
        Some(node) => nodes(node.left) + 1 + nodes(node.right),
    }
}

/// The subtree after `key` was bound to `val` in it: an absent link becomes
/// a red leaf; otherwise the key goes to the child on its side, or its value
/// takes the place of the root's, and the root is balanced.
#[verifier::opaque]
pub open spec fn put_of<K: PartialOrd, V>(link: Link<K, V>, key: K, val: V) -> Link<K, V>
    decreases link,
{
    match link {
        None => balanced_up(make(key, val, 1, Colors::RED, None, None)),
        Some(h) => if lt(key, h.key) {
            balanced_up(with_left(link, put_of(h.left, key, val)))
        } else if lt(h.key, key) {
            balanced_up(with_right(link, put_of(h.right, key, val)))
        } else {
            balanced_up(with_entry(link, h.key, val))
        },
    }
}

/// The subtree after its least entry was deleted: a root without a left
/// child goes; otherwise a red link is lent to the left where it is needed,
/// the least entry of the left child is deleted, and the root is balanced.
#[verifier::opaque]
pub open spec fn min_deleted<K, V>(link: Link<K, V>) -> Link<K, V>
    decreases nodes(link),
{
    if left_of(link) is None {
        None
    } else {
        let opened = lent_left(link);
        proof {
            lemma_nodes_kept(link);
        }
        balanced_up(with_left(opened, min_deleted(left_of(opened))))
    }
}

/// The subtree after its greatest entry was deleted: a red left link is
/// rotated to the right; a root that then has no right child goes; otherwise
/// a red link is lent to the right where it is needed, the greatest entry of
/// the right child is deleted, and the root is balanced.
#[verifier::opaque]
pub open spec fn max_deleted<K, V>(link: Link<K, V>) -> Link<K, V>
    decreases nodes(link),
{
    if right_of(turned(link)) is None {
        None
    } else {
        let opened = lent_right(turned(link));
        proof {
            lemma_nodes_kept(link);
        }
        balanced_up(with_right(opened, max_deleted(right_of(opened))))
    }
}

/// The subtree after `key`, which it holds, was deleted. Below the root's
/// key, a red link is lent to the left where it is needed and the key is
/// deleted from the left child. Otherwise a red left link is rotated to the
/// right; a root with the key and no right child goes; else a red link is
/// lent to the right where it is needed, and either the root, if it has the
/// key, takes the least entry of its right child, which loses it, or the key
/// is deleted from the right child. At the end the root is balanced.
#[verifier::opaque]
pub open spec fn deleted<K: PartialOrd, V>(link: Link<K, V>, key: K) -> Link<K, V>
    decreases nodes(link),
{
    if link is None {
        None
    } else if lt(key, root_entry(link).0) {
        let opened = lent_left(link);
        proof {
            lemma_nodes_kept(link);
        }
        balanced_up(with_left(opened, deleted(left_of(opened), key)))
    } else {
        let opened = lent_right(turned(link));
        proof {
            lemma_nodes_kept(link);
        }
        if key == root_entry(turned(link)).0 && right_of(turned(link)) is None {
            None
        } else if key == root_entry(opened).0 {
            balanced_up(successor_taken(opened))
        } else {
            balanced_up(with_right(opened, deleted(right_of(opened), key)))
        }
    }
}

/// The subtree whose root took the least entry of its right child, which
/// lost it.
#[verifier::opaque]
pub open spec fn successor_taken<K, V>(link: Link<K, V>) -> Link<K, V> {
    let least = root_entry(min_link(right_of(link)));
    let here = root_entry(link);
    let swapped = with_min(right_of(link), with_entry(min_link(right_of(link)), here.0, here.1));
    with_right(with_entry(link, least.0, least.1), min_deleted(swapped))
}

/// A subtree is `successor_taken` of another where it differs from it in
/// holding at its root the least entry of the other's right child, and in
/// having as its right child that child with the root's entry in the place of
/// the least and then without it.
pub proof fn lemma_successor_taken<K, V>(link: Link<K, V>, after: Link<K, V>)
    requires
        link is Some,
        after is Some,
        min_link(right_of(link)) is Some,
        after.unwrap().n == link.unwrap().n,
        after.unwrap().color == link.unwrap().color,
        left_of(after) == left_of(link),
        root_entry(after) == root_entry(min_link(right_of(link))),
        right_of(after) == min_deleted(
            with_min(
                right_of(link),
                with_entry(min_link(right_of(link)), root_entry(link).0, root_entry(link).1),
            ),
        ),
    ensures
        after == successor_taken(link),
{
    reveal(successor_taken);
}

/// Nothing is removed from an absent link.
pub proof fn lemma_deleted_absent<K, V>()
    ensures
        min_deleted(None::<Box<Node<K, V>>>) is None,
        max_deleted(None::<Box<Node<K, V>>>) is None,
{
    reveal(min_deleted);
    reveal(max_deleted);
    reveal(turned);
}

/// `deleted` of a key below the root's key.
pub proof fn lemma_deleted_left<K: PartialOrd, V>(link: Link<K, V>, key: K)
    requires
        link is Some,
        lt(key, root_entry(link).0),
    ensures
        deleted(link, key) == balanced_up(
            with_left(lent_left(link), deleted(left_of(lent_left(link)), key)),
        ),
{
    reveal(deleted);
}

/// `deleted` of the only key of a subtree without a right child.
pub proof fn lemma_deleted_last<K: PartialOrd, V>(link: Link<K, V>, key: K)
    requires
        link is Some,
        !lt(key, root_entry(link).0),
        key == root_entry(turned(link)).0,
        right_of(turned(link)) is None,
    ensures
        deleted(link, key) is None,
{
    reveal(deleted);
}

/// `deleted` of the key that is at the root when the descent to the right has
/// been prepared.
pub proof fn lemma_deleted_here<K: PartialOrd, V>(link: Link<K, V>, key: K)
    requires
        link is Some,
        !lt(key, root_entry(link).0),
        right_of(turned(link)) is Some,
        key == root_entry(lent_right(turned(link))).0,
    ensures
        deleted(link, key) == balanced_up(successor_taken(lent_right(turned(link)))),
{
    reveal(deleted);
}

/// `deleted` of a key that is not below the root's key and not at the root
/// when the descent to the right has been prepared.
pub proof fn lemma_deleted_right<K: PartialOrd, V>(link: Link<K, V>, key: K)
    requires
        link is Some,
        !lt(key, root_entry(link).0),
        right_of(turned(link)) is Some,
        key != root_entry(lent_right(turned(link))).0,
    ensures
        deleted(link, key) == balanced_up(
            with_right(
                lent_right(turned(link)),
                deleted(right_of(lent_right(turned(link))), key),
            ),
        ),
{
    reveal(deleted);
}

/// Recoloring and recomputing sizes keep the number of nodes, and so do the
/// rotations and the color flips.
pub proof fn lemma_nodes_turned<K, V>(link: Link<K, V>, color: Colors, up: bool)
    ensures
        nodes(recolored(link, color)) == nodes(link),
        nodes(resized(link)) == nodes(link),
        nodes(flipped(link, up)) == nodes(link),
        nodes(rotated_left(link)) == nodes(link),
        nodes(rotated_right(link)) == nodes(link),
        link is Some ==> nodes(link) == nodes(left_of(link)) + 1 + nodes(right_of(link)),
{
    reveal_with_fuel(nodes, 3);
}

/// Moving a red link to a side keeps the number of nodes.
pub proof fn lemma_nodes_moved<K, V>(link: Link<K, V>)
    ensures
        nodes(moved_red_left(link)) == nodes(link),
        nodes(moved_red_right(link)) == nodes(link),
{
    reveal(moved_red_left);
    reveal(moved_red_right);
    let down = flipped(link, false);
    lemma_nodes_turned(link, Colors::RED, false);
    lemma_nodes_turned(right_of(down), Colors::RED, false);
    let turned = with_right(down, rotated_right(right_of(down)));
    lemma_nodes_turned(down, Colors::RED, false);
    lemma_nodes_turned(turned, Colors::RED, false);
    lemma_nodes_turned(rotated_left(turned), Colors::RED, true);
    lemma_nodes_turned(rotated_right(down), Colors::RED, true);
}

/// The moves that prepare a descent keep the number of nodes, and each child
/// has fewer nodes than its parent.
pub proof fn lemma_nodes_kept<K, V>(link: Link<K, V>)
    ensures
        nodes(lent_left(link)) == nodes(link),
        nodes(turned(link)) == nodes(link),
        nodes(lent_right(turned(link))) == nodes(link),
        nodes(left_of(lent_left(link))) < nodes(link) || link is None,
        nodes(right_of(lent_right(turned(link)))) < nodes(link) || link is None,
{
    reveal(lent_left);
    reveal(lent_right);
    reveal(turned);
    lemma_nodes_moved(link);
    lemma_nodes_moved(turned(link));
    lemma_nodes_turned(link, Colors::RED, false);
    lemma_nodes_turned(lent_left(link), Colors::RED, false);
    lemma_nodes_turned(lent_right(turned(link)), Colors::RED, false);
}

} // verus!
