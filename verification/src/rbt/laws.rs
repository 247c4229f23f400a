//! What the balancing primitives keep and what they mend.

use super::node::{Colors, Link, Node};
use super::shape::{
    almost, balanced, balanced_up, black_height, count, entries, fit, flipped, leaned_left,
    left_leaning, left_of, lent_left, lent_right, link_at, llrb, max_link, min_link,
    moved_red_left, moved_red_right, near, open_left, open_right, rebalanced, recolored, red,
    red_apart, resized, right_of, ripe, root_entry, rotated_left, rotated_right, sized, split,
    straightened, turned, with_entry, with_left, with_min, with_right, within,
};
use crate::order::{
    lemma_lt_asymmetric, lemma_lt_connected, lemma_sorted_split, lt, sorted, total_order,
};
use vstd::prelude::*;

verus! {

/// The entries of a subtree are those of its left child, its root's and
/// those of its right child.
pub(crate) proof fn lemma_entries<K, V>(link: Link<K, V>)
    requires
        link is Some,
    ensures
        entries(link) == entries(left_of(link)).push((link.unwrap().key, link.unwrap().val))
            + entries(right_of(link)),
        entries(link).len() == entries(left_of(link)).len() + 1 + entries(right_of(link)).len(),
{
    reveal(entries);
}

/// An absent link is an empty left-leaning red-black tree.
pub(crate) proof fn lemma_absent<K, V>()
    ensures
        entries(None::<Box<Node<K, V>>>) == Seq::<(K, V)>::empty(),
        sized(None::<Box<Node<K, V>>>),
        llrb(None::<Box<Node<K, V>>>),
        black_height(None::<Box<Node<K, V>>>) == 0,
{
    reveal(entries);
    reveal(sized);
    reveal(llrb);
    reveal(black_height);
}

/// A subtree that stores its sizes stores at its root the number of its
/// entries.
pub(crate) proof fn lemma_sized_count<K, V>(link: Link<K, V>)
    requires
        sized(link),
    ensures
        count(link) == entries(link).len(),
        sized(left_of(link)),
        sized(right_of(link)),
{
    reveal(entries);
    reveal(sized);
}

/// Recoloring the root changes neither entries nor sizes.
pub(crate) proof fn lemma_recolored<K, V>(link: Link<K, V>, color: Colors)
    ensures
        entries(recolored(link, color)) == entries(link),
        sized(recolored(link, color)) == sized(link),
        count(recolored(link, color)) == count(link),
        left_of(recolored(link, color)) == left_of(link),
        right_of(recolored(link, color)) == right_of(link),
{
    reveal(entries);
    reveal(sized);
}

/// A left rotation keeps the entries in order and leaves a subtree whose
/// sizes can be recomputed.
pub(crate) proof fn lemma_rotated_left_fit<K, V>(link: Link<K, V>)
    requires
        fit(link),
        right_of(link) is Some,
    ensures
        entries(rotated_left(link)) == entries(link),
        fit(rotated_left(link)),
        count(left_of(link)) + count(left_of(right_of(link))) + 1 <= usize::MAX,
{
    reveal(sized);
    let h = link.unwrap();
    let x = h.right.unwrap();
    let r = rotated_left(link);
    lemma_entries(link);
    lemma_entries(h.right);
    lemma_sized_count(h.left);
    lemma_sized_count(h.right);
    lemma_sized_count(x.left);
    lemma_entries(r);
    lemma_entries(left_of(r));
    assert(entries(r) =~= entries(link));
}

/// A right rotation keeps the entries in order and leaves a subtree whose
/// sizes can be recomputed.
pub(crate) proof fn lemma_rotated_right_fit<K, V>(link: Link<K, V>)
    requires
        fit(link),
        left_of(link) is Some,
    ensures
        entries(rotated_right(link)) == entries(link),
        fit(rotated_right(link)),
        count(right_of(left_of(link))) + count(right_of(link)) + 1 <= usize::MAX,
{
    reveal(sized);
    let h = link.unwrap();
    let x = h.left.unwrap();
    let r = rotated_right(link);
    lemma_entries(link);
    lemma_entries(h.left);
    lemma_sized_count(h.left);
    lemma_sized_count(h.right);
    lemma_sized_count(x.right);
    lemma_entries(r);
    lemma_entries(right_of(r));
    assert(entries(r) =~= entries(link));
}

/// A color flip keeps the entries and the sizes.
pub(crate) proof fn lemma_flipped_fit<K, V>(link: Link<K, V>, up: bool)
    ensures
        entries(flipped(link, up)) == entries(link),
        fit(link) ==> fit(flipped(link, up)),
        sized(link) ==> sized(flipped(link, up)),
        count(flipped(link, up)) == count(link),
{
    reveal(sized);
    if link is Some {
        let h = link.unwrap();
        let low = if up {
            Colors::BLACK
        } else {
            Colors::RED
        };
        lemma_recolored(h.left, low);
        lemma_recolored(h.right, low);
        lemma_entries(link);
        lemma_entries(flipped(link, up));
    }
}

/// Recomputing the root's size completes a subtree that stores its sizes.
pub(crate) proof fn lemma_resized_fit<K, V>(link: Link<K, V>)
    requires
        fit(link),
    ensures
        entries(resized(link)) == entries(link),
        sized(resized(link)),
        count(left_of(link)) + count(right_of(link)) + 1 <= usize::MAX,
        sized(link) ==> resized(link) == link,
{
    reveal(sized);
    lemma_entries(link);
    lemma_entries(resized(link));
    lemma_sized_count(left_of(link));
    lemma_sized_count(right_of(link));
}

/// `balance` keeps the entries in order and leaves a subtree that stores its
/// sizes.
pub(crate) proof fn lemma_balanced_up_fit<K, V>(link: Link<K, V>)
    requires
        fit(link),
    ensures
        entries(balanced_up(link)) == entries(link),
        sized(balanced_up(link)),
        fit(leaned_left(link)),
        fit(straightened(leaned_left(link))),
        fit(split(straightened(leaned_left(link)))),
{
    reveal(balanced_up);
    reveal(rebalanced);
    let a = leaned_left(link);
    if a != link {
        lemma_rotated_left_fit(link);
    }
    let b = straightened(a);
    if b != a {
        lemma_rotated_right_fit(a);
    }
    let c = split(b);
    lemma_flipped_fit(b, true);
    lemma_resized_fit(c);
}

/// A left-leaning red-black tree is balanced and leans left, and none of
/// its red links has a red left link.
pub(crate) proof fn lemma_llrb_oracle<K, V>(link: Link<K, V>)
    requires
        llrb(link),
    ensures
        balanced(link),
        left_leaning(link),
        red_apart(link),
    decreases link,
{
    reveal(llrb);
    reveal(balanced);
    reveal(left_leaning);
    reveal(red_apart);
    if link is Some {
        lemma_llrb_oracle(left_of(link));
        lemma_llrb_oracle(right_of(link));
    }
}

/// `balance` makes a left-leaning red-black tree of the same black height
/// where both children are such trees; a red root stays red, and a black
/// root stays black unless both its children were red.
pub(crate) proof fn lemma_balance_near<K, V>(link: Link<K, V>)
    requires
        near(link),
    ensures
        llrb(balanced_up(link)),
        black_height(balanced_up(link)) == black_height(link),
        red(link) ==> red(balanced_up(link)),
        !red(link) && !(red(left_of(link)) && red(right_of(link))) ==> !red(balanced_up(link)),
{
    reveal(balanced_up);
    reveal(rebalanced);
    reveal_with_fuel(llrb, 3);
    reveal_with_fuel(black_height, 3);
}

/// `balance` makes a left-leaning red-black tree of the same black height
/// where, below a black root, the left child has a red root with a red left
/// child.
pub(crate) proof fn lemma_balance_almost<K, V>(link: Link<K, V>)
    requires
        link is Some,
        !red(link),
        almost(left_of(link)),
        llrb(right_of(link)),
        !red(right_of(link)),
        black_height(left_of(link)) == black_height(right_of(link)),
    ensures
        llrb(balanced_up(link)),
        black_height(balanced_up(link)) == black_height(link),
{
    reveal(balanced_up);
    reveal(rebalanced);
    reveal_with_fuel(llrb, 3);
    reveal_with_fuel(black_height, 3);
}

/// Below a red root with one red child, `balance` leaves a red root, the
/// same black height, and at worst a red left child of the root.
pub(crate) proof fn lemma_balance_red<K, V>(link: Link<K, V>)
    requires
        red(link),
        llrb(left_of(link)),
        llrb(right_of(link)),
        black_height(left_of(link)) == black_height(right_of(link)),
        !(red(left_of(link)) && red(right_of(link))),
    ensures
        red(balanced_up(link)),
        llrb(balanced_up(link)) || almost(balanced_up(link)),
        black_height(balanced_up(link)) == black_height(link),
{
    reveal(balanced_up);
    reveal(rebalanced);
    reveal_with_fuel(llrb, 3);
    reveal_with_fuel(black_height, 3);
}

/// Replacing a child changes the entries of that side only.
pub(crate) proof fn lemma_with_child<K, V>(link: Link<K, V>, child: Link<K, V>)
    requires
        link is Some,
    ensures
        entries(with_left(link, child)) == entries(child).push(
            (link.unwrap().key, link.unwrap().val),
        ) + entries(right_of(link)),
        entries(with_right(link, child)) == entries(left_of(link)).push(
            (link.unwrap().key, link.unwrap().val),
        ) + entries(child),
{
    reveal(entries);
}

/// Moving a red link to the left keeps the entries in order and the sizes.
pub(crate) proof fn lemma_moved_red_left_fit<K, V>(link: Link<K, V>)
    requires
        fit(link),
        right_of(link) is Some,
    ensures
        entries(moved_red_left(link)) == entries(link),
        fit(moved_red_left(link)),
        sized(link) ==> sized(moved_red_left(link)),
        fit(flipped(link, false)),
        red(left_of(right_of(flipped(link, false)))) ==> {
            let down = flipped(link, false);
            let turned = with_right(down, rotated_right(right_of(down)));
            &&& fit(right_of(down))
            &&& left_of(right_of(down)) is Some
            &&& fit(turned)
            &&& right_of(turned) is Some
        },
{
    reveal(sized);
    reveal(moved_red_left);
    let down = flipped(link, false);
    lemma_flipped_fit(link, false);
    if red(left_of(right_of(down))) {
        let r = right_of(down);
        lemma_sized_count(r);
        lemma_entries(down);
        lemma_rotated_right_fit(r);
        lemma_rotated_right_sized(r);
        let turned = with_right(down, rotated_right(r));
        lemma_with_child(down, rotated_right(r));
        lemma_rotated_left_fit(turned);
        let up = rotated_left(turned);
        lemma_flipped_fit(up, true);
        if sized(link) {
            lemma_sized_count(link);
            lemma_resized_fit(flipped(up, true));
        }
    }
}

/// A rotation of a subtree that stores its sizes leaves one that does.
pub(crate) proof fn lemma_rotated_right_sized<K, V>(link: Link<K, V>)
    requires
        sized(link),
        left_of(link) is Some,
        entries(link).len() <= usize::MAX,
    ensures
        sized(rotated_right(link)),
{
    reveal(sized);
    lemma_sized_count(link);
    lemma_rotated_right_fit(link);
    lemma_resized_fit(rotated_right(link));
}

/// Moving a red link to the right keeps the entries in order and the sizes.
pub(crate) proof fn lemma_moved_red_right_fit<K, V>(link: Link<K, V>)
    requires
        fit(link),
        left_of(link) is Some,
    ensures
        entries(moved_red_right(link)) == entries(link),
        fit(moved_red_right(link)),
        sized(link) ==> sized(moved_red_right(link)),
        fit(flipped(link, false)),
{
    reveal(sized);
    reveal(moved_red_right);
    let down = flipped(link, false);
    lemma_flipped_fit(link, false);
    if red(left_of(left_of(down))) {
        lemma_rotated_right_fit(down);
        let up = rotated_right(down);
        lemma_flipped_fit(up, true);
        if sized(link) {
            lemma_sized_count(link);
            lemma_resized_fit(flipped(up, true));
        }
    }
}

/// After a red link was moved to the left below a red root with a black left
/// child whose left link is black, the subtree can be entered on the left.
pub(crate) proof fn lemma_moved_red_left<K, V>(link: Link<K, V>)
    requires
        llrb(link),
        red(link),
        left_of(link) is Some,
        !red(left_of(link)),
        !red(left_of(left_of(link))),
    ensures
        right_of(link) is Some,
        open_left(moved_red_left(link)),
        black_height(moved_red_left(link)) == black_height(link),
{
    reveal(moved_red_left);
    reveal_with_fuel(llrb, 4);
    reveal_with_fuel(black_height, 4);
}

/// After a red link was moved to the right below a red root with a black
/// right child whose left link is black, the subtree can be entered on the
/// right; where the new right child has a red right child, it holds the old
/// root's entry.
pub(crate) proof fn lemma_moved_red_right<K, V>(link: Link<K, V>)
    requires
        llrb(link),
        red(link),
        right_of(link) is Some,
        !red(right_of(link)),
        !red(left_of(right_of(link))),
    ensures
        left_of(link) is Some,
        open_right(moved_red_right(link)),
        black_height(moved_red_right(link)) == black_height(link),
        red(left_of(left_of(link))) ==> {
            &&& root_entry(moved_red_right(link)) == root_entry(left_of(link))
            &&& root_entry(right_of(moved_red_right(link))) == root_entry(link)
        },
        !red(left_of(left_of(link))) ==> {
            &&& root_entry(moved_red_right(link)) == root_entry(link)
            &&& !red(right_of(right_of(moved_red_right(link))))
        },
{
    reveal(moved_red_right);
    reveal_with_fuel(llrb, 4);
    reveal_with_fuel(black_height, 4);
}

/// A black root with a red left child, rotated right, can be entered on the
/// right, stays black and has a black left child.
pub(crate) proof fn lemma_rotated_right_opens<K, V>(link: Link<K, V>)
    requires
        ripe(link),
        red(left_of(link)),
    ensures
        open_right(rotated_right(link)),
        black_height(rotated_right(link)) == black_height(link),
        !red(rotated_right(link)),
        !red(left_of(rotated_right(link))),
        red(right_of(rotated_right(link))),
        !red(right_of(right_of(rotated_right(link)))),
        right_of(rotated_right(link)).unwrap().key == link.unwrap().key,
        right_of(rotated_right(link)).unwrap().val == link.unwrap().val,
{
    reveal_with_fuel(llrb, 4);
    reveal_with_fuel(black_height, 4);
}

/// A subtree with a red link to lend on its right can be entered there.
pub(crate) proof fn lemma_opens_right<K, V>(link: Link<K, V>)
    requires
        near(link),
        !(red(left_of(link)) && red(right_of(link))),
        red(right_of(link)) || red(left_of(right_of(link))),
    ensures
        open_right(link),
{
    reveal_with_fuel(llrb, 3);
    reveal_with_fuel(black_height, 3);
}

/// A subtree whose stored sizes are right has a size that can be stored.
pub(crate) proof fn lemma_sized_fit<K, V>(link: Link<K, V>)
    requires
        sized(link),
    ensures
        entries(link).len() <= usize::MAX,
        link is Some ==> fit(link),
{
    lemma_sized_count(link);
}

/// A red node without children is all that can stand where a side is
/// missing and no red link could be lent.
pub(crate) proof fn lemma_red_leaf<K, V>(link: Link<K, V>)
    requires
        ripe(link),
        (left_of(link) is None && !red(right_of(link))) || (right_of(link) is None && !red(
            left_of(link),
        )),
    ensures
        left_of(link) is None,
        right_of(link) is None,
        red(link),
        black_height(link) == 0,
        entries(link) == seq![root_entry(link)],
{
    reveal_with_fuel(llrb, 2);
    reveal_with_fuel(black_height, 2);
    reveal_with_fuel(entries, 2);
    assert(entries(link) =~= seq![root_entry(link)]);
}

/// A left-leaning red-black tree with a red link at its root or to the left
/// of it has a red link to lend.
pub(crate) proof fn lemma_llrb_ripe<K, V>(link: Link<K, V>)
    requires
        link is Some,
        llrb(link),
        red(link) || red(left_of(link)),
    ensures
        ripe(link),
        !red(right_of(link)),
{
    reveal(llrb);
}

/// Before `delete_min` or `delete` goes left: the subtree can be entered on
/// the left, with the entries, sizes and black height it had; a black root
/// is untouched; and the new root is the old one, or the left child of the
/// old right child.
pub(crate) proof fn lemma_lent_left<K, V>(link: Link<K, V>)
    requires
        ripe(link),
        !red(right_of(link)),
        sized(link),
        left_of(link) is Some,
    ensures
        fit(link),
        !red(left_of(link)) && !red(left_of(left_of(link))) ==> right_of(link) is Some && red(link),
        open_left(lent_left(link)),
        sized(lent_left(link)),
        entries(lent_left(link)) == entries(link),
        black_height(lent_left(link)) == black_height(link),
        !red(link) ==> lent_left(link) == link,
        ripe(left_of(lent_left(link))),
        !red(right_of(left_of(lent_left(link)))),
        sized(left_of(lent_left(link))),
        root_entry(lent_left(link)) == root_entry(link) || (left_of(right_of(link)) is Some
            && root_entry(lent_left(link)) == root_entry(left_of(right_of(link)))),
{
    reveal(lent_left);
    lemma_sized_fit(link);
    assert(llrb(link) && (red(link) || red(left_of(link)))) by {
        reveal_with_fuel(llrb, 2);
    }
    if !red(left_of(link)) && !red(left_of(left_of(link))) {
        lemma_moved_red_left(link);
        lemma_moved_red_left_fit(link);
        assert(root_entry(lent_left(link)) == root_entry(link) || (left_of(right_of(link)) is Some
            && root_entry(lent_left(link)) == root_entry(left_of(right_of(link))))) by {
            reveal(moved_red_left);
        }
    }
    let opened = lent_left(link);
    lemma_sized_count(opened);
    assert(open_left(opened));
    lemma_llrb_ripe(left_of(opened));
}

/// Once the left child of a subtree entered on the left is replaced by what
/// a deletion below it left, `balance` makes a left-leaning red-black tree of
/// the black height the subtree had; a black root with a black right child
/// stays black.
pub(crate) proof fn lemma_mended_left<K, V>(opened: Link<K, V>, after: Link<K, V>)
    requires
        near(opened),
        sized(opened),
        after is Some,
        red(after) == red(opened),
        after.unwrap().color == opened.unwrap().color,
        right_of(after) == right_of(opened),
        llrb(left_of(after)),
        sized(left_of(after)),
        black_height(left_of(after)) == black_height(left_of(opened)),
        !red(left_of(opened)) ==> !red(left_of(after)),
        entries(left_of(after)).len() <= entries(left_of(opened)).len(),
    ensures
        fit(after),
        llrb(balanced_up(after)),
        sized(balanced_up(after)),
        black_height(balanced_up(after)) == black_height(opened),
        entries(balanced_up(after)) == entries(after),
        !red(opened) && !red(right_of(opened)) ==> !red(balanced_up(after)),
{
    reveal(black_height);
    lemma_sized_fit(opened);
    lemma_sized_count(opened);
    lemma_entries(opened);
    lemma_entries(after);
    lemma_balanced_up_fit(after);
    lemma_balance_near(after);
}

/// A red left link rotated to the right, as `delete_max` and `delete` do
/// before they go right: the entries, sizes and black height stay; where it
/// was rotated, the new root is the old left child and has a right child;
/// where the right child is then missing, the subtree is a red leaf.
pub(crate) proof fn lemma_turned<K, V>(link: Link<K, V>)
    requires
        ripe(link),
        sized(link),
    ensures
        fit(link),
        red(left_of(link)) ==> count(right_of(left_of(link))) + count(right_of(link)) + 1
            <= usize::MAX,
        turned(link) is Some,
        sized(turned(link)),
        entries(turned(link)) == entries(link),
        black_height(turned(link)) == black_height(link),
        red(left_of(link)) ==> {
            &&& right_of(turned(link)) is Some
            &&& left_of(link) is Some
            &&& root_entry(turned(link)) == root_entry(left_of(link))
        },
        right_of(turned(link)) is None ==> {
            &&& !red(left_of(link))
            &&& left_of(link) is None
            &&& red(link)
            &&& black_height(link) == 0
            &&& entries(link) == seq![root_entry(link)]
        },
{
    reveal(turned);
    lemma_sized_fit(link);
    if red(left_of(link)) {
        lemma_rotated_right_fit(link);
        lemma_rotated_right_sized(link);
        lemma_rotated_right_opens(link);
    } else if right_of(link) is None {
        lemma_red_leaf(link);
    }
}

/// Before `delete_max` or `delete` goes right, where there is a right
/// child: the subtree can be entered on the right, with the entries, sizes
/// and black height it had; a black root stays black above a black left
/// child; and either the root is the old one and its right child has no red
/// right link, or the root is the old left child and the right child holds
/// the old root's entry.
pub(crate) proof fn lemma_lent_right<K, V>(link: Link<K, V>)
    requires
        ripe(link),
        sized(link),
        right_of(turned(link)) is Some,
    ensures
        fit(turned(link)),
        !red(right_of(turned(link))) && !red(left_of(right_of(turned(link)))) ==> left_of(
            turned(link),
        ) is Some && red(turned(link)),
        open_right(lent_right(turned(link))),
        sized(lent_right(turned(link))),
        entries(lent_right(turned(link))) == entries(link),
        black_height(lent_right(turned(link))) == black_height(link),
        !red(link) ==> !red(lent_right(turned(link))) && !red(left_of(lent_right(turned(link)))),
        ripe(right_of(lent_right(turned(link)))),
        sized(right_of(lent_right(turned(link)))),
        ({
            &&& root_entry(lent_right(turned(link))) == root_entry(link)
            &&& !red(right_of(right_of(lent_right(turned(link)))))
        }) || ({
            &&& left_of(link) is Some
            &&& root_entry(lent_right(turned(link))) == root_entry(left_of(link))
            &&& root_entry(right_of(lent_right(turned(link)))) == root_entry(link)
        }),
{
    reveal(turned);
    reveal(lent_right);
    let t = turned(link);
    let o = lent_right(t);
    lemma_turned(link);
    lemma_sized_fit(t);
    if red(left_of(link)) {
        lemma_rotated_right_opens(link);
        assert(o == t);
    } else if !red(right_of(t)) && !red(left_of(right_of(t))) {
        assert(llrb(link) && red(link)) by {
            reveal_with_fuel(llrb, 2);
        }
        lemma_moved_red_right(link);
        lemma_moved_red_right_fit(link);
    } else {
        lemma_opens_right(link);
        assert(!red(right_of(right_of(link)))) by {
            reveal_with_fuel(llrb, 2);
        }
    }
    lemma_sized_count(o);
}

/// Once the right child of a subtree entered on the right is replaced by
/// what a deletion below it left, `balance` makes a left-leaning red-black
/// tree of the black height the subtree had; a black root with a black left
/// child stays black.
pub(crate) proof fn lemma_mended_right<K, V>(opened: Link<K, V>, after: Link<K, V>)
    requires
        open_right(opened),
        sized(opened),
        after is Some,
        after.unwrap().color == opened.unwrap().color,
        left_of(after) == left_of(opened),
        llrb(right_of(after)),
        sized(right_of(after)),
        black_height(right_of(after)) == black_height(right_of(opened)),
        !red(right_of(opened)) ==> !red(right_of(after)),
        entries(right_of(after)).len() <= entries(right_of(opened)).len(),
    ensures
        fit(after),
        llrb(balanced_up(after)),
        sized(balanced_up(after)),
        black_height(balanced_up(after)) == black_height(opened),
        entries(balanced_up(after)) == entries(after),
        !red(opened) && !red(left_of(opened)) ==> !red(balanced_up(after)),
{
    reveal(black_height);
    lemma_sized_fit(opened);
    lemma_sized_count(opened);
    lemma_entries(opened);
    lemma_entries(after);
    lemma_balanced_up_fit(after);
    lemma_balance_near(after);
}

/// The entry of a node of a subtree is among the subtree's entries.
pub(crate) proof fn lemma_within_entries<K, V>(link: Link<K, V>, sub: Link<K, V>)
    requires
        within(link, sub),
    ensures
        sub is Some,
        entries(link).contains(root_entry(sub)),
    decreases link,
{
    let l = entries(left_of(link));
    let r = entries(right_of(link));
    let e = root_entry(link);
    lemma_entries(link);
    if sub == link {
        assert((l.push(e) + r)[l.len() as int] == e);
    } else if within(left_of(link), sub) {
        lemma_within_entries(left_of(link), sub);
        let i = choose|i: int| 0 <= i < l.len() && l[i] == root_entry(sub);
        assert((l.push(e) + r)[i] == root_entry(sub));
    } else {
        lemma_within_entries(right_of(link), sub);
        let i = choose|i: int| 0 <= i < r.len() && r[i] == root_entry(sub);
        assert((l.push(e) + r)[l.len() + 1 + i] == root_entry(sub));
    }
}

/// In a sorted subtree the way down by a node's key ends at the node.
pub(crate) proof fn lemma_link_at<K: PartialOrd, V>(link: Link<K, V>, sub: Link<K, V>)
    requires
        total_order::<K>(),
        sorted(entries(link)),
        within(link, sub),
    ensures
        sub is Some,
        link_at(link, root_entry(sub).0) == sub,
    decreases link,
{
    let l = entries(left_of(link));
    let r = entries(right_of(link));
    let e = root_entry(link);
    let key = root_entry(sub).0;
    lemma_entries(link);
    lemma_sorted_split(l, e, r);
    if sub == link {
        lemma_lt_connected(key, key);
    } else if within(left_of(link), sub) {
        lemma_within_entries(left_of(link), sub);
        let i = choose|i: int| 0 <= i < l.len() && l[i] == root_entry(sub);
        assert(lt(l[i].0, e.0));
        lemma_link_at(left_of(link), sub);
    } else {
        lemma_within_entries(right_of(link), sub);
        let i = choose|i: int| 0 <= i < r.len() && r[i] == root_entry(sub);
        assert(lt(e.0, r[i].0));
        lemma_lt_asymmetric(e.0, key);
        lemma_link_at(right_of(link), sub);
    }
}

/// A subtree has entries exactly where its link leads to a node.
pub(crate) proof fn lemma_some_entries<K, V>(link: Link<K, V>)
    ensures
        link is Some <==> entries(link).len() > 0,
{
    reveal(entries);
}

/// The link at the end of the left spine holds the first entry and has no
/// left child.
pub(crate) proof fn lemma_min_link<K, V>(link: Link<K, V>)
    requires
        link is Some,
    ensures
        min_link(link) is Some,
        left_of(min_link(link)) is None,
        entries(link).len() > 0,
        root_entry(min_link(link)) == entries(link)[0],
    decreases link,
{
    reveal(entries);
    lemma_entries(link);
    if left_of(link) is Some {
        lemma_min_link(left_of(link));
    } else {
        assert(entries(left_of(link)).len() == 0);
    }
}

/// The link at the end of the right spine holds the last entry and has no
/// right child.
pub(crate) proof fn lemma_max_link<K, V>(link: Link<K, V>)
    requires
        link is Some,
    ensures
        max_link(link) is Some,
        right_of(max_link(link)) is None,
        entries(link).len() > 0,
        root_entry(max_link(link)) == entries(link).last(),
    decreases link,
{
    reveal(entries);
    lemma_entries(link);
    if right_of(link) is Some {
        lemma_max_link(right_of(link));
    } else {
        assert(entries(right_of(link)).len() == 0);
    }
}

/// Replacing the entry at the end of the left spine replaces the first
/// entry and changes nothing else.
pub(crate) proof fn lemma_with_min<K, V>(link: Link<K, V>, key: K, val: V)
    requires
        link is Some,
    ensures
        with_min(link, with_entry(min_link(link), key, val)) is Some,
        entries(with_min(link, with_entry(min_link(link), key, val))) == entries(link).update(
            0,
            (key, val),
        ),
        count(with_min(link, with_entry(min_link(link), key, val))) == count(link),
        sized(link) ==> sized(with_min(link, with_entry(min_link(link), key, val))),
        black_height(with_min(link, with_entry(min_link(link), key, val))) == black_height(link),
        red(with_min(link, with_entry(min_link(link), key, val))) == red(link),
        llrb(link) ==> llrb(with_min(link, with_entry(min_link(link), key, val))),
        red(left_of(with_min(link, with_entry(min_link(link), key, val)))) == red(left_of(link)),
        right_of(with_min(link, with_entry(min_link(link), key, val))) == right_of(link),
    decreases link,
{
    reveal(entries);
    reveal(sized);
    reveal(black_height);
    reveal(llrb);
    let w = with_min(link, with_entry(min_link(link), key, val));
    lemma_entries(link);
    lemma_entries(w);
    if left_of(link) is Some {
        lemma_with_min(left_of(link), key, val);
        lemma_min_link(left_of(link));
        assert(entries(w) =~= entries(link).update(0, (key, val)));
    } else {
        assert(entries(left_of(link)).len() == 0);
        assert(entries(w) =~= entries(link).update(0, (key, val)));
    }
}

/// The root of a tree, colored red where neither of its children is red,
/// has a red link to lend and no red right link; the recoloring changes
/// neither entries nor sizes.
pub(crate) proof fn lemma_root_lends<K, V>(root: Link<K, V>)
    requires
        root is Some ==> llrb(root) && !red(root),
    ensures
        root is Some ==> entries(root).len() > 0,
        root is None ==> entries(root).len() == 0,
        root is None ==> entries(root) == Seq::<(K, V)>::empty(),
        root is Some ==> ({
            let lent = if !red(left_of(root)) && !red(right_of(root)) {
                recolored(root, Colors::RED)
            } else {
                root
            };
            &&& ripe(lent)
            &&& !red(right_of(lent))
            &&& entries(lent) == entries(root)
            &&& sized(lent) == sized(root)
        }),
{
    reveal(entries);
    reveal(llrb);
    if root is Some {
        lemma_entries(root);
        lemma_recolored(root, Colors::RED);
    }
}

/// A left-leaning red-black tree with its root colored black is one with a
/// black root and the same entries and sizes.
pub(crate) proof fn lemma_root_blackened<K, V>(root: Link<K, V>)
    requires
        llrb(root),
    ensures
        llrb(recolored(root, Colors::BLACK)),
        !red(recolored(root, Colors::BLACK)),
        entries(recolored(root, Colors::BLACK)) == entries(root),
        sized(recolored(root, Colors::BLACK)) == sized(root),
        root is None <==> entries(root).len() == 0,
        sized(root) ==> (count(root) > 0 <==> root is Some),
{
    reveal(entries);
    reveal(sized);
    reveal(llrb);
}

/// A rotation of a subtree that stores its sizes leaves one that does.
pub(crate) proof fn lemma_rotated_left_sized<K, V>(link: Link<K, V>)
    requires
        sized(link),
        right_of(link) is Some,
    ensures
        sized(rotated_left(link)),
        entries(rotated_left(link)) == entries(link),
        fit(link),
        count(left_of(link)) + count(left_of(right_of(link))) + 1 <= usize::MAX,
{
    reveal(sized);
    lemma_sized_fit(link);
    lemma_sized_count(link);
    lemma_rotated_left_fit(link);
    lemma_resized_fit(rotated_left(link));
}

/// Where the root's size is right before them, the three steps of `balance`
/// leave it right: recomputing it changes nothing, whether before the steps
/// or after them.
pub(crate) proof fn lemma_rebalanced<K, V>(link: Link<K, V>)
    requires
        fit(link),
    ensures
        sized(resized(link)),
        sized(link) ==> resized(link) == link,
        rebalanced(resized(link)) == balanced_up(link),
        fit(resized(link)),
        fit(leaned_left(resized(link))),
        fit(straightened(leaned_left(resized(link)))),
{
    reveal(balanced_up);
    reveal(rebalanced);
    let t = resized(link);
    lemma_resized_fit(link);
    lemma_sized_fit(t);
    let a = leaned_left(t);
    if a != t {
        lemma_rotated_left_sized(t);
    }
    lemma_sized_fit(a);
    let b = straightened(a);
    if b != a {
        lemma_rotated_right_sized(a);
        lemma_rotated_right_fit(a);
    }
    lemma_sized_fit(b);
    let c = split(b);
    lemma_flipped_fit(b, true);
    lemma_resized_fit(c);
    lemma_balanced_up_resized(link);
}

/// `balance` makes the same of a subtree whatever size its root stores.
pub(crate) proof fn lemma_balanced_up_resized<K, V>(link: Link<K, V>)
    requires
        link is Some,
    ensures
        balanced_up(resized(link)) == balanced_up(link),
{
    reveal(balanced_up);
    reveal(rebalanced);
}

} // verus!
