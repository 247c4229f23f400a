//! Deletion: of the least key, of the greatest key, and of a given key.

use super::insert::compare_key;
use crate::order::{
    find, lemma_lt_asymmetric, lemma_lt_connected, lemma_lt_transitive, lemma_removed_here,
    lemma_removed_left, lemma_removed_right, lemma_sorted_split, lt, removed, sorted, total_order,
};
use crate::rbt::balance::{
    balance, is_red, left, left_mut, move_red_left, move_red_right, right, right_mut, rotate_right,
};
use crate::rbt::laws::{
    lemma_absent, lemma_entries, lemma_lent_left, lemma_lent_right, lemma_llrb_ripe,
    lemma_mended_left, lemma_mended_right, lemma_min_link, lemma_red_leaf, lemma_turned,
    lemma_with_min,
};
use crate::rbt::node::Link;
use crate::rbt::shape::{
    balanced_up, black_height, deleted, entries, left_of, lemma_deleted_here, lemma_deleted_last,
    lemma_deleted_left, lemma_deleted_right, lemma_successor_taken, lent_left, lent_right, llrb,
    max_deleted, min_deleted, min_link, red, right_of, ripe, root_entry, sized, successor_taken,
    turned, with_entry, with_min,
};
use core::cmp::Ordering;
use vstd::prelude::*;

verus! {

/// The link that holds the least key, for writing.
pub(super) fn min_mut<K, V>(link: &mut Link<K, V>) -> (least: &mut Link<K, V>)
    ensures
        *least == min_link(*old(link)),
        *final(link) == with_min(*old(link), *final(least)),
    decreases *old(link),
{
    if link.is_some() && left(link).is_some() {
        min_mut(left_mut(link))
    } else {
        link
    }
}

/// Removes the entry with the least key from a subtree that has a red link
/// to lend at its root or to the left of it.
pub(super) fn delete_min<K, V>(link: &mut Link<K, V>)
    requires
        ripe(*old(link)),
        !red(right_of(*old(link))),
        sized(*old(link)),
    ensures
        llrb(*final(link)),
        sized(*final(link)),
        black_height(*final(link)) == black_height(*old(link)),
        !red(*old(link)) ==> !red(*final(link)),
        entries(*old(link)).len() > 0,
        entries(*final(link)) == entries(*old(link)).drop_first(),
        *final(link) == min_deleted(*old(link)),
    decreases entries(*old(link)).len(),
{
    let ghost before = *link;
    proof {
        reveal(min_deleted);
        lemma_entries(before);
    }

    if left(link).is_none() {
        proof {
            lemma_red_leaf(before);
            lemma_absent::<K, V>();
            assert(entries(before).drop_first() =~= Seq::<(K, V)>::empty());
        }
        *link = None;
        return ;
    }
    proof {
        lemma_lent_left(before);
    }

    if !is_red(left(link)) && !is_red(left(left(link))) {
        move_red_left(link);
    }
    let ghost opened = *link;
    proof {
        assert(opened == lent_left(before)) by {
            reveal(lent_left);
        }
        lemma_entries(opened);
    }

    delete_min(left_mut(link));

    proof {
        lemma_mended_left(opened, *link);
        lemma_entries(opened);
        lemma_entries(*link);
        assert(entries(*link) =~= entries(before).drop_first());
    }
    balance(link);
}

/// Removes the entry with the greatest key from a subtree that has a red
/// link to lend at its root or to one side of it.
pub(super) fn delete_max<K, V>(link: &mut Link<K, V>)
    requires
        ripe(*old(link)),
        sized(*old(link)),
    ensures
        llrb(*final(link)),
        sized(*final(link)),
        black_height(*final(link)) == black_height(*old(link)),
        !red(*old(link)) ==> !red(*final(link)),
        entries(*old(link)).len() > 0,
        entries(*final(link)) == entries(*old(link)).drop_last(),
        *final(link) == max_deleted(*old(link)),
    decreases entries(*old(link)).len(),
{
    let ghost before = *link;
    proof {
        reveal(max_deleted);
        lemma_entries(before);
        lemma_turned(before);
    }

    if is_red(left(link)) {
        rotate_right(link);
    }
    proof {
        assert(*link == turned(before)) by {
            reveal(turned);
        }
    }

    if right(link).is_none() {
        proof {
            lemma_absent::<K, V>();
            assert(entries(before).drop_last() =~= Seq::<(K, V)>::empty());
        }
        *link = None;
        return ;
    }
    proof {
        lemma_lent_right(before);
    }

    if !is_red(right(link)) && !is_red(left(right(link))) {
        move_red_right(link);
    }
    let ghost opened = *link;
    proof {
        assert(opened == lent_right(turned(before))) by {
            reveal(lent_right);
        }
        lemma_entries(opened);
    }

    delete_max(right_mut(link));

    proof {
        lemma_mended_right(opened, *link);
        lemma_entries(opened);
        lemma_entries(*link);
        assert(entries(*link) =~= entries(before).drop_last());
    }
    balance(link);
}

/// Gives the root the least entry of its right child, and removes that entry
/// from the child.
fn take_successor<K, V>(link: &mut Link<K, V>)
    requires
        *old(link) is Some,
        right_of(*old(link)) is Some,
        ripe(right_of(*old(link))),
        sized(right_of(*old(link))),
        !red(right_of(right_of(*old(link)))),
    ensures
        *final(link) == successor_taken(*old(link)),
        *final(link) is Some,
        final(link).unwrap().color == old(link).unwrap().color,
        left_of(*final(link)) == left_of(*old(link)),
        entries(right_of(*old(link))).len() > 0,
        root_entry(*final(link)) == entries(right_of(*old(link)))[0],
        entries(right_of(*final(link))) == entries(right_of(*old(link))).drop_first(),
        llrb(right_of(*final(link))),
        sized(right_of(*final(link))),
        black_height(right_of(*final(link))) == black_height(right_of(*old(link))),
        !red(right_of(*old(link))) ==> !red(right_of(*final(link))),
{
    let ghost opened = *link;
    proof {
        lemma_swap_min(opened);
    }
    if let Some(mut boxed_node) = link.take() {
        {
            let node = &mut *boxed_node;
            let next = min_mut(&mut node.right);
            core::mem::swap(&mut node.key, &mut next.as_mut().unwrap().key);
            core::mem::swap(&mut node.val, &mut next.as_mut().unwrap().val);
        }

        delete_min(&mut boxed_node.right);

        *link = Some(boxed_node);
    }
    proof {
        lemma_successor_taken(opened, *link);
    }
}

/// Removes `key`, which the subtree holds, from a subtree that has a red link
/// to lend at its root or to one side of it.
pub(super) fn delete<K: PartialOrd, V>(link: &mut Link<K, V>, key: K)
    requires
        total_order::<K>(),
        sorted(entries(*old(link))),
        sized(*old(link)),
        ripe(*old(link)),
        red(right_of(*old(link))) ==> !lt(key, root_entry(*old(link)).0),
        find(entries(*old(link)), key) is Some,
    ensures
        llrb(*final(link)),
        sized(*final(link)),
        black_height(*final(link)) == black_height(*old(link)),
        !red(*old(link)) ==> !red(*final(link)),
        entries(*final(link)) == removed(entries(*old(link)), key),
        *final(link) == deleted(*old(link), key),
    decreases entries(*old(link)).len(), 1nat,
{
    match compare_key(&key, link) {
        Some(Ordering::Less) => {
            delete_below(link, key);
        },
        Some(Ordering::Greater) | Some(Ordering::Equal) => {
            proof {
                lemma_lt_connected(key, root_entry(*link).0);
                if lt(root_entry(*link).0, key) {
                    lemma_lt_asymmetric(root_entry(*link).0, key);
                }
            }
            delete_above(link, key);
        },
        None => {
            proof {
                lemma_holds_none::<K, V>(key);
            }
        },
    }
}

/// Removes a key below the root's key: lends a red link to the left where
/// the left child has none, removes the key from the left child, and restores
/// the balance.
fn delete_below<K: PartialOrd, V>(link: &mut Link<K, V>, key: K)
    requires
        total_order::<K>(),
        sorted(entries(*old(link))),
        sized(*old(link)),
        ripe(*old(link)),
        !red(right_of(*old(link))),
        find(entries(*old(link)), key) is Some,
        *old(link) is Some,
        lt(key, root_entry(*old(link)).0),
    ensures
        llrb(*final(link)),
        sized(*final(link)),
        black_height(*final(link)) == black_height(*old(link)),
        !red(*old(link)) ==> !red(*final(link)),
        entries(*final(link)) == removed(entries(*old(link)), key),
        *final(link) == deleted(*old(link), key),
    decreases entries(*old(link)).len(), 0nat,
{
    let ghost before = *link;
    proof {
        lemma_goes_left(before, key);
        lemma_lent_left(before);
        lemma_below_lent_root(before, key);
    }

    if !is_red(left(link)) && !is_red(left(left(link))) {
        move_red_left(link);
    }
    let ghost opened = *link;
    proof {
        assert(opened == lent_left(before)) by {
            reveal(lent_left);
        }
        lemma_goes_left(opened, key);
    }

    delete(left_mut(link), key);

    proof {
        lemma_left_removed(opened, *link, key);
        lemma_mended_left(opened, *link);
        assert(balanced_up(*link) == deleted(before, key)) by {
            lemma_deleted_left(before, key);
        }
    }
    balance(link);
}

/// Removes a key that is not below the root's key: rotates a red left link
/// to the right, lends a red link to the right where the right child has
/// none, then either gives the root its successor's entry or removes the key
/// from the right child, and restores the balance.
fn delete_above<K: PartialOrd, V>(link: &mut Link<K, V>, key: K)
    requires
        total_order::<K>(),
        sorted(entries(*old(link))),
        sized(*old(link)),
        ripe(*old(link)),
        find(entries(*old(link)), key) is Some,
        *old(link) is Some,
        !lt(key, root_entry(*old(link)).0),
    ensures
        llrb(*final(link)),
        sized(*final(link)),
        black_height(*final(link)) == black_height(*old(link)),
        !red(*old(link)) ==> !red(*final(link)),
        entries(*final(link)) == removed(entries(*old(link)), key),
        *final(link) == deleted(*old(link), key),
    decreases entries(*old(link)).len(), 0nat,
{
    let ghost before = *link;
    proof {
        lemma_turned(before);
        lemma_above_left_root(before, key);
    }

    if is_red(left(link)) {
        rotate_right(link);
    }
    proof {
        assert(*link == turned(before)) by {
            reveal(turned);
        }
    }

    if let Some(Ordering::Equal) = compare_key(&key, link) {
        if right(link).is_none() {
            proof {
                lemma_absent::<K, V>();
                lemma_leaf_removed(before, key);
                lemma_deleted_last(before, key);
            }
            *link = None;
            return ;
        }
    }
    proof {
        lemma_has_right(before, key);
        lemma_lent_right(before);
    }

    if !is_red(right(link)) && !is_red(left(right(link))) {
        move_red_right(link);
    }
    let ghost opened = *link;
    proof {
        assert(opened == lent_right(turned(before))) by {
            reveal(lent_right);
        }
    }

    if let Some(Ordering::Equal) = compare_key(&key, link) {
        proof {
            lemma_lt_connected(key, key);
        }
        take_successor(link);
        proof {
            lemma_here_removed(opened, *link, key);
            lemma_mended_right(opened, *link);
            assert(balanced_up(*link) == deleted(before, key)) by {
                lemma_deleted_here(before, key);
            }
        }
    } else {
        proof {
            if lt(key, root_entry(opened).0) {
                lemma_lt_asymmetric(key, root_entry(opened).0);
            }
            if lt(root_entry(opened).0, key) {
                lemma_lt_asymmetric(root_entry(opened).0, key);
            }
            lemma_goes_right(before, opened, key);
        }
        delete(right_mut(link), key);
        proof {
            lemma_right_removed(opened, *link, key);
            lemma_mended_right(opened, *link);
            assert(balanced_up(*link) == deleted(before, key)) by {
                lemma_deleted_right(before, key);
            }
        }
    }

    balance(link);
}

/// An absent link holds no key.
proof fn lemma_holds_none<K: PartialOrd, V>(key: K)
    ensures
        find(entries(None::<Box<crate::rbt::node::Node<K, V>>>), key) is None,
{
    lemma_absent::<K, V>();
    reveal(Seq::filter);
}

/// A key below the root's key that the subtree holds is held by its left
/// child, which is sorted.
proof fn lemma_goes_left<K: PartialOrd, V>(link: Link<K, V>, key: K)
    requires
        total_order::<K>(),
        link is Some,
        sorted(entries(link)),
        find(entries(link), key) is Some,
        lt(key, root_entry(link).0),
    ensures
        left_of(link) is Some,
        sorted(entries(left_of(link))),
        find(entries(left_of(link)), key) is Some,
        entries(left_of(link)).len() < entries(link).len(),
{
    let l = entries(left_of(link));
    let r = entries(right_of(link));
    lemma_entries(link);
    lemma_sorted_split(l, root_entry(link), r);
    lemma_removed_left(l, root_entry(link), r, key);
    if left_of(link) is None {
        lemma_absent::<K, V>();
        reveal(Seq::filter);
    }
}

/// A key below the root's key is below the key of the root that a move of a
/// red link to the left may bring up.
proof fn lemma_below_lent_root<K: PartialOrd, V>(link: Link<K, V>, key: K)
    requires
        total_order::<K>(),
        link is Some,
        sorted(entries(link)),
        lt(key, root_entry(link).0),
    ensures
        left_of(right_of(link)) is Some ==> lt(key, root_entry(left_of(right_of(link))).0),
{
    let l = entries(left_of(link));
    let r = entries(right_of(link));
    let up = left_of(right_of(link));
    if up is Some {
        lemma_entries(link);
        lemma_entries(right_of(link));
        lemma_entries(up);
        lemma_sorted_split(l, root_entry(link), r);
        let i = entries(left_of(up)).len() as int;
        assert(r[i] == root_entry(up));
        lemma_lt_transitive(key, root_entry(link).0, r[i].0);
    }
}

/// A key not below the root's key is above the key of the left child's
/// root.
proof fn lemma_above_left_root<K: PartialOrd, V>(link: Link<K, V>, key: K)
    requires
        total_order::<K>(),
        link is Some,
        sorted(entries(link)),
        !lt(key, root_entry(link).0),
    ensures
        left_of(link) is Some ==> lt(root_entry(left_of(link)).0, key),
{
    let l = entries(left_of(link));
    let r = entries(right_of(link));
    let down = left_of(link);
    if down is Some {
        lemma_entries(link);
        lemma_entries(down);
        lemma_sorted_split(l, root_entry(link), r);
        let i = entries(left_of(down)).len() as int;
        assert(l[i] == root_entry(down));
        lemma_lt_connected(key, root_entry(link).0);
        if key != root_entry(link).0 {
            lemma_lt_transitive(l[i].0, root_entry(link).0, key);
        }
    }
}

/// Without the root's key, a subtree of one node has no entries.
proof fn lemma_leaf_removed<K: PartialOrd, V>(link: Link<K, V>, key: K)
    requires
        total_order::<K>(),
        link is Some,
        sorted(entries(link)),
        entries(link) == seq![root_entry(link)],
        key == root_entry(link).0,
    ensures
        removed(entries(link), key) == Seq::<(K, V)>::empty(),
{
    let none = Seq::<(K, V)>::empty();
    assert(none.push(root_entry(link)) + none =~= seq![root_entry(link)]);
    lemma_removed_here(none, root_entry(link), none, key);
    assert(none + none =~= none);
}

/// A subtree that holds a key not below its root's key has a right child
/// once a red left link was rotated to the right, unless its only entry is
/// at that key.
proof fn lemma_has_right<K: PartialOrd, V>(link: Link<K, V>, key: K)
    requires
        total_order::<K>(),
        link is Some,
        sorted(entries(link)),
        find(entries(link), key) is Some,
        right_of(turned(link)) is None ==> entries(link) == seq![root_entry(link)] && key
            != root_entry(link).0,
    ensures
        right_of(turned(link)) is Some,
{
    if right_of(turned(link)) is None {
        crate::order::lemma_filter_none(entries(link), crate::order::key_is(key));
    }
}

/// A key above the root's key that the subtree holds is held by its right
/// child, which is sorted; the right child's root keeps the key from
/// falling below it where it has a red right link.
proof fn lemma_goes_right<K: PartialOrd, V>(before: Link<K, V>, link: Link<K, V>, key: K)
    requires
        total_order::<K>(),
        before is Some,
        link is Some,
        right_of(link) is Some,
        sorted(entries(link)),
        find(entries(link), key) is Some,
        !lt(key, root_entry(before).0),
        key != root_entry(link).0,
        left_of(before) is Some ==> lt(root_entry(left_of(before)).0, key),
        ({
            &&& root_entry(link) == root_entry(before)
            &&& !red(right_of(right_of(link)))
        }) || ({
            &&& left_of(before) is Some
            &&& root_entry(link) == root_entry(left_of(before))
            &&& root_entry(right_of(link)) == root_entry(before)
        }),
    ensures
        lt(root_entry(link).0, key),
        sorted(entries(right_of(link))),
        find(entries(right_of(link)), key) is Some,
        entries(right_of(link)).len() < entries(link).len(),
        red(right_of(right_of(link))) ==> !lt(key, root_entry(right_of(link)).0),
{
    let l = entries(left_of(link));
    let r = entries(right_of(link));
    lemma_lt_connected(key, root_entry(link).0);
    lemma_entries(link);
    lemma_sorted_split(l, root_entry(link), r);
    lemma_removed_right(l, root_entry(link), r, key);
}

/// The entries of a subtree whose left child lost a key below the root's
/// key.
proof fn lemma_left_removed<K: PartialOrd, V>(opened: Link<K, V>, after: Link<K, V>, key: K)
    requires
        total_order::<K>(),
        opened is Some,
        after is Some,
        sorted(entries(opened)),
        lt(key, root_entry(opened).0),
        root_entry(after) == root_entry(opened),
        right_of(after) == right_of(opened),
        entries(left_of(after)) == removed(entries(left_of(opened)), key),
    ensures
        entries(after) == removed(entries(opened), key),
        entries(left_of(after)).len() <= entries(left_of(opened)).len(),
{
    lemma_entries(opened);
    lemma_entries(after);
    lemma_removed_left(
        entries(left_of(opened)),
        root_entry(opened),
        entries(right_of(opened)),
        key,
    );
}

/// The entries of a subtree whose right child lost a key above the root's
/// key.
proof fn lemma_right_removed<K: PartialOrd, V>(opened: Link<K, V>, after: Link<K, V>, key: K)
    requires
        total_order::<K>(),
        opened is Some,
        after is Some,
        sorted(entries(opened)),
        lt(root_entry(opened).0, key),
        root_entry(after) == root_entry(opened),
        left_of(after) == left_of(opened),
        entries(right_of(after)) == removed(entries(right_of(opened)), key),
    ensures
        entries(after) == removed(entries(opened), key),
        entries(right_of(after)).len() <= entries(right_of(opened)).len(),
{
    lemma_entries(opened);
    lemma_entries(after);
    lemma_removed_right(
        entries(left_of(opened)),
        root_entry(opened),
        entries(right_of(opened)),
        key,
    );
}

/// Before the root's entry is exchanged with the least entry of the right
/// child: the child keeps its shape under the exchange, so that its least
/// entry can be deleted.
proof fn lemma_swap_min<K, V>(opened: Link<K, V>)
    requires
        opened is Some,
        right_of(opened) is Some,
        ripe(right_of(opened)),
        sized(right_of(opened)),
        !red(right_of(right_of(opened))),
    ensures
        min_link(right_of(opened)) is Some,
        ({
            let r = right_of(opened);
            let e = root_entry(opened);
            let swapped = with_min(r, with_entry(min_link(r), e.0, e.1));
            &&& ripe(swapped)
            &&& !red(right_of(swapped))
            &&& sized(swapped)
            &&& black_height(swapped) == black_height(r)
            &&& red(swapped) == red(r)
            &&& entries(swapped).len() == entries(r).len()
            &&& entries(swapped).drop_first() == entries(r).drop_first()
            &&& root_entry(min_link(r)) == entries(r)[0]
        }),
{
    let r = right_of(opened);
    let e = root_entry(opened);
    let swapped = with_min(r, with_entry(min_link(r), e.0, e.1));
    lemma_min_link(r);
    lemma_with_min(r, e.0, e.1);
    assert(llrb(r)) by {
        reveal_with_fuel(llrb, 2);
    }
    lemma_llrb_ripe(swapped);
    assert(entries(swapped).drop_first() =~= entries(r).drop_first());
}

/// The entries of a subtree whose root took the least entry of its right
/// child, which lost it.
proof fn lemma_here_removed<K: PartialOrd, V>(opened: Link<K, V>, after: Link<K, V>, key: K)
    requires
        total_order::<K>(),
        opened is Some,
        after is Some,
        sorted(entries(opened)),
        key == root_entry(opened).0,
        entries(right_of(opened)).len() > 0,
        root_entry(after) == entries(right_of(opened))[0],
        left_of(after) == left_of(opened),
        entries(right_of(after)) == entries(right_of(opened)).drop_first(),
    ensures
        entries(after) == removed(entries(opened), key),
        entries(right_of(after)).len() <= entries(right_of(opened)).len(),
{
    let l = entries(left_of(opened));
    let r = entries(right_of(opened));
    lemma_entries(opened);
    lemma_entries(after);
    assert(removed(entries(opened), key) == l + r) by {
        lemma_removed_here(l, root_entry(opened), r, key);
    }
    assert(entries(after) =~= l + r);
}

} // verus!
