//! What insertion below a node and rebalancing at it make of a subtree.

use super::laws::{
    lemma_absent, lemma_balance_almost, lemma_balance_near, lemma_balance_red,
    lemma_balanced_up_fit, lemma_entries, lemma_sized_count, lemma_with_child,
};
use super::node::{Colors, Link};
use super::shape::{
    almost, balanced_up, black_height, entries, fit, left_of, llrb, make, red, right_of, sized,
    with_entry, with_left, with_right,
};
use crate::order::{
    inserted, lemma_descend_here, lemma_descend_left, lemma_descend_right, lemma_sorted_split, lt,
    sorted, total_order,
};
use vstd::prelude::*;

verus! {

/// The children of a sorted left-leaning red-black tree are such trees, and
/// each has room for one more entry.
pub(crate) proof fn lemma_put_descends<K: PartialOrd, V>(before: Link<K, V>)
    requires
        sorted(entries(before)),
        llrb(before),
        sized(before),
    ensures
        sorted(entries(left_of(before))),
        sorted(entries(right_of(before))),
        llrb(left_of(before)),
        llrb(right_of(before)),
        sized(left_of(before)),
        sized(right_of(before)),
        entries(left_of(before)).len() < usize::MAX,
        entries(right_of(before)).len() < usize::MAX,
        !red(right_of(before)),
        red(before) ==> !red(left_of(before)),
        before is None ==> entries(before) == Seq::<(K, V)>::empty() && black_height(before) == 0,
{
    lemma_absent::<K, V>();
    lemma_sized_count(before);
    reveal(sized);
    reveal(llrb);
    if before is Some {
        lemma_entries(before);
        lemma_sorted_split(
            entries(left_of(before)),
            (before.unwrap().key, before.unwrap().val),
            entries(right_of(before)),
        );
    } else {
    }
}

/// The entries of a subtree whose left child was replaced by the result of
/// an insertion below it.
pub(crate) proof fn lemma_put_left_entries<K: PartialOrd, V>(
    before: Link<K, V>,
    child: Link<K, V>,
    key: K,
    val: V,
)
    requires
        total_order::<K>(),
        before is Some,
        sorted(entries(before)),
        sized(before),
        inserted(entries(before), key, val).len() <= usize::MAX,
        lt(key, before.unwrap().key),
        entries(child) == inserted(entries(left_of(before)), key, val),
        sized(child),
    ensures
        entries(with_left(before, child)) == inserted(entries(before), key, val),
        fit(with_left(before, child)),
{
    let e = (before.unwrap().key, before.unwrap().val);
    let l = entries(left_of(before));
    let r = entries(right_of(before));
    let after = with_left(before, child);
    assert(entries(after) == inserted(entries(before), key, val)) by {
        lemma_entries(before);
        lemma_with_child(before, child);
        lemma_descend_left(l, e, r, key);
        assert(entries(after) =~= inserted(entries(before), key, val));
    }
    lemma_sized_count(before);
}

/// The entries of a subtree whose right child was replaced by the result of
/// an insertion below it.
pub(crate) proof fn lemma_put_right_entries<K: PartialOrd, V>(
    before: Link<K, V>,
    child: Link<K, V>,
    key: K,
    val: V,
)
    requires
        total_order::<K>(),
        before is Some,
        sorted(entries(before)),
        sized(before),
        inserted(entries(before), key, val).len() <= usize::MAX,
        lt(before.unwrap().key, key),
        entries(child) == inserted(entries(right_of(before)), key, val),
        sized(child),
    ensures
        entries(with_right(before, child)) == inserted(entries(before), key, val),
        fit(with_right(before, child)),
{
    let e = (before.unwrap().key, before.unwrap().val);
    let l = entries(left_of(before));
    let r = entries(right_of(before));
    let after = with_right(before, child);
    assert(entries(after) == inserted(entries(before), key, val)) by {
        lemma_entries(before);
        lemma_with_child(before, child);
        lemma_descend_right(l, e, r, key);
        assert(entries(after) =~= inserted(entries(before), key, val));
    }
    lemma_sized_count(before);
}

/// What `balance` makes of a left-leaning red-black tree whose left child
/// was replaced by the result of an insertion below it.
pub(crate) proof fn lemma_put_left_colors<K, V>(before: Link<K, V>, child: Link<K, V>)
    requires
        before is Some,
        llrb(before),
        fit(with_left(before, child)),
        black_height(child) == black_height(left_of(before)),
        !red(left_of(before)) ==> llrb(child),
        red(left_of(before)) ==> red(child) && (llrb(child) || almost(child)),
    ensures
        entries(balanced_up(with_left(before, child))) == entries(with_left(before, child)),
        sized(balanced_up(with_left(before, child))),
        balanced_up(with_left(before, child)) is Some,
        black_height(balanced_up(with_left(before, child))) == black_height(before),
        !red(before) ==> llrb(balanced_up(with_left(before, child))),
        red(before) ==> red(balanced_up(with_left(before, child))) && (llrb(
            balanced_up(with_left(before, child)),
        ) || almost(balanced_up(with_left(before, child)))),
{
    reveal(black_height);
    reveal(llrb);
    let after = with_left(before, child);
    lemma_balanced_up_fit(after);
    if red(before) {
        lemma_balance_red(after);
    } else if llrb(child) {
        lemma_balance_near(after);
    } else {
        lemma_balance_almost(after);
    }
}

/// What `balance` makes of a left-leaning red-black tree whose right child
/// was replaced by the result of an insertion below it.
pub(crate) proof fn lemma_put_right_colors<K, V>(before: Link<K, V>, child: Link<K, V>)
    requires
        before is Some,
        llrb(before),
        fit(with_right(before, child)),
        black_height(child) == black_height(right_of(before)),
        llrb(child),
    ensures
        entries(balanced_up(with_right(before, child))) == entries(with_right(before, child)),
        sized(balanced_up(with_right(before, child))),
        balanced_up(with_right(before, child)) is Some,
        black_height(balanced_up(with_right(before, child))) == black_height(before),
        !red(before) ==> llrb(balanced_up(with_right(before, child))),
        red(before) ==> red(balanced_up(with_right(before, child))) && (llrb(
            balanced_up(with_right(before, child)),
        ) || almost(balanced_up(with_right(before, child)))),
{
    reveal(black_height);
    reveal(llrb);
    let after = with_right(before, child);
    lemma_balanced_up_fit(after);
    if red(before) {
        lemma_balance_red(after);
    } else {
        lemma_balance_near(after);
    }
}

/// `balance` leaves a left-leaning red-black tree as it is.
pub(crate) proof fn lemma_balance_idle<K, V>(link: Link<K, V>)
    requires
        llrb(link),
        sized(link),
    ensures
        balanced_up(link) == link,
{
    reveal(entries);
    reveal(sized);
    reveal(balanced_up);
    reveal(super::shape::rebalanced);
    reveal_with_fuel(llrb, 2);
    if link is Some {
        lemma_sized_count(link);
        lemma_sized_count(left_of(link));
        lemma_sized_count(right_of(link));
        lemma_entries(link);
    }
}

/// A subtree whose root's value was replaced by `val`, where `key` is the
/// root's key.
pub(crate) proof fn lemma_put_here<K: PartialOrd, V>(
    before: Link<K, V>,
    after: Link<K, V>,
    key: K,
    val: V,
)
    requires
        total_order::<K>(),
        before is Some,
        sorted(entries(before)),
        llrb(before),
        sized(before),
        inserted(entries(before), key, val).len() <= usize::MAX,
        key == before.unwrap().key,
        after == with_entry(before, before.unwrap().key, val),
    ensures
        fit(after),
        balanced_up(after) == after,
        entries(after) == inserted(entries(before), key, val),
        sized(after),
        black_height(after) == black_height(before),
        llrb(after),
        red(after) == red(before),
{
    reveal(entries);
    reveal(sized);
    reveal(black_height);
    reveal(llrb);
    let e = (before.unwrap().key, before.unwrap().val);
    let l = entries(left_of(before));
    let r = entries(right_of(before));
    lemma_entries(before);
    lemma_entries(after);
    lemma_sized_count(before);
    assert(entries(after) == inserted(entries(before), key, val)) by {
        lemma_descend_here(l, e, r, key);
        assert(entries(after) =~= inserted(entries(before), key, val));
    }
    lemma_balance_idle(after);
}

/// A new red leaf with the entry `(key, val)`.
pub(crate) proof fn lemma_put_leaf<K: PartialOrd, V>(after: Link<K, V>, key: K, val: V)
    requires
        after == make(key, val, 1, Colors::RED, None, None),
    ensures
        fit(after),
        balanced_up(after) == after,
        entries(after) == inserted(Seq::<(K, V)>::empty(), key, val),
        sized(after),
        black_height(after) == 0,
        llrb(after),
{
    reveal(Seq::filter);
    reveal_with_fuel(llrb, 2);
    reveal_with_fuel(black_height, 2);
    reveal_with_fuel(sized, 2);
    reveal_with_fuel(entries, 2);
    assert(entries(after) =~= inserted(Seq::<(K, V)>::empty(), key, val));
    lemma_balance_idle(after);
}

} // verus!
