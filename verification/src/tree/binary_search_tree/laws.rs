//! What the operations of the binary search tree make of the entries of a
//! subtree.

use super::{
    count, entries, entry_of, left_of, link_at, make, max_link, min_link, ready, resized, right_of,
    root_entry, sized, with_min, Link, Node,
};
use crate::order::{
    ceiling_of, find, floor_of, inserted, lemma_inserted_here, lemma_inserted_left,
    lemma_inserted_len, lemma_inserted_right, lemma_lt_asymmetric, lemma_lt_connected,
    lemma_queries_empty, lemma_queries_here, lemma_queries_left, lemma_queries_right,
    lemma_removed_here, lemma_removed_left, lemma_removed_right, lemma_removed_sorted,
    lemma_sorted_drop, lemma_sorted_empty, lemma_sorted_split, lt, rank_of, removed, sorted,
    total_order,
};
use vstd::prelude::*;

verus! {

/// The entries of a subtree are those of its left child, its root's and
/// those of its right child.
pub(super) proof fn lemma_entries<K, V>(link: Link<K, V>)
    requires
        link is Some,
    ensures
        entries(link) == entries(left_of(link)).push(root_entry(link)) + entries(right_of(link)),
        entries(link).len() == entries(left_of(link)).len() + 1 + entries(right_of(link)).len(),
        entry_of(link) == Some(root_entry(link)),
{
    reveal(entries);
}

/// An absent link has no entries and stores its sizes.
pub(super) proof fn lemma_absent<K, V>()
    ensures
        entries(None::<Box<Node<K, V>>>) == Seq::<(K, V)>::empty(),
        sized(None::<Box<Node<K, V>>>),
{
    reveal(entries);
    reveal(sized);
}

/// A subtree that stores its sizes stores at its root the number of its
/// entries; its children store their sizes.
pub(super) proof fn lemma_sized<K, V>(link: Link<K, V>)
    requires
        sized(link),
    ensures
        count(link) == entries(link).len(),
        sized(left_of(link)),
        sized(right_of(link)),
        count(left_of(link)) == entries(left_of(link)).len(),
        count(right_of(link)) == entries(right_of(link)).len(),
        link is Some ==> count(link) == count(left_of(link)) + count(right_of(link)) + 1,
        link is None ==> entries(link).len() == 0,
{
    reveal_with_fuel(sized, 2);
    lemma_absent::<K, V>();
    if link is Some {
        lemma_entries(link);
        if left_of(link) is Some {
            lemma_entries(left_of(link));
        }
        if right_of(link) is Some {
            lemma_entries(right_of(link));
        }
    }
}

/// Recomputing the root's size completes a subtree whose children store
/// their sizes.
pub(super) proof fn lemma_resized<K, V>(link: Link<K, V>)
    requires
        link is Some,
        sized(left_of(link)),
        sized(right_of(link)),
        entries(link).len() <= usize::MAX,
    ensures
        ready(link),
        count(left_of(link)) + count(right_of(link)) + 1 == entries(link).len(),
        entries(resized(link)) == entries(link),
        sized(resized(link)),
        sized(link) ==> resized(link) == link,
{
    lemma_entries(link);
    lemma_entries(resized(link));
    lemma_sized(left_of(link));
    lemma_sized(right_of(link));
    reveal(sized);
}

/// The children of a sorted subtree are sorted.
pub(super) proof fn lemma_sorted_children<K: PartialOrd, V>(link: Link<K, V>)
    requires
        sorted(entries(link)),
    ensures
        sorted(entries(left_of(link))),
        sorted(entries(right_of(link))),
{
    if link is Some {
        lemma_entries(link);
        lemma_sorted_split(entries(left_of(link)), root_entry(link), entries(right_of(link)));
    } else {
        lemma_absent::<K, V>();
        lemma_sorted_empty::<K, V>();
    }
}

/// What `key` finds, counts and is bracketed by in a sorted subtree follows
/// from the same in the child on `key`'s side.
pub(super) proof fn lemma_parts<K: PartialOrd, V>(link: Link<K, V>, key: K)
    requires
        total_order::<K>(),
        sorted(entries(link)),
    ensures
        sorted(entries(left_of(link))),
        sorted(entries(right_of(link))),
        link is None ==> {
            &&& find(entries(link), key) is None
            &&& rank_of(entries(link), key) == 0
            &&& floor_of(entries(link), key) is None
            &&& ceiling_of(entries(link), key) is None
        },
        link is Some && lt(key, root_entry(link).0) ==> {
            &&& !lt(root_entry(link).0, key)
            &&& find(entries(link), key) == find(entries(left_of(link)), key)
            &&& rank_of(entries(link), key) == rank_of(entries(left_of(link)), key)
            &&& floor_of(entries(link), key) == floor_of(entries(left_of(link)), key)
            &&& ceiling_of(entries(link), key) == if ceiling_of(entries(left_of(link)), key)
                is Some {
                ceiling_of(entries(left_of(link)), key)
            } else {
                Some(root_entry(link))
            }
        },
        link is Some && lt(root_entry(link).0, key) ==> {
            &&& !lt(key, root_entry(link).0)
            &&& find(entries(link), key) == find(entries(right_of(link)), key)
            &&& rank_of(entries(link), key) == entries(left_of(link)).len() + 1 + rank_of(
                entries(right_of(link)),
                key,
            )
            &&& ceiling_of(entries(link), key) == ceiling_of(entries(right_of(link)), key)
            &&& floor_of(entries(link), key) == if floor_of(entries(right_of(link)), key)
                is Some {
                floor_of(entries(right_of(link)), key)
            } else {
                Some(root_entry(link))
            }
        },
        link is Some && !lt(key, root_entry(link).0) && !lt(root_entry(link).0, key) ==> {
            &&& key == root_entry(link).0
            &&& find(entries(link), key) == Some(root_entry(link).1)
            &&& rank_of(entries(link), key) == entries(left_of(link)).len()
            &&& floor_of(entries(link), key) == Some(root_entry(link))
            &&& ceiling_of(entries(link), key) == Some(root_entry(link))
        },
{
    let l = entries(left_of(link));
    let r = entries(right_of(link));
    lemma_sorted_children(link);
    lemma_absent::<K, V>();
    if link is Some {
        let e = root_entry(link);
        lemma_entries(link);
        lemma_lt_connected(key, e.0);
        if lt(key, e.0) {
            lemma_lt_asymmetric(key, e.0);
            lemma_queries_left(l, e, r, key);
        }
        if lt(e.0, key) {
            lemma_lt_asymmetric(e.0, key);
            lemma_queries_right(l, e, r, key);
        }
        if key == e.0 {
            lemma_queries_here(l, e, r, key);
        }
    } else {
        lemma_queries_empty::<K, V>(key);
    }
}

/// The link at the end of the left spine holds the first entry.
pub(super) proof fn lemma_min_link<K, V>(link: Link<K, V>)
    ensures
        entry_of(min_link(link)) == if entries(link).len() > 0 {
            Some(entries(link).first())
        } else {
            None
        },
        link is Some ==> min_link(link) is Some && left_of(min_link(link)) is None,
    decreases link,
{
    lemma_absent::<K, V>();
    if link is Some {
        lemma_entries(link);
        if left_of(link) is Some {
            lemma_min_link(left_of(link));
            lemma_entries(left_of(link));
        }
    }
}

/// The link at the end of the right spine holds the last entry.
pub(super) proof fn lemma_max_link<K, V>(link: Link<K, V>)
    ensures
        entry_of(max_link(link)) == if entries(link).len() > 0 {
            Some(entries(link).last())
        } else {
            None
        },
    decreases link,
{
    lemma_absent::<K, V>();
    if link is Some {
        lemma_entries(link);
        if right_of(link) is Some {
            lemma_max_link(right_of(link));
            lemma_entries(right_of(link));
        }
    }
}

/// The link at which a search for `key` ends leads to the entry that `key`
/// finds.
pub(super) proof fn lemma_link_at<K: PartialOrd, V>(link: Link<K, V>, key: K)
    requires
        total_order::<K>(),
        sorted(entries(link)),
    ensures
        entry_of(link_at(link, key)) == match find(entries(link), key) {
            Some(val) => Some((key, val)),
            None => None,
        },
    decreases link,
{
    lemma_parts(link, key);
    if link is Some {
        if lt(key, root_entry(link).0) {
            lemma_link_at(left_of(link), key);
        } else if lt(root_entry(link).0, key) {
            lemma_link_at(right_of(link), key);
        }
    }
}

/// Replacing the entry at the end of the left spine replaces the first
/// entry and changes no size.
pub(super) proof fn lemma_with_min<K, V>(link: Link<K, V>, key: K, val: V)
    requires
        link is Some,
    ensures
        min_link(link) is Some,
        ({
            let least = min_link(link).unwrap();
            let swapped = with_min(link, make(key, val, least.left, least.right, least.n));
            &&& swapped is Some
            &&& entries(swapped) == entries(link).update(0, (key, val))
            &&& sized(link) ==> sized(swapped)
            &&& root_entry(min_link(link)) == entries(link)[0]
        }),
    decreases link,
{
    let least = min_link(link).unwrap();
    let swapped = with_min(link, make(key, val, least.left, least.right, least.n));
    lemma_entries(link);
    lemma_absent::<K, V>();
    reveal(sized);
    if left_of(link) is Some {
        lemma_with_min(left_of(link), key, val);
        lemma_entries(left_of(link));
        lemma_entries(swapped);
        assert(entries(swapped) =~= entries(link).update(0, (key, val)));
    } else {
        lemma_entries(swapped);
        assert(entries(swapped) =~= entries(link).update(0, (key, val)));
    }
}

/// A node without children is a well-formed table of one entry.
pub(super) proof fn lemma_leaf<K, V>(link: Link<K, V>, key: K, val: V)
    requires
        link == make(key, val, None, None, 1),
    ensures
        entries(link) == seq![(key, val)],
        sized(link),
        entry_of(link) == Some((key, val)),
{
    lemma_entries(link);
    lemma_absent::<K, V>();
    reveal(sized);
    assert(entries(link) =~= seq![(key, val)]);
}

/// Each child of a table whose sizes fit has room for one more entry.
pub(super) proof fn lemma_room<K, V>(before: Link<K, V>)
    requires
        sized(before),
    ensures
        entries(left_of(before)).len() < usize::MAX,
        entries(right_of(before)).len() < usize::MAX,
{
    lemma_sized(before);
    lemma_absent::<K, V>();
    if before is Some {
        lemma_entries(before);
    }
}

/// The children of a well-formed table are well-formed tables; a table is
/// empty exactly when its link is absent.
pub(super) proof fn lemma_descends<K: PartialOrd, V>(before: Link<K, V>)
    requires
        sorted(entries(before)),
        sized(before),
    ensures
        sorted(entries(left_of(before))),
        sorted(entries(right_of(before))),
        sized(left_of(before)),
        sized(right_of(before)),
        entries(left_of(before)).len() <= entries(before).len(),
        entries(right_of(before)).len() <= entries(before).len(),
        before is Some <==> entries(before).len() > 0,
        left_of(before) is Some <==> entries(left_of(before)).len() > 0,
        right_of(before) is Some <==> entries(right_of(before)).len() > 0,
        entries(before).len() <= usize::MAX,
{
    lemma_sorted_children(before);
    lemma_sized(before);
    lemma_sized(left_of(before));
    lemma_sized(right_of(before));
    lemma_absent::<K, V>();
    if before is Some {
        lemma_entries(before);
    }
    if left_of(before) is Some {
        lemma_entries(left_of(before));
    }
    if right_of(before) is Some {
        lemma_entries(right_of(before));
    }
}

/// A subtree one of whose children had `key` bound to `val`, or whose root
/// with the key `key` took the value `val`, has `key` bound to `val` once
/// its size is recomputed.
pub(super) proof fn lemma_put<K: PartialOrd, V>(
    before: Link<K, V>,
    after: Link<K, V>,
    key: K,
    val: V,
)
    requires
        total_order::<K>(),
        before is Some,
        after is Some,
        sorted(entries(before)),
        sized(before),
        inserted(entries(before), key, val).len() <= usize::MAX,
        after.unwrap().key == before.unwrap().key,
        if lt(key, root_entry(before).0) {
            &&& right_of(after) == right_of(before)
            &&& after.unwrap().val == before.unwrap().val
            &&& entries(left_of(after)) == inserted(entries(left_of(before)), key, val)
            &&& sized(left_of(after))
        } else if lt(root_entry(before).0, key) {
            &&& left_of(after) == left_of(before)
            &&& after.unwrap().val == before.unwrap().val
            &&& entries(right_of(after)) == inserted(entries(right_of(before)), key, val)
            &&& sized(right_of(after))
        } else {
            &&& left_of(after) == left_of(before)
            &&& right_of(after) == right_of(before)
            &&& after.unwrap().val == val
        },
    ensures
        ready(after),
        entries(resized(after)) == inserted(entries(before), key, val),
        sized(resized(after)),
{
    let l = entries(left_of(before));
    let r = entries(right_of(before));
    let e = root_entry(before);
    lemma_entries(before);
    lemma_entries(after);
    lemma_sized(before);
    lemma_inserted_len(entries(before), key, val);
    lemma_lt_connected(key, e.0);
    if lt(key, e.0) {
        lemma_inserted_left(l, e, r, key, val);
    } else if lt(e.0, key) {
        lemma_inserted_right(l, e, r, key, val);
    } else {
        lemma_inserted_here(l, e, r, key, val);
    }
    lemma_resized(after);
}

/// A subtree whose left child lost its least entry has lost its least entry
/// once its size is recomputed.
pub(super) proof fn lemma_least_dropped<K: PartialOrd, V>(before: Link<K, V>, after: Link<K, V>)
    requires
        before is Some,
        after is Some,
        sorted(entries(before)),
        sized(before),
        entries(left_of(before)).len() > 0,
        root_entry(after) == root_entry(before),
        right_of(after) == right_of(before),
        entries(left_of(after)) == entries(left_of(before)).drop_first(),
        sized(left_of(after)),
    ensures
        ready(after),
        entries(resized(after)) == entries(before).drop_first(),
        sized(resized(after)),
        sorted(entries(before).drop_first()),
        entries(before).len() > 0,
{
    lemma_entries(before);
    lemma_entries(after);
    lemma_sized(before);
    lemma_sorted_drop(entries(before));
    assert(entries(after) =~= entries(before).drop_first());
    lemma_resized(after);
}

/// The right child of a subtree without a left child is the subtree without
/// its least entry.
pub(super) proof fn lemma_least_here<K: PartialOrd, V>(before: Link<K, V>)
    requires
        before is Some,
        left_of(before) is None,
        sorted(entries(before)),
        sized(before),
    ensures
        entries(right_of(before)) == entries(before).drop_first(),
        sorted(entries(before).drop_first()),
        sized(right_of(before)),
        entries(before).len() > 0,
{
    lemma_entries(before);
    lemma_absent::<K, V>();
    lemma_sized(before);
    lemma_sorted_drop(entries(before));
    assert(entries(right_of(before)) =~= entries(before).drop_first());
}

/// A subtree whose right child lost its greatest entry has lost its greatest
/// entry once its size is recomputed.
pub(super) proof fn lemma_greatest_dropped<K: PartialOrd, V>(before: Link<K, V>, after: Link<K, V>)
    requires
        before is Some,
        after is Some,
        sorted(entries(before)),
        sized(before),
        entries(right_of(before)).len() > 0,
        root_entry(after) == root_entry(before),
        left_of(after) == left_of(before),
        entries(right_of(after)) == entries(right_of(before)).drop_last(),
        sized(right_of(after)),
    ensures
        ready(after),
        entries(resized(after)) == entries(before).drop_last(),
        sized(resized(after)),
        sorted(entries(before).drop_last()),
        entries(before).len() > 0,
{
    lemma_entries(before);
    lemma_entries(after);
    lemma_sized(before);
    lemma_sorted_drop(entries(before));
    assert(entries(after) =~= entries(before).drop_last());
    lemma_resized(after);
}

/// The left child of a subtree without a right child is the subtree without
/// its greatest entry.
pub(super) proof fn lemma_greatest_here<K: PartialOrd, V>(before: Link<K, V>)
    requires
        before is Some,
        right_of(before) is None,
        sorted(entries(before)),
        sized(before),
    ensures
        entries(left_of(before)) == entries(before).drop_last(),
        sorted(entries(before).drop_last()),
        sized(left_of(before)),
        entries(before).len() > 0,
{
    lemma_entries(before);
    lemma_absent::<K, V>();
    lemma_sized(before);
    lemma_sorted_drop(entries(before));
    assert(entries(left_of(before)) =~= entries(before).drop_last());
}

/// Without the root's key, a sorted subtree has the entries of its children,
/// which are sorted and store their sizes.
pub(super) proof fn lemma_delete_top<K: PartialOrd, V>(before: Link<K, V>)
    requires
        total_order::<K>(),
        before is Some,
        sorted(entries(before)),
        sized(before),
    ensures
        removed(entries(before), root_entry(before).0) == entries(left_of(before)) + entries(
            right_of(before),
        ),
        sorted(entries(left_of(before)) + entries(right_of(before))),
        sorted(entries(left_of(before))),
        sorted(entries(right_of(before))),
        sized(left_of(before)),
        sized(right_of(before)),
        left_of(before) is None ==> entries(left_of(before)) + entries(right_of(before))
            == entries(right_of(before)),
        right_of(before) is None ==> entries(left_of(before)) + entries(right_of(before))
            == entries(left_of(before)),
        entry_of(before) == Some(root_entry(before)),
{
    let l = entries(left_of(before));
    let r = entries(right_of(before));
    lemma_entries(before);
    assert(removed(entries(before), root_entry(before).0) == l + r) by {
        lemma_removed_here(l, root_entry(before), r, root_entry(before).0);
    }
    lemma_removed_sorted(entries(before), root_entry(before).0);
    lemma_sorted_children(before);
    lemma_sized(before);
    lemma_one_side(left_of(before), right_of(before));
}

/// The entries of two subtrees of which one is empty are the entries of the
/// other.
pub(super) proof fn lemma_one_side<K, V>(left: Link<K, V>, right: Link<K, V>)
    ensures
        left is None ==> entries(left) + entries(right) == entries(right),
        right is None ==> entries(left) + entries(right) == entries(left),
{
    lemma_absent::<K, V>();
    if left is None {
        assert(entries(left) + entries(right) =~= entries(right));
    }
    if right is None {
        assert(entries(left) + entries(right) =~= entries(left));
    }
}

/// Where the root's entry is exchanged with the least entry of the right
/// child, that child stays a well-formed table, and its other entries are
/// what the right child had above its least.
pub(super) proof fn lemma_swap_least<K: PartialOrd, V>(before: Link<K, V>)
    requires
        total_order::<K>(),
        before is Some,
        right_of(before) is Some,
        sorted(entries(before)),
        sized(before),
    ensures
        min_link(right_of(before)) is Some,
        ({
            let r = right_of(before);
            let e = root_entry(before);
            let least = min_link(r).unwrap();
            let swapped = with_min(r, make(e.0, e.1, least.left, least.right, least.n));
            &&& sorted(entries(swapped))
            &&& sized(swapped)
            &&& entries(swapped).len() == entries(r).len()
            &&& entries(swapped).len() > 0
            &&& entries(swapped).drop_first() == entries(r).drop_first()
            &&& root_entry(min_link(r)) == entries(r)[0]
            &&& entries(left_of(before)).push(entries(r)[0]) + entries(r).drop_first()
                == entries(left_of(before)) + entries(r)
        }),
{
    let r = right_of(before);
    let e = root_entry(before);
    let least = min_link(r).unwrap();
    let swapped = with_min(r, make(e.0, e.1, least.left, least.right, least.n));
    lemma_entries(before);
    lemma_entries(r);
    lemma_sized(before);
    lemma_sorted_split(entries(left_of(before)), e, entries(r));
    lemma_with_min(r, e.0, e.1);
    lemma_swapped_sorted(entries(r), e);
    assert(entries(swapped).drop_first() =~= entries(r).drop_first());
    assert(entries(left_of(before)).push(entries(r)[0]) + entries(r).drop_first() =~= entries(
        left_of(before),
    ) + entries(r));
}

/// A subtree one of whose children lost `key`, with its size recomputed, is
/// a well-formed table that has lost `key`; one whose root holds `key` is, so
/// far, unchanged.
pub(super) proof fn lemma_delete<K: PartialOrd, V>(before: Link<K, V>, after: Link<K, V>, key: K)
    requires
        total_order::<K>(),
        before is Some,
        after is Some,
        sorted(entries(before)),
        sized(before),
        root_entry(after) == root_entry(before),
        if lt(key, root_entry(before).0) {
            &&& right_of(after) == right_of(before)
            &&& entries(left_of(after)) == removed(entries(left_of(before)), key)
            &&& sized(left_of(after))
        } else if lt(root_entry(before).0, key) {
            &&& left_of(after) == left_of(before)
            &&& entries(right_of(after)) == removed(entries(right_of(before)), key)
            &&& sized(right_of(after))
        } else {
            after == before
        },
    ensures
        ready(after),
        sized(resized(after)),
        lt(key, root_entry(before).0) || lt(root_entry(before).0, key) ==> entries(resized(after))
            == removed(entries(before), key),
        !lt(key, root_entry(before).0) && !lt(root_entry(before).0, key) ==> {
            &&& resized(after) == before
            &&& key == root_entry(before).0
        },
{
    let l = entries(left_of(before));
    let r = entries(right_of(before));
    let e = root_entry(before);
    lemma_entries(before);
    lemma_entries(after);
    lemma_sized(before);
    lemma_lt_connected(key, e.0);
    if lt(key, e.0) {
        lemma_removed_left(l, e, r, key);
    } else if lt(e.0, key) {
        lemma_removed_right(l, e, r, key);
    }
    lemma_resized(after);
}

/// A subtree whose root took the least entry of its right child, which lost
/// it, has the entries of the children it had; with its size recomputed it
/// stores its sizes.
pub(super) proof fn lemma_top_replaced<K, V>(before: Link<K, V>, after: Link<K, V>)
    requires
        before is Some,
        after is Some,
        sized(before),
        entries(right_of(before)).len() > 0,
        left_of(after) == left_of(before),
        root_entry(after) == entries(right_of(before))[0],
        entries(right_of(after)) == entries(right_of(before)).drop_first(),
        sized(right_of(after)),
    ensures
        ready(after),
        entries(resized(after)) == entries(left_of(before)) + entries(right_of(before)),
        sized(resized(after)),
{
    lemma_entries(before);
    lemma_entries(after);
    lemma_sized(before);
    assert(entries(after) =~= entries(left_of(before)) + entries(right_of(before)));
    lemma_resized(after);
}

/// A sorted sequence stays sorted when its first entry is replaced by one
/// with a key below all of its keys but the first.
pub(super) proof fn lemma_swapped_sorted<K: PartialOrd, V>(r: Seq<(K, V)>, e: (K, V))
    requires
        total_order::<K>(),
        sorted(r),
        r.len() > 0,
        forall|j: int| 0 <= j < r.len() ==> lt(e.0, #[trigger] r[j].0),
    ensures
        sorted(r.update(0, e)),
{
    reveal(sorted);
    let u = r.update(0, e);
    assert forall|i: int, j: int| 0 <= i < j < u.len() implies lt(
        #[trigger] u[i].0,
        #[trigger] u[j].0,
    ) by {
        if i == 0 {
            assert(u[j] == r[j]);
        } else {
            assert(u[i] == r[i] && u[j] == r[j]);
        }
    }
}

} // verus!
