//! Lookup and order statistics. None of them changes the tree.

use super::insert::compare_key;
use crate::order::{
    ceiling_of, find, floor_of, key_below, lemma_queries_empty, lemma_queries_here,
    lemma_queries_left, lemma_queries_right, lemma_sorted_empty, lemma_sorted_split, lt, rank_of,
    sorted, total_order,
};
use crate::rbt::balance::{left, right, size};
use crate::rbt::laws::{lemma_absent, lemma_entries, lemma_sized_count};
use crate::rbt::node::Link;
use crate::rbt::shape::{
    entries, left_of, max_link, min_link, right_of, root_entry, sized, within,
};
use core::cmp::Ordering;
use vstd::prelude::*;

verus! {

/// The value that `key` is bound to in the subtree.
pub(super) fn get<'a, K: PartialOrd, V>(link: &'a Link<K, V>, key: &K) -> (r: Option<&'a V>)
    requires
        total_order::<K>(),
        sorted(entries(*link)),
    ensures
        match r {
            Some(val) => find(entries(*link), *key) == Some(*val),
            None => find(entries(*link), *key) is None,
        },
    decreases *link,
{
    proof {
        lemma_parts(*link, *key);
    }
    match compare_key(key, link) {
        Some(Ordering::Less) => get(left(link), key),
        Some(Ordering::Greater) => get(right(link), key),
        Some(Ordering::Equal) => Some(&link.as_ref().unwrap().val),
        None => None,
    }
}

/// The link that holds the least key; absent in an empty subtree.
pub(super) fn min<K, V>(link: &Link<K, V>) -> (least: &Link<K, V>)
    ensures
        *least == min_link(*link),
    decreases *link,
{
    if link.is_some() && left(link).is_some() {
        min(left(link))
    } else {
        link
    }
}

/// The link that holds the greatest key; absent in an empty subtree.
pub(super) fn max<K, V>(link: &Link<K, V>) -> (greatest: &Link<K, V>)
    ensures
        *greatest == max_link(*link),
    decreases *link,
{
    if link.is_some() && right(link).is_some() {
        max(right(link))
    } else {
        link
    }
}

/// The link that holds the entry with `k` keys below it.
pub(super) fn select<K, V>(link: &Link<K, V>, k: usize) -> (r: &Link<K, V>)
    requires
        sized(*link),
    ensures
        k < entries(*link).len() ==> *r is Some && root_entry(*r) == entries(*link)[k as int],
        k >= entries(*link).len() ==> *r is None,
        *r is Some ==> within(*link, *r),
    decreases *link,
{
    proof {
        lemma_sized_count(*link);
        if *link is Some {
            lemma_entries(*link);
            lemma_sized_count(left_of(*link));
        }
    }
    if link.is_some() && size(left(link)) != k {
        let t = size(left(link));

        if k < t {
            select(left(link), k)
        } else {
            select(right(link), k - t - 1)
        }
    } else {
        link
    }
}

/// The number of keys below `key`.
pub(super) fn rank<K: PartialOrd, V>(link: &Link<K, V>, key: &K) -> (r: usize)
    requires
        total_order::<K>(),
        sorted(entries(*link)),
        sized(*link),
    ensures
        r == rank_of(entries(*link), *key),
    decreases *link,
{
    proof {
        lemma_parts(*link, *key);
        lemma_sized_count(*link);
        lemma_sized_count(left_of(*link));
        entries(right_of(*link)).lemma_filter_len(key_below(*key));
    }
    match compare_key(key, link) {
        Some(Ordering::Less) => rank(left(link), key),
        Some(Ordering::Greater) => size(left(link)) + rank(right(link), key) + 1,
        Some(Ordering::Equal) => size(left(link)),
        None => 0,
    }
}

/// The link that holds the greatest key not above `key`.
pub(super) fn floor<'a, K: PartialOrd, V>(link: &'a Link<K, V>, key: &K) -> (r: &'a Link<K, V>)
    requires
        total_order::<K>(),
        sorted(entries(*link)),
    ensures
        match floor_of(entries(*link), *key) {
            Some(e) => *r is Some && root_entry(*r) == e,
            None => *r is None,
        },
        *r is Some ==> within(*link, *r),
    decreases *link,
{
    proof {
        lemma_parts(*link, *key);
    }
    match compare_key(key, link) {
        Some(Ordering::Less) => floor(left(link), key),
        Some(Ordering::Greater) => {
            let node = floor(right(link), key);

            if node.is_none() {
                link
            } else {
                node
            }
        },
        Some(Ordering::Equal) | None => link,
    }
}

/// The link that holds the least key not below `key`.
pub(super) fn ceiling<'a, K: PartialOrd, V>(link: &'a Link<K, V>, key: &K) -> (r: &'a Link<K, V>)
    requires
        total_order::<K>(),
        sorted(entries(*link)),
    ensures
        match ceiling_of(entries(*link), *key) {
            Some(e) => *r is Some && root_entry(*r) == e,
            None => *r is None,
        },
        *r is Some ==> within(*link, *r),
    decreases *link,
{
    proof {
        lemma_parts(*link, *key);
    }
    match compare_key(key, link) {
        Some(Ordering::Less) => {
            let node = ceiling(left(link), key);

            if node.is_none() {
                link
            } else {
                node
            }
        },
        Some(Ordering::Greater) => ceiling(right(link), key),
        Some(Ordering::Equal) | None => link,
    }
}

/// How what `key` finds, counts and is bracketed by in a sorted subtree
/// follows from the same in the child on `key`'s side.
proof fn lemma_parts<K: PartialOrd, V>(link: Link<K, V>, key: K)
    requires
        total_order::<K>(),
        sorted(entries(link)),
    ensures
        sorted(entries(left_of(link))),
        sorted(entries(right_of(link))),
        link is None ==> {
            &&& find(entries(link), key) is None
            &&& rank_of(entries(link), key) == 0
            &&& floor_of(entries(link), key) is None
            &&& ceiling_of(entries(link), key) is None
        },
        link is Some && lt(key, root_entry(link).0) ==> {
            &&& find(entries(link), key) == find(entries(left_of(link)), key)
            &&& rank_of(entries(link), key) == rank_of(entries(left_of(link)), key)
            &&& floor_of(entries(link), key) == floor_of(entries(left_of(link)), key)
            &&& ceiling_of(entries(link), key) == if ceiling_of(entries(left_of(link)), key)
                is Some {
                ceiling_of(entries(left_of(link)), key)
            } else {
                Some(root_entry(link))
            }
        },
        link is Some && lt(root_entry(link).0, key) ==> {
            &&& find(entries(link), key) == find(entries(right_of(link)), key)
            &&& rank_of(entries(link), key) == entries(left_of(link)).len() + 1 + rank_of(
                entries(right_of(link)),
                key,
            )
            &&& ceiling_of(entries(link), key) == ceiling_of(entries(right_of(link)), key)
            &&& floor_of(entries(link), key) == if floor_of(entries(right_of(link)), key)
                is Some {
                floor_of(entries(right_of(link)), key)
            } else {
                Some(root_entry(link))
            }
        },
        link is Some && key == root_entry(link).0 ==> {
            &&& find(entries(link), key) == Some(root_entry(link).1)
            &&& rank_of(entries(link), key) == entries(left_of(link)).len()
            &&& floor_of(entries(link), key) == Some(root_entry(link))
            &&& ceiling_of(entries(link), key) == Some(root_entry(link))
        },
{
    let l = entries(left_of(link));
    let r = entries(right_of(link));
    if link is Some {
        let e = root_entry(link);
        lemma_entries(link);
        lemma_sorted_split(l, e, r);
        if lt(key, e.0) {
            lemma_queries_left(l, e, r, key);
        }
        if lt(e.0, key) {
            lemma_queries_right(l, e, r, key);
        }
        if key == e.0 {
            lemma_queries_here(l, e, r, key);
        }
    } else {
        lemma_absent::<K, V>();
        lemma_sorted_empty::<K, V>();
        lemma_queries_empty::<K, V>(key);
    }
}

} // verus!
