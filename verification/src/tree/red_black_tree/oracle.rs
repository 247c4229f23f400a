//! The invariants of the tree, computed from the tree itself.

use crate::rbt::balance::{is_red, left, right};
use crate::rbt::laws::{lemma_absent, lemma_entries, lemma_sized_count};
use crate::rbt::node::Link;
use crate::rbt::shape::{balanced, black_height, entries, left_leaning, left_of, sized};
use vstd::prelude::*;

verus! {

/// A subtree has no more black links down its left spine than entries.
proof fn lemma_black_height_bound<K, V>(link: Link<K, V>)
    ensures
        black_height(link) <= entries(link).len(),
    decreases link,
{
    reveal(black_height);
    reveal(entries);
    if link is Some {
        lemma_black_height_bound(left_of(link));
    }
}

/// The number of black links on every path from the link to an absent link,
/// where all the paths have the same number.
pub(super) fn balanced_height<K, V>(link: &Link<K, V>) -> (r: Option<usize>)
    requires
        sized(*link),
    ensures
        r is Some <==> balanced(*link),
        r is Some ==> r.unwrap() == black_height(*link),
    decreases *link,
{
    proof {
        reveal(balanced);
        reveal(black_height);
        lemma_absent::<K, V>();
        lemma_sized_count(*link);
        lemma_black_height_bound(*link);
        if *link is Some {
            lemma_entries(*link);
        }
    }
    if link.is_none() {
        return Some(0);
    }
    match (balanced_height(left(link)), balanced_height(right(link))) {
        (Some(below_left), Some(below_right)) => {
            if below_left != below_right {
                None
            } else if is_red(link) {
                Some(below_left)
            } else {
                Some(below_left + 1)
            }
        },
        _ => None,
    }
}

/// Whether no node of the subtree has a red right link beside a black left
/// link.
pub(super) fn leans_left<K, V>(link: &Link<K, V>) -> (r: bool)
    ensures
        r == left_leaning(*link),
    decreases *link,
{
    proof {
        reveal(left_leaning);
    }
    if link.is_none() {
        return true;
    }
    if is_red(right(link)) && !is_red(left(link)) {
        return false;
    }
    leans_left(left(link)) && leans_left(right(link))
}

} // verus!
