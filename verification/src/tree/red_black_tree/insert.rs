//! Comparison with a node's key, and insertion.

use crate::order::{
    gt, inserted, lemma_inserted_len, lemma_lt_asymmetric, lemma_lt_connected, lt, sorted,
    total_order,
};
use crate::rbt::balance::{balance, left_mut, new, right_mut};
use crate::rbt::insertion::{
    lemma_put_descends, lemma_put_here, lemma_put_leaf, lemma_put_left_colors,
    lemma_put_left_entries, lemma_put_right_colors, lemma_put_right_entries,
};
use crate::rbt::node::Link;
use crate::rbt::shape::{
    almost, black_height, entries, left_of, llrb, put_of, red, right_of, sized,
};
use core::cmp::Ordering;
use vstd::prelude::*;

verus! {

/// Compares `key` with the key at the root of `link`, if there is a root.
pub(crate) fn compare_key<K: PartialOrd, V>(key: &K, link: &Link<K, V>) -> (r: Option<Ordering>)
    ensures
        r is None <==> *link is None,
        total_order::<K>() ==> match r {
            Some(Ordering::Less) => lt(*key, link.unwrap().key),
            Some(Ordering::Greater) => lt(link.unwrap().key, *key),
            Some(Ordering::Equal) => *key == link.unwrap().key,
            None => true,
        },
{
    match link {
        Some(boxed_node) => {
            let less = *key < boxed_node.key;
            let more = *key > boxed_node.key;
            proof {
                if total_order::<K>() {
                    reveal(total_order);
                    assert(less == lt(*key, boxed_node.key));
                    assert(more == gt(*key, boxed_node.key));
                    assert(more == lt(boxed_node.key, *key));
                    assert(*key == boxed_node.key <==> !lt(*key, boxed_node.key) && !lt(
                        boxed_node.key,
                        *key,
                    ));
                }
            }
            if less {
                Some(Ordering::Less)
            } else if more {
                Some(Ordering::Greater)
            } else {
                Some(Ordering::Equal)
            }
        },
        None => None,
    }
}

/// Binds `key` to `val` in the subtree: a new key enters as a red leaf, and
/// every node on the way back up is rebalanced.
pub(crate) fn put<K: PartialOrd, V>(link: &mut Link<K, V>, key: K, val: V)
    requires
        total_order::<K>(),
        sorted(entries(*old(link))),
        llrb(*old(link)),
        sized(*old(link)),
        inserted(entries(*old(link)), key, val).len() <= usize::MAX,
    ensures
        *final(link) == put_of(*old(link), key, val),
        entries(*final(link)) == inserted(entries(*old(link)), key, val),
        sized(*final(link)),
        *final(link) is Some,
        black_height(*final(link)) == black_height(*old(link)),
        !red(*old(link)) ==> llrb(*final(link)),
        red(*old(link)) ==> red(*final(link)) && (llrb(*final(link)) || almost(*final(link))),
    decreases *old(link),
{
    let ghost before = *link;
    proof {
        reveal(put_of);
        lemma_put_descends(before);
        lemma_inserted_len(entries(left_of(before)), key, val);
        lemma_inserted_len(entries(right_of(before)), key, val);
        if before is Some {
            lemma_lt_connected(key, before.unwrap().key);
            if lt(before.unwrap().key, key) {
                lemma_lt_asymmetric(before.unwrap().key, key);
            }
        }
    }
    match compare_key(&key, link) {
        Some(Ordering::Less) => {
            put(left_mut(link), key, val);
            proof {
                lemma_put_left_entries(before, left_of(*link), key, val);
                lemma_put_left_colors(before, left_of(*link));
            }
        },
        Some(Ordering::Greater) => {
            put(right_mut(link), key, val);
            proof {
                lemma_put_right_entries(before, right_of(*link), key, val);
                lemma_put_right_colors(before, right_of(*link));
            }
        },
        Some(Ordering::Equal) => {
            match link {
                Some(node) => {
                    node.val = val;
                },
                None => {},
            }
            proof {
                lemma_put_here(before, *link, key, val);
            }
        },
        None => {
            *link = new(key, val);
            proof {
                lemma_put_leaf(*link, key, val);
            }
        },
    }

    balance(link);
}

} // verus!
