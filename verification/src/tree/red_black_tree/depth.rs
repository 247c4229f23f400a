//! The depth of a left-leaning red-black tree is logarithmic in the number of
//! its entries.

use super::traverse::height_of;
use crate::rbt::laws::{lemma_absent, lemma_entries};
use crate::rbt::node::Link;
use crate::rbt::shape::{black_height, entries, left_of, llrb, red, right_of};
use vstd::arithmetic::power2::{lemma2_to64, lemma_pow2_strictly_increases, lemma_pow2_unfold, pow2};
use vstd::prelude::*;

verus! {

/// A left-leaning red-black tree is at most twice as high as its black
/// height, and one more below a red link.
proof fn lemma_height_black_height<K, V>(link: Link<K, V>)
    requires
        llrb(link),
    ensures
        height_of(link) <= 2 * black_height(link) + if red(link) {
            1nat
        } else {
            0nat
        },
    decreases link,
{
    reveal(llrb);
    reveal(black_height);
    if link is Some {
        lemma_height_black_height(left_of(link));
        lemma_height_black_height(right_of(link));
    }
}

/// A left-leaning red-black tree of black height `b` has at least `2^b - 1`
/// entries.
proof fn lemma_entries_black_height<K, V>(link: Link<K, V>)
    requires
        llrb(link),
    ensures
        pow2(black_height(link)) <= entries(link).len() + 1,
    decreases link,
{
    reveal(llrb);
    reveal(black_height);
    if link is Some {
        lemma_entries_black_height(left_of(link));
        lemma_entries_black_height(right_of(link));
        lemma_entries(link);
        if !red(link) {
            lemma_pow2_unfold(black_height(link));
        }
    } else {
        lemma_absent::<K, V>();
        lemma2_to64();
    }
}

/// A left-leaning red-black tree of height `h` below a black link has at
/// least `2^(h / 2, rounded up) - 1` entries.
pub(super) proof fn lemma_depth<K, V>(root: Link<K, V>)
    requires
        llrb(root),
        !red(root),
    ensures
        pow2(((height_of(root) + 1) / 2) as nat) <= entries(root).len() + 1,
{
    lemma_height_black_height(root);
    lemma_entries_black_height(root);
    let half = ((height_of(root) + 1) / 2) as nat;
    if half < black_height(root) {
        lemma_pow2_strictly_increases(half, black_height(root));
    }
}

} // verus!
