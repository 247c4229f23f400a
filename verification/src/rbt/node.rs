//! The node of a left-leaning red-black tree, the links between nodes, and
//! the symbol table that a link is: the subtree that it leads to.

use super::balance;
use super::insertion::{
    lemma_put_descends, lemma_put_here, lemma_put_leaf, lemma_put_left_colors,
    lemma_put_left_entries, lemma_put_right_colors, lemma_put_right_entries,
};
use super::laws::{
    lemma_absent, lemma_entries, lemma_flipped_fit, lemma_rebalanced, lemma_recolored,
    lemma_sized_count,
};
use super::shape;
use crate::order::{
    eq, inserted, lemma_inserted_len, lemma_inserted_sorted, lemma_lt_connected, lt, sorted,
    total_order,
};
use vstd::prelude::*;

verus! {

/// What leads to a subtree: its root, or nothing where the subtree is empty.
pub type Link<K, V> = Option<Box<Node<K, V>>>;

/// The color of the link that leads to a node.
#[derive(Debug, Clone, Copy)]
pub enum Colors {
    RED,
    BLACK,
}

/// A node with its entry. The subtree below it, its color and its size are
/// the tree's own business.
#[derive(Debug)]
pub struct Node<K, V> {
    pub key: K,
    pub val: V,
    pub n: usize,
    pub color: Colors,
    pub left: Link<K, V>,
    pub right: Link<K, V>,
}

impl<K, V> Node<K, V> {
    /// The node's key and value.
    pub open spec fn entry(&self) -> (K, V) {
        (self.key, self.val)
    }

    /// The node's key.
    pub fn key(&self) -> (k: &K)
        ensures
            *k == self.entry().0,
    {
        &self.key
    }

    /// The node's value.
    pub fn val(&self) -> (v: &V)
        ensures
            *v == self.entry().1,
    {
        &self.val
    }
}

/// The entries of the nodes that `nodes` refers to.
pub open spec fn entries_in<K, V>(nodes: Seq<&Node<K, V>>) -> Seq<(K, V)> {
    nodes.map_values(|n: &Node<K, V>| n.entry())
}

/// The entry that a link leads to, if it leads to a node.
pub open spec fn entry_of<K, V>(link: Link<K, V>) -> Option<(K, V)> {
    match link {
        Some(node) => Some(node.entry()),
        None => None,
    }
}

/// `entry_of` is the root's key and value.
pub(crate) proof fn lemma_entry_of<K, V>(link: Link<K, V>)
    ensures
        entry_of(link) == match link {
            Some(node) => Some((node.key, node.val)),
            None => None,
        },
{
}

/// `entries_in` is the keys and values of the nodes.
pub(crate) proof fn lemma_entries_in<K, V>(nodes: Seq<&Node<K, V>>)
    ensures
        entries_in(nodes) == nodes.map_values(|n: &Node<K, V>| (n.key, n.val)),
{
    assert(entries_in(nodes) =~= nodes.map_values(|n: &Node<K, V>| (n.key, n.val)));
}

/// A red link to a node with the given entry, of size 1 and without
/// children.
pub open spec fn leaf<K, V>(key: K, val: V) -> Link<K, V> {
    shape::make(key, val, 1, Colors::RED, None, None)
}

/// An ordered symbol table on a link, with the primitives that keep the
/// subtree behind the link a left-leaning red-black tree.
pub trait ST<K: PartialOrd, V>: Sized {
    /// The entries, left to right.
    spec fn model(&self) -> Seq<(K, V)>;

    /// The keys ascend strictly, every node stores the size of its subtree,
    /// no right link is red, no red link has a red left link, and every path
    /// to an absent link has the same number of black links.
    spec fn valid(&self) -> bool;

    /// As `valid`, but that the red link at the top has a red left link.
    spec fn nearly(&self) -> bool;

    /// The link at the top is red.
    spec fn red(&self) -> bool;

    /// The number of black links on the way from the top down the left
    /// spine; in a valid table, on every way down to an absent link.
    spec fn black_height(&self) -> nat;

    /// The size stored at the top; 0 where there is no node.
    spec fn stored(&self) -> usize;

    /// This table with the link at the top given the color `color`.
    spec fn painted(&self, color: Colors) -> Self;

    /// There is a right child to rotate up, and the size of what comes down
    /// can be stored.
    spec fn turns_left(&self) -> bool;

    /// This table rotated left at the top.
    spec fn turned_left(&self) -> Self;

    /// There is a left child to rotate up, and the size of what comes down
    /// can be stored.
    spec fn turns_right(&self) -> bool;

    /// This table rotated right at the top.
    spec fn turned_right(&self) -> Self;

    /// This table with the link at the top red and the links to its children
    /// black.
    spec fn flipped(&self) -> Self;

    /// This table after `key` was bound to `val` in it.
    spec fn bound(&self, key: K, val: V) -> Self;

    /// A red link to a node with the given entry and no children.
    fn new(key: K, val: V) -> (link: Link<K, V>)
        ensures
            link == leaf(key, val),
            entry_of(link) == Some((key, val)),
    ;

    /// The size stored at the top; in a valid table, the number of entries.
    fn size(&self) -> (n: usize)
        ensures
            n == self.stored(),
            self.valid() ==> n == self.model().len(),
    ;

    fn is_red(&self) -> (r: bool)
        ensures
            r == self.red(),
    ;

    /// Gives the link at the top the color `color`; an absent link stays as
    /// it is.
    fn change_color(&mut self, color: Colors)
        ensures
            *final(self) == old(self).painted(color),
            final(self).model() == old(self).model(),
            final(self).stored() == old(self).stored(),
            final(self).red() == (color is RED && old(self).model().len() > 0),
    ;

    fn change_red(&mut self)
        ensures
            *final(self) == old(self).painted(Colors::RED),
            final(self).model() == old(self).model(),
            final(self).stored() == old(self).stored(),
            final(self).red() == (old(self).model().len() > 0),
    ;

    fn change_black(&mut self)
        ensures
            *final(self) == old(self).painted(Colors::BLACK),
            final(self).model() == old(self).model(),
            final(self).stored() == old(self).stored(),
            !final(self).red(),
    ;

    /// Rotates the right child up: it takes the color and the stored size of
    /// the node that was at the top, which becomes its red left child.
    fn rotate_left(&mut self)
        requires
            old(self).turns_left(),
        ensures
            *final(self) == old(self).turned_left(),
            final(self).model() == old(self).model(),
            final(self).stored() == old(self).stored(),
            final(self).red() == old(self).red(),
    ;

    /// Rotates the left child up: it takes the color and the stored size of
    /// the node that was at the top, which becomes its red right child.
    fn rotate_right(&mut self)
        requires
            old(self).turns_right(),
        ensures
            *final(self) == old(self).turned_right(),
            final(self).model() == old(self).model(),
            final(self).stored() == old(self).stored(),
            final(self).red() == old(self).red(),
    ;

    /// Colors the link at the top red and the links to its children black.
    fn flip_colors(&mut self)
        requires
            old(self).model().len() > 0,
        ensures
            *final(self) == old(self).flipped(),
            final(self).model() == old(self).model(),
            final(self).stored() == old(self).stored(),
            final(self).red(),
    ;

    /// Binds `key` to `val`, in place of the value that `key` had, if any.
    /// Below a black link the table stays valid; below a red link the link
    /// stays red and may get a red left link. The number of entries has to
    /// fit a `usize` afterwards too.
    fn put(&mut self, key: K, val: V)
        requires
            old(self).valid(),
            total_order::<K>(),
            inserted(old(self).model(), key, val).len() <= usize::MAX,
        ensures
            final(self).model() == inserted(old(self).model(), key, val),
            final(self).black_height() == old(self).black_height(),
            !old(self).red() ==> final(self).valid(),
            old(self).red() ==> final(self).red() && (final(self).valid() || final(self).nearly()),
            *final(self) == old(self).bound(key, val),
    ;
}

impl<K: PartialOrd, V> ST<K, V> for Link<K, V> {
    open spec fn model(&self) -> Seq<(K, V)> {
        shape::entries(*self)
    }

    open spec fn valid(&self) -> bool {
        &&& sorted(shape::entries(*self))
        &&& shape::sized(*self)
        &&& shape::llrb(*self)
    }

    open spec fn nearly(&self) -> bool {
        &&& sorted(shape::entries(*self))
        &&& shape::sized(*self)
        &&& shape::almost(*self)
    }

    open spec fn red(&self) -> bool {
        shape::red(*self)
    }

    open spec fn black_height(&self) -> nat {
        shape::black_height(*self)
    }

    open spec fn stored(&self) -> usize {
        shape::count(*self)
    }

    open spec fn painted(&self, color: Colors) -> Self {
        shape::recolored(*self, color)
    }

    open spec fn turns_left(&self) -> bool {
        &&& shape::right_of(*self) is Some
        &&& shape::count(shape::left_of(*self)) + shape::count(
            shape::left_of(shape::right_of(*self)),
        ) + 1 <= usize::MAX
    }

    open spec fn turned_left(&self) -> Self {
        shape::rotated_left(*self)
    }

    open spec fn turns_right(&self) -> bool {
        &&& shape::left_of(*self) is Some
        &&& shape::count(shape::right_of(shape::left_of(*self))) + shape::count(
            shape::right_of(*self),
        ) + 1 <= usize::MAX
    }

    open spec fn turned_right(&self) -> Self {
        shape::rotated_right(*self)
    }

    open spec fn flipped(&self) -> Self {
        shape::flipped(*self, true)
    }

    open spec fn bound(&self, key: K, val: V) -> Self {
        shape::put_of(*self, key, val)
    }

    fn new(key: K, val: V) -> (link: Self) {
        balance::new(key, val)
    }

    fn size(&self) -> (n: usize) {
        proof {
            if self.valid() {
                lemma_sized_count(*self);
            }
        }
        balance::size(self)
    }

    fn is_red(&self) -> (r: bool) {
        balance::is_red(self)
    }

    fn change_color(&mut self, color: Colors) {
        proof {
            lemma_recolored(*self, color);
            lemma_absent::<K, V>();
            if *self is Some {
                lemma_entries(*self);
            }
        }
        balance::change_color(self, color)
    }

    fn change_red(&mut self) {
        self.change_color(Colors::RED);
    }

    fn change_black(&mut self) {
        self.change_color(Colors::BLACK);
    }

    fn rotate_left(&mut self) {
        proof {
            lemma_turned_entries(*self);
        }
        balance::rotate_left(self)
    }

    fn rotate_right(&mut self) {
        proof {
            lemma_turned_entries(*self);
        }
        balance::rotate_right(self)
    }

    fn flip_colors(&mut self) {
        proof {
            lemma_flipped_fit(*self, true);
            lemma_absent::<K, V>();
        }
        balance::flip_colors(self, balance::FlipType::UP)
    }

    fn put(&mut self, key: K, val: V)
        decreases *old(self),
    {
        let ghost before = *self;
        let ghost mut grown = *self;
        proof {
            lemma_put_descends(before);
            lemma_inserted_len(shape::entries(shape::left_of(before)), key, val);
            lemma_inserted_len(shape::entries(shape::right_of(before)), key, val);
        }
        let ghost goal = shape::put_of(before, key, val);
        if self.is_some() && same(&key, &self.as_ref().unwrap().key) {
            match self {
                Some(boxed_node) => {
                    boxed_node.val = val;
                },
                None => {},
            }
            proof {
                grown = *self;
                lemma_put_here(before, grown, key, val);
                lemma_put_of_here(before, key, val);
            }
        } else if self.is_some() {
            match self {
                Some(boxed_node) => {
                    if precedes(&key, &boxed_node.key) {
                        boxed_node.left.put(key, val);
                        proof {
                            grown = Some(*boxed_node);
                            lemma_grown_left(before, grown, key, val);
                            lemma_put_of_left(before, key, val);
                        }
                    } else {
                        boxed_node.right.put(key, val);
                        proof {
                            grown = Some(*boxed_node);
                            lemma_lt_connected(key, before.unwrap().key);
                            lemma_grown_right(before, grown, key, val);
                            lemma_put_of_right(before, key, val);
                        }
                    }

                    boxed_node.n = boxed_node.left.size() + boxed_node.right.size() + 1;
                },
                None => {},
            }
        } else {
            *self = Link::new(key, val);
            proof {
                grown = *self;
                lemma_put_leaf(grown, key, val);
                assert(goal == shape::balanced_up(grown)) by {
                    reveal(shape::put_of);
                }
            }
        }
        proof {
            assert(goal == shape::balanced_up(grown));
            lemma_rebalanced(grown);
            lemma_inserted_sorted(shape::entries(before), key, val);
        }

        balance::rebalance(self);
    }
}

/// `put_of` where the key is the root's.
proof fn lemma_put_of_here<K: PartialOrd, V>(link: Link<K, V>, key: K, val: V)
    requires
        total_order::<K>(),
        link is Some,
        key == link.unwrap().key,
    ensures
        shape::put_of(link, key, val) == shape::balanced_up(
            shape::with_entry(link, link.unwrap().key, val),
        ),
{
    reveal(shape::put_of);
    lemma_lt_connected(key, key);
}

/// `put_of` where the key is below the root's.
proof fn lemma_put_of_left<K: PartialOrd, V>(link: Link<K, V>, key: K, val: V)
    requires
        link is Some,
        lt(key, link.unwrap().key),
    ensures
        shape::put_of(link, key, val) == shape::balanced_up(
            shape::with_left(link, shape::put_of(shape::left_of(link), key, val)),
        ),
{
    reveal(shape::put_of);
}

/// `put_of` where the key is above the root's.
proof fn lemma_put_of_right<K: PartialOrd, V>(link: Link<K, V>, key: K, val: V)
    requires
        total_order::<K>(),
        link is Some,
        lt(link.unwrap().key, key),
    ensures
        shape::put_of(link, key, val) == shape::balanced_up(
            shape::with_right(link, shape::put_of(shape::right_of(link), key, val)),
        ),
{
    reveal(shape::put_of);
    crate::order::lemma_lt_asymmetric(link.unwrap().key, key);
}

/// What rebalancing makes of a subtree whose left child took a new entry:
/// the subtree can have its size recomputed, and `balance` makes of it what
/// insertion promises.
proof fn lemma_grown_left<K: PartialOrd, V>(before: Link<K, V>, grown: Link<K, V>, key: K, val: V)
    requires
        total_order::<K>(),
        before is Some,
        sorted(shape::entries(before)),
        shape::llrb(before),
        shape::sized(before),
        inserted(shape::entries(before), key, val).len() <= usize::MAX,
        lt(key, before.unwrap().key),
        grown == shape::with_left(before, shape::left_of(grown)),
        shape::left_of(grown).model() == inserted(shape::left_of(before).model(), key, val),
        shape::left_of(grown).black_height() == shape::left_of(before).black_height(),
        !shape::left_of(before).red() ==> shape::left_of(grown).valid(),
        shape::left_of(before).red() ==> shape::left_of(grown).red() && (shape::left_of(
            grown,
        ).valid() || shape::left_of(grown).nearly()),
    ensures
        shape::fit(grown),
        shape::sized(shape::left_of(grown)),
        shape::sized(shape::right_of(grown)),
        shape::count(shape::left_of(grown)) + shape::count(shape::right_of(grown)) + 1
            <= usize::MAX,
        put_result(before, shape::balanced_up(grown), key, val),
{
    let child = shape::left_of(grown);
    lemma_put_left_entries(before, child, key, val);
    lemma_put_left_colors(before, child);
    lemma_sized_count(child);
    lemma_sized_count(shape::right_of(grown));
    lemma_entries(grown);
}

/// What rebalancing makes of a subtree whose right child took a new entry.
proof fn lemma_grown_right<K: PartialOrd, V>(
    before: Link<K, V>,
    grown: Link<K, V>,
    key: K,
    val: V,
)
    requires
        total_order::<K>(),
        before is Some,
        sorted(shape::entries(before)),
        shape::llrb(before),
        shape::sized(before),
        inserted(shape::entries(before), key, val).len() <= usize::MAX,
        lt(before.unwrap().key, key),
        !shape::red(shape::right_of(before)),
        grown == shape::with_right(before, shape::right_of(grown)),
        shape::right_of(grown).model() == inserted(shape::right_of(before).model(), key, val),
        shape::right_of(grown).black_height() == shape::right_of(before).black_height(),
        shape::right_of(grown).valid(),
    ensures
        shape::fit(grown),
        shape::sized(shape::left_of(grown)),
        shape::sized(shape::right_of(grown)),
        shape::count(shape::left_of(grown)) + shape::count(shape::right_of(grown)) + 1
            <= usize::MAX,
        put_result(before, shape::balanced_up(grown), key, val),
{
    let child = shape::right_of(grown);
    lemma_put_right_entries(before, child, key, val);
    lemma_put_right_colors(before, child);
    lemma_sized_count(child);
    lemma_sized_count(shape::left_of(grown));
    lemma_entries(grown);
}

/// What `put` promises of the subtree `after` that it makes of `before`.
spec fn put_result<K: PartialOrd, V>(
    before: Link<K, V>,
    after: Link<K, V>,
    key: K,
    val: V,
) -> bool {
    &&& shape::entries(after) == inserted(shape::entries(before), key, val)
    &&& shape::sized(after)
    &&& shape::black_height(after) == shape::black_height(before)
    &&& !shape::red(before) ==> shape::llrb(after)
    &&& shape::red(before) ==> shape::red(after) && (shape::llrb(after) || shape::almost(after))
}

/// A leaf is a valid table of one entry behind a red link.
pub proof fn lemma_leaf<K: PartialOrd, V>(key: K, val: V)
    ensures
        leaf(key, val).model() == seq![(key, val)],
        leaf(key, val).red(),
        leaf(key, val).stored() == 1,
        total_order::<K>() ==> leaf(key, val).valid(),
{
    let link = leaf(key, val);
    lemma_put_leaf(link, key, val);
    crate::order::lemma_inserted_empty(key, val);
    if total_order::<K>() {
        crate::order::lemma_sorted_empty::<K, V>();
        lemma_inserted_sorted(Seq::<(K, V)>::empty(), key, val);
    }
}

/// `a == b`, as the key type has it.
fn same<K: PartialOrd>(a: &K, b: &K) -> (r: bool)
    ensures
        total_order::<K>() ==> r == (*a == *b),
{
    let r = *a == *b;
    proof {
        if total_order::<K>() {
            reveal(total_order);
            assert(r == eq(*a, *b));
        }
    }
    r
}

/// `a < b`, as the key type has it.
fn precedes<K: PartialOrd>(a: &K, b: &K) -> (r: bool)
    ensures
        total_order::<K>() ==> r == lt(*a, *b),
{
    let r = *a < *b;
    proof {
        if total_order::<K>() {
            reveal(total_order);
            assert(r == lt(*a, *b));
        }
    }
    r
}

/// A rotation keeps the entries in order.
proof fn lemma_turned_entries<K, V>(link: Link<K, V>)
    ensures
        shape::entries(shape::rotated_left(link)) == shape::entries(link),
        shape::entries(shape::rotated_right(link)) == shape::entries(link),
{
    reveal_with_fuel(shape::entries, 3);
    assert(shape::entries(shape::rotated_left(link)) =~= shape::entries(link));
    assert(shape::entries(shape::rotated_right(link)) =~= shape::entries(link));
}

} // verus!
