//! A left-leaning red-black tree: an ordered map from keys to values that
//! keeps itself balanced.
//!
//! The tree is described by the sequence of its entries in ascending key
//! order, `tree@`; `crate::order` says what each operation means on such a
//! sequence. Its shape is `tree.root()`; `crate::rbt::shape` says which shape
//! each change leaves, and `traverse` in which order a shape is walked.
//!
//! Keys are compared with `<` and `>`. The contracts hold for key types whose
//! order is total, `total_order::<K>()`, which is shown from vstd's
//! specification of the type's `PartialOrd`. vstd specifies the order of the
//! integer types; it gives `str` and `String` none, so verified code cannot
//! show `total_order` for string keys and cannot call the ordered operations
//! with them.

use crate::order::{
    ceiling_of, find, floor_of, inserted, lemma_inserted_sorted, lemma_removed_absent,
    lemma_removed_sorted, lemma_sorted_drop, lemma_sorted_empty, lt, rank_of, removed, sorted,
    total_order,
};
use crate::rbt::node::{lemma_entries_in, lemma_entry_of, Colors};
use crate::rbt::{balance, laws, shape};
use vstd::arithmetic::power2::pow2;
use vstd::prelude::*;

pub use crate::rbt::node::{entries_in, entry_of, Link, Node};

mod depth;
mod insert;
mod oracle;
mod query;
mod remove;
pub mod traverse;

verus! {

/// An ordered map from keys to values whose depth is logarithmic in the
/// number of its entries.
#[derive(Debug)]
pub struct RedBlackTree<K, V> {
    root: Link<K, V>,
}

impl<K, V> View for RedBlackTree<K, V> {
    type V = Seq<(K, V)>;

    /// The entries of the tree in ascending key order.
    open spec fn view(&self) -> Seq<(K, V)> {
        shape::entries(self.root())
    }
}

impl<K, V> RedBlackTree<K, V> {
    /// The link to the root node: the shape of the tree.
    pub closed spec fn root(&self) -> Link<K, V> {
        self.root
    }

    /// A tree is its shape: two trees with one root are equal.
    pub proof fn lemma_same_root(&self, other: &Self)
        requires
            self.root() == other.root(),
        ensures
            *self == *other,
    {
    }
}

impl<K: PartialOrd, V> RedBlackTree<K, V> {
    /// The tree's invariant: its keys ascend strictly from left to right,
    /// every node stores the size of its subtree, every path from the root to
    /// an absent link has the same number of black links, no right link is
    /// red, no red link has a red left link, and the root is black.
    pub open spec fn wf(&self) -> bool {
        &&& sorted(shape::entries(self.root()))
        &&& shape::sized(self.root())
        &&& shape::llrb(self.root())
        &&& !shape::red(self.root())
    }

    /// Every node stores the size of its subtree, which fits a `usize`.
    pub open spec fn sizes_stored(&self) -> bool {
        shape::sized(self.root())
    }

    /// Every path from the root to an absent link has the same number of
    /// black links.
    pub open spec fn black_balanced(&self) -> bool {
        shape::balanced(self.root())
    }

    /// No node has a red right link while its left link is black.
    pub open spec fn left_leaning(&self) -> bool {
        shape::left_leaning(self.root())
    }

    /// The root is black; an empty tree counts as black.
    pub open spec fn root_black(&self) -> bool {
        !shape::red(self.root())
    }

    /// No red link has a red left link.
    pub open spec fn red_links_apart(&self) -> bool {
        shape::red_apart(self.root())
    }

    /// The entries with each node's before those of its left subtree, and
    /// these before those of its right subtree.
    pub open spec fn pre_order_view(&self) -> Seq<(K, V)> {
        traverse::entries_of(traverse::pre_order_of(self.root()))
    }

    /// The entries with those of each node's left subtree before those of
    /// its right subtree, and these before the node's own.
    pub open spec fn post_order_view(&self) -> Seq<(K, V)> {
        traverse::entries_of(traverse::post_order_of(self.root()))
    }

    /// The entries level by level from the root down, each level from left
    /// to right.
    pub open spec fn level_order_view(&self) -> Seq<(K, V)> {
        traverse::entries_of(traverse::level_order_of(self.root()))
    }

    /// The number of nodes on the longest way from the root down.
    pub open spec fn height(&self) -> nat {
        traverse::height_of(self.root())
    }

    /// The size that the root stores; 0 in an empty tree.
    pub open spec fn stored_size(&self) -> nat {
        shape::count(self.root()) as nat
    }

    /// The root after `put(key, val)`: the key is bound on the way down from
    /// the root, the balance is restored on the way back up, and the root is
    /// made black.
    pub open spec fn root_after_put(&self, key: K, val: V) -> Link<K, V> {
        shape::recolored(shape::put_of(self.root(), key, val), Colors::BLACK)
    }

    /// The root after `delete_min()`: a black root above two black children
    /// is made red, the least entry is removed on the way down the left
    /// spine, the balance is restored on the way back up, and the root is made
    /// black.
    pub open spec fn root_after_delete_min(&self) -> Link<K, V> {
        shape::recolored(shape::min_deleted(shape::primed(self.root())), Colors::BLACK)
    }

    /// The root after `delete_max()`: as after `delete_min()`, on the right.
    pub open spec fn root_after_delete_max(&self) -> Link<K, V> {
        shape::recolored(shape::max_deleted(shape::primed(self.root())), Colors::BLACK)
    }

    /// The root after `delete(key)`: unchanged where the key is not bound;
    /// else a black root above two black children is made red, the key is
    /// removed on the way down, the balance is restored on the way back up,
    /// and the root is made black.
    pub open spec fn root_after_delete(&self, key: K) -> Link<K, V> {
        if find(self@, key) is Some {
            shape::recolored(shape::deleted(shape::primed(self.root()), key), Colors::BLACK)
        } else {
            self.root()
        }
    }

    /// A well-formed tree is sorted, balanced and left-leaning, none of its
    /// red links has a red left link, its root is black, and its root stores
    /// the number of its entries.
    pub proof fn lemma_invariants(&self)
        requires
            self.wf(),
        ensures
            sorted(self@),
            self.black_balanced(),
            self.left_leaning(),
            self.red_links_apart(),
            self.root_black(),
            self.sizes_stored(),
            self.stored_size() == self@.len(),
            self@.len() <= usize::MAX,
    {
        laws::lemma_llrb_oracle(self.root);
        laws::lemma_sized_count(self.root);
    }

    /// The traversals of a tree, from its shape: at a node, pre-order has
    /// the node's entry, then the left subtree, then the right one;
    /// post-order has the left subtree, the right one, then the node's entry;
    /// in-order, which is `self@`, has the node's entry between the two;
    /// and level-order has the levels from the root down to the tree's
    /// height. An empty tree has no entries in any order.
    pub proof fn lemma_traversals(&self)
        ensures
            self.root() is None ==> self@ == Seq::<(K, V)>::empty(),
            self@ == traverse::entries_of(traverse::in_order_of(self.root())),
            match self.root() {
                Some(node) => {
                    &&& self.pre_order_view() == seq![(node.key, node.val)] + traverse::entries_of(
                        traverse::pre_order_of(node.left),
                    ) + traverse::entries_of(traverse::pre_order_of(node.right))
                    &&& self.post_order_view() == (traverse::entries_of(
                        traverse::post_order_of(node.left),
                    ) + traverse::entries_of(traverse::post_order_of(node.right))).push(
                        (node.key, node.val),
                    )
                    &&& self@ == shape::entries(node.left).push((node.key, node.val))
                        + shape::entries(node.right)
                },
                None => {
                    &&& self.pre_order_view() == Seq::<(K, V)>::empty()
                    &&& self.post_order_view() == Seq::<(K, V)>::empty()
                    &&& self.level_order_view() == Seq::<(K, V)>::empty()
                },
            },
    {
        laws::lemma_absent::<K, V>();
        traverse::lemma_in_order_entries(self.root);
        match self.root {
            Some(node) => {
                laws::lemma_entries(self.root);
                assert(self.pre_order_view() =~= seq![(node.key, node.val)]
                    + traverse::entries_of(traverse::pre_order_of(node.left))
                    + traverse::entries_of(traverse::pre_order_of(node.right)));
                assert(self.post_order_view() =~= (traverse::entries_of(
                    traverse::post_order_of(node.left),
                ) + traverse::entries_of(traverse::post_order_of(node.right))).push(
                    (node.key, node.val),
                ));
            },
            None => {
                assert(self.pre_order_view() =~= Seq::<(K, V)>::empty());
                assert(self.post_order_view() =~= Seq::<(K, V)>::empty());
                assert(self.level_order_view() =~= Seq::<(K, V)>::empty());
            },
        }
    }

    /// The depth of a well-formed tree is logarithmic in the number of its
    /// entries: a tree of height `h` has at least `2^(h / 2, rounded up) - 1`
    /// entries.
    pub proof fn lemma_depth_logarithmic(&self)
        requires
            self.wf(),
        ensures
            pow2(((self.height() + 1) / 2) as nat) <= self@.len() + 1,
    {
        depth::lemma_depth(self.root);
    }

    /// In a well-formed tree the entry with `k` keys below it has rank `k`:
    /// `rank` of the key that `select(k)` hands out is `k`.
    pub proof fn lemma_rank_of_selected(&self, k: int)
        requires
            self.wf(),
            total_order::<K>(),
            0 <= k < self@.len(),
        ensures
            rank_of(self@, self@[k].0) == k,
    {
        crate::order::lemma_rank_of_index(self@, k);
    }

    /// Where `floor` and `ceiling` both find an entry for `key`, the key of
    /// the floor is not above `key` and the key of the ceiling is not below
    /// it.
    pub proof fn lemma_floor_key_ceiling(&self, key: K)
        requires
            floor_of(self@, key) is Some,
            ceiling_of(self@, key) is Some,
        ensures
            !lt(key, floor_of(self@, key).unwrap().0),
            !lt(ceiling_of(self@, key).unwrap().0, key),
    {
        crate::order::lemma_floor_ceiling_bracket(self@, key);
    }

    /// What `put` binds `get` finds: after `put(key, val)`, `get(key)` is
    /// `val`.
    pub proof fn lemma_get_after_put(&self, key: K, val: V)
        requires
            total_order::<K>(),
        ensures
            find(inserted(self@, key, val), key) == Some(val),
    {
        crate::order::lemma_find_inserted(self@, key, val);
    }

    /// What `delete` removes `get` does not find: after `delete(key)`,
    /// `get(key)` is absent.
    pub proof fn lemma_get_after_delete(&self, key: K)
        requires
            total_order::<K>(),
        ensures
            find(removed(self@, key), key) is None,
    {
        crate::order::lemma_find_removed(self@, key);
    }

    /// `put` adds an entry exactly where the key was not bound, and `delete`
    /// takes one away exactly where it was.
    pub proof fn lemma_size_after(&self, key: K, val: V)
        requires
            self.wf(),
            total_order::<K>(),
        ensures
            inserted(self@, key, val).len() == if find(self@, key) is Some {
                self@.len()
            } else {
                self@.len() + 1
            },
            removed(self@, key).len() == if find(self@, key) is Some {
                self@.len() - 1
            } else {
                self@.len() as int
            },
    {
        crate::order::lemma_len_after(self@, key, val);
    }

    /// An empty tree.
    pub fn new() -> (tree: Self)
        ensures
            tree.wf(),
            tree@ == Seq::<(K, V)>::empty(),
            tree.root() is None,
    {
        proof {
            laws::lemma_absent::<K, V>();
            lemma_sorted_empty::<K, V>();
        }
        RedBlackTree { root: None }
    }

    /// Binds `key` to `val`, in place of the value that `key` had, if any.
    /// A new key needs room: the number of entries has to fit a `usize`
    /// afterwards too.
    pub fn put(&mut self, key: K, val: V)
        requires
            old(self).wf(),
            total_order::<K>(),
            old(self)@.len() < usize::MAX || find(old(self)@, key) is Some,
        ensures
            final(self).wf(),
            final(self)@ == inserted(old(self)@, key, val),
            final(self).root() == old(self).root_after_put(key, val),
    {
        proof {
            lemma_inserted_sorted(self@, key, val);
            crate::order::lemma_len_after(self@, key, val);
            laws::lemma_sized_count(self.root);
        }
        insert::put(&mut self.root, key, val);
        proof {
            laws::lemma_root_blackened(self.root);
        }
        balance::change_color(&mut self.root, Colors::BLACK);
    }

    /// The value that `key` is bound to.
    pub fn get(&self, key: K) -> (r: Option<&V>)
        requires
            self.wf(),
            total_order::<K>(),
        ensures
            match r {
                Some(val) => find(self@, key) == Some(*val),
                None => find(self@, key) is None,
            },
    {
        query::get(&self.root, &key)
    }

    /// Removes `key` and its value; changes nothing where `key` is not
    /// bound. The key is looked up first, since the way down to a key
    /// rearranges the tree at every step and ends only at a key that is
    /// there.
    pub fn delete(&mut self, key: K)
        requires
            old(self).wf(),
            total_order::<K>(),
        ensures
            final(self).wf(),
            final(self)@ == removed(old(self)@, key),
            find(old(self)@, key) is None ==> *final(self) == *old(self),
            final(self).root() == old(self).root_after_delete(key),
    {
        let ghost goal = self.root_after_delete(key);
        if query::get(&self.root, &key).is_none() {
            assert(goal == self.root);
            proof {
                lemma_removed_absent(self@, key);
            }
            return ;
        }
        assert(goal == shape::recolored(
            shape::deleted(shape::primed(self.root), key),
            Colors::BLACK,
        ));
        proof {
            laws::lemma_root_lends(self.root);
            lemma_removed_sorted(self@, key);
        }

        if !balance::is_red(balance::left(&self.root)) && !balance::is_red(
            balance::right(&self.root),
        ) {
            balance::change_color(&mut self.root, Colors::RED);
        }

        remove::delete(&mut self.root, key);

        proof {
            laws::lemma_root_blackened(self.root);
            assert(shape::count(self.root) == 0 ==> self.root is None) by {
                laws::lemma_sized_count(self.root);
                laws::lemma_some_entries(self.root);
            }
        }
        if balance::size(&self.root) > 0 {
            balance::change_color(&mut self.root, Colors::BLACK);
        }
    }

    /// Removes the entry with the least key; changes nothing in an empty
    /// tree.
    pub fn delete_min(&mut self)
        requires
            old(self).wf(),
        ensures
            final(self).wf(),
            old(self)@.len() == 0 ==> *final(self) == *old(self),
            old(self)@.len() > 0 ==> final(self)@ == old(self)@.drop_first(),
            final(self).root() == old(self).root_after_delete_min(),
    {
        if self.root.is_none() {
            proof {
                laws::lemma_root_lends(self.root);
                shape::lemma_deleted_absent::<K, V>();
            }
            return ;
        }
        proof {
            laws::lemma_root_lends(self.root);
            lemma_sorted_drop(self@);
        }

        if !balance::is_red(balance::left(&self.root)) && !balance::is_red(
            balance::right(&self.root),
        ) {
            balance::change_color(&mut self.root, Colors::RED);
        }

        remove::delete_min(&mut self.root);

        proof {
            laws::lemma_root_blackened(self.root);
        }
        if balance::size(&self.root) > 0 {
            balance::change_color(&mut self.root, Colors::BLACK);
        }
    }

    /// Removes the entry with the greatest key; changes nothing in an empty
    /// tree.
    pub fn delete_max(&mut self)
        requires
            old(self).wf(),
        ensures
            final(self).wf(),
            old(self)@.len() == 0 ==> *final(self) == *old(self),
            old(self)@.len() > 0 ==> final(self)@ == old(self)@.drop_last(),
            final(self).root() == old(self).root_after_delete_max(),
    {
        if self.root.is_none() {
            proof {
                laws::lemma_root_lends(self.root);
                shape::lemma_deleted_absent::<K, V>();
            }
            return ;
        }
        proof {
            laws::lemma_root_lends(self.root);
            lemma_sorted_drop(self@);
        }

        if !balance::is_red(balance::left(&self.root)) && !balance::is_red(
            balance::right(&self.root),
        ) {
            balance::change_color(&mut self.root, Colors::RED);
        }

        remove::delete_max(&mut self.root);

        proof {
            laws::lemma_root_blackened(self.root);
        }
        if balance::size(&self.root) > 0 {
            balance::change_color(&mut self.root, Colors::BLACK);
        }
    }

    /// The number of entries.
    pub fn size(&self) -> (n: usize)
        requires
            self.wf(),
        ensures
            n == self@.len(),
            n == self.stored_size(),
    {
        proof {
            laws::lemma_sized_count(self.root);
        }
        balance::size(&self.root)
    }

    /// The link to the entry with the least key; absent in an empty tree.
    pub fn min(&self) -> (r: &Link<K, V>)
        ensures
            entry_of(*r) == if self@.len() > 0 {
                Some(self@.first())
            } else {
                None
            },
            *r == shape::min_link(self.root()),
    {
        proof {
            laws::lemma_some_entries(self.root);
            if self.root is Some {
                laws::lemma_min_link(self.root);
            }
        }
        let r = query::min(&self.root);
        proof {
            lemma_entry_of(*r);
        }
        r
    }

    /// The link to the entry with the greatest key; absent in an empty tree.
    pub fn max(&self) -> (r: &Link<K, V>)
        ensures
            entry_of(*r) == if self@.len() > 0 {
                Some(self@.last())
            } else {
                None
            },
            *r == shape::max_link(self.root()),
    {
        proof {
            laws::lemma_some_entries(self.root);
            if self.root is Some {
                laws::lemma_max_link(self.root);
            }
        }
        let r = query::max(&self.root);
        proof {
            lemma_entry_of(*r);
        }
        r
    }

    /// The link to the entry that has `k` keys below it; absent where the
    /// tree has `k` entries or fewer. The link is one of the tree's own: the
    /// one that the way down from the root by the entry's key ends at.
    pub fn select(&self, k: usize) -> (r: &Link<K, V>)
        requires
            self.wf(),
        ensures
            entry_of(*r) == if k < self@.len() {
                Some(self@[k as int])
            } else {
                None
            },
            *r is Some ==> shape::within(self.root(), *r),
            *r is Some && total_order::<K>() ==> *r == shape::link_at(
                self.root(),
                entry_of(*r).unwrap().0,
            ),
    {
        let r = query::select(&self.root, k);
        proof {
            lemma_entry_of(*r);
            if *r is Some && total_order::<K>() {
                laws::lemma_link_at(self.root, *r);
            }
        }
        r
    }

    /// The number of keys strictly less than `key`, which need not be bound.
    pub fn rank(&self, key: K) -> (r: usize)
        requires
            self.wf(),
            total_order::<K>(),
        ensures
            r == rank_of(self@, key),
    {
        query::rank(&self.root, &key)
    }

    /// The link to the entry with the greatest key less than or equal to
    /// `key`; absent where every key is greater.
    pub fn floor(&self, key: K) -> (r: &Link<K, V>)
        requires
            self.wf(),
            total_order::<K>(),
        ensures
            entry_of(*r) == floor_of(self@, key),
            *r is Some ==> *r == shape::link_at(self.root(), entry_of(*r).unwrap().0),
    {
        let r = query::floor(&self.root, &key);
        proof {
            lemma_entry_of(*r);
            if *r is Some {
                laws::lemma_link_at(self.root, *r);
            }
        }
        r
    }

    /// The link to the entry with the least key greater than or equal to
    /// `key`; absent where every key is less.
    pub fn ceiling(&self, key: K) -> (r: &Link<K, V>)
        requires
            self.wf(),
            total_order::<K>(),
        ensures
            entry_of(*r) == ceiling_of(self@, key),
            *r is Some ==> *r == shape::link_at(self.root(), entry_of(*r).unwrap().0),
    {
        let r = query::ceiling(&self.root, &key);
        proof {
            lemma_entry_of(*r);
            if *r is Some {
                laws::lemma_link_at(self.root, *r);
            }
        }
        r
    }

    /// Whether every path from the root to an absent link has the same
    /// number of black links: true of every well-formed tree. The black links
    /// are counted in a `usize`, which the stored sizes bound.
    pub fn is_balanced(&self) -> (ok: bool)
        requires
            self.sizes_stored(),
        ensures
            ok == self.black_balanced(),
            self.wf() ==> ok,
    {
        proof {
            if self.wf() {
                self.lemma_invariants();
            }
        }
        oracle::balanced_height(&self.root).is_some()
    }

    /// Whether no node has a red right link while its left link is black:
    /// true of every well-formed tree.
    pub fn is_left_leaning(&self) -> (ok: bool)
        ensures
            ok == self.left_leaning(),
            self.wf() ==> ok,
    {
        proof {
            if self.wf() {
                self.lemma_invariants();
            }
        }
        oracle::leans_left(&self.root)
    }

    /// The nodes in pre-order: each node before its left subtree, and that
    /// before its right subtree.
    pub fn pre_order(&self) -> (r: Vec<&Node<K, V>>)
        ensures
            entries_in(r@) == self.pre_order_view(),
            r@.len() == self@.len(),
            traverse::nodes_of(r@) == traverse::pre_order_of(self.root()),
    {
        let r = traverse::pre_order(&self.root);
        proof {
            traverse::lemma_traversal_len(self.root);
            lemma_entries_in(r@);
            assert(entries_in(r@) =~= traverse::entries_of(traverse::nodes_of(r@)));
        }
        r
    }

    /// The nodes in ascending key order.
    pub fn in_order(&self) -> (r: Vec<&Node<K, V>>)
        ensures
            entries_in(r@) == self@,
            r@.len() == self@.len(),
            self.wf() ==> sorted(entries_in(r@)),
            traverse::nodes_of(r@) == traverse::in_order_of(self.root()),
    {
        let r = traverse::in_order(&self.root);
        proof {
            traverse::lemma_in_order_entries(self.root);
            lemma_entries_in(r@);
            assert(entries_in(r@) =~= traverse::entries_of(traverse::nodes_of(r@)));
        }
        r
    }

    /// The nodes in post-order: each node's left subtree before its right
    /// subtree, and that before the node.
    pub fn post_order(&self) -> (r: Vec<&Node<K, V>>)
        ensures
            entries_in(r@) == self.post_order_view(),
            r@.len() == self@.len(),
            traverse::nodes_of(r@) == traverse::post_order_of(self.root()),
    {
        let r = traverse::post_order(&self.root);
        proof {
            traverse::lemma_traversal_len(self.root);
            lemma_entries_in(r@);
            assert(entries_in(r@) =~= traverse::entries_of(traverse::nodes_of(r@)));
        }
        r
    }

    /// The nodes level by level from the root down, each level from left to
    /// right.
    pub fn level_order(&self) -> (r: Vec<&Node<K, V>>)
        ensures
            entries_in(r@) == self.level_order_view(),
            r@.len() == self@.len(),
            traverse::nodes_of(r@) == traverse::level_order_of(self.root()),
    {
        let r = traverse::level_order(&self.root);
        proof {
            traverse::lemma_level_order_len(self.root);
            lemma_entries_in(r@);
            assert(entries_in(r@) =~= traverse::entries_of(traverse::nodes_of(r@)));
        }
        r
    }
}

} // verus!
