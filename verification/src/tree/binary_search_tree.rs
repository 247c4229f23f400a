//! A binary search tree without balancing: an ordered map from keys to
//! values.
//!
//! The tree is described by the sequence of its entries in ascending key
//! order; `crate::order` says what each operation means on such a sequence.

use self::laws::{
    lemma_absent, lemma_delete, lemma_delete_top, lemma_descends, lemma_entries,
    lemma_greatest_dropped, lemma_greatest_here, lemma_leaf, lemma_least_dropped, lemma_least_here,
    lemma_link_at, lemma_max_link, lemma_min_link, lemma_parts, lemma_put, lemma_sized,
    lemma_sorted_children, lemma_swap_least, lemma_top_replaced,
};
use crate::order::{
    ceiling_of, find, floor_of, inserted, key_below, lemma_inserted_empty, lemma_inserted_sorted,
    lemma_lt_connected, lemma_queries_empty, lemma_removed_sorted, lemma_sorted_empty, lt, rank_of,
    removed, sorted, total_order,
};
use vstd::prelude::*;

mod laws;

verus! {

/// What leads to a subtree: its root, or nothing where the subtree is empty.
pub type Link<K, V> = Option<Box<Node<K, V>>>;

/// A node of the tree with its entry. The subtree below it and its size are
/// the tree's own business.
#[derive(Debug)]
pub struct Node<K, V> {
    pub key: K,
    pub val: V,
    left: Link<K, V>,
    right: Link<K, V>,
    n: usize,
}

impl<K, V> Node<K, V> {
    /// The node's key and value.
    pub closed spec fn entry(&self) -> (K, V) {
        (self.key, self.val)
    }

    /// The node's key.
    pub fn key(&self) -> (k: &K)
        ensures
            *k == self.entry().0,
    {
        &self.key
    }

    /// The node's value.
    pub fn val(&self) -> (v: &V)
        ensures
            *v == self.entry().1,
    {
        &self.val
    }
}

/// The entry that a link leads to, if it leads to a node.
pub open spec fn entry_of<K, V>(link: Link<K, V>) -> Option<(K, V)> {
    match link {
        Some(node) => Some(node.entry()),
        None => None,
    }
}

/// The entries of the subtree, left to right.
#[verifier::opaque]
pub closed spec fn entries<K, V>(link: Link<K, V>) -> Seq<(K, V)>
    decreases link,
{
    match link {
        None => Seq::empty(),
        Some(node) => entries(node.left).push((node.key, node.val)) + entries(node.right),
    }
}

/// Every node stores the number of entries of its subtree.
#[verifier::opaque]
pub closed spec fn sized<K, V>(link: Link<K, V>) -> bool
    decreases link,
{
    match link {
        None => true,
        Some(node) => node.n == entries(link).len() && sized(node.left) && sized(node.right),
    }
}

/// The subtree with the given root fields.
spec fn make<K, V>(key: K, val: V, left: Link<K, V>, right: Link<K, V>, n: usize) -> Link<K, V> {
    Some(Box::new(Node { key, val, left, right, n }))
}

/// The left child of the root; absent below an absent root.
spec fn left_of<K, V>(link: Link<K, V>) -> Link<K, V> {
    match link {
        Some(node) => node.left,
        None => None,
    }
}

/// The right child of the root; absent below an absent root.
spec fn right_of<K, V>(link: Link<K, V>) -> Link<K, V> {
    match link {
        Some(node) => node.right,
        None => None,
    }
}

/// The entry at the root.
spec fn root_entry<K, V>(link: Link<K, V>) -> (K, V)
    recommends
        link is Some,
{
    (link.unwrap().key, link.unwrap().val)
}

/// The size stored at the root; 0 for an absent link.
spec fn count<K, V>(link: Link<K, V>) -> usize {
    match link {
        Some(node) => node.n,
        None => 0,
    }
}

/// The subtree with `left` as the root's left child.
spec fn with_left<K, V>(link: Link<K, V>, left: Link<K, V>) -> Link<K, V> {
    match link {
        Some(h) => make(h.key, h.val, left, h.right, h.n),
        None => None,
    }
}

/// The subtree with `right` as the root's right child.
spec fn with_right<K, V>(link: Link<K, V>, right: Link<K, V>) -> Link<K, V> {
    match link {
        Some(h) => make(h.key, h.val, h.left, right, h.n),
        None => None,
    }
}

/// The subtree with the root's stored size set from its children's.
spec fn resized<K, V>(link: Link<K, V>) -> Link<K, V> {
    match link {
        Some(h) => make(
            h.key,
            h.val,
            h.left,
            h.right,
            (count(h.left) + count(h.right) + 1) as usize,
        ),
        None => None,
    }
}

/// The children of the root store their sizes, and the size of the subtree
/// can be stored.
spec fn ready<K, V>(link: Link<K, V>) -> bool {
    &&& link is Some
    &&& sized(left_of(link))
    &&& sized(right_of(link))
    &&& count(left_of(link)) == entries(left_of(link)).len()
    &&& count(right_of(link)) == entries(right_of(link)).len()
    &&& entries(left_of(link)).len() + entries(right_of(link)).len() + 1 <= usize::MAX
}

/// The link at the end of the left spine: the one that holds the least key.
spec fn min_link<K, V>(link: Link<K, V>) -> Link<K, V>
    decreases link,
{
    match link {
        Some(node) => if node.left is Some {
            min_link(node.left)
        } else {
            link
        },
        None => link,
    }
}

/// The subtree with `least` in the place of the link at the end of its left
/// spine.
spec fn with_min<K, V>(link: Link<K, V>, least: Link<K, V>) -> Link<K, V>
    decreases link,
{
    match link {
        Some(node) => if node.left is Some {
            with_left(link, with_min(node.left, least))
        } else {
            least
        },
        None => least,
    }
}

/// The link at the end of the right spine: the one that holds the greatest
/// key.
spec fn max_link<K, V>(link: Link<K, V>) -> Link<K, V>
    decreases link,
{
    match link {
        Some(node) => if node.right is Some {
            max_link(node.right)
        } else {
            link
        },
        None => link,
    }
}

/// The link at which a search for `key` ends: the one that leads to the node
/// with that key, or an absent one.
spec fn link_at<K: PartialOrd, V>(link: Link<K, V>, key: K) -> Link<K, V>
    decreases link,
{
    match link {
        Some(node) => if lt(key, node.key) {
            link_at(node.left, key)
        } else if lt(node.key, key) {
            link_at(node.right, key)
        } else {
            link
        },
        None => link,
    }
}

/// The subtree with `sub` in the place of the link at which a search for
/// `key` ends.
spec fn with_link_at<K: PartialOrd, V>(link: Link<K, V>, key: K, sub: Link<K, V>) -> Link<K, V>
    decreases link,
{
    match link {
        Some(node) => if lt(key, node.key) {
            with_left(link, with_link_at(node.left, key, sub))
        } else if lt(node.key, key) {
            with_right(link, with_link_at(node.right, key, sub))
        } else {
            sub
        },
        None => sub,
    }
}

/// An ordered symbol table on a link: the operations of the tree, on the
/// subtree that the link leads to.
pub trait ST<K: PartialOrd, V>: Sized {
    /// The entries in ascending key order.
    spec fn model(&self) -> Seq<(K, V)>;

    /// The keys ascend strictly, and every node stores the size of its
    /// subtree.
    spec fn wf(&self) -> bool;

    /// The entry at the top, if there is one.
    spec fn top(&self) -> Option<(K, V)>;

    /// The link that holds the least key.
    spec fn least(&self) -> Link<K, V>;

    /// This table with `sub` in the place of the link that holds the least
    /// key.
    spec fn with_least(&self, sub: Link<K, V>) -> Self;

    /// The link at which a search for `key` ends.
    spec fn at(&self, key: K) -> Link<K, V>;

    /// This table with `sub` in the place of the link at which a search for
    /// `key` ends.
    spec fn with_at(&self, key: K, sub: Link<K, V>) -> Self;

    /// A table with one entry.
    fn new(key: K, val: V) -> (link: Link<K, V>)
        ensures
            entries(link) == seq![(key, val)],
            sized(link),
            entry_of(link) == Some((key, val)),
    ;

    /// The number of entries.
    fn size(&self) -> (n: usize)
        requires
            self.wf(),
        ensures
            n == self.model().len(),
    ;

    /// The link to the entry with the key `key`; absent where there is none.
    fn get(&self, key: K) -> (r: &Link<K, V>)
        requires
            self.wf(),
            total_order::<K>(),
        ensures
            *r == self.at(key),
            entry_of(*r) == match find(self.model(), key) {
                Some(val) => Some((key, val)),
                None => None,
            },
    ;

    /// The link at which a search for `key` ends, for writing: what is put
    /// there takes the place of that link.
    fn get_mut(&mut self, key: K) -> (r: &mut Link<K, V>)
        requires
            old(self).wf(),
            total_order::<K>(),
        ensures
            *r == old(self).at(key),
            *final(self) == old(self).with_at(key, *final(r)),
    ;

    /// Binds `key` to `val`, in place of the value that `key` had, if any.
    /// The number of entries has to fit a `usize` afterwards too.
    fn put(&mut self, key: K, val: V)
        requires
            old(self).wf(),
            total_order::<K>(),
            inserted(old(self).model(), key, val).len() <= usize::MAX,
        ensures
            final(self).wf(),
            final(self).model() == inserted(old(self).model(), key, val),
    ;

    /// The link to the entry with the least key; absent in an empty table.
    fn min(&self) -> (r: &Link<K, V>)
        ensures
            *r == self.least(),
            entry_of(*r) == if self.model().len() > 0 {
                Some(self.model().first())
            } else {
                None
            },
    ;

    /// The link that holds the least key, for writing: what is put there
    /// takes the place of that link.
    fn min_mut(&mut self) -> (r: &mut Link<K, V>)
        ensures
            *r == old(self).least(),
            *final(self) == old(self).with_least(*final(r)),
    ;

    /// The link to the entry with the greatest key; absent in an empty table.
    fn max(&self) -> (r: &Link<K, V>)
        ensures
            entry_of(*r) == if self.model().len() > 0 {
                Some(self.model().last())
            } else {
                None
            },
    ;

    /// The link to the entry with the least key greater than or equal to
    /// `key`; absent where every key is less.
    fn ceiling(&self, key: K) -> (r: &Link<K, V>)
        requires
            self.wf(),
            total_order::<K>(),
        ensures
            entry_of(*r) == ceiling_of(self.model(), key),
    ;

    /// The link to the entry with the greatest key less than or equal to
    /// `key`; absent where every key is greater.
    fn floor(&self, key: K) -> (r: &Link<K, V>)
        requires
            self.wf(),
            total_order::<K>(),
        ensures
            entry_of(*r) == floor_of(self.model(), key),
    ;

    /// The link to the entry that has `k` keys below it; absent where the
    /// table has `k` entries or fewer.
    fn select(&self, k: usize) -> (r: &Link<K, V>)
        requires
            self.wf(),
        ensures
            entry_of(*r) == if k < self.model().len() {
                Some(self.model()[k as int])
            } else {
                None
            },
    ;

    /// The number of keys strictly less than `key`, which need not be bound.
    fn rank(&self, key: K) -> (r: usize)
        requires
            self.wf(),
            total_order::<K>(),
        ensures
            r == rank_of(self.model(), key),
    ;

    /// Removes the entry with the least key; changes nothing in an empty
    /// table.
    fn delete_min(&mut self)
        requires
            old(self).wf(),
        ensures
            final(self).wf(),
            old(self).model().len() == 0 ==> *final(self) == *old(self),
            old(self).model().len() > 0 ==> final(self).model() == old(self).model().drop_first(),
    ;

    /// Removes the entry with the greatest key; changes nothing in an empty
    /// table.
    fn delete_max(&mut self)
        requires
            old(self).wf(),
        ensures
            final(self).wf(),
            old(self).model().len() == 0 ==> *final(self) == *old(self),
            old(self).model().len() > 0 ==> final(self).model() == old(self).model().drop_last(),
    ;

    /// Removes `key` and its value; changes no entry where `key` is not
    /// bound.
    fn delete(&mut self, key: K)
        requires
            old(self).wf(),
            total_order::<K>(),
        ensures
            final(self).wf(),
            final(self).model() == removed(old(self).model(), key),
    ;

    /// Removes the entry at the top; changes nothing in an empty table.
    fn delete_self(&mut self)
        requires
            old(self).wf(),
            total_order::<K>(),
        ensures
            final(self).wf(),
            match old(self).top() {
                Some(e) => final(self).model() == removed(old(self).model(), e.0),
                None => *final(self) == *old(self),
            },
    ;
}

impl<K: PartialOrd, V> ST<K, V> for Link<K, V> {
    closed spec fn model(&self) -> Seq<(K, V)> {
        entries(*self)
    }

    closed spec fn wf(&self) -> bool {
        sorted(entries(*self)) && sized(*self)
    }

    open spec fn top(&self) -> Option<(K, V)> {
        entry_of(*self)
    }

    closed spec fn least(&self) -> Link<K, V> {
        min_link(*self)
    }

    closed spec fn with_least(&self, sub: Link<K, V>) -> Self {
        with_min(*self, sub)
    }

    closed spec fn at(&self, key: K) -> Link<K, V> {
        link_at(*self, key)
    }

    closed spec fn with_at(&self, key: K, sub: Link<K, V>) -> Self {
        with_link_at(*self, key, sub)
    }

    fn new(key: K, val: V) -> (link: Self) {
        let node = Box::new(Node { key, val, left: None, right: None, n: 1 });

        proof {
            lemma_leaf(Some(node), key, val);
        }
        Some(node)
    }

    fn size(&self) -> (n: usize) {
        proof {
            lemma_sized(*self);
        }
        match self {
            Some(node) => node.n,
            None => 0,
        }
    }

    fn get(&self, key: K) -> (r: &Self)
        decreases *self,
    {
        proof {
            lemma_link_at(*self, key);
            lemma_sorted_children(*self);
            lemma_sized(*self);
            if *self is Some {
                lemma_lt_connected(key, root_entry(*self).0);
            }
        }
        if self.is_some() && differs(&key, &self.as_ref().unwrap().key) {
            let node = self.as_ref().unwrap();
            if precedes(&key, &node.key) {
                node.left.get(key)
            } else {
                node.right.get(key)
            }
        } else {
            self
        }
    }

    fn get_mut(&mut self, key: K) -> (r: &mut Self)
        decreases *old(self),
    {
        proof {
            lemma_sorted_children(*self);
            lemma_sized(*self);
            if *self is Some {
                lemma_lt_connected(key, root_entry(*self).0);
            }
        }
        if self.is_some() && differs(&key, &self.as_ref().unwrap().key) {
            let node = self.as_mut().unwrap();
            if precedes(&key, &node.key) {
                node.left.get_mut(key)
            } else {
                node.right.get_mut(key)
            }
        } else {
            self
        }
    }

    fn put(&mut self, key: K, val: V)
        decreases *old(self),
    {
        let ghost before = *self;
        proof {
            lemma_descends(before);
            lemma_inserted_sorted(entries(before), key, val);
            laws::lemma_room(before);
            crate::order::lemma_inserted_len(entries(left_of(before)), key, val);
            crate::order::lemma_inserted_len(entries(right_of(before)), key, val);
        }
        match self {
            Some(node) => {
                if precedes(&key, &node.key) {
                    node.left.put(key, val)
                } else if follows(&key, &node.key) {
                    node.right.put(key, val)
                } else {
                    node.val = val
                }
                proof {
                    lemma_put(before, Some(*node), key, val);
                }
                let ghost after = Some(*node);

                node.n = node.left.size() + node.right.size() + 1;
            },
            None => {
                let node = Box::new(Node { key, val, left: None, right: None, n: 1 });

                proof {
                    lemma_leaf(Some(node), key, val);
                    lemma_inserted_empty(key, val);
                }
                *self = Some(node);
            },
        }
        proof {
            assert(entries(*self) == inserted(entries(before), key, val));
            assert(sized(*self));
        }
    }

    fn min(&self) -> (r: &Self)
        decreases *self,
    {
        proof {
            lemma_min_link(*self);
        }
        if self.is_some() && self.as_ref().unwrap().left.is_some() {
            self.as_ref().unwrap().left.min()
        } else {
            self
        }
    }

    fn min_mut(&mut self) -> (r: &mut Self)
        decreases *old(self),
    {
        if self.is_some() && self.as_ref().unwrap().left.is_some() {
            self.as_mut().unwrap().left.min_mut()
        } else {
            self
        }
    }

    fn max(&self) -> (r: &Self)
        decreases *self,
    {
        proof {
            lemma_max_link(*self);
            if *self is Some {
                lemma_max_link(right_of(*self));
            }
        }
        if self.is_some() && self.as_ref().unwrap().right.is_some() {
            self.as_ref().unwrap().right.max()
        } else {
            self
        }
    }

    fn ceiling(&self, key: K) -> (r: &Self)
        decreases *self,
    {
        proof {
            lemma_parts(*self, key);
            lemma_sized(*self);
            if *self is Some {
                lemma_entries(*self);
            }
        }
        match self {
            Some(node) => {
                if precedes(&key, &node.key) {
                    let tree_node = node.left.ceiling(key);

                    if tree_node.is_none() {
                        self
                    } else {
                        tree_node
                    }
                } else if follows(&key, &node.key) {
                    node.right.ceiling(key)
                } else {
                    self
                }
            },
            None => self,
        }
    }

    fn floor(&self, key: K) -> (r: &Self)
        decreases *self,
    {
        proof {
            lemma_parts(*self, key);
            lemma_sized(*self);
            if *self is Some {
                lemma_entries(*self);
            }
        }
        match self {
            Some(node) => {
                if precedes(&key, &node.key) {
                    node.left.floor(key)
                } else if follows(&key, &node.key) {
                    let tree_node = node.right.floor(key);

                    if tree_node.is_none() {
                        self
                    } else {
                        tree_node
                    }
                } else {
                    self
                }
            },
            None => self,
        }
    }

    fn select(&self, k: usize) -> (r: &Self)
        decreases *self,
    {
        proof {
            lemma_sorted_children(*self);
            lemma_sized(*self);
            if *self is Some {
                lemma_entries(*self);
            }
        }
        match self {
            Some(node) => {
                let t = node.left.size();

                if t < k {
                    node.right.select(k - t - 1)
                } else if t > k {
                    node.left.select(k)
                } else {
                    self
                }
            },
            None => self,
        }
    }

    fn rank(&self, key: K) -> (r: usize)
        decreases *self,
    {
        proof {
            lemma_parts(*self, key);
            lemma_sized(*self);
            if *self is Some {
                lemma_entries(*self);
            }
            entries(right_of(*self)).lemma_filter_len(key_below(key));
        }
        match self {
            Some(node) => {
                if precedes(&key, &node.key) {
                    node.left.rank(key)
                } else if follows(&key, &node.key) {
                    1 + node.left.size() + node.right.rank(key)
                } else {
                    node.left.size()
                }
            },
            None => 0,
        }
    }

    fn delete_min(&mut self)
        decreases *old(self),
    {
        let ghost before = *self;
        let mut has_left = true;
        proof {
            lemma_descends(before);
        }

        match self {
            Some(node) => {
                if node.left.is_none() {
                    has_left = false;
                } else {
                    node.left.delete_min();
                    proof {
                        lemma_least_dropped(before, Some(*node));
                    }
                    node.n = node.left.size() + node.right.size() + 1;
                }
            },
            None => {},
        }

        if !has_left {
            proof {
                lemma_least_here(before);
            }
            *self = self.take().unwrap().right;
        }
    }

    fn delete_max(&mut self)
        decreases *old(self),
    {
        let ghost before = *self;
        let mut has_right = true;
        proof {
            lemma_descends(before);
        }

        match self {
            Some(node) => {
                if node.right.is_none() {
                    has_right = false;
                } else {
                    node.right.delete_max();
                    proof {
                        lemma_greatest_dropped(before, Some(*node));
                    }
                    node.n = node.left.size() + node.right.size() + 1;
                }
            },
            None => {},
        }

        if !has_right {
            proof {
                lemma_greatest_here(before);
            }
            *self = self.take().unwrap().left;
        }
    }

    fn delete(&mut self, key: K)
        decreases *old(self), 1nat,
    {
        let ghost before = *self;
        let mut is_self = false;
        proof {
            lemma_descends(before);
            lemma_removed_sorted(entries(before), key);
            if before is None {
                lemma_queries_empty::<K, V>(key);
            }
        }

        match self {
            Some(node) => {
                if precedes(&key, &node.key) {
                    node.left.delete(key);
                } else if follows(&key, &node.key) {
                    node.right.delete(key);
                } else {
                    is_self = true;
                }
                proof {
                    lemma_delete(before, Some(*node), key);
                }

                node.n = node.left.size() + node.right.size() + 1;
            },
            None => {},
        }

        if is_self {
            self.delete_self();
        }
    }

    fn delete_self(&mut self)
        decreases *old(self), 0nat,
    {
        let ghost before = *self;
        proof {
            lemma_absent::<K, V>();
        }
        if let Some(mut boxed_node) = self.take() {
            proof {
                lemma_delete_top(before);
            }
            let left = boxed_node.left.take();
            let right = boxed_node.right.take();
            if left.is_none() && right.is_none() {
            } else if right.is_none() {
                *self = left;
            } else if left.is_none() {
                *self = right;
            } else {
                boxed_node.left = left;
                boxed_node.right = right;
                proof {
                    lemma_swap_least(before);
                }

                {
                    let node = &mut *boxed_node;
                    let next = node.right.min_mut();

                    core::mem::swap(&mut node.key, &mut next.as_mut().unwrap().key);
                    core::mem::swap(&mut node.val, &mut next.as_mut().unwrap().val);
                }

                boxed_node.right.delete_min();
                proof {
                    lemma_top_replaced(before, Some(boxed_node));
                }
                boxed_node.n = boxed_node.left.size() + boxed_node.right.size() + 1;
                *self = Some(boxed_node);
            }
        }
    }
}

/// `a != b`, as the key type has it.
fn differs<K: PartialOrd>(a: &K, b: &K) -> (r: bool)
    ensures
        total_order::<K>() ==> r == (*a != *b),
{
    let r = *a != *b;
    proof {
        if total_order::<K>() {
            reveal(total_order);
            assert(r == !crate::order::eq(*a, *b));
        }
    }
    r
}

/// `a < b`, as the key type has it.
fn precedes<K: PartialOrd>(a: &K, b: &K) -> (r: bool)
    ensures
        total_order::<K>() ==> r == lt(*a, *b),
{
    let r = *a < *b;
    proof {
        if total_order::<K>() {
            reveal(total_order);
            assert(r == lt(*a, *b));
        }
    }
    r
}

/// `a > b`, as the key type has it.
fn follows<K: PartialOrd>(a: &K, b: &K) -> (r: bool)
    ensures
        total_order::<K>() ==> r == lt(*b, *a),
{
    let r = *a > *b;
    proof {
        if total_order::<K>() {
            reveal(total_order);
            assert(r == crate::order::gt(*a, *b));
        }
    }
    r
}

/// An ordered map from keys to values.
pub struct BinarySearchTree<K, V> {
    root: Link<K, V>,
}

impl<K, V> View for BinarySearchTree<K, V> {
    type V = Seq<(K, V)>;

    /// The entries of the tree in ascending key order.
    closed spec fn view(&self) -> Seq<(K, V)> {
        entries(self.root)
    }
}

impl<K: PartialOrd, V> BinarySearchTree<K, V> {
    /// The tree's invariant: its keys ascend strictly from left to right, and
    /// every node stores the size of its subtree.
    pub closed spec fn wf(&self) -> bool {
        sorted(entries(self.root)) && sized(self.root)
    }

    /// The entries of a well-formed tree are sorted.
    pub proof fn lemma_sorted(&self)
        requires
            self.wf(),
        ensures
            sorted(self@),
    {
    }

    /// An empty tree.
    pub fn new() -> (tree: Self)
        ensures
            tree.wf(),
            tree@ == Seq::<(K, V)>::empty(),
    {
        proof {
            lemma_absent::<K, V>();
            lemma_sorted_empty::<K, V>();
        }
        BinarySearchTree { root: None }
    }

    /// The number of entries.
    pub fn size(&self) -> (n: usize)
        requires
            self.wf(),
        ensures
            n == self@.len(),
    {
        self.root.size()
    }

    /// Binds `key` to `val`, in place of the value that `key` had, if any.
    /// A new key needs room: the number of entries has to fit a `usize`
    /// afterwards too.
    pub fn put(&mut self, key: K, val: V)
        requires
            old(self).wf(),
            total_order::<K>(),
            old(self)@.len() < usize::MAX || find(old(self)@, key) is Some,
        ensures
            final(self).wf(),
            final(self)@ == inserted(old(self)@, key, val),
    {
        proof {
            crate::order::lemma_len_after(self@, key, val);
            lemma_descends(self.root);
        }
        self.root.put(key, val)
    }

    /// The link to the entry with the key `key`; absent where `key` is not
    /// bound.
    pub fn get(&self, key: K) -> (r: &Link<K, V>)
        requires
            self.wf(),
            total_order::<K>(),
        ensures
            entry_of(*r) == match find(self@, key) {
                Some(val) => Some((key, val)),
                None => None,
            },
    {
        self.root.get(key)
    }

    /// The link to the entry with the least key; absent in an empty tree.
    pub fn min(&self) -> (r: &Link<K, V>)
        ensures
            entry_of(*r) == if self@.len() > 0 {
                Some(self@.first())
            } else {
                None
            },
    {
        self.root.min()
    }

    /// The link to the entry with the greatest key; absent in an empty tree.
    pub fn max(&self) -> (r: &Link<K, V>)
        ensures
            entry_of(*r) == if self@.len() > 0 {
                Some(self@.last())
            } else {
                None
            },
    {
        self.root.max()
    }

    /// The link to the entry with the greatest key less than or equal to
    /// `key`; absent where every key is greater.
    pub fn floor(&self, key: K) -> (r: &Link<K, V>)
        requires
            self.wf(),
            total_order::<K>(),
        ensures
            entry_of(*r) == floor_of(self@, key),
    {
        self.root.floor(key)
    }

    /// The link to the entry with the least key greater than or equal to
    /// `key`; absent where every key is less.
    pub fn ceiling(&self, key: K) -> (r: &Link<K, V>)
        requires
            self.wf(),
            total_order::<K>(),
        ensures
            entry_of(*r) == ceiling_of(self@, key),
    {
        self.root.ceiling(key)
    }

    /// The link to the entry that has `k` keys below it; absent where the
    /// tree has `k` entries or fewer.
    pub fn select(&self, k: usize) -> (r: &Link<K, V>)
        requires
            self.wf(),
        ensures
            entry_of(*r) == if k < self@.len() {
                Some(self@[k as int])
            } else {
                None
            },
    {
        self.root.select(k)
    }

    /// The number of keys strictly less than `key`, which need not be bound.
    pub fn rank(&self, key: K) -> (r: usize)
        requires
            self.wf(),
            total_order::<K>(),
        ensures
            r == rank_of(self@, key),
    {
        self.root.rank(key)
    }

    /// Removes the entry with the least key; changes nothing in an empty
    /// tree.
    pub fn delete_min(&mut self)
        requires
            old(self).wf(),
        ensures
            final(self).wf(),
            old(self)@.len() == 0 ==> *final(self) == *old(self),
            old(self)@.len() > 0 ==> final(self)@ == old(self)@.drop_first(),
    {
        self.root.delete_min()
    }

    /// Removes the entry with the greatest key; changes nothing in an empty
    /// tree.
    pub fn delete_max(&mut self)
        requires
            old(self).wf(),
        ensures
            final(self).wf(),
            old(self)@.len() == 0 ==> *final(self) == *old(self),
            old(self)@.len() > 0 ==> final(self)@ == old(self)@.drop_last(),
    {
        self.root.delete_max()
    }

    /// Removes `key` and its value; changes no entry where `key` is not
    /// bound.
    pub fn delete(&mut self, key: K)
        requires
            old(self).wf(),
            total_order::<K>(),
        ensures
            final(self).wf(),
            final(self)@ == removed(old(self)@, key),
    {
        self.root.delete(key)
    }
}

} // verus!
