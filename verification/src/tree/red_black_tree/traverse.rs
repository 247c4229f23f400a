//! The four traversals. Each hands out the nodes of a subtree in its order,
//! which a spec function of this module defines on the shape of the subtree.

use crate::rbt::node::{Link, Node};
use crate::rbt::shape::entries;
use std::collections::VecDeque;
use vstd::prelude::*;

verus! {

/// The link to `node`.
pub(super) open spec fn link_to<K, V>(node: Node<K, V>) -> Link<K, V> {
    Some(Box::new(node))
}

/// The nodes behind a sequence of references.
pub open spec fn nodes_of<K, V>(refs: Seq<&Node<K, V>>) -> Seq<Node<K, V>> {
    refs.map_values(|r: &Node<K, V>| *r)
}

/// The entries of a sequence of nodes.
pub open spec fn entries_of<K, V>(nodes: Seq<Node<K, V>>) -> Seq<(K, V)> {
    nodes.map_values(|n: Node<K, V>| (n.key, n.val))
}

/// The nodes with the root first, then the left subtree, then the right
/// one.
pub open spec fn pre_order_of<K, V>(link: Link<K, V>) -> Seq<Node<K, V>>
    decreases link,
{
    match link {
        None => Seq::empty(),
        Some(node) => seq![*node] + pre_order_of(node.left) + pre_order_of(node.right),
    }
}

/// The nodes with the left subtree first, then the root, then the right
/// subtree.
pub open spec fn in_order_of<K, V>(link: Link<K, V>) -> Seq<Node<K, V>>
    decreases link,
{
    match link {
        None => Seq::empty(),
        Some(node) => in_order_of(node.left).push(*node) + in_order_of(node.right),
    }
}

/// The nodes with the left subtree first, then the right one, then the
/// root.
pub open spec fn post_order_of<K, V>(link: Link<K, V>) -> Seq<Node<K, V>>
    decreases link,
{
    match link {
        None => Seq::empty(),
        Some(node) => (post_order_of(node.left) + post_order_of(node.right)).push(*node),
    }
}

/// The nodes with the root first, then the right subtree, then the left
/// one: post-order read backwards.
pub(super) open spec fn mirrored_of<K, V>(link: Link<K, V>) -> Seq<Node<K, V>>
    decreases link,
{
    match link {
        None => Seq::empty(),
        Some(node) => seq![*node] + mirrored_of(node.right) + mirrored_of(node.left),
    }
}

/// The nodes at depth `depth` below the link, left to right.
pub open spec fn level_of<K, V>(link: Link<K, V>, depth: nat) -> Seq<Node<K, V>>
    decreases link,
{
    match link {
        None => Seq::empty(),
        Some(node) => if depth == 0 {
            seq![*node]
        } else {
            level_of(node.left, (depth - 1) as nat) + level_of(node.right, (depth - 1) as nat)
        },
    }
}

/// The number of nodes on the longest path down from the link.
pub open spec fn height_of<K, V>(link: Link<K, V>) -> nat
    decreases link,
{
    match link {
        None => 0,
        Some(node) => 1 + if height_of(node.left) >= height_of(node.right) {
            height_of(node.left)
        } else {
            height_of(node.right)
        },
    }
}

/// The nodes at the depths from `from` up to, not including, `to`, level by
/// level.
pub open spec fn levels_of<K, V>(link: Link<K, V>, from: nat, to: nat) -> Seq<Node<K, V>>
    decreases to - from,
{
    if from >= to {
        Seq::empty()
    } else {
        level_of(link, from) + levels_of(link, from + 1, to)
    }
}

/// The nodes level by level from the root down, each level left to right.
pub open spec fn level_order_of<K, V>(link: Link<K, V>) -> Seq<Node<K, V>> {
    levels_of(link, 0, height_of(link))
}

/// The children of the nodes of `nodes`, in order, each node's left child
/// before its right one.
pub(super) open spec fn children_of<K, V>(nodes: Seq<Node<K, V>>) -> Seq<Node<K, V>>
    decreases nodes.len(),
{
    if nodes.len() == 0 {
        Seq::empty()
    } else {
        children_of(nodes.drop_last()) + level_of(link_to(nodes.last()), 1)
    }
}

/// What is still to come in pre-order from a stack of subtrees, the top of
/// the stack being its last item.
pub(super) open spec fn pending_pre<K, V>(stack: Seq<&Node<K, V>>) -> Seq<Node<K, V>>
    decreases stack.len(),
{
    if stack.len() == 0 {
        Seq::empty()
    } else {
        pre_order_of(link_to(*stack.last())) + pending_pre(stack.drop_last())
    }
}

/// What is still to come in mirrored order from a stack of subtrees.
pub(super) open spec fn pending_mirrored<K, V>(stack: Seq<&Node<K, V>>) -> Seq<Node<K, V>>
    decreases stack.len(),
{
    if stack.len() == 0 {
        Seq::empty()
    } else {
        mirrored_of(link_to(*stack.last())) + pending_mirrored(stack.drop_last())
    }
}

/// What is still to come in order from a stack of nodes whose left subtrees
/// are done: each node, then its right subtree.
pub(super) open spec fn pending_in<K, V>(stack: Seq<&Node<K, V>>) -> Seq<Node<K, V>>
    decreases stack.len(),
{
    if stack.len() == 0 {
        Seq::empty()
    } else {
        seq![*stack.last()] + in_order_of(stack.last().right) + pending_in(stack.drop_last())
    }
}

/// The entries of the nodes in order are the entries of the subtree.
pub(super) proof fn lemma_in_order_entries<K, V>(link: Link<K, V>)
    ensures
        entries_of(in_order_of(link)) == entries(link),
        in_order_of(link).len() == entries(link).len(),
    decreases link,
{
    reveal(entries);
    match link {
        None => {
            assert(entries_of(in_order_of(link)) =~= entries(link));
        },
        Some(node) => {
            lemma_in_order_entries(node.left);
            lemma_in_order_entries(node.right);
            assert(entries_of(in_order_of(link)) =~= entries(link));
        },
    }
}

/// Every traversal hands out as many nodes as the subtree has entries.
pub(super) proof fn lemma_traversal_len<K, V>(link: Link<K, V>)
    ensures
        pre_order_of(link).len() == entries(link).len(),
        post_order_of(link).len() == entries(link).len(),
        mirrored_of(link).len() == entries(link).len(),
    decreases link,
{
    reveal(entries);
    match link {
        None => {},
        Some(node) => {
            lemma_traversal_len(node.left);
            lemma_traversal_len(node.right);
        },
    }
}

/// Mirrored order read backwards is post-order.
pub(super) proof fn lemma_mirrored_reverse<K, V>(link: Link<K, V>)
    ensures
        mirrored_of(link).reverse() == post_order_of(link),
    decreases link,
{
    match link {
        None => {
            assert(mirrored_of(link).reverse() =~= post_order_of(link));
        },
        Some(node) => {
            lemma_mirrored_reverse(node.left);
            lemma_mirrored_reverse(node.right);
            let r = mirrored_of(node.right);
            let l = mirrored_of(node.left);
            assert(r.reverse().len() == r.len());
            assert(l.reverse().len() == l.len());
            assert((seq![*node] + r + l).reverse() =~= (l.reverse() + r.reverse()).push(*node));
        },
    }
}

/// The nodes in pre-order, by a stack of the subtrees still to come.
pub(super) fn pre_order<K, V>(link: &Link<K, V>) -> (res: Vec<&Node<K, V>>)
    ensures
        nodes_of(res@) == pre_order_of(*link),
{
    let mut stack: Vec<&Node<K, V>> = Vec::new();
    let mut res: Vec<&Node<K, V>> = Vec::new();

    if link.is_some() {
        let root: &Node<K, V> = link.as_ref().unwrap();
        stack.push(root);
        proof {
            assert(stack@.drop_last() =~= Seq::empty());
            assert(pending_pre(stack@.drop_last()) =~= Seq::empty());
            assert(link_to(*root) == *link);
            assert(nodes_of(res@) + pending_pre(stack@) =~= pre_order_of(*link));
        }

        while !stack.is_empty()
            invariant
                nodes_of(res@) + pending_pre(stack@) == pre_order_of(*link),
            decreases pending_pre(stack@).len(),
        {
            let ghost before = stack@;
            let ghost done = res@;
            let node = stack.pop().unwrap();
            res.push(node);
            proof {
                assert(stack@ =~= before.drop_last());
                assert(nodes_of(res@) =~= nodes_of(done).push(*node));
            }
            let ghost rest = stack@;

            if node.right.is_some() {
                let next: &Node<K, V> = node.right.as_ref().unwrap();
                stack.push(next);
                proof {
                    assert(stack@.drop_last() =~= rest);
                    assert(link_to(*next) == node.right);
                }
            }
            let ghost middle = stack@;

            if node.left.is_some() {
                let next: &Node<K, V> = node.left.as_ref().unwrap();
                stack.push(next);
                proof {
                    assert(stack@.drop_last() =~= middle);
                    assert(link_to(*next) == node.left);
                }
            }
            proof {
                assert(pending_pre(middle) == pre_order_of(node.right) + pending_pre(rest));
                assert(pending_pre(stack@) == pre_order_of(node.left) + pending_pre(middle));
                assert(nodes_of(res@) + pending_pre(stack@) =~= nodes_of(done) + pending_pre(
                    before,
                ));
            }
        }
        proof {
            assert(nodes_of(res@) + pending_pre(stack@) =~= nodes_of(res@));
        }
    } else {
        proof {
            assert(nodes_of(res@) =~= pre_order_of(*link));
        }
    }

    res
}

/// The nodes in order, by a stack of the nodes whose left subtrees are under
/// way.
pub(super) fn in_order<K, V>(link: &Link<K, V>) -> (res: Vec<&Node<K, V>>)
    ensures
        nodes_of(res@) == in_order_of(*link),
{
    let mut stack: Vec<&Node<K, V>> = Vec::new();
    let mut res: Vec<&Node<K, V>> = Vec::new();
    let mut p = link;
    proof {
        assert(nodes_of(res@) + in_order_of(*p) + pending_in(stack@) =~= in_order_of(*link));
    }

    while p.is_some() || !stack.is_empty()
        invariant
            nodes_of(res@) + in_order_of(*p) + pending_in(stack@) == in_order_of(*link),
        decreases in_order_of(*p).len() + pending_in(stack@).len(),
    {
        let ghost done = nodes_of(res@);
        let ghost left = in_order_of(*p).len() + pending_in(stack@).len();
        while p.is_some()
            invariant
                nodes_of(res@) == done,
                nodes_of(res@) + in_order_of(*p) + pending_in(stack@) == in_order_of(*link),
                in_order_of(*p).len() + pending_in(stack@).len() == left,
                left > 0,
            decreases *p,
        {
            let ghost below = stack@;
            let node: &Node<K, V> = p.as_ref().unwrap();
            stack.push(node);
            proof {
                assert(stack@.drop_last() =~= below);
                assert(in_order_of(*p) + pending_in(below) =~= in_order_of(node.left)
                    + pending_in(stack@));
                assert(nodes_of(res@) + in_order_of(node.left) + pending_in(stack@) =~= nodes_of(
                    res@,
                ) + in_order_of(*p) + pending_in(below));
            }
            p = &node.left;
        }
        let ghost full = stack@;

        let cur = stack.pop().unwrap();
        res.push(cur);
        proof {
            assert(stack@ =~= full.drop_last());
            assert(nodes_of(res@) =~= done.push(*cur));
            assert(in_order_of(*p) =~= Seq::empty());
            assert(nodes_of(res@) + in_order_of(cur.right) + pending_in(stack@) =~= done
                + in_order_of(*p) + pending_in(full));
        }
        p = &cur.right;
    }
    proof {
        assert(nodes_of(res@) + in_order_of(*p) + pending_in(stack@) =~= nodes_of(res@));
    }

    res
}

/// The nodes in post-order: the mirrored order, collected by a stack and then
/// read backwards.
pub(super) fn post_order<K, V>(link: &Link<K, V>) -> (rev: Vec<&Node<K, V>>)
    ensures
        nodes_of(rev@) == post_order_of(*link),
{
    let mut stack: Vec<&Node<K, V>> = Vec::new();
    let mut res: Vec<&Node<K, V>> = Vec::new();
    let mut rev: Vec<&Node<K, V>> = Vec::new();

    if link.is_some() {
        let root: &Node<K, V> = link.as_ref().unwrap();
        stack.push(root);
        proof {
            assert(stack@.drop_last() =~= Seq::empty());
            assert(pending_mirrored(stack@.drop_last()) =~= Seq::empty());
            assert(link_to(*root) == *link);
            assert(nodes_of(res@) + pending_mirrored(stack@) =~= mirrored_of(*link));
        }

        while !stack.is_empty()
            invariant
                nodes_of(res@) + pending_mirrored(stack@) == mirrored_of(*link),
            decreases pending_mirrored(stack@).len(),
        {
            let ghost before = stack@;
            let ghost done = res@;
            let node = stack.pop().unwrap();
            res.push(node);
            proof {
                assert(stack@ =~= before.drop_last());
                assert(nodes_of(res@) =~= nodes_of(done).push(*node));
            }
            let ghost rest = stack@;

            if node.left.is_some() {
                let next: &Node<K, V> = node.left.as_ref().unwrap();
                stack.push(next);
                proof {
                    assert(stack@.drop_last() =~= rest);
                    assert(link_to(*next) == node.left);
                }
            }
            let ghost middle = stack@;

            if node.right.is_some() {
                let next: &Node<K, V> = node.right.as_ref().unwrap();
                stack.push(next);
                proof {
                    assert(stack@.drop_last() =~= middle);
                    assert(link_to(*next) == node.right);
                }
            }
            proof {
                assert(pending_mirrored(middle) == mirrored_of(node.left) + pending_mirrored(
                    rest,
                ));
                assert(pending_mirrored(stack@) == mirrored_of(node.right) + pending_mirrored(
                    middle,
                ));
                assert(nodes_of(res@) + pending_mirrored(stack@) =~= nodes_of(done)
                    + pending_mirrored(before));
            }
        }
        proof {
            assert(nodes_of(res@) + pending_mirrored(stack@) =~= nodes_of(res@));
            lemma_mirrored_reverse(*link);
        }

        for node in it: res.iter().rev()
            invariant
                it.seq() == res@.map_values(|node: &Node<K, V>| &node).reverse(),
                rev@.len() == it.index(),
                forall|j: int| 0 <= j < rev@.len() ==> rev@[j] == res@[res.len() - 1 - j],
        {
            rev.push(node);
        }
        proof {
            assert(nodes_of(rev@) =~= nodes_of(res@).reverse());
        }
    } else {
        proof {
            assert(nodes_of(rev@) =~= post_order_of(*link));
        }
    }

    rev
}

/// The children of two runs of nodes are the children of the first run, then
/// those of the second.
proof fn lemma_children_concat<K, V>(a: Seq<Node<K, V>>, b: Seq<Node<K, V>>)
    ensures
        children_of(a + b) == children_of(a) + children_of(b),
    decreases b.len(),
{
    if b.len() == 0 {
        assert(a + b =~= a);
        assert(children_of(a) + children_of(b) =~= children_of(a));
    } else {
        lemma_children_concat(a, b.drop_last());
        assert((a + b).drop_last() =~= a + b.drop_last());
        assert((a + b).last() == b.last());
        assert(children_of(a + b) =~= children_of(a) + children_of(b));
    }
}

/// The children of the nodes of one level are the nodes of the next.
proof fn lemma_children_level<K, V>(link: Link<K, V>, depth: nat)
    ensures
        children_of(level_of(link, depth)) == level_of(link, depth + 1),
    decreases link,
{
    match link {
        None => {},
        Some(node) => {
            if depth == 0 {
                let one = seq![*node];
                assert(one.drop_last() =~= Seq::empty());
                assert(children_of(one.drop_last()) =~= Seq::empty());
                assert(link_to(one.last()) == link);
                assert(children_of(one) =~= level_of(link, 1));
            } else {
                let below = (depth - 1) as nat;
                lemma_children_level(node.left, below);
                lemma_children_level(node.right, below);
                lemma_children_concat(level_of(node.left, below), level_of(node.right, below));
            }
        },
    }
}

/// A level holds nodes exactly when its depth is less than the height.
proof fn lemma_level_empty<K, V>(link: Link<K, V>, depth: nat)
    ensures
        level_of(link, depth).len() == 0 <==> depth >= height_of(link),
    decreases link,
{
    match link {
        None => {},
        Some(node) => {
            if depth > 0 {
                lemma_level_empty(node.left, (depth - 1) as nat);
                lemma_level_empty(node.right, (depth - 1) as nat);
            }
        },
    }
}

/// The levels up to and with `to` are the levels before `to`, then level
/// `to`.
proof fn lemma_levels_end<K, V>(link: Link<K, V>, from: nat, to: nat)
    requires
        from <= to,
    ensures
        levels_of(link, from, to + 1) == levels_of(link, from, to) + level_of(link, to),
    decreases to - from,
{
    if from == to {
        assert(levels_of(link, from + 1, to + 1) =~= Seq::empty());
        assert(levels_of(link, from, to + 1) =~= levels_of(link, from, to) + level_of(link, to));
    } else {
        lemma_levels_end(link, from + 1, to);
        assert(levels_of(link, from, to + 1) =~= levels_of(link, from, to) + level_of(link, to));
    }
}

/// Below the height there is nothing more: the levels up to any depth from
/// the height on are all the levels.
proof fn lemma_levels_all<K, V>(link: Link<K, V>, to: nat)
    requires
        to >= height_of(link),
    ensures
        levels_of(link, 0, to) == level_order_of(link),
    decreases to - height_of(link),
{
    if to > height_of(link) {
        let before = (to - 1) as nat;
        lemma_levels_all(link, before);
        lemma_levels_end(link, 0, before);
        lemma_level_empty(link, before);
        assert(levels_of(link, 0, before) + level_of(link, before) =~= levels_of(link, 0, before));
    }
}

/// The levels of a subtree below its root, up to a depth, have as many nodes
/// as the levels of its two children up to the depth before.
proof fn lemma_levels_below<K, V>(link: Link<K, V>, from: nat, to: nat)
    requires
        link is Some,
    ensures
        levels_of(link, from + 1, to + 1).len() == levels_of(link.unwrap().left, from, to).len()
            + levels_of(link.unwrap().right, from, to).len(),
    decreases to - from,
{
    if from < to {
        lemma_levels_below(link, from + 1, to);
    }
}

/// Level by level, a subtree hands out as many nodes as it has entries.
pub(super) proof fn lemma_level_order_len<K, V>(link: Link<K, V>)
    ensures
        level_order_of(link).len() == entries(link).len(),
    decreases link,
{
    reveal(entries);
    match link {
        None => {},
        Some(node) => {
            let below = (height_of(link) - 1) as nat;
            lemma_level_order_len(node.left);
            lemma_level_order_len(node.right);
            lemma_levels_all(node.left, below);
            lemma_levels_all(node.right, below);
            lemma_levels_below(link, 0, below);
        },
    }
}

/// The nodes level by level, by a queue of the nodes still to come.
pub(super) fn level_order<K, V>(link: &Link<K, V>) -> (res: Vec<&Node<K, V>>)
    ensures
        nodes_of(res@) == level_order_of(*link),
{
    let mut queue: VecDeque<&Node<K, V>> = VecDeque::new();
    let mut res: Vec<&Node<K, V>> = Vec::new();

    if link.is_some() {
        let root: &Node<K, V> = link.as_ref().unwrap();
        queue.push_back(root);
        let ghost mut depth: nat = 0;
        let ghost mut seen: nat = 0;
        proof {
            assert(link_to(*root) == *link);
            assert(nodes_of(res@) =~= levels_of(*link, 0, depth) + level_of(*link, depth).take(
                seen as int,
            ));
            assert(children_of(level_of(*link, depth).take(seen as int)) =~= Seq::empty());
            assert(nodes_of(queue@) =~= level_of(*link, depth).skip(seen as int) + children_of(
                level_of(*link, depth).take(seen as int),
            ));
        }

        while queue.len() > 0
            invariant
                seen <= level_of(*link, depth).len(),
                nodes_of(res@) == levels_of(*link, 0, depth) + level_of(*link, depth).take(
                    seen as int,
                ),
                nodes_of(queue@) == level_of(*link, depth).skip(seen as int) + children_of(
                    level_of(*link, depth).take(seen as int),
                ),
            decreases height_of(*link) - depth, level_of(*link, depth).len() - seen,
        {
            proof {
                let level = level_of(*link, depth);
                if seen == level.len() {
                    assert(level.take(seen as int) =~= level);
                    assert(level.skip(seen as int) =~= Seq::empty());
                    lemma_children_level(*link, depth);
                    lemma_levels_end(*link, 0, depth);
                    lemma_level_empty(*link, depth + 1);
                    let next = level_of(*link, depth + 1);
                    assert(nodes_of(queue@) =~= next);
                    assert(next.take(0) =~= Seq::empty());
                    assert(next.skip(0) =~= next);
                    assert(children_of(next.take(0)) =~= Seq::empty());
                    depth = depth + 1;
                    seen = 0;
                    assert(nodes_of(res@) =~= levels_of(*link, 0, depth) + level_of(
                        *link,
                        depth,
                    ).take(seen as int));
                    assert(nodes_of(queue@) =~= level_of(*link, depth).skip(seen as int)
                        + children_of(level_of(*link, depth).take(seen as int)));
                }
                lemma_level_empty(*link, depth);
            }
            let ghost level = level_of(*link, depth);
            let ghost waiting = queue@;
            let ghost done = res@;

            let node = queue.pop_front().unwrap();
            res.push(node);
            proof {
                assert(nodes_of(waiting)[0] == *node);
                assert(*node == level[seen as int]);
                assert(nodes_of(res@) =~= nodes_of(done).push(*node));
                assert(level.take(seen as int + 1) =~= level.take(seen as int).push(*node));
                assert(level.take(seen as int + 1).drop_last() =~= level.take(seen as int));
            }
            let ghost rest = queue@;
            proof {
                assert(nodes_of(rest) =~= nodes_of(waiting).skip(1));
            }

            if node.left.is_some() {
                let next: &Node<K, V> = node.left.as_ref().unwrap();
                queue.push_back(next);
                proof {
                    assert(link_to(*next) == node.left);
                }
            }
            let ghost middle = queue@;
            proof {
                assert(nodes_of(middle) =~= nodes_of(rest) + level_of(node.left, 0));
            }

            if node.right.is_some() {
                let next: &Node<K, V> = node.right.as_ref().unwrap();
                queue.push_back(next);
                proof {
                    assert(link_to(*next) == node.right);
                }
            }
            proof {
                assert(nodes_of(queue@) =~= nodes_of(middle) + level_of(node.right, 0));
                assert(level_of(link_to(*node), 1) == level_of(node.left, 0) + level_of(
                    node.right,
                    0,
                ));
                assert(nodes_of(queue@) =~= nodes_of(rest) + level_of(link_to(*node), 1));
                assert(nodes_of(rest) =~= level.skip(seen as int + 1) + children_of(
                    level.take(seen as int),
                ));
                seen = seen + 1;
                assert(nodes_of(queue@) =~= level.skip(seen as int) + children_of(
                    level.take(seen as int),
                ));
            }
        }
        proof {
            let level = level_of(*link, depth);
            assert(level.skip(seen as int).len() == 0);
            assert(level.take(seen as int) =~= level);
            lemma_children_level(*link, depth);
            lemma_level_empty(*link, depth + 1);
            lemma_levels_end(*link, 0, depth);
            lemma_levels_all(*link, depth + 1);
        }
    } else {
        proof {
            assert(nodes_of(res@) =~= level_order_of(*link));
        }
    }

    res
}

} // verus!
