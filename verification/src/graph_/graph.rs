//! An undirected graph as adjacency lists.

use std::collections::HashMap;
use std::hash::Hash;
use vstd::prelude::*;
use vstd::std_specs::cmp::PartialEqSpec;
use vstd::std_specs::hash::obeys_key_model;

verus! {

/// Vertices of type `T` can be keys of a hash table, and `==` on them holds
/// of equal vertices only.
pub open spec fn vertex_model<T: Eq>() -> bool {
    &&& obeys_key_model::<T>()
    &&& T::obeys_eq_spec()
    &&& forall|a: T, b: T| #[trigger] a.eq_spec(&b) <==> a == b
}

/// There is an edge from `a` to `b`: `b` is in `a`'s adjacency list.
pub open spec fn edge<T>(g: Map<T, Seq<T>>, a: T, b: T) -> bool {
    g.contains_key(a) && g[a].contains(b)
}

/// `path` is a walk in `g`: it has a vertex, and from each of its vertices
/// there is an edge to the next.
pub open spec fn is_path<T>(g: Map<T, Seq<T>>, path: Seq<T>) -> bool {
    &&& path.len() > 0
    &&& forall|i: int| 0 <= i < path.len() - 1 ==> edge(g, #[trigger] path[i], path[i + 1])
}

/// There is a walk in `g` from `s` to `v`.
pub open spec fn reachable<T>(g: Map<T, Seq<T>>, s: T, v: T) -> bool {
    exists|path: Seq<T>| is_path(g, path) && path.first() == s && path.last() == v
}

/// An undirected graph: for each vertex the list of the vertices next to it,
/// in the order in which the edges were added.
#[verifier::reject_recursive_types(T)]
pub struct Graph<T> {
    adj: HashMap<T, Vec<T>>,
}

impl<T> View for Graph<T> {
    type V = Map<T, Seq<T>>;

    /// The adjacency list of each vertex.
    closed spec fn view(&self) -> Map<T, Seq<T>> {
        Map::new(|v: T| self.adj@.contains_key(v), |v: T| self.adj@[v]@)
    }
}

impl<T: Copy + Hash + Eq> Graph<T> {
    /// A graph has finitely many vertices.
    pub proof fn lemma_finite(&self)
        ensures
            self@.dom().finite(),
    {
        broadcast use vstd::std_specs::hash::group_hash_axioms;

        assert(self@.dom() =~= self.adj@.dom());
    }

    /// A graph without vertices.
    pub fn new() -> (g: Self)
        ensures
            g@ == Map::<T, Seq<T>>::empty(),
    {
        let g = Graph { adj: HashMap::new() };
        proof {
            assert(g@ =~= Map::<T, Seq<T>>::empty());
        }
        g
    }

    /// Adds `w` to the end of the adjacency list of `v`, which is made if
    /// `v` had none.
    fn add(&mut self, v: T, w: T)
        requires
            vertex_model::<T>(),
        ensures
            final(self)@ == old(self)@.insert(
                v,
                if old(self)@.contains_key(v) {
                    old(self)@[v].push(w)
                } else {
                    seq![w]
                },
            ),
    {
        broadcast use vstd::std_specs::hash::group_hash_axioms;

        let mut list = match self.adj.remove(&v) {
            Some(list) => list,
            None => Vec::new(),
        };
        list.push(w);
        self.adj.insert(v, list);
        proof {
            assert(self@ =~= old(self)@.insert(
                v,
                if old(self)@.contains_key(v) {
                    old(self)@[v].push(w)
                } else {
                    seq![w]
                },
            ));
        }
    }

    /// Adds an edge between `v` and `w`: each comes last in the adjacency
    /// list of the other.
    pub fn add_edge(&mut self, v: T, w: T)
        requires
            vertex_model::<T>(),
        ensures
            final(self)@ == added(added(old(self)@, v, w), w, v),
    {
        self.add(v, w);
        self.add(w, v);
    }

    /// The adjacency list of `v`, if `v` is a vertex.
    pub fn adj(&self, v: T) -> (r: Option<&Vec<T>>)
        requires
            vertex_model::<T>(),
        ensures
            match r {
                Some(list) => self@.contains_key(v) && self@[v] == list@,
                None => !self@.contains_key(v),
            },
    {
        broadcast use vstd::std_specs::hash::group_hash_axioms;

        self.adj.get(&v)
    }
}

/// `g` with `w` added at the end of the adjacency list of `v`.
pub open spec fn added<T>(g: Map<T, Seq<T>>, v: T, w: T) -> Map<T, Seq<T>> {
    g.insert(
        v,
        if g.contains_key(v) {
            g[v].push(w)
        } else {
            seq![w]
        },
    )
}

} // verus!
