//! Paths from one vertex of a graph to every vertex that a depth-first
//! search reaches from it.

use super::graph::{edge, is_path, reachable, vertex_model, Graph};
use std::collections::HashMap;
use std::hash::Hash;
use vstd::prelude::*;

verus! {

/// A depth-first search from `v`, which is not among the vertices `seen` so
/// far: `v` is seen, and its adjacency list is gone through from its start.
/// The result is the vertices seen at the end and, for each vertex that the
/// search went to, the vertex that it came from. `fuel` bounds the depth of
/// the search; the number of the graph's vertices that are not seen yet is
/// enough.
pub open spec fn search_from<T>(
    g: Map<T, Seq<T>>,
    seen: Set<T>,
    back: Map<T, T>,
    v: T,
    fuel: nat,
) -> (Set<T>, Map<T, T>)
    decreases fuel, 1nat, 0nat,
{
    search_along(g, seen.insert(v), back, v, 0, fuel)
}

/// The search goes through the adjacency list of `v` from index `i` on: from
/// each vertex of the list that is not seen when its turn comes, a search
/// starts that came from `v`.
pub open spec fn search_along<T>(
    g: Map<T, Seq<T>>,
    seen: Set<T>,
    back: Map<T, T>,
    v: T,
    i: nat,
    fuel: nat,
) -> (Set<T>, Map<T, T>)
    decreases fuel, 0nat, (if g.contains_key(v) && i < g[v].len() {
        g[v].len() - i
    } else {
        0
    }),
{
    if !g.contains_key(v) || i >= g[v].len() {
        (seen, back)
    } else if seen.contains(g[v][i as int]) || fuel == 0 {
        search_along(g, seen, back, v, i + 1, fuel)
    } else {
        let w = g[v][i as int];
        let next = search_from(g, seen, back.insert(w, v), w, (fuel - 1) as nat);
        search_along(g, next.0, next.1, v, i + 1, fuel)
    }
}

/// The depth-first search of `g` from `s`: the vertices that it reaches and,
/// for each of them but `s`, the vertex from which it was first reached.
pub open spec fn searched<T>(g: Map<T, Seq<T>>, s: T) -> (Set<T>, Map<T, T>) {
    search_from(g, Set::empty(), Map::empty(), s, g.dom().len())
}

/// The vertices that a depth-first search reached from a source, each with
/// the edge over which it was reached.
#[verifier::reject_recursive_types(T)]
pub struct DepthFirstPaths<T: Copy + Hash + Eq> {
    marked: HashMap<T, bool>,
    edge_to: HashMap<T, T>,
    count: usize,
    s: T,
    /// The graph that was searched.
    graph: Ghost<Map<T, Seq<T>>>,
    /// For each marked vertex, the number of edges on its way back to `s`.
    depth: Ghost<Map<T, nat>>,
}

impl<T: Copy + Hash + Eq> DepthFirstPaths<T> {
    /// The graph that was searched.
    pub closed spec fn graph(&self) -> Map<T, Seq<T>> {
        self.graph@
    }

    /// The vertex that the search started from.
    pub closed spec fn source(&self) -> T {
        self.s
    }

    /// The number of vertices that the search reached.
    pub closed spec fn reached(&self) -> nat {
        self.count as nat
    }

    /// The vertices that the search reached.
    pub closed spec fn marked(&self) -> Set<T> {
        self.marked@.dom()
    }

    /// For each vertex that the search went to, the vertex that it came
    /// from.
    pub closed spec fn edge_to(&self) -> Map<T, T> {
        self.edge_to@
    }

    /// The vertex from which the search first reached `v`: none for the
    /// source and for a vertex that was not reached.
    pub closed spec fn parent(&self, v: T) -> Option<T> {
        if self.is_marked(v) && v != self.s {
            Some(self.edge_to@[v])
        } else {
            None
        }
    }

    /// `v` was reached.
    spec fn is_marked(&self, v: T) -> bool {
        self.marked@.contains_key(v)
    }

    /// What holds of the marked vertices at every moment of the search: each
    /// but `s` was reached over an edge from a marked vertex that is one
    /// step nearer to `s`, and `s` is marked wherever a vertex is.
    spec fn tree(&self) -> bool {
        &&& forall|v: T| #[trigger] self.is_marked(v) ==> self.marked@[v]
        &&& self.depth@.dom() == self.marked@.dom()
        &&& forall|v: T| #[trigger]
            self.is_marked(v) && v != self.s ==> {
                &&& self.edge_to@.contains_key(v)
                &&& self.is_marked(self.edge_to@[v])
                &&& edge(self.graph@, self.edge_to@[v], v)
                &&& self.depth@[v] == self.depth@[self.edge_to@[v]] + 1
            }
        &&& forall|v: T| #[trigger] self.is_marked(v) ==> self.is_marked(self.s)
        &&& self.count == self.marked@.dom().len()
    }

    /// Every vertex next to `u` is marked.
    spec fn finished(&self, u: T) -> bool {
        forall|w: T| #[trigger] edge(self.graph@, u, w) ==> self.is_marked(w)
    }

    /// The search is over: `s` is marked, and every vertex next to a marked
    /// one is marked.
    pub closed spec fn wf(&self) -> bool {
        &&& self.tree()
        &&& self.is_marked(self.s)
        &&& forall|u: T| #[trigger] self.is_marked(u) ==> self.finished(u)
    }

    /// Searches `g` from `s`.
    pub fn new(g: &Graph<T>, s: T) -> (dfp: Self)
        requires
            vertex_model::<T>(),
        ensures
            dfp.wf(),
            dfp.graph() == g@,
            dfp.source() == s,
            dfp.marked() == searched(g@, s).0,
            dfp.edge_to() == searched(g@, s).1,
    {
        broadcast use vstd::std_specs::hash::group_hash_axioms;

        let mut dfp = DepthFirstPaths {
            marked: HashMap::new(),
            edge_to: HashMap::new(),
            count: 0,
            s,
            graph: Ghost(g@),
            depth: Ghost(Map::empty()),
        };
        proof {
            assert(dfp.depth@.dom() =~= dfp.marked@.dom());
            assert(dfp.marked@.dom() =~= Set::<T>::empty());
            assert(dfp.edge_to@ =~= Map::<T, T>::empty());
            assert(g@.dom().difference(dfp.marked@.dom()) =~= g@.dom());
        }

        dfp.dfs(g, s, Ghost(g@.dom().len()));
        dfp
    }

    /// Marks `v` and every vertex that can be reached from `v` over vertices
    /// that are not marked yet.
    fn dfs(&mut self, g: &Graph<T>, v: T, Ghost(fuel): Ghost<nat>)
        requires
            vertex_model::<T>(),
            old(self).graph@ == g@,
            old(self).tree(),
            old(self).awaits(v),
            fuel >= g@.dom().difference(old(self).marked@.dom()).len(),
        ensures
            final(self).tree(),
            final(self).goes_on_from(*old(self)),
            final(self).is_marked(v),
            final(self).finished_since(*old(self)),
            final(self).marked@.dom() == search_from(
                g@,
                old(self).marked@.dom(),
                old(self).edge_to@,
                v,
                fuel,
            ).0,
            final(self).edge_to@ == search_from(
                g@,
                old(self).marked@.dom(),
                old(self).edge_to@,
                v,
                fuel,
            ).1,
        decreases g@.dom().difference(old(self).marked@.dom()).len(),
    {
        broadcast use vstd::std_specs::hash::group_hash_axioms;

        let ghost before = *self;
        if !self.marked.contains_key(&v) {
            self.marked.insert(v, true);
        }
        proof {
            let steps: nat = if v == self.s {
                0
            } else {
                self.depth@[self.edge_to@[v]] + 1
            };
            self.depth@ = self.depth@.insert(v, steps);
            lemma_marked_fits(&self.marked);
            assert(self.marked@.dom() =~= before.marked@.dom().insert(v));
        }
        self.count += 1;
        let ghost first = *self;
        proof {
            before.lemma_marked(first, v);
        }

        if let Some(edges) = g.adj(v) {
            for w in it: edges.iter()
                invariant
                    vertex_model::<T>(),
                    g@.contains_key(v),
                    g@[v] == edges@,
                    it.seq() == edges@.map_values(|w: T| &w),
                    before == *old(self),
                    !before.is_marked(v),
                    first.is_marked(v),
                    first.goes_on_from(before),
                    self.tree(),
                    self.graph@ == g@,
                    self.goes_on_from(first),
                    self.finished_since(first),
                    forall|j: int| 0 <= j < it.index() ==> self.is_marked(#[trigger] edges@[j]),
                    fuel >= g@.dom().difference(before.marked@.dom()).len(),
                    0 <= it.index() <= edges@.len(),
                    search_along(
                        g@,
                        self.marked@.dom(),
                        self.edge_to@,
                        v,
                        it.index() as nat,
                        fuel,
                    ) == search_along(g@, first.marked@.dom(), first.edge_to@, v, 0, fuel),
            {
                let ghost round = *self;
                let ghost i = it.index();
                proof {
                    assert(first.is_marked(v));
                    assert(*w == edges@[i]);
                    assert(edges@.contains(*w));
                }

                if let None = self.marked.get(w) {
                    self.edge_to.insert(*w, v);
                    let ghost ready = *self;
                    proof {
                        round.lemma_pointed(ready, v, *w);
                        g.lemma_finite();
                        before.lemma_fewer_unmarked(first, ready, v);
                    }
                    self.dfs(g, *w, Ghost((fuel - 1) as nat));
                    proof {
                        first.lemma_returned(round, ready, *self);
                        assert forall|j: int| 0 <= j < i + 1 implies self.is_marked(
                            #[trigger] edges@[j],
                        ) by {
                            if j < i {
                                assert(round.is_marked(edges@[j]));
                                assert(ready.is_marked(edges@[j]));
                            }
                        }
                    }
                }
            }
            proof {
                assert forall|x: T| #[trigger] edge(self.graph@, v, x) implies self.is_marked(
                    x,
                ) by {
                    let j = choose|j: int| 0 <= j < edges@.len() && edges@[j] == x;
                    assert(self.is_marked(edges@[j]));
                }
            }
        }
        proof {
            assert(self.finished(v));
            before.lemma_finished(first, *self, v);
        }
    }

    /// `v` can be searched from: it is not marked, and it is the source before
    /// any vertex is marked, or another vertex that a marked vertex has an
    /// edge to, which `edge_to` records.
    spec fn awaits(&self, v: T) -> bool {
        &&& !self.is_marked(v)
        &&& if v == self.s {
            self.marked@.dom() == Set::<T>::empty()
        } else {
            &&& self.edge_to@.contains_key(v)
            &&& self.is_marked(self.edge_to@[v])
            &&& edge(self.graph@, self.edge_to@[v], v)
        }
    }

    /// The search went on from `earlier` to `self`: on the same graph from
    /// the same source, and every vertex that was marked is marked still, at
    /// the depth and with the edge back that it had.
    spec fn goes_on_from(&self, earlier: Self) -> bool {
        &&& self.graph@ == earlier.graph@
        &&& self.s == earlier.s
        &&& forall|u: T| #[trigger]
            earlier.is_marked(u) ==> {
                &&& self.is_marked(u)
                &&& self.depth@[u] == earlier.depth@[u]
                &&& earlier.edge_to@.contains_key(u) ==> self.edge_to@.contains_key(u)
                    && self.edge_to@[u] == earlier.edge_to@[u]
            }
    }

    /// Every vertex that was marked since `earlier` is finished.
    spec fn finished_since(&self, earlier: Self) -> bool {
        forall|u: T| #[trigger] self.is_marked(u) && !earlier.is_marked(u) ==> self.finished(u)
    }

    /// Marking a vertex that awaited it keeps the tree.
    proof fn lemma_marked(self, first: Self, v: T)
        requires
            self.tree(),
            self.awaits(v),
            self.marked@.dom().finite(),
            first.marked@ == self.marked@.insert(v, true),
            first.depth@ == self.depth@.insert(
                v,
                if v == self.s {
                    0nat
                } else {
                    self.depth@[self.edge_to@[v]] + 1
                },
            ),
            first.edge_to@ == self.edge_to@,
            first.graph@ == self.graph@,
            first.s == self.s,
            first.count == self.count + 1,
        ensures
            first.tree(),
            first.goes_on_from(self),
            first.is_marked(v),
            first.finished_since(first),
    {
        assert(first.depth@.dom() =~= first.marked@.dom());
        assert(first.marked@.dom() =~= self.marked@.dom().insert(v));
        assert forall|u: T| #[trigger] first.is_marked(u) implies first.marked@[u] by {
            if u != v {
                assert(self.is_marked(u));
            }
        }
        assert forall|u: T| #[trigger] first.is_marked(u) && u != first.s implies {
            &&& first.edge_to@.contains_key(u)
            &&& first.is_marked(first.edge_to@[u])
            &&& edge(first.graph@, first.edge_to@[u], u)
            &&& first.depth@[u] == first.depth@[first.edge_to@[u]] + 1
        } by {
            if u != v {
                assert(self.is_marked(u));
                assert(self.is_marked(self.edge_to@[u]));
            } else {
                assert(self.is_marked(self.edge_to@[v]));
            }
        }
        assert forall|u: T| #[trigger] first.is_marked(u) implies first.is_marked(first.s) by {
            if u != v {
                assert(self.is_marked(u));
                assert(self.is_marked(self.s));
            } else if v != first.s {
                assert(self.is_marked(self.edge_to@[v]));
                assert(self.is_marked(self.s));
            }
        }
    }

    /// Recording the edge from a marked vertex `v` to a vertex `w` that is not
    /// marked keeps the tree, and `w` then awaits its search.
    proof fn lemma_pointed(self, ready: Self, v: T, w: T)
        requires
            self.tree(),
            self.is_marked(v),
            !self.is_marked(w),
            edge(self.graph@, v, w),
            ready.marked@ == self.marked@,
            ready.depth@ == self.depth@,
            ready.edge_to@ == self.edge_to@.insert(w, v),
            ready.graph@ == self.graph@,
            ready.s == self.s,
            ready.count == self.count,
        ensures
            ready.tree(),
            ready.goes_on_from(self),
            ready.awaits(w),
    {
        assert(self.is_marked(self.s));
        assert forall|u: T| #[trigger] ready.is_marked(u) implies ready.marked@[u] by {
            assert(self.is_marked(u));
        }
        assert forall|u: T| #[trigger] ready.is_marked(u) && u != ready.s implies {
            &&& ready.edge_to@.contains_key(u)
            &&& ready.is_marked(ready.edge_to@[u])
            &&& edge(ready.graph@, ready.edge_to@[u], u)
            &&& ready.depth@[u] == ready.depth@[ready.edge_to@[u]] + 1
        } by {
            assert(self.is_marked(u));
            assert(self.is_marked(self.edge_to@[u]));
        }
        assert forall|u: T| #[trigger] ready.is_marked(u) implies ready.is_marked(ready.s) by {}
        assert forall|u: T| #[trigger] self.is_marked(u) implies {
            &&& ready.is_marked(u)
            &&& ready.depth@[u] == self.depth@[u]
            &&& self.edge_to@.contains_key(u) ==> ready.edge_to@.contains_key(u)
                && ready.edge_to@[u] == self.edge_to@[u]
        } by {}
    }

    /// After the search from a neighbour returned, the search has gone on
    /// from where the loop over the neighbours began, and every vertex marked
    /// since then is finished.
    proof fn lemma_returned(self, round: Self, ready: Self, now: Self)
        requires
            round.goes_on_from(self),
            round.finished_since(self),
            ready.goes_on_from(round),
            ready.marked@ == round.marked@,
            now.goes_on_from(ready),
            now.finished_since(ready),
        ensures
            now.goes_on_from(self),
            now.finished_since(self),
    {
        assert forall|u: T| #[trigger] self.is_marked(u) implies {
            &&& now.is_marked(u)
            &&& now.depth@[u] == self.depth@[u]
            &&& self.edge_to@.contains_key(u) ==> now.edge_to@.contains_key(u) && now.edge_to@[u]
                == self.edge_to@[u]
        } by {
            assert(round.is_marked(u));
            assert(ready.is_marked(u));
        }
        assert forall|u: T| #[trigger] now.is_marked(u) && !self.is_marked(u) implies now.finished(
            u,
        ) by {
            if ready.is_marked(u) {
                assert(round.is_marked(u));
                assert(round.finished(u));
                assert forall|x: T| #[trigger] edge(now.graph@, u, x) implies now.is_marked(x) by {
                    assert(round.is_marked(x));
                    assert(ready.is_marked(x));
                }
            }
        }
    }

    /// With `v` finished, the search has gone on from before `v` was marked,
    /// and every vertex marked since then is finished.
    proof fn lemma_finished(self, first: Self, now: Self, v: T)
        requires
            !self.is_marked(v),
            first.goes_on_from(self),
            first.marked@.dom() == self.marked@.dom().insert(v),
            now.goes_on_from(first),
            now.finished_since(first),
            now.finished(v),
        ensures
            now.goes_on_from(self),
            now.finished_since(self),
    {
        assert forall|u: T| #[trigger] self.is_marked(u) implies {
            &&& now.is_marked(u)
            &&& now.depth@[u] == self.depth@[u]
            &&& self.edge_to@.contains_key(u) ==> now.edge_to@.contains_key(u) && now.edge_to@[u]
                == self.edge_to@[u]
        } by {
            assert(first.is_marked(u));
        }
        assert forall|u: T| #[trigger] now.is_marked(u) && !self.is_marked(u) implies now.finished(
            u,
        ) by {
            if u != v {
                assert(!first.is_marked(u));
            }
        }
    }

    /// With `v` marked since the search began, fewer vertices of the graph
    /// are unmarked than were then.
    proof fn lemma_fewer_unmarked(self, first: Self, ready: Self, v: T)
        requires
            self.graph@.dom().finite(),
            self.graph@.contains_key(v),
            !self.is_marked(v),
            first.is_marked(v),
            first.goes_on_from(self),
            ready.goes_on_from(first),
        ensures
            self.graph@.dom().difference(ready.marked@.dom()).len() < self.graph@.dom().difference(
                self.marked@.dom(),
            ).len(),
    {
        let vertices = self.graph@.dom();
        let a = vertices.difference(ready.marked@.dom());
        let b = vertices.difference(self.marked@.dom());
        assert forall|u: T| a.contains(u) implies b.remove(v).contains(u) by {
            if self.is_marked(u) {
                assert(first.is_marked(u));
            }
        }
        assert(a.subset_of(b.remove(v)));
        vstd::set_lib::lemma_len_subset(a, b.remove(v));
    }

    /// The search tree: a vertex has a parent exactly where it is not the
    /// source and can be reached from it, which is where it is not the source
    /// and was reached; the parent is the vertex that the search came from,
    /// it can be reached from the source too, and the graph has the edge from
    /// the parent to the vertex.
    pub proof fn lemma_parent(&self, v: T)
        requires
            self.wf(),
        ensures
            self.marked().contains(v) <==> reachable(self.graph(), self.source(), v),
            self.parent(v) is Some <==> v != self.source() && reachable(
                self.graph(),
                self.source(),
                v,
            ),
            self.parent(v) is Some ==> self.edge_to().contains_key(v) && self.parent(v) == Some(
                self.edge_to()[v],
            ),
            self.parent(v) is Some ==> edge(self.graph(), self.parent(v).unwrap(), v)
                && reachable(self.graph(), self.source(), self.parent(v).unwrap()),
    {
        if self.is_marked(v) {
            self.lemma_marked_reachable(v);
            if v != self.s {
                self.lemma_marked_reachable(self.edge_to@[v]);
            }
        }
        if reachable(self.graph@, self.s, v) {
            let path = choose|path: Seq<T>|
                is_path(self.graph@, path) && path.first() == self.s && path.last() == v;
            self.lemma_reachable_marked(path);
        }
    }

    /// Whether there is a path from the source to `v`.
    pub fn has_path_to(&self, v: T) -> (r: bool)
        requires
            self.wf(),
            vertex_model::<T>(),
        ensures
            r == reachable(self.graph(), self.source(), v),
    {
        broadcast use vstd::std_specs::hash::group_hash_axioms;

        proof {
            if self.is_marked(v) {
                self.lemma_marked_reachable(v);
            }
            if reachable(self.graph@, self.s, v) {
                let path = choose|path: Seq<T>|
                    is_path(self.graph@, path) && path.first() == self.s && path.last() == v;
                self.lemma_reachable_marked(path);
            }
        }
        match self.marked.get(&v) {
            Some(mark) => *mark,
            None => false,
        }
    }

    /// The path from the source to `v` that the search took: each vertex on
    /// it but the source follows its parent in the search tree, and no vertex
    /// is on it twice.
    pub fn path_to(&self, v: T) -> (res: Vec<T>)
        requires
            self.wf(),
            vertex_model::<T>(),
            reachable(self.graph(), self.source(), v),
        ensures
            is_path(self.graph(), res@),
            res@.first() == self.source(),
            res@.last() == v,
            forall|i: int|
                0 < i < res@.len() ==> self.parent(#[trigger] res@[i]) == Some(res@[i - 1]),
            res@.no_duplicates(),
    {
        broadcast use vstd::std_specs::hash::group_hash_axioms;

        let mut res = Vec::new();
        let mut path = Vec::new();
        let mut x = v;
        proof {
            let walk = choose|walk: Seq<T>|
                is_path(self.graph@, walk) && walk.first() == self.s && walk.last() == v;
            self.lemma_reachable_marked(walk);
        }

        while differs(&x, &self.s)
            invariant
                vertex_model::<T>(),
                self.tree(),
                self.is_marked(x),
                path@.len() == 0 ==> x == v,
                path@.len() > 0 ==> path@.first() == v && edge(self.graph@, x, path@.last()),
                forall|i: int|
                    0 <= i < path@.len() - 1 ==> edge(
                        self.graph@,
                        path@[i + 1],
                        #[trigger] path@[i],
                    ),
                forall|i: int|
                    0 <= i < path@.len() ==> self.parent(#[trigger] path@[i]) == Some(
                        if i + 1 < path@.len() {
                            path@[i + 1]
                        } else {
                            x
                        },
                    ),
                forall|i: int|
                    0 <= i < path@.len() ==> self.depth@[#[trigger] path@[i]] + i
                        == self.depth@[v],
                self.depth@[x] + path@.len() == self.depth@[v],
            decreases self.depth@[x],
        {
            path.push(x);

            if let Some(w) = self.edge_to.get(&x) {
                x = *w;
            }
        }

        path.push(self.s);
        proof {
            assert(path@.first() == v);
        }
        let ghost far = self.depth@[v];

        for v in it: path.iter().rev()
            invariant
                it.seq() == path@.map_values(|v: T| &v).reverse(),
                res@.len() == it.index(),
                forall|j: int| 0 <= j < res@.len() ==> res@[j] == path@[path.len() - 1 - j],
        {
            res.push(*v);
        }
        proof {
            assert forall|j: int| 0 <= j < res@.len() - 1 implies edge(
                self.graph@,
                #[trigger] res@[j],
                res@[j + 1],
            ) by {
                let k = path.len() - 2 - j;
                assert(edge(self.graph@, path@[k + 1], path@[k]));
            }
            assert forall|j: int| 0 < j < res@.len() implies self.parent(#[trigger] res@[j])
                == Some(res@[j - 1]) by {
                let k = path.len() - 1 - j;
                assert(self.parent(path@[k]) == Some(path@[k + 1]));
            }
            assert forall|i: int, j: int| 0 <= i < j < res@.len() implies res@[i] != res@[j] by {
                assert(self.depth@[path@[path.len() - 1 - i]] + (path.len() - 1 - i) == far);
                assert(self.depth@[path@[path.len() - 1 - j]] + (path.len() - 1 - j) == far);
            }
        }

        res
    }

    /// Every marked vertex can be reached from the source.
    proof fn lemma_marked_reachable(&self, v: T)
        requires
            self.tree(),
            self.is_marked(v),
        ensures
            reachable(self.graph@, self.s, v),
        decreases self.depth@[v],
    {
        if v == self.s {
            let path = seq![v];
            assert(is_path(self.graph@, path) && path.first() == self.s && path.last() == v);
        } else {
            let parent = self.edge_to@[v];
            self.lemma_marked_reachable(parent);
            let walk = choose|walk: Seq<T>|
                is_path(self.graph@, walk) && walk.first() == self.s && walk.last() == parent;
            let path = walk.push(v);
            assert forall|i: int| 0 <= i < path.len() - 1 implies edge(
                self.graph@,
                #[trigger] path[i],
                path[i + 1],
            ) by {
                if i < walk.len() - 1 {
                    assert(edge(self.graph@, walk[i], walk[i + 1]));
                }
            }
            assert(is_path(self.graph@, path) && path.first() == self.s && path.last() == v);
        }
    }

    /// Every vertex at the end of a walk from the source is marked, once the
    /// search is over.
    proof fn lemma_reachable_marked(&self, path: Seq<T>)
        requires
            self.wf(),
            is_path(self.graph@, path),
            path.first() == self.s,
        ensures
            self.is_marked(path.last()),
        decreases path.len(),
    {
        if path.len() > 1 {
            let shorter = path.drop_last();
            assert forall|i: int| 0 <= i < shorter.len() - 1 implies edge(
                self.graph@,
                #[trigger] shorter[i],
                shorter[i + 1],
            ) by {
                assert(edge(self.graph@, path[i], path[i + 1]));
            }
            self.lemma_reachable_marked(shorter);
            let last = path.len() - 2;
            assert(edge(self.graph@, path[last], path[last + 1]));
            assert(self.finished(shorter.last()));
        }
    }
}

/// `a != b`, as the vertex type has it.
fn differs<T: Eq>(a: &T, b: &T) -> (r: bool)
    ensures
        vertex_model::<T>() ==> r == (*a != *b),
{
    *a != *b
}

/// The number of marked vertices fits the counter.
proof fn lemma_marked_fits<T>(marked: &HashMap<T, bool>)
    requires
        vstd::std_specs::hash::obeys_key_model::<T>(),
    ensures
        marked@.dom().len() <= usize::MAX,
        marked@.dom().finite(),
{
    broadcast use vstd::std_specs::hash::group_hash_axioms;

    assert(marked@.len() == vstd::std_specs::hash::spec_hash_map_len(marked));
}

} // verus!
