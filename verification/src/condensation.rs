//! Mathematical model of a decomposition of a graph into strongly connected
//! components, together with the edges between the components.

use vstd::prelude::*;
use crate::dag::{acyclic, connects, depth_of, descending, in_range, is_depth, leads_to, lemma_depth_exists, lemma_depth_is_depth_of, lemma_depth_law, lemma_descending_acyclic};
use crate::graph::Digraph;
use crate::order::{lemma_order_unique, ordered_by_key};

verus! {

/// Components of a graph, the component of each vertex, and for each
/// component the components that its edges lead to.
#[verifier::reject_recursive_types(V)]
pub struct Condensation<V> {
    /// The vertices of each component.
    pub list: Seq<Seq<V>>,
    /// The index in `list` of the component of each vertex.
    pub index: Map<V, usize>,
    /// For each component, the indices of the components (possibly itself)
    /// that an edge leads to from one of its vertices.
    pub successors: Seq<Set<usize>>,
}

impl<V> Condensation<V> {
    /// The number of components.
    pub open spec fn len(self) -> nat {
        self.list.len()
    }

    /// The components can be counted in a `usize`; they are non-empty and
    /// list every vertex of the map once, under the index that the map gives;
    /// no successor of a component comes later in the list than the
    /// component itself.
    pub open spec fn wf(self) -> bool {
        &&& self.list.len() <= usize::MAX
        &&& self.successors.len() == self.list.len()
        &&& forall|c: int|
            0 <= c < self.list.len() ==> (#[trigger] self.list[c]).len() > 0
                && self.list[c].no_duplicates()
        &&& forall|v: V| #[trigger]
            self.index.contains_key(v) ==> self.index[v] < self.list.len()
                && self.list[self.index[v] as int].contains(v)
        &&& forall|c: int, k: int|
            0 <= c < self.list.len() && 0 <= k < self.list[c].len() ==> self.index.contains_key(
                #[trigger] self.list[c][k],
            ) && self.index[self.list[c][k]] == c
        &&& descending(self.successors)
    }

    /// Component `i` is among its own successors.
    pub open spec fn is_cyclic(self, i: int) -> bool {
        self.successors[i].contains(i as usize)
    }

    /// Component `i` is a successor of component `j`.
    pub open spec fn has_predecessor(self, i: int, j: int) -> bool {
        0 <= j < self.successors.len() && self.successors[j].contains(i as usize)
    }

    /// `d` is the depth of component `i`: the number of edges of the longest
    /// path that leads to it along successors, edges from a component to
    /// itself left aside.
    pub open spec fn depth_is(self, i: int, d: int) -> bool {
        is_depth(self.successors, i as usize, d)
    }

    /// Component `k` is a successor of component `i` that no other successor
    /// of `i` leads to.
    pub open spec fn is_direct_successor(self, i: int, k: usize) -> bool {
        &&& self.successors[i].contains(k)
        &&& forall|j: usize|
            self.successors[i].contains(j) && j != i ==> !#[trigger] connects(self.successors, j, k)
    }

    /// The successors of component `i` that no other successor of `i` leads
    /// to.
    pub open spec fn direct_successors(self, i: int) -> Set<usize> {
        Set::new(|k: usize| self.is_direct_successor(i, k))
    }

    /// The depth of component `i`.
    pub open spec fn depth(self, i: int) -> int {
        depth_of(self.successors, i as usize)
    }

    /// The depth of each component.
    pub open spec fn depths(self) -> Seq<usize> {
        Seq::new(self.len(), |i: int| self.depth(i) as usize)
    }

    /// `order` lists the indices of the components, each once, by increasing
    /// depth, and by increasing index among components of equal depth.
    pub open spec fn sorted_by_depth(self, order: Seq<usize>) -> bool {
        ordered_by_key(self.depths(), order)
    }

    /// Some edge leads from a vertex of component `i` to a vertex of
    /// component `j`.
    pub open spec fn has_edge_between(self, g: Digraph<V>, i: int, j: int) -> bool {
        exists|u: V, w: V|
            self.index.contains_key(u) && self.index[u] == i && #[trigger] g.has_edge(u, w)
                && self.index.contains_key(w) && self.index[w] == j
    }

    /// This is the decomposition of `g`: it covers exactly the vertices of
    /// `g`, two vertices share a component if and only if each can be reached
    /// from the other, and the successors of a component are the components
    /// that an edge of `g` leads to from it.
    pub open spec fn decomposes(self, g: Digraph<V>) -> bool {
        &&& forall|v: V| self.index.contains_key(v) <==> g.discovers(v)
        &&& forall|u: V, w: V|
            self.index.contains_key(u) ==> (#[trigger] g.strongly_connected(u, w)
                <==> self.index.contains_key(w) && self.index[w] == self.index[u])
        &&& forall|i: int, j: usize|
            0 <= i < self.successors.len() ==> (#[trigger] self.successors[i].contains(j)
                <==> self.has_edge_between(g, i, j as int))
    }

    /// The components partition the vertices of the graph: every vertex of
    /// the graph stands in a component, only vertices of the graph do, and
    /// none stands at two places.
    pub proof fn lemma_partition(self, g: Digraph<V>)
        requires
            self.wf(),
            self.decomposes(g),
        ensures
            forall|v: V|
                g.discovers(v) <==> exists|c: int, k: int|
                    0 <= c < self.list.len() && 0 <= k < self.list[c].len() && #[trigger] self.list[c][k]
                        == v,
            forall|c1: int, k1: int, c2: int, k2: int|
                0 <= c1 < self.list.len() && 0 <= k1 < self.list[c1].len() && 0 <= c2
                    < self.list.len() && 0 <= k2 < self.list[c2].len() && #[trigger] self.list[c1][k1]
                    == #[trigger] self.list[c2][k2] ==> c1 == c2 && k1 == k2,
    {
        assert forall|v: V| g.discovers(v) implies exists|c: int, k: int|
            0 <= c < self.list.len() && 0 <= k < self.list[c].len() && #[trigger] self.list[c][k]
                == v by {
            assert(self.index.contains_key(v));
            let c = self.index[v] as int;
            let k = choose|k: int| 0 <= k < self.list[c].len() && self.list[c][k] == v;
            assert(self.list[c][k] == v);
        }
        assert forall|v: V|
            (exists|c: int, k: int|
                0 <= c < self.list.len() && 0 <= k < self.list[c].len() && #[trigger] self.list[c][k]
                    == v) implies g.discovers(v) by {
            let (c, k) = choose|c: int, k: int|
                0 <= c < self.list.len() && 0 <= k < self.list[c].len() && #[trigger] self.list[c][k]
                    == v;
            assert(self.index.contains_key(self.list[c][k]));
        }
        assert forall|c1: int, k1: int, c2: int, k2: int|
            0 <= c1 < self.list.len() && 0 <= k1 < self.list[c1].len() && 0 <= c2 < self.list.len()
                && 0 <= k2 < self.list[c2].len() && #[trigger] self.list[c1][k1]
                == #[trigger] self.list[c2][k2] implies c1 == c2 && k1 == k2 by {
            assert(self.index[self.list[c1][k1]] == c1);
            assert(self.index[self.list[c2][k2]] == c2);
        }
    }

    /// Two vertices of the graph share a component if and only if each can
    /// be reached from the other: within a component every vertex reaches
    /// every other, and between two components at most one direction is
    /// open.
    pub proof fn lemma_mutual_reachability(self, g: Digraph<V>, u: V, w: V)
        requires
            self.wf(),
            self.decomposes(g),
            g.discovers(u),
            g.discovers(w),
        ensures
            self.index[u] == self.index[w] ==> g.reaches(u, w) && g.reaches(w, u),
            self.index[u] != self.index[w] ==> !(g.reaches(u, w) && g.reaches(w, u)),
    {
        assert(self.index.contains_key(u) && self.index.contains_key(w));
        assert(g.strongly_connected(u, w) <==> self.index.contains_key(w) && self.index[w]
            == self.index[u]);
    }

    /// Edges from a component to itself left aside, the edges between the
    /// components form no cycle.
    pub proof fn lemma_acyclic(self)
        requires
            self.wf(),
        ensures
            in_range(self.successors),
            acyclic(self.successors),
    {
        lemma_descending_acyclic(self.successors);
    }

    /// A component is cyclic if and only if it has more than one vertex, or
    /// its single vertex has an edge to itself.
    pub proof fn lemma_cyclic(self, g: Digraph<V>, i: int)
        requires
            self.wf(),
            self.decomposes(g),
            0 <= i < self.len(),
        ensures
            self.is_cyclic(i) <==> self.list[i].len() > 1 || g.has_edge(
                self.list[i][0],
                self.list[i][0],
            ),
    {
        let u = self.list[i][0];
        assert(self.index.contains_key(self.list[i][0]) && self.index[u] == i);
        assert(self.successors[i].contains(i as usize) <==> self.has_edge_between(g, i, i));
        if self.list[i].len() > 1 {
            let w = self.list[i][1];
            assert(self.index.contains_key(self.list[i][1]) && self.index[w] == i);
            assert(g.strongly_connected(u, w));
            let x = g.lemma_first_edge(u, w);
            g.lemma_reaches_edge(u, x);
            g.lemma_reaches_trans(x, w, u);
            assert(g.strongly_connected(u, x));
            assert(self.index.contains_key(u) && self.index[u] == i && g.has_edge(u, x)
                && self.index.contains_key(x) && self.index[x] == i);
        } else if g.has_edge(u, u) {
            assert(self.index.contains_key(u) && self.index[u] == i && g.has_edge(u, u)
                && self.index.contains_key(u) && self.index[u] == i);
        } else if self.has_edge_between(g, i, i) {
            let (a, b) = choose|a: V, b: V|
                self.index.contains_key(a) && self.index[a] == i && #[trigger] g.has_edge(a, b)
                    && self.index.contains_key(b) && self.index[b] == i;
            assert(self.list[i].contains(a) && self.list[i].contains(b));
            let ka = choose|k: int| 0 <= k < self.list[i].len() && self.list[i][k] == a;
            let kb = choose|k: int| 0 <= k < self.list[i].len() && self.list[i][k] == b;
        }
    }

    /// Every component has a depth, which is smaller than the number of
    /// components.
    pub proof fn lemma_depth(self, i: int)
        requires
            self.wf(),
            0 <= i < self.len(),
        ensures
            self.depth_is(i, self.depth(i)),
            0 <= self.depth(i) < self.len(),
            self.depths()[i] == self.depth(i),
    {
        lemma_descending_acyclic(self.successors);
        lemma_depth_exists(self.successors, i as usize);
    }

    /// A component has one depth only.
    pub proof fn lemma_depth_determined(self, i: int, d: int)
        requires
            self.depth_is(i, d),
        ensures
            d == self.depth(i),
    {
        lemma_depth_is_depth_of(self.successors, i as usize, d);
    }

    /// The depth of a component is 0 if and only if it is a successor of no
    /// other component; otherwise it is one more than the greatest depth of
    /// another component of which it is a successor.
    pub proof fn lemma_depth_law(self, i: int)
        requires
            self.wf(),
            0 <= i < self.len(),
        ensures
            self.depth(i) == 0 <==> forall|j: int| self.has_predecessor(i, j) ==> j == i,
            forall|j: int| self.has_predecessor(i, j) && j != i ==> self.depth(j) + 1 <= self.depth(i),
            self.depth(i) > 0 ==> exists|j: int|
                self.has_predecessor(i, j) && j != i && self.depth(j) + 1 == self.depth(i),
    {
        let adj = self.successors;
        let d = self.depth(i);
        self.lemma_depth(i);
        lemma_depth_law(adj, i as usize, d);
        assert forall|j: int| self.has_predecessor(i, j) && j != i implies self.depth(j) + 1
            <= self.depth(i) by {
            self.lemma_depth(j);
            assert(leads_to(adj, j as usize, i as usize));
        }
        if d > 0 {
            let j = choose|j: usize| #[trigger] leads_to(adj, j, i as usize) && is_depth(adj, j, d - 1);
            lemma_depth_is_depth_of(adj, j, d - 1);
            assert(self.has_predecessor(i, j as int) && j != i && self.depth(j as int) + 1 == d);
        } else {
            assert forall|j: int| self.has_predecessor(i, j) implies j == i by {
                if j != i {
                    assert(leads_to(adj, j as usize, i as usize));
                }
            }
        }
        if forall|j: int| self.has_predecessor(i, j) ==> j == i {
            if d > 0 {
                let j = choose|j: usize| #[trigger] leads_to(adj, j, i as usize) && is_depth(adj, j, d - 1);
                assert(self.has_predecessor(i, j as int));
            }
        }
    }

    /// The list of the components settles the rest of a decomposition: two
    /// decompositions of a graph with the same list are the same.
    pub proof fn lemma_list_determines(self, other: Condensation<V>, g: Digraph<V>)
        requires
            self.wf(),
            other.wf(),
            self.decomposes(g),
            other.decomposes(g),
            self.list == other.list,
        ensures
            self == other,
    {
        assert forall|v: V| self.index.contains_key(v) implies #[trigger] self.index[v]
            == other.index[v] by {
            assert(other.index.contains_key(v));
            let c = other.index[v] as int;
            let k = choose|k: int| 0 <= k < other.list[c].len() && other.list[c][k] == v;
            assert(self.index[self.list[c][k]] == c);
        }
        assert(self.index =~= other.index);
        assert forall|i: int| 0 <= i < self.successors.len() implies #[trigger] self.successors[i]
            =~= other.successors[i] by {
            assert forall|j: usize| self.successors[i].contains(j) == other.successors[i].contains(
                j,
            ) by {
                assert(self.has_edge_between(g, i, j as int) == other.has_edge_between(
                    g,
                    i,
                    j as int,
                ));
            }
        }
        assert(self.successors =~= other.successors);
    }

    /// There is one way only to order the components by depth.
    pub proof fn lemma_order_determined(self, first: Seq<usize>, second: Seq<usize>)
        requires
            self.sorted_by_depth(first),
            self.sorted_by_depth(second),
        ensures
            first == second,
    {
        lemma_order_unique(self.depths(), first, second);
    }
}

} // verus!
