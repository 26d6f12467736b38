//! Mathematical model of a directed graph: root set, edge relation, walks,
//! reachability and strong connectivity.

use vstd::prelude::*;
use std::hash::Hash;

verus! {

/// A directed graph given by the vertices its enumeration starts from and by
/// its edge relation.
///
/// The vertex set is not stored: it consists of everything reachable from a
/// root (see [`Digraph::vertices`]).
#[verifier::reject_recursive_types(V)]
pub struct Digraph<V> {
    /// Vertices the graph enumerates.
    pub roots: Set<V>,
    /// Pairs `(u, v)` such that there is an edge from `u` to `v`.
    pub edges: Set<(V, V)>,
}

impl<V> Digraph<V> {
    /// There is an edge from `u` to `v`.
    pub open spec fn has_edge(self, u: V, v: V) -> bool {
        self.edges.contains((u, v))
    }

    /// The set of direct successors of `u`.
    pub open spec fn successors(self, u: V) -> Set<V> {
        Set::new(|v: V| self.has_edge(u, v))
    }

    /// There is an edge from the vertex at position `k` of `p` to the next.
    pub open spec fn edge_at(self, p: Seq<V>, k: int) -> bool {
        self.has_edge(p[k], p[k + 1])
    }

    /// `p` is a non-empty sequence of vertices in which every vertex has an
    /// edge to the next one.
    pub open spec fn is_walk(self, p: Seq<V>) -> bool {
        &&& p.len() > 0
        &&& forall|k: int| 0 <= k < p.len() - 1 ==> #[trigger] self.edge_at(p, k)
    }

    /// `p` is a walk that starts at `u` and ends at `v`.
    pub open spec fn walk_between(self, p: Seq<V>, u: V, v: V) -> bool {
        self.is_walk(p) && p.first() == u && p.last() == v
    }

    /// `v` can be reached from `u` by following zero or more edges.
    #[verifier::opaque]
    pub open spec fn reaches(self, u: V, v: V) -> bool {
        exists|p: Seq<V>| self.walk_between(p, u, v)
    }

    /// `u` and `v` can each be reached from the other.
    pub open spec fn strongly_connected(self, u: V, v: V) -> bool {
        self.reaches(u, v) && self.reaches(v, u)
    }

    /// `v` can be reached from some root.
    #[verifier::opaque]
    pub open spec fn discovers(self, v: V) -> bool {
        exists|r: V| self.roots.contains(r) && self.reaches(r, v)
    }

    /// The vertex set of the graph: everything reachable from a root.
    pub open spec fn vertices(self) -> Set<V> {
        Set::new(|v: V| self.discovers(v))
    }

    /// No edge leaves the set `s`.
    pub open spec fn closed(self, s: Set<V>) -> bool {
        forall|u: V, w: V| s.contains(u) && #[trigger] self.has_edge(u, w) ==> s.contains(w)
    }

    /// Every vertex reaches itself.
    pub proof fn lemma_reaches_refl(self, u: V)
        ensures
            self.reaches(u, u),
    {
        reveal(Digraph::reaches);
        assert(self.walk_between(seq![u], u, u));
    }

    /// An edge is a walk of two vertices.
    pub proof fn lemma_reaches_edge(self, u: V, v: V)
        requires
            self.has_edge(u, v),
        ensures
            self.reaches(u, v),
    {
        reveal(Digraph::reaches);
        let p = seq![u, v];
        assert forall|k: int| 0 <= k < p.len() - 1 implies #[trigger] self.edge_at(p, k) by {
            assert(p[0] == u && p[1] == v);
        }
        assert(self.walk_between(p, u, v));
    }

    /// Reachability is transitive.
    pub proof fn lemma_reaches_trans(self, u: V, v: V, w: V)
        requires
            self.reaches(u, v),
            self.reaches(v, w),
        ensures
            self.reaches(u, w),
    {
        reveal(Digraph::reaches);
        let p = choose|p: Seq<V>| self.walk_between(p, u, v);
        let q = choose|q: Seq<V>| self.walk_between(q, v, w);
        let r = p + q.drop_first();
        assert forall|k: int| 0 <= k < r.len() - 1 implies #[trigger] self.edge_at(r, k) by {
            if k < p.len() - 1 {
                assert(self.edge_at(p, k));
            } else {
                let j = k - (p.len() - 1);
                assert(self.edge_at(q, j));
            }
        }
        assert(self.walk_between(r, u, w));
    }

    /// Following one edge and then a walk is a walk.
    pub proof fn lemma_reaches_step(self, u: V, v: V, w: V)
        requires
            self.has_edge(u, v),
            self.reaches(v, w),
        ensures
            self.reaches(u, w),
    {
        self.lemma_reaches_edge(u, v);
        self.lemma_reaches_trans(u, v, w);
    }

    /// Strong connectivity is an equivalence relation: it is reflexive,
    /// symmetric by definition, and transitive.
    pub proof fn lemma_strongly_connected_trans(self, u: V, v: V, w: V)
        requires
            self.strongly_connected(u, v),
            self.strongly_connected(v, w),
        ensures
            self.strongly_connected(u, w),
    {
        self.lemma_reaches_trans(u, v, w);
        self.lemma_reaches_trans(w, v, u);
    }

    /// A walk that starts inside a closed set stays inside it.
    pub proof fn lemma_walk_stays_in_closed(self, s: Set<V>, p: Seq<V>, k: int)
        requires
            self.closed(s),
            self.is_walk(p),
            s.contains(p[0]),
            0 <= k < p.len(),
        ensures
            s.contains(p[k]),
        decreases k,
    {
        if k > 0 {
            self.lemma_walk_stays_in_closed(s, p, k - 1);
            assert(self.edge_at(p, k - 1));
        }
    }

    /// Whatever is reachable from a member of a closed set belongs to it.
    pub proof fn lemma_closed_contains_reachable(self, s: Set<V>, u: V, w: V)
        requires
            self.closed(s),
            s.contains(u),
            self.reaches(u, w),
        ensures
            s.contains(w),
    {
        reveal(Digraph::reaches);
        let p = choose|p: Seq<V>| self.walk_between(p, u, w);
        self.lemma_walk_stays_in_closed(s, p, p.len() - 1);
    }

    /// A walk between two different vertices starts with an edge.
    pub proof fn lemma_first_edge(self, u: V, w: V) -> (x: V)
        requires
            self.reaches(u, w),
            u != w,
        ensures
            self.has_edge(u, x),
            self.reaches(x, w),
    {
        reveal(Digraph::reaches);
        let p = choose|p: Seq<V>| self.walk_between(p, u, w);
        assert(self.edge_at(p, 0));
        let q = p.drop_first();
        assert forall|k: int| 0 <= k < q.len() - 1 implies #[trigger] self.edge_at(q, k) by {
            assert(self.edge_at(p, k + 1));
        }
        assert(self.walk_between(q, p[1], w));
        p[1]
    }

    /// Everything reachable from a vertex of the graph is a vertex of the
    /// graph, so the vertex set is closed.
    pub proof fn lemma_vertices_closed(self)
        ensures
            self.closed(self.vertices()),
    {
        assert forall|u: V, w: V| self.vertices().contains(u) && #[trigger] self.has_edge(
            u,
            w,
        ) implies self.vertices().contains(w) by {
            reveal(Digraph::discovers);
            let r = choose|r: V| self.roots.contains(r) && self.reaches(r, u);
            self.lemma_reaches_edge(u, w);
            self.lemma_reaches_trans(r, u, w);
        }
    }

    /// A closed set that holds the roots holds every vertex of the graph.
    pub proof fn lemma_vertices_in_closed(self, s: Set<V>, v: V)
        requires
            self.closed(s),
            self.roots.subset_of(s),
            self.discovers(v),
        ensures
            s.contains(v),
    {
        reveal(Digraph::discovers);
        let r = choose|r: V| self.roots.contains(r) && self.reaches(r, v);
        self.lemma_closed_contains_reachable(s, r, v);
    }

    /// Every root is a vertex of the graph.
    pub proof fn lemma_root_is_vertex(self, r: V)
        requires
            self.roots.contains(r),
        ensures
            self.discovers(r),
    {
        reveal(Digraph::discovers);
        self.lemma_reaches_refl(r);
    }
}

/// Graph on which strongly connected components can be computed.
pub trait Scc {
    /// Graph vertex reference type.
    type Vertex: Copy + Eq + Hash;

    /// The graph as a mathematical value.
    ///
    /// An implementation that is not verified may leave this out, and the
    /// other specification functions with it.
    open spec fn model(&self) -> Digraph<Self::Vertex> {
        Digraph { roots: Set::empty(), edges: Set::empty() }
    }

    /// The graph is in a state in which it can be traversed, and `model`
    /// describes it.
    open spec fn wf(&self) -> bool {
        false
    }

    /// The vertices that the graph enumerates, in the order in which
    /// `vertices` returns them.
    open spec fn vertex_list(&self) -> Seq<Self::Vertex> {
        Seq::empty()
    }

    /// The successors of `v`, in the order in which `successors` returns
    /// them.
    open spec fn successor_list(&self, v: Self::Vertex) -> Seq<Self::Vertex> {
        Seq::empty()
    }

    /// Returns the vertices that the graph enumerates.
    fn vertices(&self) -> (r: Vec<Self::Vertex>)
        requires
            self.wf(),
        ensures
            r@ == self.vertex_list(),
            forall|v: Self::Vertex| r@.contains(v) <==> self.model().roots.contains(v),
    ;

    /// Returns the successors of the given vertex, which must be a vertex of
    /// the graph.
    fn successors(&self, v: Self::Vertex) -> (r: Vec<Self::Vertex>)
        requires
            self.wf(),
            self.model().discovers(v),
        ensures
            r@ == self.successor_list(v),
            forall|w: Self::Vertex| r@.contains(w) <==> self.model().has_edge(v, w),
    ;
}

} // verus!
