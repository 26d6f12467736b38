//! Adjacency lists and adjacency maps as graphs.

use vstd::prelude::*;
use std::collections::{HashMap, HashSet};
use std::hash::Hash;
use vstd::std_specs::hash::obeys_key_model;
use vstd::std_specs::iter::IteratorSpec;
use crate::dag::{below, lemma_below_finite};
use crate::graph::{Digraph, Scc};

verus! {

/// Copies the elements of a set into a vector, in the order in which the
/// set hands them out.
fn elements<T: Copy + Eq + Hash>(set: &HashSet<T>) -> (all: Vec<T>)
    requires
        obeys_key_model::<T>(),
    ensures
        all@ == vstd::std_specs::hash::into_iter_hash_keys(set.iter()),
        all@.no_duplicates(),
        forall|x: T| all@.contains(x) <==> set@.contains(x),
{
    let mut all: Vec<T> = Vec::new();
    for x in it: set.iter()
        invariant
            it.seq() == set.iter().remaining(),
            all.len() == it.index(),
            forall|t: int| 0 <= t < it.index() ==> #[trigger] all@[t] == *it.seq()[t],
    {
        all.push(*x);
    }
    proof {
        let listed = set.iter().remaining();
        assert(all@ =~= listed.unref());
        assert forall|a: int, b: int| 0 <= a < all.len() && 0 <= b < all.len() && a != b implies all@[a]
            != all@[b] by {
            assert(listed[a] != listed[b]);
        }
    }
    all
}

/// The graph whose vertices are the positions of the vector, in which the
/// edges of vertex `v` lead to the members of the set at position `v`.
impl Scc for Vec<HashSet<usize>> {
    type Vertex = usize;

    /// The roots are all positions; the edges lead from a position to the
    /// members of its set.
    open spec fn model(&self) -> Digraph<usize> {
        Digraph {
            roots: below(self.len() as nat),
            edges: Set::new(|e: (usize, usize)| e.0 < self.len() && self@[e.0 as int]@.contains(e.1)),
        }
    }

    /// Every member of every set is a position of the vector.
    open spec fn wf(&self) -> bool {
        forall|v: int, w: usize| 0 <= v < self.len() && #[trigger] self@[v]@.contains(w) ==> w < self.len()
    }

    /// The positions of the vector in increasing order.
    open spec fn vertex_list(&self) -> Seq<usize> {
        Seq::new(self.len() as nat, |i: int| i as usize)
    }

    /// The members of the set at position `v`, in the order in which the set
    /// hands them out.
    open spec fn successor_list(&self, v: usize) -> Seq<usize> {
        vstd::std_specs::hash::into_iter_hash_keys(self@[v as int].iter())
    }

    /// Returns the positions of the vector in increasing order.
    fn vertices(&self) -> (r: Vec<usize>) {
        let mut r: Vec<usize> = Vec::new();
        let mut v: usize = 0;
        while v < self.len()
            invariant
                v <= self.len(),
                r.len() == v,
                forall|k: int| 0 <= k < v ==> #[trigger] r@[k] == k,
            decreases self.len() - v,
        {
            r.push(v);
            v += 1;
        }
        proof {
            assert forall|x: usize| self.model().roots.contains(x) implies r@.contains(x) by {
                assert(r@[x as int] == x);
            }
            assert(r@ =~= Seq::new(self.len() as nat, |i: int| i as usize));
        }
        r
    }

    /// Returns the members of the set at position `v`, each once, in the
    /// order in which the set hands them out.
    fn successors(&self, v: usize) -> (r: Vec<usize>)
        ensures
            r@.no_duplicates(),
    {
        proof {
            lemma_list_vertices(self, v);
        }
        elements(&self[v])
    }
}

/// The vertices of a well-formed adjacency list are positions of the list.
pub proof fn lemma_list_vertices(list: &Vec<HashSet<usize>>, v: usize)
    requires
        list.wf(),
        list.model().discovers(v),
    ensures
        v < list.len(),
{
    let g = list.model();
    let s = below(list.len() as nat);
    assert(g.closed(s));
    g.lemma_vertices_in_closed(s, v);
}

/// A well-formed adjacency list has finitely many vertices.
pub proof fn lemma_list_finite(list: &Vec<HashSet<usize>>)
    requires
        list.wf(),
    ensures
        list.model().vertices().finite(),
{
    let s = below(list.len() as nat);
    lemma_below_finite(list.len() as nat);
    assert forall|v: usize| list.model().vertices().contains(v) implies s.contains(v) by {
        lemma_list_vertices(list, v);
    }
    vstd::set_lib::lemma_set_subset_finite(s, list.model().vertices());
}

/// The graph whose vertices are the keys of the map, in which the edges of
/// a vertex lead to the members of its set.
impl<T: Copy + Eq + Hash> Scc for HashMap<T, HashSet<T>> {
    type Vertex = T;

    /// The roots are all keys; the edges lead from a key to the members of
    /// its set.
    open spec fn model(&self) -> Digraph<T> {
        Digraph {
            roots: self@.dom(),
            edges: Set::new(|e: (T, T)| self@.contains_key(e.0) && self@[e.0]@.contains(e.1)),
        }
    }

    /// The vertex type can be used as a key, and every member of every set
    /// is a key of the map.
    open spec fn wf(&self) -> bool {
        &&& obeys_key_model::<T>()
        &&& forall|v: T, w: T|
            self@.contains_key(v) && #[trigger] self@[v]@.contains(w) ==> self@.contains_key(w)
    }

    /// The keys of the map, in the order in which the map hands them out.
    open spec fn vertex_list(&self) -> Seq<T> {
        vstd::std_specs::hash::into_iter_keys(self.keys())
    }

    /// The members of the set of the key `v`, in the order in which the set
    /// hands them out.
    open spec fn successor_list(&self, v: T) -> Seq<T> {
        vstd::std_specs::hash::into_iter_hash_keys(self@[v].iter())
    }

    /// Returns the keys of the map, each once, in the order in which the map
    /// hands them out.
    fn vertices(&self) -> (r: Vec<T>)
        ensures
            r@.no_duplicates(),
    {
        let mut r: Vec<T> = Vec::new();
        for v in it: self.keys()
            invariant
                it.seq() == self.keys().remaining(),
                r.len() == it.index(),
                forall|t: int| 0 <= t < it.index() ==> #[trigger] r@[t] == *it.seq()[t],
        {
            r.push(*v);
        }
        proof {
            let listed = self.keys().remaining();
            assert(r@ =~= listed.unref());
            assert forall|a: int, b: int| 0 <= a < r.len() && 0 <= b < r.len() && a != b implies r@[a]
                != r@[b] by {
                assert(listed[a] != listed[b]);
            }
        }
        r
    }

    /// Returns the members of the set of the key `v`, each once, in the
    /// order in which the set hands them out.
    fn successors(&self, v: T) -> (r: Vec<T>)
        ensures
            r@.no_duplicates(),
    {
        proof {
            lemma_map_vertices(self, v);
        }
        elements(self.get(&v).unwrap())
    }
}

/// The vertices of a well-formed adjacency map are keys of the map.
pub proof fn lemma_map_vertices<T: Copy + Eq + Hash>(map: &HashMap<T, HashSet<T>>, v: T)
    requires
        map.wf(),
        map.model().discovers(v),
    ensures
        map@.contains_key(v),
{
    let g = map.model();
    assert(g.closed(map@.dom()));
    g.lemma_vertices_in_closed(map@.dom(), v);
}

/// A well-formed adjacency map has finitely many vertices.
pub proof fn lemma_map_finite<T: Copy + Eq + Hash>(map: &HashMap<T, HashSet<T>>)
    requires
        map.wf(),
    ensures
        map.model().vertices().finite(),
{
    assert forall|v: T| map.model().vertices().contains(v) implies map@.dom().contains(v) by {
        lemma_map_vertices(map, v);
    }
    vstd::set_lib::lemma_set_subset_finite(map@.dom(), map.model().vertices());
}

} // verus!
