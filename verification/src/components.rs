//! The strongly connected components of a graph, with the queries on them.

use vstd::prelude::*;
use std::collections::{HashMap, HashSet};
use std::hash::Hash;
use vstd::std_specs::iter::IteratorSpec;
use crate::condensation::Condensation;
use crate::dag::{below, connects, sets, in_range, lemma_below_finite, lemma_connects_extend, lemma_descending_acyclic, lemma_fewer_left, lemma_swept_excludes, swept};
use crate::depth::depths;
use crate::order::indices_by_key;

verus! {

/// Strongly connected components.
pub struct Components<V> {
    /// Components list.
    pub(crate) list: Vec<Vec<V>>,
    /// Map from vertices to component index.
    pub(crate) vertex_to_component: HashMap<V, usize>,
    /// Component successors.
    pub(crate) successors: Vec<HashSet<usize>>,
}

/// The sequences that a vector of vectors holds.
pub open spec fn lists<V>(v: Seq<Vec<V>>) -> Seq<Seq<V>> {
    Seq::new(v.len(), |i: int| v[i]@)
}

impl<V> View for Components<V> {
    type V = Condensation<V>;

    /// The components as a mathematical value.
    closed spec fn view(&self) -> Condensation<V> {
        Condensation {
            list: lists(self.list@),
            index: self.vertex_to_component@,
            successors: sets(self.successors@),
        }
    }
}

impl<V> Components<V> {
    /// Every value of this type is well formed, and its vertex type can be
    /// used as a key.
    #[verifier::type_invariant]
    pub open spec fn inv(&self) -> bool {
        self@.wf() && vstd::std_specs::hash::obeys_key_model::<V>()
    }

    /// The successors of component `i` in the order in which `successors`
    /// lists them.
    pub closed spec fn successor_list(&self, i: int) -> Seq<usize> {
        vstd::std_specs::hash::into_iter_hash_keys(self.successors@[i].iter())
    }

    /// Puts the parts of a decomposition together.
    pub(crate) fn from_parts(
        list: Vec<Vec<V>>,
        vertex_to_component: HashMap<V, usize>,
        successors: Vec<HashSet<usize>>,
    ) -> (c: Self)
        requires
            vstd::std_specs::hash::obeys_key_model::<V>(),
            (Condensation {
                list: lists(list@),
                index: vertex_to_component@,
                successors: sets(successors@),
            }).wf(),
        ensures
            c@ == (Condensation {
                list: lists(list@),
                index: vertex_to_component@,
                successors: sets(successors@),
            }),
    {
        Components { list, vertex_to_component, successors }
    }

    /// Returns the number of strongly connected components.
    pub fn len(&self) -> (n: usize)
        ensures
            n == self@.len(),
    {
        self.list.len()
    }

    /// Checks if there are no components.
    pub fn is_empty(&self) -> (b: bool)
        ensures
            b == (self@.len() == 0),
    {
        self.list.is_empty()
    }

    /// Returns the strongly connected components, in the order of their
    /// indices.
    pub fn iter(&self) -> (all: Vec<&[V]>)
        ensures
            all.len() == self@.len(),
            forall|i: int| 0 <= i < all.len() ==> (#[trigger] all[i])@ == self@.list[i],
    {
        let mut all: Vec<&[V]> = Vec::new();
        let mut i: usize = 0;
        while i < self.list.len()
            invariant
                i <= self.list.len(),
                all.len() == i,
                forall|k: int| 0 <= k < i ==> (#[trigger] all[k])@ == self.list@[k]@,
            decreases self.list.len() - i,
        {
            all.push(self.list[i].as_slice());
            i += 1;
        }
        all
    }

    /// Returns the index of the given vertex's strongly connected component.
    pub fn vertex_component_index(&self, v: &V) -> (index: Option<usize>) where V: Eq + Hash
        ensures
            index == (if self@.index.contains_key(*v) {
                Some(self@.index[*v])
            } else {
                None
            }),
    {
        proof {
            use_type_invariant(self);
        }
        match self.vertex_to_component.get(v) {
            Some(i) => Some(*i),
            None => None,
        }
    }

    /// Returns the component with the given index `i`.
    pub fn get_by_index(&self, i: usize) -> (component: Option<&[V]>)
        ensures
            match component {
                Some(c) => i < self@.len() && c@ == self@.list[i as int],
                None => i >= self@.len(),
            },
    {
        if i < self.list.len() {
            Some(self.list[i].as_slice())
        } else {
            None
        }
    }

    /// Return the given vertex's strongly connected component.
    pub fn get(&self, v: &V) -> (component: Option<&[V]>) where V: Eq + Hash
        ensures
            match component {
                Some(c) => self@.index.contains_key(*v) && c@ == self@.list[self@.index[*v] as int],
                None => !self@.index.contains_key(*v),
            },
    {
        proof {
            use_type_invariant(self);
        }
        self.get_by_index(self.vertex_component_index(v)?)
    }

    /// Returns the indices of the components that an edge leads to from
    /// component `i`, each once. Component `i` itself may be among them.
    pub fn successors(&self, i: usize) -> (indices: Option<Vec<usize>>)
        ensures
            match indices {
                Some(s) => i < self@.len() && s@ == self.successor_list(i as int)
                    && s@.no_duplicates() && forall|j: usize|
                    s@.contains(j) <==> self@.successors[i as int].contains(j),
                None => i >= self@.len(),
            },
    {
        proof {
            use_type_invariant(self);
        }
        if i >= self.successors.len() {
            return None;
        }
        let set = &self.successors[i];
        let mut indices: Vec<usize> = Vec::new();
        for j in it: set.iter()
            invariant
                it.seq() == set.iter().remaining(),
                indices.len() == it.index(),
                forall|t: int| 0 <= t < it.index() ==> #[trigger] indices@[t] == *it.seq()[t],
        {
            indices.push(*j);
        }
        proof {
            let all = set.iter().remaining();
            assert(indices@ =~= all.unref());
            assert forall|a: int, b: int|
                0 <= a < indices.len() && 0 <= b < indices.len() && a != b implies indices@[a]
                != indices@[b] by {
                assert(all[a] != all[b]);
            }
        }
        Some(indices)
    }

    /// Checks whether component `i` holds a cycle: whether it is among its
    /// own successors.
    pub fn is_cyclic(&self, i: usize) -> (b: bool)
        requires
            i < self@.len(),
        ensures
            b == self@.is_cyclic(i as int),
    {
        proof {
            use_type_invariant(self);
        }
        self.successors[i].contains(&i)
    }

    /// Removes from `result` every component that a path of at least one
    /// edge leads to from component `i`.
    ///
    /// `seen` holds the components whose successors have been removed
    /// before, with all that they lead to; none of them is expanded again.
    fn remove_indirect_successors(
        &self,
        result: &mut HashSet<usize>,
        seen: &mut HashSet<usize>,
        i: usize,
    )
        requires
            i < self@.len(),
            old(seen)@.subset_of(below(self@.len())),
            swept(self@.successors, old(seen)@, old(result)@),
        ensures
            final(seen)@.subset_of(below(self@.len())),
            swept(self@.successors, final(seen)@, final(result)@),
            old(seen)@.subset_of(final(seen)@),
            forall|k: usize|
                final(result)@.contains(k) <==> old(result)@.contains(k) && !connects(
                    self@.successors,
                    i,
                    k,
                ),
    {
        proof {
            use_type_invariant(self);
            lemma_descending_acyclic(self@.successors);
            lemma_below_finite(self@.len());
        }
        let ghost adj = self@.successors;
        let ghost all = below(self@.len());
        if seen.contains(&i) {
            proof {
                assert forall|k: usize| connects(adj, i, k) implies !result@.contains(k) by {
                    lemma_swept_excludes(adj, seen@, result@, i, k);
                }
            }
            return ;
        }
        seen.insert(i);
        let mut work: Vec<usize> = Vec::new();
        work.push(i);
        proof {
            assert(work@[0] == i);
            assert forall|s: usize, c: usize|
                seen@.contains(s) && !work@.contains(s) && #[trigger] adj[s as int].contains(c) && c
                    != s implies seen@.contains(c) && !result@.contains(c) by {
                assert(old(seen)@.contains(s));
                assert(all.contains(s));
            }
        }
        while work.len() > 0
            invariant
                i < adj.len(),
                adj == self@.successors,
                adj.len() == self@.len(),
                all == below(adj.len()),
                all.finite(),
                in_range(adj),
                seen@.subset_of(all),
                old(seen)@.subset_of(seen@),
                seen@.contains(i),
                forall|a: int|
                    0 <= a < work.len() ==> seen@.contains(#[trigger] work@[a]) && (work@[a] == i
                        || connects(adj, i, work@[a])),
                forall|s: usize, c: usize|
                    seen@.contains(s) && !work@.contains(s) && #[trigger] adj[s as int].contains(c)
                        && c != s ==> seen@.contains(c) && !result@.contains(c),
                forall|k: usize| result@.contains(k) ==> old(result)@.contains(k),
                forall|k: usize|
                    old(result)@.contains(k) && !result@.contains(k) ==> connects(adj, i, k),
            decreases all.difference(seen@).len(), work.len(),
        {
            let ghost before = work@;
            let ghost seen_before = seen@;
            let x = work.pop().unwrap();
            proof {
                assert(before[before.len() - 1] == x);
                assert(seen@.contains(x));
                assert(all.contains(x));
            }
            let ghost rest = work@;
            proof {
                assert forall|s: usize| !rest.contains(s) && s != x implies !before.contains(s) by {
                    if before.contains(s) {
                        let a = choose|a: int| 0 <= a < before.len() && before[a] == s;
                        assert(rest[a] == s);
                    }
                }
            }
            let set = &self.successors[x];
            for c in it: set.iter()
                invariant
                    x < adj.len(),
                    i < adj.len(),
                    adj == self@.successors,
                    all == below(adj.len()),
                    all.finite(),
                    in_range(adj),
                    set@ == adj[x as int],
                    it.seq() == set.iter().remaining(),
                    x == i || connects(adj, i, x),
                    seen_before.contains(x),
                    seen_before.subset_of(seen@),
                    seen@.subset_of(all),
                    old(seen)@.subset_of(seen@),
                    rest.len() <= work.len(),
                    forall|a: int| 0 <= a < rest.len() ==> #[trigger] work@[a] == rest[a],
                    work.len() == rest.len() ==> seen@ == seen_before,
                    work.len() > rest.len() ==> all.difference(seen@).len() < all.difference(
                        seen_before,
                    ).len(),
                    forall|a: int|
                        0 <= a < work.len() ==> seen@.contains(#[trigger] work@[a]) && (work@[a]
                            == i || connects(adj, i, work@[a])),
                    forall|s: usize, c: usize|
                        seen@.contains(s) && !work@.contains(s) && s != x && #[trigger] adj[s as int].contains(
                            c,
                        ) && c != s ==> seen@.contains(c) && !result@.contains(c),
                    forall|t: int|
                        0 <= t < it.index() && *(#[trigger] it.seq()[t]) != x ==> seen@.contains(
                            *it.seq()[t],
                        ) && !result@.contains(*it.seq()[t]),
                    forall|k: usize| result@.contains(k) ==> old(result)@.contains(k),
                    forall|k: usize|
                        old(result)@.contains(k) && !result@.contains(k) ==> connects(adj, i, k),
            {
                let ghost t0 = it.index();
                let ghost work_then = work@;
                let ghost seen_then = seen@;
                proof {
                    assert(set.iter().remaining().unref()[t0] == *c);
                    assert(set.iter().remaining().unref().to_set().contains(*c));
                    assert(adj[x as int].contains(*c));
                }
                if *c != x {
                    proof {
                        lemma_connects_extend(adj, i, x, *c);
                    }
                    result.remove(c);
                    if !seen.contains(c) {
                        seen.insert(*c);
                        work.push(*c);
                        proof {
                            assert(all.contains(*c));
                            lemma_fewer_left(all, seen_then, seen@, *c);
                            assert forall|a: int| 0 <= a < work.len() implies seen@.contains(
                                #[trigger] work@[a],
                            ) && (work@[a] == i || connects(adj, i, work@[a])) by {
                                if a < work_then.len() {
                                    assert(work@[a] == work_then[a]);
                                }
                            }
                            assert forall|s: usize| !work@.contains(s) implies !work_then.contains(
                                s,
                            ) by {
                                if work_then.contains(s) {
                                    let a = choose|a: int|
                                        0 <= a < work_then.len() && work_then[a] == s;
                                    assert(work@[a] == s);
                                }
                            }
                            assert(work@[work_then.len() as int] == *c);
                        }
                    }
                }
            }
            proof {
                let every = set.iter().remaining();
                assert forall|s: usize, c: usize|
                    seen@.contains(s) && !work@.contains(s) && #[trigger] adj[s as int].contains(c)
                        && c != s implies seen@.contains(c) && !result@.contains(c) by {
                    if s == x {
                        assert(every.unref().to_set().contains(c));
                        let t = choose|t: int| 0 <= t < every.unref().len() && every.unref()[t] == c;
                        assert(*every[t] == c);
                    }
                }
            }
        }
        proof {
            assert(swept(adj, seen@, result@)) by {
                assert forall|s: usize, c: usize|
                    seen@.contains(s) && s < adj.len() && #[trigger] adj[s as int].contains(c) && c
                        != s implies seen@.contains(c) && !result@.contains(c) by {
                    assert(!work@.contains(s));
                }
            }
            assert forall|k: usize| connects(adj, i, k) implies !result@.contains(k) by {
                lemma_swept_excludes(adj, seen@, result@, i, k);
            }
        }
    }

    /// Returns the successors of component `i` that no other successor of
    /// `i` leads to, if there is a component `i`.
    pub fn direct_successors(&self, i: usize) -> (direct: Option<HashSet<usize>>)
        ensures
            match direct {
                Some(s) => i < self@.len() && s@ == self@.direct_successors(i as int),
                None => i >= self@.len(),
            },
    {
        proof {
            use_type_invariant(self);
            lemma_descending_acyclic(self@.successors);
        }
        if i >= self.successors.len() {
            return None;
        }
        let ghost adj = self@.successors;
        let set = &self.successors[i];
        let mut result: HashSet<usize> = HashSet::new();
        for j in it: set.iter()
            invariant
                it.seq() == set.iter().remaining(),
                forall|k: usize| result@.contains(k) ==> set@.contains(k),
                forall|t: int| 0 <= t < it.index() ==> result@.contains(*(#[trigger] it.seq()[t])),
        {
            proof {
                assert(set.iter().remaining().unref()[it.index()] == *j);
                assert(set.iter().remaining().unref().to_set().contains(*j));
            }
            result.insert(*j);
        }
        proof {
            let all = set.iter().remaining();
            assert forall|k: usize| set@.contains(k) implies result@.contains(k) by {
                assert(all.unref().to_set().contains(k));
                let t = choose|t: int| 0 <= t < all.unref().len() && all.unref()[t] == k;
                assert(*all[t] == k);
            }
            assert(result@ =~= set@);
        }

        let mut seen: HashSet<usize> = HashSet::new();
        for j in it: set.iter()
            invariant
                i < adj.len(),
                adj == self@.successors,
                adj.len() == self@.len(),
                set@ == adj[i as int],
                in_range(adj),
                it.seq() == set.iter().remaining(),
                seen@.subset_of(below(self@.len())),
                swept(adj, seen@, result@),
                forall|k: usize|
                    result@.contains(k) <==> set@.contains(k) && forall|t: int|
                        0 <= t < it.index() && *(#[trigger] it.seq()[t]) != i ==> !connects(
                            adj,
                            *it.seq()[t],
                            k,
                        ),
        {
            let ghost t0 = it.index();
            let ghost before = result@;
            proof {
                assert(set.iter().remaining().unref()[t0] == *j);
                assert(set.iter().remaining().unref().to_set().contains(*j));
                assert(adj[i as int].contains(*j));
            }
            if *j != i {
                self.remove_indirect_successors(&mut result, &mut seen, *j);
            }
            proof {
                assert forall|k: usize|
                    result@.contains(k) <==> set@.contains(k) && forall|t: int|
                        0 <= t < t0 + 1 && *(#[trigger] it.seq()[t]) != i ==> !connects(
                            adj,
                            *it.seq()[t],
                            k,
                        ) by {
                    if set@.contains(k) {
                        if before.contains(k) {
                            assert forall|t: int|
                                0 <= t < t0 && *(#[trigger] it.seq()[t]) != i implies !connects(
                                adj,
                                *it.seq()[t],
                                k,
                            ) by {}
                        } else {
                            let t = choose|t: int|
                                0 <= t < t0 && *(#[trigger] it.seq()[t]) != i && connects(
                                    adj,
                                    *it.seq()[t],
                                    k,
                                );
                            assert(0 <= t < t0 + 1);
                        }
                        assert(*it.seq()[t0] == *j);
                    }
                }
            }
        }
        proof {
            let all = set.iter().remaining();
            assert forall|k: usize| result@.contains(k) <==> self@.is_direct_successor(
                i as int,
                k,
            ) by {
                if set@.contains(k) {
                    if result@.contains(k) {
                        assert forall|j: usize| adj[i as int].contains(j) && j != i implies !#[trigger] connects(
                            adj,
                            j,
                            k,
                        ) by {
                            assert(all.unref().to_set().contains(j));
                            let t = choose|t: int| 0 <= t < all.unref().len() && all.unref()[t] == j;
                            assert(*all[t] == j);
                        }
                    } else {
                        let t = choose|t: int|
                            0 <= t < all.len() && *(#[trigger] all[t]) != i && connects(
                                adj,
                                *all[t],
                                k,
                            );
                        assert(all.unref()[t] == *all[t]);
                        assert(all.unref().to_set().contains(*all[t]));
                    }
                }
            }
            assert(result@ =~= self@.direct_successors(i as int));
        }
        Some(result)
    }

    /// Returns the depth of each component.
    ///
    /// The depth of a component is the maximum of the depth of its
    /// predecessors plus 1. A component with no predecessors has depth 0.
    pub fn depths(&self) -> (depth: Vec<usize>)
        ensures
            depth@ == self@.depths(),
            forall|i: int| 0 <= i < depth.len() ==> self@.depth_is(i, #[trigger] depth[i] as int),
    {
        proof {
            use_type_invariant(self);
            lemma_descending_acyclic(self@.successors);
        }
        let depth = depths(self.successors.as_slice());
        proof {
            assert forall|i: int| 0 <= i < depth.len() implies #[trigger] depth@[i]
                == self@.depths()[i] by {
                self@.lemma_depth_determined(i, depth[i] as int);
            }
            assert(depth@ =~= self@.depths());
        }
        depth
    }

    /// Returns, for every component, the components of which it is a
    /// successor.
    pub fn predecessors(&self) -> (predecessors: Vec<HashSet<usize>>)
        ensures
            predecessors.len() == self@.len(),
            forall|i: int, j: usize|
                0 <= i < predecessors.len() ==> (#[trigger] predecessors[i]@.contains(j)
                    <==> self@.has_predecessor(i, j as int)),
    {
        proof {
            use_type_invariant(self);
        }
        let n = self.list.len();
        let ghost adj = self@.successors;
        let mut predecessors: Vec<HashSet<usize>> = Vec::new();
        while predecessors.len() < n
            invariant
                predecessors.len() <= n,
                forall|a: int| 0 <= a < predecessors.len() ==> (#[trigger] predecessors[a])@
                    =~= Set::<usize>::empty(),
            decreases n - predecessors.len(),
        {
            predecessors.push(HashSet::new());
        }

        let mut i: usize = 0;
        while i < n
            invariant
                i <= n,
                n == adj.len(),
                adj == self@.successors,
                crate::dag::descending(adj),
                self.successors.len() == n,
                predecessors.len() == n,
                forall|a: int, b: usize|
                    0 <= a < n ==> (#[trigger] predecessors[a]@.contains(b) <==> b < i
                        && adj[b as int].contains(a as usize)),
            decreases n - i,
        {
            let set = &self.successors[i];
            for j in it: set.iter()
                invariant
                    i < n,
                    n == adj.len(),
                    set@ == adj[i as int],
                    crate::dag::descending(adj),
                    predecessors.len() == n,
                    it.seq() == set.iter().remaining(),
                    forall|a: int, b: usize|
                        0 <= a < n ==> (#[trigger] predecessors[a]@.contains(b) <==> (b < i
                            && adj[b as int].contains(a as usize)) || (b == i && exists|t: int|
                            0 <= t < it.index() && *(#[trigger] it.seq()[t]) == a)),
            {
                let ghost t0 = it.index();
                let ghost before = predecessors@;
                proof {
                    assert(set.iter().remaining().unref()[t0] == *j);
                    assert(set.iter().remaining().unref().to_set().contains(*j));
                    assert(adj[i as int].contains(*j));
                }
                predecessors[*j].insert(i);
                proof {
                    assert forall|a: int, b: usize| 0 <= a < n implies (
                    #[trigger] predecessors[a]@.contains(b) <==> (b < i && adj[b as int].contains(
                        a as usize,
                    )) || (b == i && exists|t: int|
                        0 <= t < t0 + 1 && *(#[trigger] it.seq()[t]) == a)) by {
                        if b == i {
                            if before[a]@.contains(b) {
                                let t = choose|t: int|
                                    0 <= t < t0 && *(#[trigger] it.seq()[t]) == a;
                                assert(0 <= t < t0 + 1);
                            }
                            if a == *j {
                                assert(*it.seq()[t0] == a);
                            }
                            if exists|t: int| 0 <= t < t0 + 1 && *(#[trigger] it.seq()[t]) == a {
                                let t = choose|t: int|
                                    0 <= t < t0 + 1 && *(#[trigger] it.seq()[t]) == a;
                                if t < t0 {
                                    assert(before[a]@.contains(b));
                                }
                            }
                        }
                    }
                }
            }
            proof {
                let all = set.iter().remaining();
                assert forall|a: int, b: usize| 0 <= a < n implies (
                #[trigger] predecessors[a]@.contains(b) <==> b < i + 1 && adj[b as int].contains(
                    a as usize,
                )) by {
                    if b == i {
                        if adj[i as int].contains(a as usize) {
                            assert(all.unref().to_set().contains(a as usize));
                            let t = choose|t: int|
                                0 <= t < all.unref().len() && all.unref()[t] == a as usize;
                            assert(*all[t] == a);
                        }
                        if exists|t: int| 0 <= t < all.len() && *(#[trigger] all[t]) == a {
                            let t = choose|t: int| 0 <= t < all.len() && *(#[trigger] all[t]) == a;
                            assert(all.unref()[t] == *all[t]);
                            assert(all.unref().to_set().contains(*all[t]));
                        }
                    }
                }
            }
            i += 1;
        }
        predecessors
    }

    /// Order components by depth.
    ///
    /// Every component index occurs once. A component of smaller depth comes
    /// first, and of two components of the same depth the one with the
    /// smaller index.
    pub fn order_by_depth(&self) -> (order: Vec<usize>)
        ensures
            self@.sorted_by_depth(order@),
    {
        let depth = self.depths();
        proof {
            use_type_invariant(self);
            assert forall|i: int| 0 <= i < depth.len() implies (#[trigger] depth[i])
                < depth.len() by {
                self@.lemma_depth(i);
            }
        }
        indices_by_key(&depth)
    }
}

} // verus!
