//! The state of a depth-first search for strongly connected components, as a
//! mathematical value, with the invariant that the search maintains.

use vstd::prelude::*;
use crate::condensation::Condensation;
use crate::graph::Digraph;

verus! {

/// What the search has recorded about a visited vertex.
pub struct Record {
    /// Position of the vertex in the order of first visits.
    pub index: int,
    /// The vertex has not been assigned to a component yet.
    pub on_stack: bool,
    /// Index of the component of the vertex, once `on_stack` is false.
    pub component: int,
}

/// A snapshot of the search.
#[verifier::reject_recursive_types(V)]
pub struct Search<V> {
    /// The record of every vertex visited so far.
    pub recs: Map<V, Record>,
    /// The visited vertices that belong to no finished component, in the
    /// order of their first visit.
    pub stack: Seq<V>,
    /// The finished components, in the order of their completion.
    pub comps: Seq<Seq<V>>,
}

impl<V> Search<V> {
    /// The search has a record of `v`.
    pub open spec fn visited(self, v: V) -> bool {
        self.recs.contains_key(v)
    }

    /// `v` is visited and belongs to no finished component yet.
    pub open spec fn open(self, v: V) -> bool {
        self.recs.contains_key(v) && self.recs[v].on_stack
    }

    /// `v` belongs to a finished component.
    pub open spec fn done(self, v: V) -> bool {
        self.recs.contains_key(v) && !self.recs[v].on_stack
    }

    /// The index of the visited vertex `v`.
    pub open spec fn idx(self, v: V) -> int {
        self.recs[v].index
    }

    /// The index of the component of the done vertex `v`.
    pub open spec fn comp(self, v: V) -> int {
        self.recs[v].component
    }

    /// The number of visited vertices.
    pub open spec fn count(self) -> int {
        self.recs.dom().len() as int
    }

    /// Visited vertices belong to the graph and are numbered injectively
    /// below the number of visited vertices.
    pub open spec fn inv_recs(self, g: Digraph<V>) -> bool {
        &&& self.recs.dom().finite()
        &&& forall|v: V| #[trigger] self.visited(v) ==> g.discovers(v) && 0 <= self.idx(v) < self.count()
        &&& forall|u: V, v: V|
            #[trigger] self.visited(u) && #[trigger] self.visited(v) && self.idx(u) == self.idx(v)
                ==> u == v
    }

    /// The stack holds exactly the open vertices, by increasing index.
    pub open spec fn inv_stack(self) -> bool {
        &&& forall|i: int| 0 <= i < self.stack.len() ==> self.open(#[trigger] self.stack[i])
        &&& forall|v: V| #[trigger] self.open(v) ==> self.stack.contains(v)
        &&& forall|i: int, j: int|
            0 <= i < j < self.stack.len() ==> self.idx(#[trigger] self.stack[i]) < self.idx(
                #[trigger] self.stack[j],
            )
    }

    /// The finished components hold exactly the done vertices, each is a
    /// class of mutually reachable vertices, and no edge leads from a
    /// finished component to an open vertex or to a later component.
    pub open spec fn inv_comps(self, g: Digraph<V>) -> bool {
        &&& forall|v: V| #[trigger]
            self.done(v) ==> 0 <= self.comp(v) < self.comps.len() && self.comps[self.comp(
                v,
            )].contains(v)
        &&& forall|c: int, k: int|
            0 <= c < self.comps.len() && 0 <= k < self.comps[c].len() ==> self.done(
                #[trigger] self.comps[c][k],
            ) && self.comp(self.comps[c][k]) == c
        &&& forall|c: int|
            0 <= c < self.comps.len() ==> (#[trigger] self.comps[c]).len() > 0
                && self.comps[c].no_duplicates()
        &&& forall|c: int, u: V, w: V|
            0 <= c < self.comps.len() && (#[trigger] self.comps[c]).contains(u) ==> (
            self.comps[c].contains(w) <==> #[trigger] g.strongly_connected(u, w))
        &&& forall|u: V, w: V|
            self.done(u) && #[trigger] g.has_edge(u, w) ==> self.done(w) && self.comp(w)
                <= self.comp(u)
    }

    /// Every finished component lists its vertices by decreasing index: the
    /// vertex visited last comes first, the oldest last.
    pub open spec fn inv_order(self) -> bool {
        forall|c: int, a: int, b: int|
            0 <= c < self.comps.len() && 0 <= a < b < self.comps[c].len() ==> self.idx(
                #[trigger] self.comps[c][a],
            ) > self.idx(#[trigger] self.comps[c][b])
    }

    /// Every vertex that `later` has visited and this state has not can be
    /// reached from `w`.
    pub open spec fn new_reached(self, g: Digraph<V>, later: Search<V>, w: V) -> bool {
        forall|u: V| later.visited(u) && !self.visited(u) ==> #[trigger] g.reaches(w, u)
    }

    /// Some vertex under visit, not younger than `y`, can be reached from `y`.
    #[verifier::opaque]
    pub open spec fn anchored(self, g: Digraph<V>, gray: Set<V>, y: V) -> bool {
        exists|x: V| gray.contains(x) && self.idx(x) <= self.idx(y) && g.reaches(y, x)
    }

    /// `gray` holds the vertices under visit: they are open, every other
    /// visited vertex has all its successors visited, a vertex under visit
    /// reaches every younger open vertex, and every open vertex is anchored.
    pub open spec fn inv_gray(self, g: Digraph<V>, gray: Set<V>) -> bool {
        &&& forall|x: V| #[trigger] gray.contains(x) ==> self.open(x)
        &&& forall|u: V, w: V|
            self.visited(u) && !gray.contains(u) && #[trigger] g.has_edge(u, w) ==> self.visited(w)
        &&& forall|x: V, y: V|
            gray.contains(x) && self.open(y) && self.idx(x) <= self.idx(y) ==> #[trigger] g.reaches(
                x,
                y,
            )
        &&& forall|y: V| #[trigger] self.open(y) ==> self.anchored(g, gray, y)
    }

    /// The invariant of the search while the vertices of `gray` are under
    /// visit.
    pub open spec fn inv(self, g: Digraph<V>, gray: Set<V>) -> bool {
        &&& self.inv_recs(g)
        &&& self.inv_stack()
        &&& self.inv_comps(g)
        &&& self.inv_order()
        &&& self.inv_gray(g, gray)
    }

    /// `later` is a continuation of this search that popped nothing of this
    /// stack: all records are kept, vertices visited since then have the
    /// higher indices, and stack and component list are prefixes of the later
    /// ones.
    pub open spec fn extended_by(self, later: Search<V>) -> bool {
        &&& forall|u: V| #[trigger]
            self.visited(u) ==> later.visited(u) && later.recs[u] == self.recs[u]
        &&& forall|u: V| #[trigger]
            later.visited(u) && !self.visited(u) ==> later.idx(u) >= self.count()
        &&& self.count() <= later.count()
        &&& self.stack.len() <= later.stack.len()
        &&& forall|i: int| 0 <= i < self.stack.len() ==> #[trigger] later.stack[i] == self.stack[i]
        &&& self.comps.len() <= later.comps.len()
        &&& forall|c: int| 0 <= c < self.comps.len() ==> #[trigger] later.comps[c] == self.comps[c]
    }

    /// `low` is the index of an open vertex that `v` reaches.
    #[verifier::opaque]
    pub open spec fn low_witness(self, g: Digraph<V>, v: V, low: int) -> bool {
        exists|y: V| self.open(y) && self.idx(y) == low && g.reaches(v, y)
    }

    /// Every edge from an open vertex of index at least `from` to an open
    /// vertex leads to one of index at least `low`.
    pub open spec fn edges_bounded(self, g: Digraph<V>, from: int, low: int) -> bool {
        forall|x: V, y: V|
            self.open(x) && self.idx(x) >= from && self.open(y) && #[trigger] g.has_edge(x, y)
                ==> low <= self.idx(y)
    }

    /// The search after the first visit of `v`.
    pub open spec fn enter(self, v: V) -> Search<V> {
        Search {
            recs: self.recs.insert(
                v,
                Record { index: self.count(), on_stack: true, component: 0 },
            ),
            stack: self.stack.push(v),
            comps: self.comps,
        }
    }

    /// What holds when the visit of `w`, started in the state `self` with
    /// `gray` under visit, has ended in the state `end` with the result `n`.
    ///
    /// Only vertices that `w` reaches have been visited. If `n` is the index
    /// of `w`, the stack is as it was and the component completed last is
    /// that of `w`, with `w` as its last vertex; otherwise `w` stands on the
    /// stack right above what the stack held before.
    pub open spec fn returned(self, g: Digraph<V>, end: Search<V>, gray: Set<V>, w: V, n: int) -> bool {
        &&& end.inv(g, gray)
        &&& self.extended_by(end)
        &&& end.visited(w)
        &&& end.idx(w) == self.count()
        &&& n <= end.idx(w)
        &&& n < end.idx(w) ==> end.low_witness(g, w, n)
        &&& end.edges_bounded(g, end.idx(w), n)
        &&& self.new_reached(g, end, w)
        &&& n == end.idx(w) ==> self.closed_by(end, w)
        &&& n < end.idx(w) ==> end.open(w) && self.stack.len() < end.stack.len()
            && end.stack[self.stack.len() as int] == w
    }

    /// The visit of `w` has left the stack as it was and has completed the
    /// component of `w` last, with `w` as its last vertex.
    pub open spec fn closed_by(self, end: Search<V>, w: V) -> bool {
        &&& end.stack == self.stack
        &&& end.done(w)
        &&& self.comps.len() < end.comps.len()
        &&& end.comps.last().len() > 0
        &&& end.comps.last().last() == w
    }

    /// What holds in the state `now` while `v`, first visited in the state
    /// `self` with `gray` under visit, examines its successors, `low` being
    /// its low link so far.
    pub open spec fn visiting(self, g: Digraph<V>, now: Search<V>, gray: Set<V>, v: V, low: int) -> bool {
        &&& self.inv_recs(g)
        &&& now.inv(g, gray.insert(v))
        &&& self.extended_by(now)
        &&& !self.visited(v)
        &&& now.open(v)
        &&& now.idx(v) == self.count()
        &&& forall|x: V| #[trigger] gray.contains(x) ==> self.visited(x)
        &&& self.stack.len() < now.stack.len()
        &&& now.stack[self.stack.len() as int] == v
        &&& low <= now.idx(v)
        &&& now.low_witness(g, v, low)
        &&& now.edges_bounded(g, now.idx(v) + 1, low)
        &&& self.new_reached(g, now, v)
    }

    /// The first `k` vertices of `succ` are visited, and those of them that
    /// are open have an index of at least `low`.
    pub open spec fn examined(self, succ: Seq<V>, k: int, low: int) -> bool {
        forall|j: int|
            0 <= j < k ==> self.visited(#[trigger] succ[j]) && (self.open(succ[j]) ==> low
                <= self.idx(succ[j]))
    }

    /// Gives a name to the vertex that anchors `y`.
    pub proof fn lemma_anchor(self, g: Digraph<V>, gray: Set<V>, y: V) -> (x: V)
        requires
            self.anchored(g, gray, y),
        ensures
            gray.contains(x),
            self.idx(x) <= self.idx(y),
            g.reaches(y, x),
    {
        reveal(Search::anchored);
        choose|x: V| gray.contains(x) && self.idx(x) <= self.idx(y) && g.reaches(y, x)
    }

    /// A vertex under visit that `y` reaches and that is not younger than
    /// `y` anchors `y`.
    pub proof fn lemma_anchored_by(self, g: Digraph<V>, gray: Set<V>, y: V, x: V)
        requires
            gray.contains(x),
            self.idx(x) <= self.idx(y),
            g.reaches(y, x),
        ensures
            self.anchored(g, gray, y),
    {
        reveal(Search::anchored);
    }

    /// Gives a name to the open vertex whose index is the low link.
    pub proof fn lemma_low_vertex(self, g: Digraph<V>, v: V, low: int) -> (y: V)
        requires
            self.low_witness(g, v, low),
        ensures
            self.open(y),
            self.idx(y) == low,
            g.reaches(v, y),
    {
        reveal(Search::low_witness);
        choose|y: V| self.open(y) && self.idx(y) == low && g.reaches(v, y)
    }

    /// The index of an open vertex that `v` reaches can serve as low link.
    pub proof fn lemma_low_witnessed_by(self, g: Digraph<V>, v: V, y: V)
        requires
            self.open(y),
            g.reaches(v, y),
        ensures
            self.low_witness(g, v, self.idx(y)),
    {
        reveal(Search::low_witness);
    }

    /// The first visit of a vertex establishes the conditions under which
    /// its successors are examined.
    pub proof fn lemma_enter(self, g: Digraph<V>, gray: Set<V>, v: V)
        requires
            self.inv(g, gray),
            !self.visited(v),
            g.discovers(v),
            forall|x: V| gray.contains(x) ==> g.reaches(x, v),
        ensures
            self.visiting(g, self.enter(v), gray, v, self.count()),
    {
        let s = self.enter(v);
        let gv = gray.insert(v);
        g.lemma_reaches_refl(v);
        assert(s.recs.dom() =~= self.recs.dom().insert(v));
        assert(s.count() == self.count() + 1);
        assert(s.inv_recs(g)) by {
            assert forall|u: V| #[trigger] s.visited(u) implies g.discovers(u) && 0 <= s.idx(u)
                < s.count() by {
                if u != v {
                    assert(self.visited(u));
                }
            }
            assert forall|u: V, w: V|
                #[trigger] s.visited(u) && #[trigger] s.visited(w) && s.idx(u) == s.idx(
                    w,
                ) implies u == w by {
                if u != v {
                    assert(self.visited(u));
                }
                if w != v {
                    assert(self.visited(w));
                }
            }
        }
        assert(s.inv_stack()) by {
            assert forall|i: int| 0 <= i < s.stack.len() implies s.open(#[trigger] s.stack[i]) by {
                if i < self.stack.len() {
                    assert(self.open(self.stack[i]));
                }
            }
            assert forall|i: int, j: int| 0 <= i < j < s.stack.len() implies s.idx(
                #[trigger] s.stack[i],
            ) < s.idx(#[trigger] s.stack[j]) by {
                assert(self.open(self.stack[i]));
                assert(self.visited(self.stack[i]));
                if j < self.stack.len() {
                    assert(self.open(self.stack[j]));
                }
            }
            assert forall|u: V| #[trigger] s.open(u) implies s.stack.contains(u) by {
                if u == v {
                    assert(s.stack[self.stack.len() as int] == v);
                } else {
                    assert(self.open(u));
                    let i = choose|i: int| 0 <= i < self.stack.len() && self.stack[i] == u;
                    assert(s.stack[i] == u);
                }
            }
        }
        assert(s.inv_comps(g)) by {
            assert forall|c: int, k: int|
                0 <= c < s.comps.len() && 0 <= k < s.comps[c].len() implies s.done(
                #[trigger] s.comps[c][k],
            ) && s.comp(s.comps[c][k]) == c by {
                assert(self.done(self.comps[c][k]));
            }
            assert forall|u: V, w: V| s.done(u) && #[trigger] g.has_edge(u, w) implies s.done(w)
                && s.comp(w) <= s.comp(u) by {
                assert(self.done(u));
                assert(self.done(w));
            }
            assert forall|u: V| #[trigger] s.done(u) implies 0 <= s.comp(u) < s.comps.len()
                && s.comps[s.comp(u)].contains(u) by {
                assert(self.done(u));
            }
        }
        assert(s.inv_gray(g, gv)) by {
            assert forall|x: V| #[trigger] gv.contains(x) implies s.open(x) by {
                if x != v {
                    assert(self.open(x));
                }
            }
            assert forall|u: V, w: V|
                s.visited(u) && !gv.contains(u) && #[trigger] g.has_edge(u, w) implies s.visited(
                w,
            ) by {
                assert(self.visited(u));
                assert(self.visited(w));
            }
            assert forall|x: V, y: V|
                gv.contains(x) && s.open(y) && s.idx(x) <= s.idx(y) implies #[trigger] g.reaches(
                x,
                y,
            ) by {
                if x == v {
                    if y != v {
                        assert(self.visited(y));
                    }
                } else if y != v {
                    assert(self.open(x));
                    assert(self.open(y));
                }
            }
            assert forall|y: V| #[trigger] s.open(y) implies s.anchored(g, gv, y) by {
                if y == v {
                    s.lemma_anchored_by(g, gv, y, v);
                } else {
                    assert(self.open(y));
                    let x = self.lemma_anchor(g, gray, y);
                    assert(self.open(x));
                    s.lemma_anchored_by(g, gv, y, x);
                }
            }
        }
        assert(s.low_witness(g, v, self.count())) by {
            s.lemma_low_witnessed_by(g, v, v);
        }
        assert(s.inv_order()) by {
            assert forall|c: int, a: int, b: int|
                0 <= c < s.comps.len() && 0 <= a < b < s.comps[c].len() implies s.idx(
                #[trigger] s.comps[c][a],
            ) > s.idx(#[trigger] s.comps[c][b]) by {
                assert(self.done(self.comps[c][a]));
                assert(self.done(self.comps[c][b]));
                assert(self.idx(self.comps[c][a]) > self.idx(self.comps[c][b]));
            }
        }
        assert(self.new_reached(g, s, v)) by {
            assert forall|u: V| s.visited(u) && !self.visited(u) implies #[trigger] g.reaches(
                v,
                u,
            ) by {
                assert(u == v);
            }
        }
        assert(s.edges_bounded(g, s.idx(v) + 1, self.count())) by {
            assert forall|x: V, y: V|
                s.open(x) && s.idx(x) >= s.idx(v) + 1 && s.open(y) && #[trigger] g.has_edge(
                    x,
                    y,
                ) implies self.count() <= s.idx(y) by {
                assert(s.visited(x));
                if x != v {
                    assert(self.visited(x));
                }
            }
        }
        assert forall|x: V| #[trigger] gray.contains(x) implies self.visited(x) by {
            assert(self.open(x));
        }
    }

    /// Continuations compose.
    pub proof fn lemma_extended_trans(self, mid: Search<V>, end: Search<V>)
        requires
            self.extended_by(mid),
            mid.extended_by(end),
        ensures
            self.extended_by(end),
    {
        assert forall|u: V| #[trigger] self.visited(u) implies end.visited(u) && end.recs[u]
            == self.recs[u] by {
            assert(mid.visited(u));
        }
        assert forall|u: V| #[trigger] end.visited(u) && !self.visited(u) implies end.idx(u)
            >= self.count() by {
            if mid.visited(u) {
            }
        }
        assert forall|i: int| 0 <= i < self.stack.len() implies #[trigger] end.stack[i]
            == self.stack[i] by {
            assert(mid.stack[i] == self.stack[i]);
        }
        assert forall|c: int| 0 <= c < self.comps.len() implies #[trigger] end.comps[c]
            == self.comps[c] by {
            assert(mid.comps[c] == self.comps[c]);
        }
    }

    /// After the visit of an unvisited successor has returned `n`, the low
    /// link becomes the smaller of `low` and `n`.
    pub proof fn lemma_examine_unvisited(
        self,
        g: Digraph<V>,
        now: Search<V>,
        end: Search<V>,
        gray: Set<V>,
        v: V,
        low: int,
        succ: Seq<V>,
        k: int,
        n: int,
    )
        requires
            self.visiting(g, now, gray, v, low),
            now.examined(succ, k, low),
            0 <= k < succ.len(),
            g.has_edge(v, succ[k]),
            !now.visited(succ[k]),
            now.returned(g, end, gray.insert(v), succ[k], n),
        ensures
            self.visiting(g, end, gray, v, if n < low { n } else { low }),
            end.examined(succ, k + 1, if n < low { n } else { low }),
    {
        let w = succ[k];
        let m = if n < low { n } else { low };
        self.lemma_extended_trans(now, end);
        assert(now.visited(v));
        assert(end.open(v) && end.idx(v) == now.idx(v));
        assert(end.stack[self.stack.len() as int] == now.stack[self.stack.len() as int]);
        assert(end.low_witness(g, v, m)) by {
            if n < low {
                let y = end.lemma_low_vertex(g, w, n);
                g.lemma_reaches_step(v, w, y);
                end.lemma_low_witnessed_by(g, v, y);
            } else {
                let y = now.lemma_low_vertex(g, v, low);
                assert(now.visited(y));
                end.lemma_low_witnessed_by(g, v, y);
            }
        }
        assert(end.edges_bounded(g, end.idx(v) + 1, m)) by {
            assert forall|x: V, y: V|
                end.open(x) && end.idx(x) >= end.idx(v) + 1 && end.open(y) && #[trigger] g.has_edge(
                    x,
                    y,
                ) implies m <= end.idx(y) by {
                assert(end.visited(x) && end.visited(y));
                if end.idx(x) >= end.idx(w) {
                } else if now.visited(y) {
                    assert(now.visited(x));
                    assert(now.open(x) && now.open(y));
                } else {
                }
            }
        }
        assert forall|j: int| 0 <= j < k + 1 implies end.visited(#[trigger] succ[j]) && (end.open(
            succ[j],
        ) ==> m <= end.idx(succ[j])) by {
            if j < k {
                assert(now.visited(succ[j]));
            }
        }
        assert(self.new_reached(g, end, v)) by {
            assert forall|u: V| end.visited(u) && !self.visited(u) implies #[trigger] g.reaches(
                v,
                u,
            ) by {
                if now.visited(u) {
                    assert(g.reaches(v, u));
                } else {
                    assert(g.reaches(w, u));
                    g.lemma_reaches_step(v, w, u);
                }
            }
        }
    }

    /// A successor that is open lowers the low link to its index.
    pub proof fn lemma_examine_open(
        self,
        g: Digraph<V>,
        now: Search<V>,
        gray: Set<V>,
        v: V,
        low: int,
        succ: Seq<V>,
        k: int,
    )
        requires
            self.visiting(g, now, gray, v, low),
            now.examined(succ, k, low),
            0 <= k < succ.len(),
            g.has_edge(v, succ[k]),
            now.open(succ[k]),
        ensures
            self.visiting(g, now, gray, v, if now.idx(succ[k]) < low { now.idx(succ[k]) } else { low }),
            now.examined(succ, k + 1, if now.idx(succ[k]) < low { now.idx(succ[k]) } else { low }),
    {
        let w = succ[k];
        let m = if now.idx(w) < low { now.idx(w) } else { low };
        assert(now.low_witness(g, v, m)) by {
            if now.idx(w) < low {
                g.lemma_reaches_edge(v, w);
                now.lemma_low_witnessed_by(g, v, w);
            }
        }
    }

    /// A successor that belongs to a finished component changes nothing.
    pub proof fn lemma_examine_done(self, succ: Seq<V>, k: int, low: int)
        requires
            self.examined(succ, k, low),
            0 <= k < succ.len(),
            self.done(succ[k]),
        ensures
            self.examined(succ, k + 1, low),
    {
    }

    /// A vertex whose low link is below its index stays open when its visit
    /// ends.
    pub proof fn lemma_finish_open(
        self,
        g: Digraph<V>,
        now: Search<V>,
        gray: Set<V>,
        v: V,
        low: int,
        succ: Seq<V>,
    )
        requires
            self.visiting(g, now, gray, v, low),
            now.examined(succ, succ.len() as int, low),
            forall|w: V| g.has_edge(v, w) ==> succ.contains(w),
            low < now.idx(v),
        ensures
            self.returned(g, now, gray, v, low),
    {
        let gv = gray.insert(v);
        now.lemma_all_examined(g, v, low, succ);
        let z = now.lemma_low_vertex(g, v, low);
        assert(now.anchored(g, gv, z));
        let a = now.lemma_anchor(g, gv, z);
        assert(gray.contains(a));
        g.lemma_reaches_trans(v, z, a);
        assert(now.inv_gray(g, gray)) by {
            assert forall|x: V| #[trigger] gray.contains(x) implies now.open(x) by {
                assert(gv.contains(x));
            }
            assert forall|u: V, w: V|
                now.visited(u) && !gray.contains(u) && #[trigger] g.has_edge(
                    u,
                    w,
                ) implies now.visited(w) by {
                if u != v {
                    assert(!gv.contains(u));
                }
            }
            assert forall|x: V, y: V|
                gray.contains(x) && now.open(y) && now.idx(x) <= now.idx(y) implies #[trigger] g.reaches(
                x,
                y,
            ) by {
                assert(gv.contains(x));
            }
            assert forall|y: V| #[trigger] now.open(y) implies now.anchored(g, gray, y) by {
                assert(now.anchored(g, gv, y));
                let x = now.lemma_anchor(g, gv, y);
                if x == v {
                    g.lemma_reaches_trans(y, v, a);
                    now.lemma_anchored_by(g, gray, y, a);
                } else {
                    now.lemma_anchored_by(g, gray, y, x);
                }
            }
        }
        assert(now.edges_bounded(g, now.idx(v), low)) by {
            assert forall|x: V, y: V|
                now.open(x) && now.idx(x) >= now.idx(v) && now.open(y) && #[trigger] g.has_edge(
                    x,
                    y,
                ) implies low <= now.idx(y) by {
                assert(now.visited(x) && now.visited(v));
                if x == v {
                } else {
                    assert(now.idx(x) != now.idx(v));
                }
            }
        }
    }

    /// Once all successors of `v` have been examined, every edge from `v`
    /// leads to a visited vertex, and to one of index at least `low` if that
    /// vertex is open.
    pub proof fn lemma_all_examined(self, g: Digraph<V>, v: V, low: int, succ: Seq<V>)
        requires
            self.examined(succ, succ.len() as int, low),
            forall|w: V| g.has_edge(v, w) ==> succ.contains(w),
        ensures
            forall|w: V| #[trigger]
                g.has_edge(v, w) ==> self.visited(w) && (self.open(w) ==> low <= self.idx(w)),
    {
        assert forall|w: V| #[trigger] g.has_edge(v, w) implies self.visited(w) && (self.open(w)
            ==> low <= self.idx(w)) by {
            assert(succ.contains(w));
            let j = choose|j: int| 0 <= j < succ.len() && succ[j] == w;
            assert(self.visited(succ[j]));
        }
    }

    /// The records after every open vertex of index at least `t` has been
    /// assigned to a new component.
    pub open spec fn closed_from(self, t: int) -> Map<V, Record> {
        Map::new(
            |u: V| self.recs.contains_key(u),
            |u: V|
                if self.recs[u].on_stack && self.recs[u].index >= t {
                    Record {
                        index: self.recs[u].index,
                        on_stack: false,
                        component: self.comps.len() as int,
                    }
                } else {
                    self.recs[u]
                },
        )
    }

    /// The done vertices.
    pub open spec fn done_set(self) -> Set<V> {
        Set::new(|u: V| self.done(u))
    }

    /// No edge leads from a done vertex to one that is not done.
    pub proof fn lemma_done_closed(self, g: Digraph<V>)
        requires
            forall|u: V, w: V| self.done(u) && #[trigger] g.has_edge(u, w) ==> self.done(w),
        ensures
            g.closed(self.done_set()),
    {
    }

    /// While `v` is the youngest vertex under visit, it is strongly
    /// connected to every open vertex that is not older.
    pub proof fn lemma_connected_to_open(self, g: Digraph<V>, gray: Set<V>, v: V, u: V)
        requires
            self.inv_gray(g, gray),
            gray.contains(v),
            forall|x: V| gray.contains(x) ==> self.idx(x) <= self.idx(v),
            self.open(u),
            self.idx(v) <= self.idx(u),
        ensures
            g.strongly_connected(v, u),
    {
        assert(g.reaches(v, u));
        assert(self.anchored(g, gray, u));
        let a = self.lemma_anchor(g, gray, u);
        assert(self.open(v));
        assert(g.reaches(a, v));
        g.lemma_reaches_trans(u, a, v);
    }

    /// A vertex whose low link equals its index is the oldest vertex of a
    /// strongly connected component, which consists of the open vertices
    /// that are not older.
    pub proof fn lemma_finish_root(
        self,
        g: Digraph<V>,
        now: Search<V>,
        end: Search<V>,
        gray: Set<V>,
        v: V,
        succ: Seq<V>,
        c: Seq<V>,
    )
        requires
            self.visiting(g, now, gray, v, now.idx(v)),
            now.examined(succ, succ.len() as int, now.idx(v)),
            forall|w: V| g.has_edge(v, w) ==> succ.contains(w),
            end.recs == now.closed_from(now.idx(v)),
            end.stack == now.stack.take(self.stack.len() as int),
            end.comps == now.comps.push(c),
            c.no_duplicates(),
            forall|u: V| c.contains(u) <==> now.open(u) && now.idx(u) >= now.idx(v),
            c.len() == now.stack.len() - self.stack.len(),
            forall|t: int|
                0 <= t < c.len() ==> #[trigger] c[t] == now.stack[now.stack.len() - 1 - t],
        ensures
            self.returned(g, end, gray, v, now.idx(v)),
    {
        let gv = gray.insert(v);
        let iv = now.idx(v);
        let m = now.comps.len() as int;
        let p = self.stack.len() as int;
        now.lemma_all_examined(g, v, iv, succ);
        assert(end.recs.dom() =~= now.recs.dom());
        assert forall|x: V| gv.contains(x) implies now.idx(x) <= iv by {
            if x != v {
                assert(gray.contains(x));
                assert(self.visited(x));
            }
        }
        assert(c.contains(v));
        // Edges that start in the new component end in it or in an older one.
        assert forall|x: V, y: V| c.contains(x) && #[trigger] g.has_edge(x, y) implies now.visited(
            y,
        ) && (now.open(y) ==> c.contains(y)) by {
            assert(now.visited(x) && now.visited(v));
            if x != v {
                assert(!gv.contains(x));
                assert(now.idx(x) != iv);
            }
        }
        assert(end.inv_recs(g)) by {
            assert forall|u: V| #[trigger] end.visited(u) implies g.discovers(u) && 0 <= end.idx(u)
                < end.count() by {
                assert(now.visited(u));
            }
            assert forall|u: V, w: V|
                #[trigger] end.visited(u) && #[trigger] end.visited(w) && end.idx(u) == end.idx(
                    w,
                ) implies u == w by {
                assert(now.visited(u) && now.visited(w));
            }
        }
        assert(end.inv_stack()) by {
            assert forall|i: int| 0 <= i < end.stack.len() implies end.open(
                #[trigger] end.stack[i],
            ) by {
                assert(now.open(now.stack[i]));
                assert(now.idx(now.stack[i]) < now.idx(now.stack[p]));
            }
            assert forall|u: V| #[trigger] end.open(u) implies end.stack.contains(u) by {
                assert(now.open(u));
                let i = choose|i: int| 0 <= i < now.stack.len() && now.stack[i] == u;
                if i > p {
                    assert(now.idx(now.stack[p]) < now.idx(now.stack[i]));
                }
                assert(end.stack[i] == u);
            }
            assert forall|i: int, j: int| 0 <= i < j < end.stack.len() implies end.idx(
                #[trigger] end.stack[i],
            ) < end.idx(#[trigger] end.stack[j]) by {
                assert(now.idx(now.stack[i]) < now.idx(now.stack[j]));
            }
        }
        assert(end.inv_comps(g)) by {
            assert forall|u: V| #[trigger] end.done(u) implies 0 <= end.comp(u) < end.comps.len()
                && end.comps[end.comp(u)].contains(u) by {
                if c.contains(u) {
                    assert(end.comps[m] == c);
                } else {
                    assert(now.done(u));
                    assert(end.comps[now.comp(u)] == now.comps[now.comp(u)]);
                }
            }
            assert forall|d: int, k: int|
                0 <= d < end.comps.len() && 0 <= k < end.comps[d].len() implies end.done(
                #[trigger] end.comps[d][k],
            ) && end.comp(end.comps[d][k]) == d by {
                if d < m {
                    assert(now.done(now.comps[d][k]));
                } else {
                    assert(c.contains(c[k]));
                }
            }
            assert forall|d: int| 0 <= d < end.comps.len() implies (#[trigger] end.comps[d]).len()
                > 0 && end.comps[d].no_duplicates() by {
                if d < m {
                    assert(end.comps[d] == now.comps[d]);
                } else {
                    let k = choose|k: int| 0 <= k < c.len() && c[k] == v;
                }
            }
            assert forall|u: V, w: V| end.done(u) && #[trigger] g.has_edge(u, w) implies end.done(
                w,
            ) && end.comp(w) <= end.comp(u) by {
                if c.contains(u) {
                    assert(now.visited(w));
                    if now.open(w) {
                        assert(c.contains(w));
                    } else {
                        assert(now.done(w));
                    }
                } else {
                    assert(now.done(u));
                    assert(now.done(w));
                }
            }
            end.lemma_done_closed(g);
            now.lemma_done_closed(g);
            assert forall|d: int, u: V, w: V|
                0 <= d < end.comps.len() && (#[trigger] end.comps[d]).contains(
                    u,
                ) implies (end.comps[d].contains(w) <==> #[trigger] g.strongly_connected(u, w)) by {
                if d < m {
                    assert(end.comps[d] == now.comps[d]);
                    assert(now.comps[d].contains(u));
                } else {
                    assert(end.comps[d] == c);
                    now.lemma_connected_to_open(g, gv, v, u);
                    if c.contains(w) {
                        now.lemma_connected_to_open(g, gv, v, w);
                        g.lemma_strongly_connected_trans(u, v, w);
                    }
                    if g.strongly_connected(u, w) {
                        assert(end.done_set().contains(u));
                        g.lemma_closed_contains_reachable(end.done_set(), u, w);
                        assert(end.done(w));
                        if !c.contains(w) {
                            assert(now.done_set().contains(w));
                            g.lemma_closed_contains_reachable(now.done_set(), w, u);
                            assert(now.done(u));
                        }
                    }
                }
            }
        }
        assert(end.inv_gray(g, gray)) by {
            assert forall|x: V| #[trigger] gray.contains(x) implies end.open(x) by {
                assert(gv.contains(x));
                assert(self.visited(x));
            }
            assert forall|u: V, w: V|
                end.visited(u) && !gray.contains(u) && #[trigger] g.has_edge(
                    u,
                    w,
                ) implies end.visited(w) by {
                assert(now.visited(u));
                if u != v {
                    assert(!gv.contains(u));
                }
                assert(now.visited(w));
            }
            assert forall|x: V, y: V|
                gray.contains(x) && end.open(y) && end.idx(x) <= end.idx(y) implies #[trigger] g.reaches(
                x,
                y,
            ) by {
                assert(gv.contains(x));
                assert(now.open(y));
            }
            assert forall|y: V| #[trigger] end.open(y) implies end.anchored(g, gray, y) by {
                assert(now.open(y));
                assert(now.anchored(g, gv, y));
                let x = now.lemma_anchor(g, gv, y);
                end.lemma_anchored_by(g, gray, y, x);
            }
        }
        assert(self.extended_by(end)) by {
            assert forall|u: V| #[trigger] self.visited(u) implies end.visited(u) && end.recs[u]
                == self.recs[u] by {
                assert(now.visited(u));
            }
            assert forall|u: V| #[trigger] end.visited(u) && !self.visited(u) implies end.idx(u)
                >= self.count() by {
                assert(now.visited(u));
            }
            assert forall|i: int| 0 <= i < self.stack.len() implies #[trigger] end.stack[i]
                == self.stack[i] by {
                assert(now.stack[i] == self.stack[i]);
            }
            assert forall|d: int| 0 <= d < self.comps.len() implies #[trigger] end.comps[d]
                == self.comps[d] by {
                assert(now.comps[d] == self.comps[d]);
            }
        }
        assert(now.visited(v));
        assert(end.edges_bounded(g, end.idx(v), iv));
        assert(end.inv_order()) by {
            assert forall|d: int, a: int, b: int|
                0 <= d < end.comps.len() && 0 <= a < b < end.comps[d].len() implies end.idx(
                #[trigger] end.comps[d][a],
            ) > end.idx(#[trigger] end.comps[d][b]) by {
                if d < m {
                    assert(end.comps[d] == now.comps[d]);
                    assert(now.done(now.comps[d][a]));
                    assert(now.done(now.comps[d][b]));
                    assert(now.idx(now.comps[d][a]) > now.idx(now.comps[d][b]));
                } else {
                    let n = now.stack.len() as int;
                    assert(end.comps[d] == c);
                    assert(c[a] == now.stack[n - 1 - a]);
                    assert(c[b] == now.stack[n - 1 - b]);
                    assert(now.idx(now.stack[n - 1 - b]) < now.idx(now.stack[n - 1 - a]));
                    assert(now.open(now.stack[n - 1 - a]));
                    assert(now.open(now.stack[n - 1 - b]));
                }
            }
        }
        assert(self.new_reached(g, end, v)) by {
            assert forall|u: V| end.visited(u) && !self.visited(u) implies #[trigger] g.reaches(
                v,
                u,
            ) by {
                assert(now.visited(u));
            }
        }
        assert(self.closed_by(end, v)) by {
            assert(end.stack =~= self.stack);
            assert(end.comps.last() == c);
            assert(c[c.len() - 1] == now.stack[now.stack.len() - 1 - (c.len() - 1)]);
        }
    }

    /// A visit that began with nothing under visit returns the index of its
    /// vertex, completes the component of its vertex last, and has visited
    /// what its vertex reaches and nothing else.
    pub proof fn lemma_outermost(self, g: Digraph<V>, end: Search<V>, w: V, n: int)
        requires
            self.returned(g, end, Set::empty(), w, n),
        ensures
            n == self.count(),
            self.closed_by(end, w),
            forall|u: V| end.visited(u) <==> self.visited(u) || g.reaches(w, u),
    {
        let none = Set::<V>::empty();
        if n < end.idx(w) {
            assert(end.open(w));
            assert(end.anchored(g, none, w));
            let x = end.lemma_anchor(g, none, w);
        }
        let seen = end.recs.dom();
        assert(g.closed(seen)) by {
            assert forall|u: V, x: V| seen.contains(u) && #[trigger] g.has_edge(
                u,
                x,
            ) implies seen.contains(x) by {
                assert(end.visited(u));
                assert(end.visited(x));
            }
        }
        assert forall|u: V| g.reaches(w, u) implies end.visited(u) by {
            g.lemma_closed_contains_reachable(seen, w, u);
        }
        assert forall|u: V| self.visited(u) implies end.visited(u) by {}
        assert forall|u: V| end.visited(u) implies self.visited(u) || g.reaches(w, u) by {
            if !self.visited(u) {
                assert(g.reaches(w, u));
            }
        }
    }

    /// When nothing is under visit and every root has been visited, the
    /// stack is empty and the visited vertices are those of the graph.
    pub proof fn lemma_complete(self, g: Digraph<V>)
        requires
            self.inv(g, Set::empty()),
            forall|r: V| g.roots.contains(r) ==> self.visited(r),
        ensures
            self.stack.len() == 0,
            forall|v: V| self.visited(v) <==> g.discovers(v),
            forall|v: V| self.visited(v) ==> self.done(v),
    {
        let none = Set::<V>::empty();
        assert forall|v: V| self.visited(v) implies self.done(v) by {
            if self.open(v) {
                assert(self.anchored(g, none, v));
                let x = self.lemma_anchor(g, none, v);
            }
        }
        if self.stack.len() > 0 {
            assert(self.open(self.stack[0]));
            assert(self.visited(self.stack[0]));
        }
        let seen = self.recs.dom();
        assert(g.closed(seen)) by {
            assert forall|u: V, w: V| seen.contains(u) && #[trigger] g.has_edge(
                u,
                w,
            ) implies seen.contains(w) by {
                assert(self.visited(u));
                assert(self.visited(w));
            }
        }
        assert forall|v: V| g.discovers(v) implies self.visited(v) by {
            reveal(Digraph::discovers);
            let r = choose|r: V| g.roots.contains(r) && g.reaches(r, v);
            assert(self.visited(r));
            g.lemma_closed_contains_reachable(seen, r, v);
        }
        assert forall|v: V| self.visited(v) implies g.discovers(v) by {
        }
    }

    /// The threshold above which the open vertices have been popped when the
    /// stack has been cut down to its first `len` vertices.
    pub open spec fn popped_from(self, len: int) -> int {
        if len < self.stack.len() {
            self.idx(self.stack[len])
        } else {
            self.count()
        }
    }

    /// Popping the top of the stack and assigning it to the new component
    /// lowers the threshold to the index of the popped vertex.
    pub proof fn lemma_pop(self, g: Digraph<V>, len: int)
        requires
            self.inv_recs(g),
            self.inv_stack(),
            0 < len <= self.stack.len(),
        ensures
            self.open(self.stack[len - 1]),
            self.idx(self.stack[len - 1]) < self.popped_from(len),
            self.closed_from(self.popped_from(len)).insert(
                self.stack[len - 1],
                Record {
                    index: self.idx(self.stack[len - 1]),
                    on_stack: false,
                    component: self.comps.len() as int,
                },
            ) == self.closed_from(self.idx(self.stack[len - 1])),
    {
        let w = self.stack[len - 1];
        let t = self.popped_from(len);
        assert(self.open(w));
        assert(self.visited(w));
        if len < self.stack.len() {
            assert(self.idx(self.stack[len - 1]) < self.idx(self.stack[len]));
        }
        let a = self.closed_from(t).insert(
            w,
            Record { index: self.idx(w), on_stack: false, component: self.comps.len() as int },
        );
        let b = self.closed_from(self.idx(w));
        assert forall|u: V| a.contains_key(u) implies #[trigger] a[u] == b[u] by {
            if u != w && self.open(u) && self.idx(w) <= self.idx(u) < t {
                let j = choose|j: int| 0 <= j < self.stack.len() && self.stack[j] == u;
                if j < len - 1 {
                    assert(self.idx(self.stack[j]) < self.idx(self.stack[len - 1]));
                } else if j > len {
                    assert(self.idx(self.stack[len]) < self.idx(self.stack[j]));
                }
            }
        }
        assert(a =~= b);
    }

    /// The vertices popped from position `p` of the stack upwards are,
    /// without repetition, the open vertices that are not older than the one
    /// at position `p`.
    pub proof fn lemma_popped(self, p: int, c: Seq<V>)
        requires
            self.inv_stack(),
            0 <= p < self.stack.len(),
            c.len() == self.stack.len() - p,
            forall|t: int| 0 <= t < c.len() ==> #[trigger] c[t] == self.stack[self.stack.len() - 1 - t],
        ensures
            c.no_duplicates(),
            forall|u: V| c.contains(u) <==> self.open(u) && self.idx(u) >= self.idx(self.stack[p]),
    {
        let n = self.stack.len() as int;
        assert forall|a: int, b: int| 0 <= a < c.len() && 0 <= b < c.len() && a != b implies c[a]
            != c[b] by {
            if a < b {
                assert(self.idx(self.stack[n - 1 - b]) < self.idx(self.stack[n - 1 - a]));
            } else {
                assert(self.idx(self.stack[n - 1 - a]) < self.idx(self.stack[n - 1 - b]));
            }
        }
        assert forall|u: V| c.contains(u) implies self.open(u) && self.idx(u) >= self.idx(
            self.stack[p],
        ) by {
            let t = choose|t: int| 0 <= t < c.len() && c[t] == u;
            assert(self.open(self.stack[n - 1 - t]));
            if n - 1 - t > p {
                assert(self.idx(self.stack[p]) < self.idx(self.stack[n - 1 - t]));
            }
        }
        assert forall|u: V| self.open(u) && self.idx(u) >= self.idx(self.stack[p]) implies c.contains(
            u,
        ) by {
            let j = choose|j: int| 0 <= j < self.stack.len() && self.stack[j] == u;
            if j < p {
                assert(self.idx(self.stack[j]) < self.idx(self.stack[p]));
            }
            assert(c[n - 1 - j] == u);
        }
    }

    /// A search without vertices satisfies the invariant.
    pub proof fn lemma_initial(self, g: Digraph<V>)
        requires
            self.recs == Map::<V, Record>::empty(),
            self.stack == Seq::<V>::empty(),
            self.comps == Seq::<Seq<V>>::empty(),
        ensures
            self.inv(g, Set::empty()),
    {
    }

    /// An edge leads from a vertex of `component` to a vertex that `index`
    /// maps to `j`.
    pub open spec fn leads_to(
        g: Digraph<V>,
        component: Seq<V>,
        index: Map<V, usize>,
        j: usize,
    ) -> bool {
        exists|k: int, w: V|
            0 <= k < component.len() && #[trigger] g.has_edge(component[k], w)
                && index.contains_key(w) && index[w] == j
    }

    /// A finished search of the whole graph yields its decomposition into
    /// strongly connected components.
    pub proof fn lemma_decomposition(
        self,
        g: Digraph<V>,
        index: Map<V, usize>,
        successors: Seq<Set<usize>>,
    )
        requires
            self.inv(g, Set::empty()),
            forall|r: V| g.roots.contains(r) ==> self.visited(r),
            forall|v: V| index.contains_key(v) <==> self.visited(v),
            forall|v: V| self.visited(v) ==> index[v] == self.comp(v),
            successors.len() == self.comps.len(),
            self.comps.len() <= usize::MAX,
            forall|c: int, j: usize|
                0 <= c < self.comps.len() ==> (#[trigger] successors[c].contains(j)
                    <==> Self::leads_to(g, self.comps[c], index, j)),
        ensures
            (Condensation { list: self.comps, index: index, successors: successors }).wf(),
            (Condensation { list: self.comps, index: index, successors: successors }).decomposes(g),
    {
        let d = Condensation { list: self.comps, index: index, successors: successors };
        self.lemma_complete(g);
        assert(d.wf()) by {
            assert forall|v: V| #[trigger] d.index.contains_key(v) implies d.index[v]
                < d.list.len() && d.list[d.index[v] as int].contains(v) by {
                assert(self.visited(v));
                assert(self.done(v));
            }
            assert forall|c: int, k: int|
                0 <= c < d.list.len() && 0 <= k < d.list[c].len() implies d.index.contains_key(
                #[trigger] d.list[c][k],
            ) && d.index[d.list[c][k]] == c by {
                assert(self.done(self.comps[c][k]));
                assert(self.visited(self.comps[c][k]));
            }
            assert forall|i: int, j: usize|
                0 <= i < d.successors.len() && #[trigger] d.successors[i].contains(j) implies j
                <= i by {
                assert(Self::leads_to(g, self.comps[i], index, j));
                let (k, w) = choose|k: int, w: V|
                    0 <= k < self.comps[i].len() && #[trigger] g.has_edge(self.comps[i][k], w)
                        && index.contains_key(w) && index[w] == j;
                assert(self.done(self.comps[i][k]));
                assert(self.done(w));
                assert(self.visited(w));
            }
        }
        assert(d.decomposes(g)) by {
            assert forall|u: V, w: V| d.index.contains_key(u) implies (
            #[trigger] g.strongly_connected(u, w) <==> d.index.contains_key(w) && d.index[w]
                == d.index[u]) by {
                assert(self.visited(u));
                assert(self.done(u));
                let c = self.comp(u);
                assert(self.comps[c].contains(u));
                if self.comps[c].contains(w) {
                    let k = choose|k: int| 0 <= k < self.comps[c].len() && self.comps[c][k] == w;
                    assert(self.done(self.comps[c][k]));
                    assert(self.visited(w));
                }
                if d.index.contains_key(w) && d.index[w] == d.index[u] {
                    assert(self.visited(w));
                    assert(self.done(w));
                }
            }
            assert forall|i: int, j: usize| 0 <= i < d.successors.len() implies (
            #[trigger] d.successors[i].contains(j) <==> d.has_edge_between(g, i, j as int)) by {
                if Self::leads_to(g, self.comps[i], index, j) {
                    let (k, w) = choose|k: int, w: V|
                        0 <= k < self.comps[i].len() && #[trigger] g.has_edge(self.comps[i][k], w)
                            && index.contains_key(w) && index[w] == j;
                    let u = self.comps[i][k];
                    assert(self.done(u));
                    assert(self.done(w));
                    assert(self.visited(u) && self.visited(w));
                    assert(d.index.contains_key(u) && d.index[u] == i && g.has_edge(u, w)
                        && d.index.contains_key(w) && d.index[w] == j as int);
                }
                if d.has_edge_between(g, i, j as int) {
                    let (u, w) = choose|u: V, w: V|
                        d.index.contains_key(u) && d.index[u] == i && #[trigger] g.has_edge(u, w)
                            && d.index.contains_key(w) && d.index[w] == j as int;
                    assert(self.visited(u));
                    assert(self.done(u));
                    let k = choose|k: int| 0 <= k < self.comps[i].len() && self.comps[i][k] == u;
                    assert(g.has_edge(self.comps[i][k], w));
                }
            }
        }
    }
}

} // verus!
