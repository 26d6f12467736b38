//! The depth-first search as a sequence of steps on mathematical values.
//! It says in which order the vertices are visited and the components are
//! completed, given the order in which the graph hands out its vertices and
//! their successors.

use vstd::prelude::*;
use crate::dag::lemma_fewer_left;
use crate::graph::{Digraph, Scc};
use crate::tarjan::frames::{advanced, ancestors, frame_ok, frames_ok, fresh, lemma_advance_frame, lemma_first_frame, lemma_next_is_vertex, lemma_pending_nonnegative, lemma_pop_frame, lemma_push_frame, pending, resumed, FrameView};
use crate::tarjan::search::Search;

verus! {

/// The search and its work stack, the most recent visit on top.
#[verifier::reject_recursive_types(V)]
pub struct Machine<V> {
    /// What has been visited, what is open and what is complete.
    pub now: Search<V>,
    /// The visits that are under way.
    pub frames: Seq<FrameView<V>>,
}

/// The search that has visited nothing.
pub open spec fn nothing<V>() -> Search<V> {
    Search { recs: Map::empty(), stack: Seq::empty(), comps: Seq::empty() }
}

/// The vertices from position `p` of the stack upwards, the top first.
pub open spec fn popped<V>(now: Search<V>, p: int) -> Seq<V> {
    Seq::new((now.stack.len() - p) as nat, |t: int| now.stack[now.stack.len() - 1 - t])
}

/// The search after the vertices from the vertex of `top` upwards have been
/// popped off the stack and made a new component.
pub open spec fn closed<V>(now: Search<V>, top: FrameView<V>) -> Search<V> {
    Search {
        recs: now.closed_from(top.entry.count()),
        stack: now.stack.take(top.entry.stack.len() as int),
        comps: now.comps.push(popped(now, top.entry.stack.len() as int)),
    }
}

/// The search after the visit of the vertex of `top` has ended: its
/// component is complete if its low link is its index.
pub open spec fn finished<V>(now: Search<V>, top: FrameView<V>) -> Search<V> {
    if top.low == top.entry.count() {
        closed(now, top)
    } else {
        now
    }
}

/// One step of the search.
///
/// The top frame examines its next successor: one that is not visited is
/// visited and gets a frame of its own; one that is visited lowers the low
/// link if it is open. A top frame without a successor left ends, and the
/// frame below takes over its low link if that is lower.
pub open spec fn step<G: Scc + ?Sized>(graph: &G, m: Machine<G::Vertex>) -> Machine<G::Vertex> {
    let n = m.frames.len() as int;
    if n == 0 {
        m
    } else {
        let top = m.frames[n - 1];
        if top.k < top.succ.len() {
            let w = top.succ[top.k];
            if m.now.visited(w) {
                Machine { now: m.now, frames: m.frames.update(n - 1, advanced(top, m.now)) }
            } else {
                Machine {
                    now: m.now.enter(w),
                    frames: m.frames.push(fresh(m.now, w, graph.successor_list(w))),
                }
            }
        } else if n == 1 {
            Machine { now: finished(m.now, top), frames: Seq::empty() }
        } else {
            Machine {
                now: finished(m.now, top),
                frames: m.frames.drop_last().update(n - 2, resumed(m.frames[n - 2], top.low)),
            }
        }
    }
}

/// The machine after the given number of steps.
pub open spec fn run<G: Scc + ?Sized>(graph: &G, m: Machine<G::Vertex>, steps: nat) -> Machine<
    G::Vertex,
>
    decreases steps,
{
    if steps == 0 {
        m
    } else {
        step(graph, run(graph, m, (steps - 1) as nat))
    }
}

/// The machine at the first visit of the root `v` in the search `s`.
pub open spec fn start<G: Scc + ?Sized>(graph: &G, s: Search<G::Vertex>, v: G::Vertex) -> Machine<
    G::Vertex,
> {
    Machine { now: s.enter(v), frames: seq![fresh(s, v, graph.successor_list(v))] }
}

/// The visit of the root `v` in the search `s` has ended after the given
/// number of steps.
pub open spec fn ends_in<G: Scc + ?Sized>(
    graph: &G,
    s: Search<G::Vertex>,
    v: G::Vertex,
    steps: nat,
) -> bool {
    run(graph, start(graph, s, v), steps).frames.len() == 0
}

/// The search after the visit of the root `v` in the search `s`.
pub open spec fn visit<G: Scc + ?Sized>(graph: &G, s: Search<G::Vertex>, v: G::Vertex) -> Search<
    G::Vertex,
> {
    run(graph, start(graph, s, v), choose|steps: nat| ends_in(graph, s, v, steps)).now
}

/// The search after the roots from position `k` on have been taken in turn,
/// each visited unless an earlier visit has reached it.
pub open spec fn sweep<G: Scc + ?Sized>(graph: &G, s: Search<G::Vertex>, k: int) -> Search<
    G::Vertex,
>
    decreases graph.vertex_list().len() - k,
{
    if 0 <= k < graph.vertex_list().len() {
        let v = graph.vertex_list()[k];
        sweep(
            graph,
            if s.visited(v) {
                s
            } else {
                visit(graph, s, v)
            },
            k + 1,
        )
    } else {
        s
    }
}

/// The search of the whole graph.
pub open spec fn traversal<G: Scc + ?Sized>(graph: &G) -> Search<G::Vertex> {
    sweep(graph, nothing(), 0)
}

/// A machine without frames stays as it is.
pub proof fn lemma_halted<G: Scc + ?Sized>(graph: &G, m: Machine<G::Vertex>, a: nat, b: nat)
    requires
        run(graph, m, a).frames.len() == 0,
        a <= b,
    ensures
        run(graph, m, b) == run(graph, m, a),
    decreases b,
{
    if a < b {
        lemma_halted(graph, m, a, (b - 1) as nat);
    }
}

/// However many steps the visit of a root is given to end, it ends in the
/// same search.
pub proof fn lemma_visit<G: Scc + ?Sized>(
    graph: &G,
    s: Search<G::Vertex>,
    v: G::Vertex,
    steps: nat,
)
    requires
        ends_in(graph, s, v, steps),
    ensures
        visit(graph, s, v) == run(graph, start(graph, s, v), steps).now,
{
    let other = choose|n: nat| ends_in(graph, s, v, n);
    if other <= steps {
        lemma_halted(graph, start(graph, s, v), other, steps);
    } else {
        lemma_halted(graph, start(graph, s, v), steps, other);
    }
}

/// The list of the successors of `v` holds the vertices that the edges from
/// `v` lead to in the model of the graph.
pub open spec fn agrees_at<G: Scc + ?Sized>(graph: &G, v: G::Vertex) -> bool {
    forall|w: G::Vertex|
        graph.successor_list(v).contains(w) <==> #[trigger] graph.model().has_edge(v, w)
}

/// The lists of the graph hold what its model holds: the roots, and the
/// edges from every vertex of the graph.
pub open spec fn lists_agree<G: Scc + ?Sized>(graph: &G) -> bool {
    &&& forall|v: G::Vertex|
        graph.vertex_list().contains(v) <==> graph.model().roots.contains(v)
    &&& forall|v: G::Vertex| #[trigger] graph.model().discovers(v) ==> agrees_at(graph, v)
}

/// Steps taken first or last come to the same.
pub proof fn lemma_run_shift<G: Scc + ?Sized>(graph: &G, m: Machine<G::Vertex>, steps: nat)
    ensures
        run(graph, step(graph, m), steps) == run(graph, m, steps + 1),
    decreases steps,
{
    if steps > 0 {
        lemma_run_shift(graph, m, (steps - 1) as nat);
        assert(run(graph, step(graph, m), steps) == step(
            graph,
            run(graph, step(graph, m), (steps - 1) as nat),
        ));
        assert(run(graph, m, steps + 1) == step(graph, run(graph, m, steps)));
    } else {
        assert(run(graph, m, 1) == step(graph, run(graph, m, 0)));
    }
}

/// When the top frame has examined all its successors, its visit ends as a
/// visit should.
pub proof fn lemma_finished<V>(g: Digraph<V>, frames: Seq<FrameView<V>>, now: Search<V>)
    requires
        frames.len() > 0,
        frames_ok(g, frames, now),
        frames.last().k == frames.last().succ.len(),
    ensures
        frames.last().entry.returned(
            g,
            finished(now, frames.last()),
            ancestors(frames, frames.len() - 1),
            frames.last().v,
            frames.last().low,
        ),
        finished(now, frames.last()).recs.dom() == now.recs.dom(),
{
    let m = frames.len() as int;
    let top = frames[m - 1];
    let gray = ancestors(frames, m - 1);
    assert(frame_ok(g, frames, now, m - 1));
    if top.low == top.entry.count() {
        let p = top.entry.stack.len() as int;
        let c = popped(now, p);
        let end = closed(now, top);
        now.lemma_popped(p, c);
        top.entry.lemma_finish_root(g, now, end, gray, top.v, top.succ, c);
        assert(end.recs.dom() =~= now.recs.dom());
    } else {
        top.entry.lemma_finish_open(g, now, gray, top.v, top.low, top.succ);
    }
}

/// A machine whose frames are in order comes to an end, and the visit of its
/// bottom frame then has ended as a visit should.
pub proof fn lemma_run_ends<G: Scc + ?Sized>(graph: &G, m: Machine<G::Vertex>) -> (r: (nat, int))
    requires
        lists_agree(graph),
        graph.model().vertices().finite(),
        m.frames.len() > 0,
        frames_ok(graph.model(), m.frames, m.now),
    ensures
        run(graph, m, r.0).frames.len() == 0,
        m.frames[0].entry.returned(
            graph.model(),
            run(graph, m, r.0).now,
            Set::empty(),
            m.frames[0].v,
            r.1,
        ),
    decreases graph.model().vertices().difference(m.now.recs.dom()).len(), pending(m.frames),
{
    let g = graph.model();
    let n = m.frames.len() as int;
    let top = m.frames[n - 1];
    let next = step(graph, m);
    assert(frame_ok(g, m.frames, m.now, n - 1));
    assert(frame_ok(g, m.frames, m.now, 0));
    lemma_pending_nonnegative(g, m.frames, m.now, n);
    assert(m.frames.take(n) =~= m.frames);
    if top.k < top.succ.len() {
        let w = top.succ[top.k];
        if m.now.visited(w) {
            lemma_advance_frame(g, m.frames, m.now);
            lemma_pending_nonnegative(g, next.frames, next.now, n);
            assert(next.frames.take(n) =~= next.frames);
            let r = lemma_run_ends(graph, next);
            lemma_run_shift(graph, m, r.0);
            (r.0 + 1, r.1)
        } else {
            lemma_next_is_vertex(g, m.frames, m.now);
            lemma_push_frame(g, m.frames, m.now, graph.successor_list(w));
            assert(next.now.recs.dom() =~= m.now.recs.dom().insert(w));
            assert(g.vertices().contains(w));
            lemma_fewer_left(g.vertices(), m.now.recs.dom(), next.now.recs.dom(), w);
            let r = lemma_run_ends(graph, next);
            lemma_run_shift(graph, m, r.0);
            (r.0 + 1, r.1)
        }
    } else {
        lemma_finished(g, m.frames, m.now);
        if n == 1 {
            assert(ancestors(m.frames, 0) =~= Set::<G::Vertex>::empty());
            assert(run(graph, m, 1) == step(graph, run(graph, m, 0)));
            (1, top.low)
        } else {
            lemma_pop_frame(g, m.frames, m.now, next.now, top.low);
            lemma_pending_nonnegative(g, next.frames, next.now, n - 1);
            assert(next.frames.take(n - 1) =~= next.frames);
            let r = lemma_run_ends(graph, next);
            lemma_run_shift(graph, m, r.0);
            (r.0 + 1, r.1)
        }
    }
}

/// The visit of a root that has not been visited ends, returns the index of
/// the root, completes the component of the root last, and visits what the
/// root reaches and nothing else.
pub proof fn lemma_visit_returns<G: Scc + ?Sized>(graph: &G, s: Search<G::Vertex>, v: G::Vertex)
    requires
        lists_agree(graph),
        graph.model().vertices().finite(),
        s.inv(graph.model(), Set::empty()),
        !s.visited(v),
        graph.model().discovers(v),
    ensures
        s.returned(graph.model(), visit(graph, s, v), Set::empty(), v, s.count()),
        s.closed_by(visit(graph, s, v), v),
        forall|u: G::Vertex|
            visit(graph, s, v).visited(u) <==> s.visited(u) || graph.model().reaches(v, u),
{
    let g = graph.model();
    lemma_first_frame(g, s, v, graph.successor_list(v));
    let r = lemma_run_ends(graph, start(graph, s, v));
    lemma_visit(graph, s, v, r.0);
    s.lemma_outermost(g, visit(graph, s, v), v, r.1);
}

/// The search of the whole graph visits every vertex of the graph, leaves
/// nothing open, and satisfies the invariant of the search.
pub proof fn lemma_sweep<G: Scc + ?Sized>(graph: &G, s: Search<G::Vertex>, k: int)
    requires
        lists_agree(graph),
        graph.model().vertices().finite(),
        s.inv(graph.model(), Set::empty()),
        0 <= k <= graph.vertex_list().len(),
        forall|a: int| 0 <= a < k ==> s.visited(#[trigger] graph.vertex_list()[a]),
    ensures
        sweep(graph, s, k).inv(graph.model(), Set::empty()),
        forall|u: G::Vertex| sweep(graph, s, k).visited(u) <==> graph.model().discovers(u),
        sweep(graph, s, k).stack.len() == 0,
    decreases graph.vertex_list().len() - k,
{
    let g = graph.model();
    let list = graph.vertex_list();
    if k < list.len() {
        let v = list[k];
        assert(list.contains(v));
        g.lemma_root_is_vertex(v);
        let t = if s.visited(v) {
            s
        } else {
            visit(graph, s, v)
        };
        if !s.visited(v) {
            lemma_visit_returns(graph, s, v);
            g.lemma_reaches_refl(v);
        }
        assert forall|a: int| 0 <= a < k + 1 implies t.visited(#[trigger] list[a]) by {
            if a < k {
                assert(s.visited(list[a]));
            }
        }
        lemma_sweep(graph, t, k + 1);
    } else {
        assert forall|r: G::Vertex| g.roots.contains(r) implies s.visited(r) by {
            assert(list.contains(r));
            let a = choose|a: int| 0 <= a < list.len() && list[a] == r;
            assert(s.visited(list[a]));
        }
        s.lemma_complete(g);
    }
}

/// The search of the whole graph visits exactly the vertices of the graph,
/// leaves nothing open, and satisfies the invariant of the search: its
/// components are classes of mutually reachable vertices, each listed by
/// decreasing index, and none leads to a later one.
pub proof fn lemma_traversal<G: Scc + ?Sized>(graph: &G)
    requires
        lists_agree(graph),
        graph.model().vertices().finite(),
    ensures
        traversal(graph).inv(graph.model(), Set::empty()),
        forall|u: G::Vertex| traversal(graph).visited(u) <==> graph.model().discovers(u),
        traversal(graph).stack.len() == 0,
{
    nothing::<G::Vertex>().lemma_initial(graph.model());
    lemma_sweep(graph, nothing(), 0);
}

} // verus!
