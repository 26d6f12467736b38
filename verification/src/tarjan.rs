//! Tarjan's algorithm: one depth-first traversal that finds the strongly
//! connected components of a graph.

use vstd::prelude::*;
use std::collections::{HashMap, HashSet};
use vstd::std_specs::hash::obeys_key_model;
use vstd::std_specs::iter::IteratorSpec;
use std::hash::Hash;
use crate::components::{lists, Components};
use crate::dag::{lemma_fewer_left, sets};
use crate::graph::{Digraph, Scc};
use crate::tarjan::frames::{advanced, ancestors, frame_ok, frames_ok, fresh, lemma_advance_frame, lemma_first_frame, lemma_next_is_vertex, lemma_pending_nonnegative, lemma_pop_frame, lemma_push_frame, pending, resumed, FrameView};
use crate::tarjan::machine::{agrees_at, lists_agree, closed, ends_in, lemma_visit, nothing, popped, run, start, step, sweep, traversal, visit, Machine};
use crate::tarjan::search::{Record, Search};

pub mod frames;
pub mod machine;
pub mod search;

verus! {

/// What the traversal records about a visited vertex.
#[derive(Clone, Copy)]
struct Data {
    index: usize,
    lowlink: usize,
    on_stack: bool,
    component: usize,
}

/// The part of the record that the invariant of the search speaks of.
spec fn record_of(d: Data) -> Record {
    Record { index: d.index as int, on_stack: d.on_stack, component: d.component as int }
}

/// The records of all visited vertices, without their low links.
spec fn records<V>(map: Map<V, Data>) -> Map<V, Record> {
    Map::new(|v: V| map.contains_key(v), |v: V| record_of(map[v]))
}

/// The state of the traversal as a mathematical value.
spec fn snapshot<V>(map: Map<V, Data>, stack: Seq<V>, components: Seq<Vec<V>>) -> Search<V> {
    Search { recs: records(map), stack: stack, comps: lists(components) }
}

/// The visit of one vertex: the work that is left to do for it.
struct Frame<V> {
    vertex: V,
    index: usize,
    lowlink: usize,
    successors: Vec<V>,
    next: usize,
}

/// The frames of the work stack as mathematical values, `entries` being the
/// states in which the visits began.
spec fn frame_views<V>(work: Seq<Frame<V>>, entries: Seq<Search<V>>) -> Seq<FrameView<V>> {
    Seq::new(
        work.len(),
        |j: int|
            FrameView {
                v: work[j].vertex,
                succ: work[j].successors@,
                k: work[j].next as int,
                low: work[j].lowlink as int,
                entry: entries[j],
            },
    )
}

/// Looks up the record of a vertex.
fn lookup<V: Copy + Eq + Hash>(map: &HashMap<V, Data>, v: V) -> (found: Option<Data>)
    requires
        obeys_key_model::<V>(),
    ensures
        found == (if map@.contains_key(v) {
            Some(map@[v])
        } else {
            None
        }),
{
    match map.get(&v) {
        None => None,
        Some(data) => Some(*data),
    }
}

/// Records a new low link for a visited vertex.
fn set_lowlink<V: Copy + Eq + Hash>(map: &mut HashMap<V, Data>, v: V, lowlink: usize)
    requires
        obeys_key_model::<V>(),
        old(map)@.contains_key(v),
    ensures
        final(map)@ == old(map)@.insert(
            v,
            Data {
                index: old(map)@[v].index,
                lowlink: lowlink,
                on_stack: old(map)@[v].on_stack,
                component: old(map)@[v].component,
            },
        ),
        records(final(map)@) == records(old(map)@),
        final(map)@.dom() == old(map)@.dom(),
{
    let data = *map.get(&v).unwrap();
    map.insert(
        v,
        Data {
            index: data.index,
            lowlink: lowlink,
            on_stack: data.on_stack,
            component: data.component,
        },
    );
    proof {
        assert(map@.dom() =~= old(map)@.dom());
        assert(records(map@) =~= records(old(map)@));
    }
}

/// Visits `v` for the first time: gives it the next index, pushes it on the
/// stack of open vertices and asks the graph for its successors.
fn enter<G: ?Sized + Scc>(
    graph: &G,
    v: G::Vertex,
    stack: &mut Vec<G::Vertex>,
    map: &mut HashMap<G::Vertex, Data>,
) -> (frame: Frame<G::Vertex>)
    requires
        graph.wf(),
        obeys_key_model::<G::Vertex>(),
        graph.model().discovers(v),
        !old(map)@.contains_key(v),
    ensures
        final(stack)@ == old(stack)@.push(v),
        final(map)@.dom() == old(map)@.dom().insert(v),
        records(final(map)@) == records(old(map)@).insert(
            v,
            Record { index: records(old(map)@).dom().len() as int, on_stack: true, component: 0 },
        ),
        frame.vertex == v,
        frame.index == records(old(map)@).dom().len(),
        frame.lowlink == frame.index,
        frame.next == 0,
        frame.successors@ == graph.successor_list(v),
        forall|w: G::Vertex| frame.successors@.contains(w) <==> graph.model().has_edge(v, w),
{
    let index = map.len();
    stack.push(v);
    map.insert(v, Data { index, lowlink: index, on_stack: true, component: 0 });
    proof {
        assert(records(old(map)@).dom() =~= old(map)@.dom());
        assert(map@.dom() =~= old(map)@.dom().insert(v));
        assert(records(map@) =~= records(old(map)@).insert(
            v,
            Record { index: index as int, on_stack: true, component: 0 },
        ));
    }
    let successors = graph.successors(v);
    Frame { vertex: v, index, lowlink: index, successors, next: 0 }
}

/// Pops the open vertices down to the one with the given index off the
/// stack and makes them a new component.
fn close_component<V: Copy + Eq + Hash>(
    index: usize,
    stack: &mut Vec<V>,
    map: &mut HashMap<V, Data>,
    components: &mut Vec<Vec<V>>,
    Ghost(g): Ghost<Digraph<V>>,
    Ghost(p): Ghost<int>,
)
    requires
        obeys_key_model::<V>(),
        snapshot(old(map)@, old(stack)@, old(components)@).inv_recs(g),
        snapshot(old(map)@, old(stack)@, old(components)@).inv_stack(),
        0 <= p < old(stack)@.len(),
        snapshot(old(map)@, old(stack)@, old(components)@).idx(old(stack)@[p]) == index,
    ensures
        final(map)@.dom() == old(map)@.dom(),
        records(final(map)@) == snapshot(old(map)@, old(stack)@, old(components)@).closed_from(
            index as int,
        ),
        final(stack)@ == old(stack)@.take(p),
        final(components)@.len() == old(components)@.len() + 1,
        lists(final(components)@) == lists(old(components)@).push(final(components)@.last()@),
        final(components)@.last()@.len() == old(stack)@.len() - p,
        forall|t: int|
            0 <= t < old(stack)@.len() - p ==> #[trigger] final(components)@.last()@[t] == old(
                stack,
            )@[old(stack)@.len() - 1 - t],
        final(components)@.last()@.no_duplicates(),
        forall|u: V|
            final(components)@.last()@.contains(u) <==> snapshot(
                old(map)@,
                old(stack)@,
                old(components)@,
            ).open(u) && snapshot(old(map)@, old(stack)@, old(components)@).idx(u) >= index,
{
    let ghost now = snapshot(map@, stack@, components@);
    let ghost v = stack@[p];
    let mut component: Vec<V> = Vec::new();
    proof {
        let all = now.closed_from(now.count());
        assert forall|u: V| all.contains_key(u) implies #[trigger] all[u] == now.recs[u] by {
            assert(now.visited(u));
        }
        assert(all =~= now.recs);
        assert(now.recs.dom() =~= map@.dom());
        assert(now.open(now.stack[p]));
    }
    loop
        invariant_except_break
            p < stack.len(),
        invariant
            obeys_key_model::<V>(),
            now.inv_recs(g),
            now.inv_stack(),
            0 <= p < now.stack.len(),
            now.stack[p] == v,
            now.idx(v) == index,
            p <= stack.len() <= now.stack.len(),
            stack@ == now.stack.take(stack.len() as int),
            component.len() == now.stack.len() - stack.len(),
            forall|t: int|
                0 <= t < component.len() ==> #[trigger] component@[t] == now.stack[now.stack.len() - 1
                    - t],
            records(map@) == now.closed_from(now.popped_from(stack.len() as int)),
            map@.dom() == now.recs.dom(),
            components@ == old(components)@,
            now.comps.len() == components@.len(),
        ensures
            stack.len() == p,
        decreases stack.len(),
    {
        let ghost len = stack.len() as int;
        proof {
            now.lemma_pop(g, len);
        }
        let w = stack.pop().unwrap();
        assert(w == now.stack[len - 1]);
        assert(records(map@).contains_key(w));
        assert(map@.contains_key(w));
        let w_data = *map.get(&w).unwrap();
        proof {
            let t = now.popped_from(len);
            assert(now.visited(w));
            assert(now.closed_from(t)[w] == now.recs[w]);
            assert(records(map@)[w] == record_of(map@[w]));
        }
        let ghost seen = map@.dom();
        map.insert(
            w,
            Data {
                index: w_data.index,
                lowlink: w_data.lowlink,
                on_stack: false,
                component: components.len(),
            },
        );
        // Add w to current strongly connected component
        component.push(w);
        proof {
            assert(map@.dom() =~= seen);
            assert(records(map@) =~= now.closed_from(now.popped_from(len)).insert(
                w,
                Record { index: now.idx(w), on_stack: false, component: now.comps.len() as int },
            ));
            assert(stack@ =~= now.stack.take(len - 1));
            assert(now.popped_from(len - 1) == now.idx(w));
        }
        if w_data.index == index {
            proof {
                assert(now.visited(w) && now.visited(v));
                assert(w == v);
                if len - 1 > p {
                    assert(now.idx(now.stack[p]) < now.idx(now.stack[len - 1]));
                }
            }
            break ;
        }
        proof {
            if len - 1 == p {
                assert(w == v);
            }
        }
    }

    // Output the current strongly connected component
    let ghost c = component@;
    components.push(component);
    proof {
        now.lemma_popped(p, c);
        assert(lists(components@) =~= lists(old(components)@).push(c));
    }
}

/// Visits the unvisited vertex `v` and everything unvisited that it reaches,
/// and returns the low link of `v`, which is its index.
///
/// The vertices under visit are kept on a work stack, the most recent on
/// top, each with the position of the successor that it examines next.
/// Every turn of the loop is one step of the search as `machine` defines
/// it. The visit leaves the stack as it was, visits what `v` reaches and
/// nothing else, and completes the component of `v` last, with `v` as its
/// last vertex.
fn strong_connect<G: ?Sized + Scc>(
    graph: &G,
    v: G::Vertex,
    stack: &mut Vec<G::Vertex>,
    map: &mut HashMap<G::Vertex, Data>,
    components: &mut Vec<Vec<G::Vertex>>,
) -> (lowlink: usize)
    requires
        graph.wf(),
        obeys_key_model::<G::Vertex>(),
        graph.model().vertices().finite(),
        snapshot(old(map)@, old(stack)@, old(components)@).inv(graph.model(), Set::empty()),
        !old(map)@.contains_key(v),
        graph.model().discovers(v),
        forall|x: G::Vertex| old(map)@.contains_key(x) ==> agrees_at(graph, x),
    ensures
        forall|x: G::Vertex| final(map)@.contains_key(x) ==> agrees_at(graph, x),
        snapshot(final(map)@, final(stack)@, final(components)@) == visit(
            graph,
            snapshot(old(map)@, old(stack)@, old(components)@),
            v,
        ),
        snapshot(old(map)@, old(stack)@, old(components)@).returned(
            graph.model(),
            snapshot(final(map)@, final(stack)@, final(components)@),
            Set::empty(),
            v,
            lowlink as int,
        ),
        lowlink == old(map)@.len(),
        final(stack)@ == old(stack)@,
        final(map)@.dom() == old(map)@.dom().union(
            Set::new(|u: G::Vertex| graph.model().reaches(v, u)),
        ),
        final(components)@.len() > old(components)@.len(),
        final(components)@.last()@.len() > 0,
        final(components)@.last()@.last() == v,
{
    let ghost g = graph.model();
    let ghost s0 = snapshot(map@, stack@, components@);
    let ghost mut steps: nat = 0;
    let ghost keys = map@.dom();
    let first = enter(graph, v, stack, map);
    let mut work: Vec<Frame<G::Vertex>> = Vec::new();
    let ghost mut entries: Seq<Search<G::Vertex>> = seq![s0];
    proof {
        assert(snapshot(map@, stack@, components@) == s0.enter(v));
        lemma_first_frame(g, s0, v, first.successors@);
        assert(frame_views(seq![first], entries) =~= seq![fresh(s0, v, first.successors@)]);
    }
    work.push(first);
    proof {
        assert(work@ =~= seq![first]);
        assert(frame_views(work@, entries) =~= start(graph, s0, v).frames);
    }

    loop
        invariant
            graph.wf(),
            obeys_key_model::<G::Vertex>(),
            g == graph.model(),
            g.vertices().finite(),
            s0 == snapshot(old(map)@, old(stack)@, old(components)@),
            keys == old(map)@.dom(),
            work.len() > 0,
            entries.len() == work.len(),
            entries[0] == s0,
            work[0].vertex == v,
            forall|j: int| 0 <= j < work.len() ==> (#[trigger] work[j]).index == entries[j].count(),
            forall|x: G::Vertex| map@.contains_key(x) ==> agrees_at(graph, x),
            frames_ok(g, frame_views(work@, entries), snapshot(map@, stack@, components@)),
            run(graph, start(graph, s0, v), steps) == (Machine {
                now: snapshot(map@, stack@, components@),
                frames: frame_views(work@, entries),
            }),
        decreases
            g.vertices().difference(map@.dom()).len(),
            pending(frame_views(work@, entries)),
    {
        let ghost frames = frame_views(work@, entries);
        let ghost now = snapshot(map@, stack@, components@);
        let ghost m = work.len() as int;
        let ghost gray = ancestors(frames, m - 1);
        let ghost seen = map@.dom();
        let ghost machine = Machine { now: now, frames: frames };
        let ghost first_machine = start(graph, s0, v);
        let top = work.len() - 1;
        proof {
            assert(frame_ok(g, frames, now, m - 1));
            assert(now.recs.dom() =~= map@.dom());
            lemma_pending_nonnegative(g, frames, now, m);
            assert(frames.take(m) =~= frames);
        }
        let next = work[top].next;
        if next < work[top].successors.len() {
            // Consider the next successor of the vertex on top
            let w = work[top].successors[next];
            match lookup(map, w) {
                None => {
                    // Successor w has not yet been visited; visit it
                    proof {
                        lemma_next_is_vertex(g, frames, now);
                    }
                    let child = enter(graph, w, stack, map);
                    proof {
                        lemma_push_frame(g, frames, now, child.successors@);
                        assert(snapshot(map@, stack@, components@) == now.enter(w));
                        assert(frame_views(work@.push(child), entries.push(now)) =~= frames.push(
                            fresh(now, w, child.successors@),
                        ));
                        entries = entries.push(now);
                        assert(g.vertices().contains(w));
                        assert(seen.subset_of(map@.dom()));
                        lemma_fewer_left(g.vertices(), seen, map@.dom(), w);
                    }
                    work.push(child);
                    proof {
                        assert(!now.visited(w));
                        assert(step(graph, machine) == (Machine {
                            now: now.enter(w),
                            frames: frames.push(fresh(now, w, graph.successor_list(w))),
                        }));
                        assert(run(graph, first_machine, (steps + 1) as nat) == step(
                            graph,
                            run(graph, first_machine, steps),
                        ));
                        steps = steps + 1;
                    }
                },
                Some(w_data) => {
                    let low = work[top].lowlink;
                    proof {
                        assert(now.visited(w));
                        lemma_advance_frame(g, frames, now);
                    }
                    if w_data.on_stack && w_data.index < low {
                        // Successor w is on the stack and hence in the
                        // current component; its index counts, not its low
                        // link.
                        work[top].lowlink = w_data.index;
                        proof {
                            assert(now.visited(work[top as int].vertex));
                        }
                        set_lowlink(map, work[top].vertex, w_data.index);
                    }
                    work[top].next = next + 1;
                    proof {
                        assert(frame_views(work@, entries) =~= frames.update(
                            m - 1,
                            advanced(frames[m - 1], now),
                        ));
                        assert(snapshot(map@, stack@, components@) == now);
                        assert(map@.dom() == seen);
                        let moved = frame_views(work@, entries);
                        lemma_pending_nonnegative(g, moved, now, m);
                        assert(moved.take(m) =~= moved);
                        assert(step(graph, machine) == (Machine {
                            now: now,
                            frames: frames.update(m - 1, advanced(frames[m - 1], now)),
                        }));
                        assert(run(graph, first_machine, (steps + 1) as nat) == step(
                            graph,
                            run(graph, first_machine, steps),
                        ));
                        steps = steps + 1;
                    }
                },
            }
        } else {
            let frame = work.pop().unwrap();
            let lowlink = frame.lowlink;
            let ghost entry = entries[m - 1];
            proof {
                assert(frames[m - 1].k == frames[m - 1].succ.len());
            }
            // If the vertex is a root node, pop the stack and generate a
            // component
            if lowlink == frame.index {
                proof {
                    assert(now.open(frame.vertex));
                }
                close_component(
                    frame.index,
                    stack,
                    map,
                    components,
                    Ghost(g),
                    Ghost(entry.stack.len() as int),
                );
                proof {
                    let end = snapshot(map@, stack@, components@);
                    entry.lemma_finish_root(
                        g,
                        now,
                        end,
                        gray,
                        frame.vertex,
                        frame.successors@,
                        components@.last()@,
                    );
                    assert(components@.last()@ =~= popped(now, entry.stack.len() as int));
                    assert(end == closed(now, frames[m - 1]));
                }
            } else {
                proof {
                    entry.lemma_finish_open(
                        g,
                        now,
                        gray,
                        frame.vertex,
                        lowlink as int,
                        frame.successors@,
                    );
                }
            }
            let ghost end = snapshot(map@, stack@, components@);
            proof {
                assert(entry.returned(g, end, gray, frame.vertex, lowlink as int));
                assert(end == crate::tarjan::machine::finished(now, frames[m - 1]));
                assert(run(graph, first_machine, (steps + 1) as nat) == step(
                    graph,
                    run(graph, first_machine, steps),
                ));
            }
            if work.len() == 0 {
                proof {
                    assert(gray =~= Set::<G::Vertex>::empty());
                    assert(step(graph, machine) == (Machine {
                        now: end,
                        frames: Seq::<FrameView<G::Vertex>>::empty(),
                    }));
                    assert(ends_in(graph, s0, v, (steps + 1) as nat));
                    lemma_visit(graph, s0, v, (steps + 1) as nat);
                    s0.lemma_outermost(g, end, v, lowlink as int);
                    assert(s0.recs.dom() =~= old(map)@.dom());
                    assert(lists(components@).last() == components@.last()@);
                    assert(map@.dom() =~= keys.union(
                        Set::new(|u: G::Vertex| graph.model().reaches(v, u)),
                    )) by {
                        assert forall|u: G::Vertex| map@.dom().contains(u) == (keys.contains(u)
                            || g.reaches(v, u)) by {
                            assert(end.visited(u) == map@.dom().contains(u));
                            assert(s0.visited(u) == keys.contains(u));
                            assert(end.visited(u) <==> s0.visited(u) || g.reaches(v, u));
                        }
                    }
                }
                return lowlink;
            }
            let parent = work.len() - 1;
            proof {
                lemma_pop_frame(g, frames, now, end, lowlink as int);
                assert(now.visited(work[parent as int].vertex)) by {
                    assert(frame_ok(g, frames, now, m - 2));
                    let f = frames[m - 2];
                    assert(f.entry.visiting(g, entry, ancestors(frames, m - 2), f.v, f.low));
                    assert(entry.visited(f.v));
                    assert(now.visited(f.v));
                }
                assert(end.visited(work[parent as int].vertex));
            }
            if lowlink < work[parent].lowlink {
                work[parent].lowlink = lowlink;
                set_lowlink(map, work[parent].vertex, lowlink);
            }
            let parent_next = work[parent].next;
            proof {
                assert(frame_ok(g, frames, now, m - 2));
                assert(parent_next == frames[m - 2].k);
                assert(frames[m - 2].succ.len() == work[parent as int].successors.len());
            }
            work[parent].next = parent_next + 1;
            proof {
                entries = entries.drop_last();
                assert(frame_views(work@, entries) =~= frames.drop_last().update(
                    m - 2,
                    resumed(frames[m - 2], lowlink as int),
                ));
                assert(snapshot(map@, stack@, components@) == end);
                assert(map@.dom() == seen);
                let rest = frame_views(work@, entries);
                lemma_pending_nonnegative(g, rest, end, m - 1);
                assert(rest.take(m - 1) =~= rest);
                assert(step(graph, machine) == (Machine {
                    now: end,
                    frames: frames.drop_last().update(m - 2, resumed(frames[m - 2], lowlink as int)),
                }));
                steps = steps + 1;
            }
        }
    }
}

/// Maps every visited vertex to the index of its component.
fn component_indices<V: Copy + Eq + Hash>(map: &HashMap<V, Data>) -> (indices: HashMap<V, usize>)
    requires
        obeys_key_model::<V>(),
    ensures
        forall|v: V| indices@.contains_key(v) <==> map@.contains_key(v),
        forall|v: V| map@.contains_key(v) ==> indices@[v] == map@[v].component,
{
    let mut indices: HashMap<V, usize> = HashMap::new();
    for entry in it: map.iter()
        invariant
            obeys_key_model::<V>(),
            forall|v: V| #[trigger]
                indices@.contains_key(v) ==> map@.contains_key(v) && indices@[v]
                    == map@[v].component,
            forall|j: int| 0 <= j < it.index() ==> indices@.contains_key(*(#[trigger] it.seq()[j]).0),
    {
        let (v, data) = entry;
        indices.insert(*v, data.component);
    }
    proof {
        assert forall|v: V| map@.contains_key(v) implies indices@.contains_key(v) by {
            let all = map.iter().remaining();
            assert(all.contains((&v, &map@[v])));
            let j = choose|j: int| 0 <= j < all.len() && all[j] == (&v, &map@[v]);
            assert(indices@.contains_key(*all[j].0));
        }
    }
    indices
}

/// Collects the indices of the components that the edges from the vertices
/// of `component` lead to.
fn component_successors<G: ?Sized + Scc>(
    graph: &G,
    component: &Vec<G::Vertex>,
    indices: &HashMap<G::Vertex, usize>,
) -> (targets: HashSet<usize>)
    requires
        graph.wf(),
        obeys_key_model::<G::Vertex>(),
        forall|k: int| 0 <= k < component.len() ==> graph.model().discovers(#[trigger] component@[k]),
        forall|v: G::Vertex| graph.model().discovers(v) ==> indices@.contains_key(v),
    ensures
        forall|j: usize|
            targets@.contains(j) <==> Search::leads_to(graph.model(), component@, indices@, j),
{
    let ghost g = graph.model();
    let mut targets: HashSet<usize> = HashSet::new();
    let mut k: usize = 0;
    while k < component.len()
        invariant
            k <= component.len(),
            graph.wf(),
            g == graph.model(),
            obeys_key_model::<G::Vertex>(),
            forall|k: int| 0 <= k < component.len() ==> g.discovers(#[trigger] component@[k]),
            forall|v: G::Vertex| g.discovers(v) ==> indices@.contains_key(v),
            forall|j: usize|
                targets@.contains(j) ==> Search::leads_to(g, component@, indices@, j),
            forall|a: int, w: G::Vertex|
                0 <= a < k && #[trigger] g.has_edge(component@[a], w) ==> indices@.contains_key(w)
                    && targets@.contains(indices@[w]),
        decreases component.len() - k,
    {
        let v = component[k];
        let succ = graph.successors(v);
        let mut t: usize = 0;
        while t < succ.len()
            invariant
                t <= succ.len(),
                k < component.len(),
                v == component@[k as int],
                obeys_key_model::<G::Vertex>(),
                g.discovers(v),
                forall|w: G::Vertex| succ@.contains(w) <==> g.has_edge(v, w),
                forall|v: G::Vertex| g.discovers(v) ==> indices@.contains_key(v),
                forall|j: usize|
                    targets@.contains(j) ==> Search::leads_to(g, component@, indices@, j),
                forall|a: int, w: G::Vertex|
                    0 <= a < k && #[trigger] g.has_edge(component@[a], w) ==> indices@.contains_key(
                        w,
                    ) && targets@.contains(indices@[w]),
                forall|b: int|
                    0 <= b < t ==> indices@.contains_key(#[trigger] succ@[b]) && targets@.contains(
                        indices@[succ@[b]],
                    ),
            decreases succ.len() - t,
        {
            let w = succ[t];
            proof {
                assert(succ@.contains(w));
                assert(g.has_edge(v, w));
                g.lemma_vertices_closed();
                assert(g.vertices().contains(v));
                assert(g.vertices().contains(w));
                assert(g.discovers(w));
            }
            let j = *indices.get(&w).unwrap();
            targets.insert(j);
            proof {
                assert(g.has_edge(component@[k as int], w) && indices@.contains_key(w)
                    && indices@[w] == j);
            }
            t += 1;
        }
        proof {
            assert forall|a: int, w: G::Vertex|
                0 <= a < k + 1 && #[trigger] g.has_edge(component@[a], w) implies indices@.contains_key(
                w,
            ) && targets@.contains(indices@[w]) by {
                if a == k {
                    assert(succ@.contains(w));
                    let b = choose|b: int| 0 <= b < succ@.len() && succ@[b] == w;
                    assert(indices@.contains_key(succ@[b]));
                }
            }
        }
        k += 1;
    }
    targets
}

/// Computes the strongly connected components of `graph`.
///
/// The components come in the order of their completion: every component
/// that an edge leads to from a component stands before that component, or
/// is that component. Which of these orders it is, and in which order a
/// component lists its vertices, follows from the order in which the graph
/// hands out its vertices and their successors: the components are those of
/// [`traversal`], in which a component lists the vertex visited last first.
pub fn scc<G: ?Sized + Scc>(graph: &G) -> (c: Components<G::Vertex>)
    requires
        graph.wf(),
        graph.model().vertices().finite(),
        obeys_key_model::<G::Vertex>(),
    ensures
        c@.wf(),
        c@.decomposes(graph.model()),
        c@.list == traversal(graph).comps,
        traversal(graph).inv(graph.model(), Set::empty()),
        traversal(graph).stack.len() == 0,
        lists_agree(graph),
{
    let ghost g = graph.model();
    let mut map: HashMap<G::Vertex, Data> = HashMap::new();
    let mut stack: Vec<G::Vertex> = Vec::new();
    let mut components: Vec<Vec<G::Vertex>> = Vec::new();
    proof {
        let s = snapshot(map@, stack@, components@);
        assert(s.recs =~= Map::<G::Vertex, Record>::empty());
        assert(s.comps =~= Seq::<Seq<G::Vertex>>::empty());
        s.lemma_initial(g);
        assert(s == nothing::<G::Vertex>());
    }

    let roots = graph.vertices();
    let mut k: usize = 0;
    while k < roots.len()
        invariant
            k <= roots.len(),
            graph.wf(),
            g == graph.model(),
            g.vertices().finite(),
            obeys_key_model::<G::Vertex>(),
            roots@ == graph.vertex_list(),
            forall|v: G::Vertex| roots@.contains(v) <==> g.roots.contains(v),
            snapshot(map@, stack@, components@).inv(g, Set::empty()),
            forall|a: int| 0 <= a < k ==> map@.contains_key(#[trigger] roots@[a]),
            forall|x: G::Vertex| map@.contains_key(x) ==> agrees_at(graph, x),
            sweep(graph, snapshot(map@, stack@, components@), k as int) == traversal(graph),
        decreases roots.len() - k,
    {
        let v = roots[k];
        proof {
            let s = snapshot(map@, stack@, components@);
            assert(s.visited(v) == map@.contains_key(v));
            assert(sweep(graph, s, k as int) == sweep(
                graph,
                if s.visited(v) {
                    s
                } else {
                    visit(graph, s, v)
                },
                k + 1,
            ));
        }
        if !map.contains_key(&v) {
            let ghost before = snapshot(map@, stack@, components@);
            proof {
                assert(roots@.contains(v));
                g.lemma_root_is_vertex(v);
            }
            strong_connect(graph, v, &mut stack, &mut map, &mut components);
            proof {
                let after = snapshot(map@, stack@, components@);
                assert(after.visited(v));
                assert forall|a: int| 0 <= a < k implies map@.contains_key(#[trigger] roots@[a]) by {
                    assert(before.visited(roots@[a]));
                    assert(after.visited(roots@[a]));
                }
            }
        }
        k += 1;
    }

    let ghost end = snapshot(map@, stack@, components@);
    proof {
        assert forall|r: G::Vertex| g.roots.contains(r) implies end.visited(r) by {
            assert(roots@.contains(r));
            let a = choose|a: int| 0 <= a < roots@.len() && roots@[a] == r;
            assert(map@.contains_key(roots@[a]));
        }
        end.lemma_complete(g);
        assert forall|x: G::Vertex| #[trigger] g.discovers(x) implies agrees_at(graph, x) by {
            assert(end.visited(x));
            assert(map@.contains_key(x));
        }
        assert(lists_agree(graph));
    }

    let vertex_to_component = component_indices(&map);

    let mut successors: Vec<HashSet<usize>> = Vec::new();
    let mut i: usize = 0;
    while i < components.len()
        invariant
            i <= components.len(),
            successors.len() == i,
            graph.wf(),
            g == graph.model(),
            obeys_key_model::<G::Vertex>(),
            end == snapshot(map@, stack@, components@),
            end.inv(g, Set::empty()),
            forall|v: G::Vertex| end.visited(v) <==> g.discovers(v),
            forall|v: G::Vertex| vertex_to_component@.contains_key(v) <==> map@.contains_key(v),
            forall|c: int, j: usize|
                0 <= c < i ==> (#[trigger] successors@[c]@.contains(j) <==> Search::leads_to(
                    g,
                    end.comps[c],
                    vertex_to_component@,
                    j,
                )),
        decreases components.len() - i,
    {
        proof {
            assert forall|k: int| 0 <= k < components@[i as int].len() implies g.discovers(
                #[trigger] components@[i as int]@[k],
            ) by {
                assert(end.done(end.comps[i as int][k]));
                assert(end.visited(end.comps[i as int][k]));
            }
            assert forall|v: G::Vertex| g.discovers(v) implies vertex_to_component@.contains_key(
                v,
            ) by {
                assert(end.visited(v));
            }
        }
        let targets = component_successors(graph, &components[i], &vertex_to_component);
        successors.push(targets);
        i += 1;
    }

    proof {
        let succs = sets(successors@);
        assert forall|v: G::Vertex| end.visited(v) implies vertex_to_component@[v] == end.comp(
            v,
        ) by {
            assert(map@.contains_key(v));
        }
        assert forall|c: int, j: usize| 0 <= c < end.comps.len() implies (
        #[trigger] succs[c].contains(j) <==> Search::leads_to(
            g,
            end.comps[c],
            vertex_to_component@,
            j,
        )) by {
            assert(succs[c] == successors@[c]@);
        }
        end.lemma_decomposition(g, vertex_to_component@, succs);
    }

    Components::from_parts(components, vertex_to_component, successors)
}

/// The computation of the components as a method of every graph.
pub trait StronglyConnected: Scc {
    /// Computes the strongly connected components of the graph.
    fn strongly_connected_components(&self) -> (c: Components<Self::Vertex>)
        requires
            self.wf(),
            self.model().vertices().finite(),
            obeys_key_model::<Self::Vertex>(),
        ensures
            c@.wf(),
            c@.decomposes(self.model()),
            c@.list == traversal(self).comps,
            traversal(self).inv(self.model(), Set::empty()),
            traversal(self).stack.len() == 0,
            lists_agree(self),
    ;
}

impl<G: ?Sized + Scc> StronglyConnected for G {
    /// Computes the strongly connected components of the graph.
    fn strongly_connected_components(&self) -> (c: Components<Self::Vertex>) {
        scc(self)
    }
}

} // verus!
