//! The work stack of the depth-first search as a mathematical value: one
//! frame for every vertex under visit, the oldest first.

use vstd::prelude::*;
use crate::graph::Digraph;
use crate::tarjan::search::Search;

verus! {

/// The visit of one vertex.
#[verifier::reject_recursive_types(V)]
pub struct FrameView<V> {
    /// The vertex under visit.
    pub v: V,
    /// Its successors.
    pub succ: Seq<V>,
    /// How many of them have been examined.
    pub k: int,
    /// Its low link so far.
    pub low: int,
    /// The state of the search when the visit began.
    pub entry: Search<V>,
}

/// The vertices of the first `j` frames.
pub open spec fn ancestors<V>(frames: Seq<FrameView<V>>, j: int) -> Set<V> {
    Set::new(|x: V| exists|a: int| 0 <= a < j && a < frames.len() && (#[trigger] frames[a]).v == x)
}

/// The state in which frame `j` examines its successors: the state in which
/// the frame above it began, or the present state for the top frame.
pub open spec fn state_of<V>(frames: Seq<FrameView<V>>, now: Search<V>, j: int) -> Search<V> {
    if j + 1 < frames.len() {
        frames[j + 1].entry
    } else {
        now
    }
}

/// Frame `j` is in order: its vertex examines its successors with the
/// vertices of the frames below it under visit, and if it is not the top
/// frame, the successor that it is about to examine is the vertex of the
/// frame above it.
pub open spec fn frame_ok<V>(g: Digraph<V>, frames: Seq<FrameView<V>>, now: Search<V>, j: int) -> bool {
    let f = frames[j];
    let then = state_of(frames, now, j);
    &&& f.entry.visiting(g, then, ancestors(frames, j), f.v, f.low)
    &&& then.examined(f.succ, f.k, f.low)
    &&& 0 <= f.k <= f.succ.len()
    &&& forall|w: V| f.succ.contains(w) <==> g.has_edge(f.v, w)
    &&& j + 1 < frames.len() ==> f.k < f.succ.len() && f.succ[f.k] == frames[j + 1].v
}

/// All frames are in order.
pub open spec fn frames_ok<V>(g: Digraph<V>, frames: Seq<FrameView<V>>, now: Search<V>) -> bool {
    forall|j: int| 0 <= j < frames.len() ==> #[trigger] frame_ok(g, frames, now, j)
}

/// The number of successors that the frames have not examined yet.
pub open spec fn pending<V>(frames: Seq<FrameView<V>>) -> int
    decreases frames.len(),
{
    if frames.len() == 0 {
        0
    } else {
        pending(frames.drop_last()) + (frames.last().succ.len() - frames.last().k)
    }
}

/// Frames that are in order have no negative number of successors left.
pub proof fn lemma_pending_nonnegative<V>(g: Digraph<V>, frames: Seq<FrameView<V>>, now: Search<V>, n: int)
    requires
        0 <= n <= frames.len(),
        frames_ok(g, frames, now),
    ensures
        pending(frames.take(n)) >= 0,
    decreases n,
{
    if n > 0 {
        lemma_pending_nonnegative(g, frames, now, n - 1);
        assert(frames.take(n).drop_last() =~= frames.take(n - 1));
        assert(frame_ok(g, frames, now, n - 1));
    }
}

/// The vertices of the first `j + 1` frames are those of the first `j` and
/// the vertex of frame `j`.
pub proof fn lemma_ancestors_next<V>(frames: Seq<FrameView<V>>, j: int)
    requires
        0 <= j < frames.len(),
    ensures
        ancestors(frames, j + 1) == ancestors(frames, j).insert(frames[j].v),
{
    let a = ancestors(frames, j + 1);
    let b = ancestors(frames, j).insert(frames[j].v);
    assert forall|x: V| a.contains(x) implies b.contains(x) by {
        let i = choose|i: int| 0 <= i < j + 1 && i < frames.len() && (#[trigger] frames[i]).v == x;
        if i < j {
            assert(ancestors(frames, j).contains(x));
        }
    }
    assert forall|x: V| b.contains(x) implies a.contains(x) by {
        if ancestors(frames, j).contains(x) {
            let i = choose|i: int| 0 <= i < j && i < frames.len() && (#[trigger] frames[i]).v == x;
            assert(0 <= i < j + 1);
        } else {
            assert(frames[j].v == x);
        }
    }
    assert(a =~= b);
}

/// Frames that agree in their vertices below `j` have the same ancestors
/// at `j`.
pub proof fn lemma_ancestors_same<V>(first: Seq<FrameView<V>>, second: Seq<FrameView<V>>, j: int)
    requires
        0 <= j <= first.len(),
        j <= second.len(),
        forall|a: int| 0 <= a < j ==> (#[trigger] first[a]).v == second[a].v,
    ensures
        ancestors(first, j) == ancestors(second, j),
{
    let x = ancestors(first, j);
    let y = ancestors(second, j);
    assert forall|v: V| x.contains(v) implies y.contains(v) by {
        let a = choose|a: int| 0 <= a < j && a < first.len() && (#[trigger] first[a]).v == v;
        assert(second[a].v == v);
    }
    assert forall|v: V| y.contains(v) implies x.contains(v) by {
        let a = choose|a: int| 0 <= a < j && a < second.len() && (#[trigger] second[a]).v == v;
        assert(first[a].v == v);
    }
    assert(x =~= y);
}

/// The frame of a vertex that has just been visited for the first time.
pub open spec fn fresh<V>(now: Search<V>, w: V, succ: Seq<V>) -> FrameView<V> {
    FrameView { v: w, succ: succ, k: 0, low: now.count(), entry: now }
}

/// The first visit of a root makes a work stack of one frame.
pub proof fn lemma_first_frame<V>(g: Digraph<V>, now: Search<V>, v: V, succ: Seq<V>)
    requires
        now.inv(g, Set::empty()),
        !now.visited(v),
        g.discovers(v),
        forall|w: V| succ.contains(w) <==> g.has_edge(v, w),
    ensures
        frames_ok(g, seq![fresh(now, v, succ)], now.enter(v)),
{
    let frames = seq![fresh(now, v, succ)];
    now.lemma_enter(g, Set::empty(), v);
    assert(ancestors(frames, 0) =~= Set::<V>::empty());
    assert(frame_ok(g, frames, now.enter(v), 0));
}

/// The successor that the top frame is about to examine is a vertex of the
/// graph.
pub proof fn lemma_next_is_vertex<V>(g: Digraph<V>, frames: Seq<FrameView<V>>, now: Search<V>)
    requires
        frames.len() > 0,
        frames_ok(g, frames, now),
        0 <= frames.last().k < frames.last().succ.len(),
    ensures
        g.has_edge(frames.last().v, frames.last().succ[frames.last().k]),
        g.discovers(frames.last().succ[frames.last().k]),
{
    let top = frames[frames.len() - 1];
    let w = top.succ[top.k];
    assert(frame_ok(g, frames, now, frames.len() - 1));
    assert(top.succ.contains(w));
    assert(now.visited(top.v));
    g.lemma_vertices_closed();
    assert(g.vertices().contains(top.v));
    assert(g.vertices().contains(w));
}

/// The first visit of the successor that the top frame is about to examine
/// puts a frame on top of the work stack.
pub proof fn lemma_push_frame<V>(g: Digraph<V>, frames: Seq<FrameView<V>>, now: Search<V>, succ: Seq<V>)
    requires
        frames.len() > 0,
        frames_ok(g, frames, now),
        0 <= frames.last().k < frames.last().succ.len(),
        !now.visited(frames.last().succ[frames.last().k]),
        forall|w: V|
            succ.contains(w) <==> g.has_edge(frames.last().succ[frames.last().k], w),
    ensures
        g.discovers(frames.last().succ[frames.last().k]),
        frames_ok(
            g,
            frames.push(fresh(now, frames.last().succ[frames.last().k], succ)),
            now.enter(frames.last().succ[frames.last().k]),
        ),
{
    let m = frames.len() as int;
    let top = frames[m - 1];
    let w = top.succ[top.k];
    let gray = ancestors(frames, m - 1);
    let all = ancestors(frames, m);
    let grown = frames.push(fresh(now, w, succ));
    let after = now.enter(w);
    assert(frame_ok(g, frames, now, m - 1));
    lemma_ancestors_next(frames, m - 1);
    assert(top.succ.contains(w));
    assert(g.has_edge(top.v, w));
    assert(now.visited(top.v));
    g.lemma_vertices_closed();
    assert(g.vertices().contains(top.v));
    assert(g.vertices().contains(w));
    assert forall|x: V| all.contains(x) implies g.reaches(x, w) by {
        if x != top.v {
            assert(gray.contains(x));
            assert(top.entry.visited(x));
            assert(now.open(x));
        }
        assert(g.reaches(x, top.v));
        g.lemma_reaches_edge(top.v, w);
        g.lemma_reaches_trans(x, top.v, w);
    }
    now.lemma_enter(g, all, w);
    assert forall|j: int| 0 <= j < grown.len() implies #[trigger] frame_ok(g, grown, after, j) by {
        if j < m {
            assert(frame_ok(g, frames, now, j));
            assert(grown[j] == frames[j]);
            assert(state_of(grown, after, j) == state_of(frames, now, j));
            lemma_ancestors_same(grown, frames, j);
            if j + 1 < m {
                assert(grown[j + 1] == frames[j + 1]);
            }
        } else {
            lemma_ancestors_same(grown, frames, m);
        }
    }
}

/// The top frame after it has examined a successor that was visited
/// before.
pub open spec fn advanced<V>(top: FrameView<V>, now: Search<V>) -> FrameView<V> {
    let w = top.succ[top.k];
    FrameView {
        v: top.v,
        succ: top.succ,
        k: top.k + 1,
        low: if now.open(w) && now.idx(w) < top.low {
            now.idx(w)
        } else {
            top.low
        },
        entry: top.entry,
    }
}

/// Examining a successor that was visited before keeps the frames in order
/// and leaves one successor less to examine.
pub proof fn lemma_advance_frame<V>(g: Digraph<V>, frames: Seq<FrameView<V>>, now: Search<V>)
    requires
        frames.len() > 0,
        frames_ok(g, frames, now),
        0 <= frames.last().k < frames.last().succ.len(),
        now.visited(frames.last().succ[frames.last().k]),
    ensures
        frames_ok(g, frames.update(frames.len() - 1, advanced(frames.last(), now)), now),
        pending(frames.update(frames.len() - 1, advanced(frames.last(), now))) == pending(frames)
            - 1,
{
    let m = frames.len() as int;
    let top = frames[m - 1];
    let w = top.succ[top.k];
    let gray = ancestors(frames, m - 1);
    let moved = frames.update(m - 1, advanced(top, now));
    assert(frame_ok(g, frames, now, m - 1));
    assert(top.succ.contains(w));
    assert(g.has_edge(top.v, w));
    if now.open(w) {
        top.entry.lemma_examine_open(g, now, gray, top.v, top.low, top.succ, top.k);
    } else {
        assert(now.done(w));
        now.lemma_examine_done(top.succ, top.k, top.low);
    }
    assert forall|j: int| 0 <= j < moved.len() implies #[trigger] frame_ok(g, moved, now, j) by {
        assert(frame_ok(g, frames, now, j));
        lemma_ancestors_same(moved, frames, j);
        assert(state_of(moved, now, j) == state_of(frames, now, j));
        if j < m - 1 {
            assert(moved[j] == frames[j]);
        }
    }
    assert(moved.drop_last() =~= frames.drop_last());
}

/// The frame below the top after the visit of the top frame's vertex has
/// returned `n`.
pub open spec fn resumed<V>(parent: FrameView<V>, n: int) -> FrameView<V> {
    FrameView {
        v: parent.v,
        succ: parent.succ,
        k: parent.k + 1,
        low: if n < parent.low {
            n
        } else {
            parent.low
        },
        entry: parent.entry,
    }
}

/// When the visit of the top frame's vertex has ended, the frame below it
/// goes on with its next successor.
pub proof fn lemma_pop_frame<V>(
    g: Digraph<V>,
    frames: Seq<FrameView<V>>,
    now: Search<V>,
    end: Search<V>,
    n: int,
)
    requires
        frames.len() >= 2,
        frames_ok(g, frames, now),
        frames.last().k == frames.last().succ.len(),
        frames.last().entry.returned(
            g,
            end,
            ancestors(frames, frames.len() - 1),
            frames.last().v,
            n,
        ),
    ensures
        frames_ok(
            g,
            frames.drop_last().update(frames.len() - 2, resumed(frames[frames.len() - 2], n)),
            end,
        ),
        pending(frames.drop_last().update(frames.len() - 2, resumed(frames[frames.len() - 2], n)))
            == pending(frames) - 1,
{
    let m = frames.len() as int;
    let top = frames[m - 1];
    let parent = frames[m - 2];
    let rest = frames.drop_last().update(m - 2, resumed(parent, n));
    assert(frame_ok(g, frames, now, m - 1));
    assert(frame_ok(g, frames, now, m - 2));
    lemma_ancestors_next(frames, m - 2);
    let gray = ancestors(frames, m - 2);
    assert(parent.succ.contains(parent.succ[parent.k]));
    assert(g.has_edge(parent.v, top.v));
    parent.entry.lemma_examine_unvisited(
        g,
        top.entry,
        end,
        gray,
        parent.v,
        parent.low,
        parent.succ,
        parent.k,
        n,
    );
    assert forall|j: int| 0 <= j < rest.len() implies #[trigger] frame_ok(g, rest, end, j) by {
        assert(frame_ok(g, frames, now, j));
        lemma_ancestors_same(rest, frames, j);
        if j < m - 2 {
            assert(rest[j] == frames[j]);
            assert(state_of(rest, end, j) == state_of(frames, now, j));
            if j + 1 < m - 2 {
                assert(rest[j + 1] == frames[j + 1]);
            }
        }
    }
    assert(frames.drop_last().drop_last() =~= rest.drop_last());
    assert(pending(frames) == pending(frames.drop_last()) + 0);
    assert(pending(frames.drop_last()) == pending(frames.drop_last().drop_last()) + (
    parent.succ.len() - parent.k));
    assert(pending(rest) == pending(rest.drop_last()) + (parent.succ.len() - (parent.k + 1)));
}

} // verus!
