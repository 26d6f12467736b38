//! Paths in a graph whose vertices are the numbers below the length of its
//! adjacency sequence. An edge from a vertex to itself is never part of a
//! path.

use vstd::prelude::*;
use std::collections::HashSet;

verus! {

/// The adjacency sets that a sequence of hash sets holds.
pub open spec fn sets(v: Seq<HashSet<usize>>) -> Seq<Set<usize>> {
    Seq::new(v.len(), |i: int| v[i]@)
}

/// Every adjacent vertex is a vertex of the graph.
pub open spec fn in_range(adj: Seq<Set<usize>>) -> bool {
    forall|i: int, c: usize| 0 <= i < adj.len() && #[trigger] adj[i].contains(c) ==> c < adj.len()
}

/// The vertex after position `k` of `p` is adjacent to the one at position
/// `k` and differs from it.
pub open spec fn step_at(adj: Seq<Set<usize>>, p: Seq<usize>, k: int) -> bool {
    adj[p[k] as int].contains(p[k + 1]) && p[k] != p[k + 1]
}

/// `p` is a non-empty sequence of vertices, each adjacent to the one before
/// it and different from it.
pub open spec fn is_path(adj: Seq<Set<usize>>, p: Seq<usize>) -> bool {
    &&& p.len() > 0
    &&& forall|k: int| 0 <= k < p.len() ==> (#[trigger] p[k]) < adj.len()
    &&& forall|k: int| 0 <= k < p.len() - 1 ==> #[trigger] step_at(adj, p, k)
}

/// No path of more than one vertex returns to where it started.
pub open spec fn acyclic(adj: Seq<Set<usize>>) -> bool {
    forall|p: Seq<usize>| #[trigger] is_path(adj, p) && p.len() >= 2 ==> p.first() != p.last()
}

/// Some path of `d` edges ends at `i`.
#[verifier::opaque]
pub open spec fn has_path_to(adj: Seq<Set<usize>>, i: usize, d: int) -> bool {
    exists|p: Seq<usize>| is_path(adj, p) && p.last() == i && p.len() == d + 1
}

/// `d` is the number of edges of the longest path that ends at `i`.
pub open spec fn is_depth(adj: Seq<Set<usize>>, i: usize, d: int) -> bool {
    &&& has_path_to(adj, i, d)
    &&& forall|p: Seq<usize>| #[trigger] is_path(adj, p) && p.last() == i ==> p.len() <= d + 1
}

/// Some path of at least one edge leads from `j` to `k`.
#[verifier::opaque]
pub open spec fn connects(adj: Seq<Set<usize>>, j: usize, k: usize) -> bool {
    exists|p: Seq<usize>| is_path(adj, p) && p.len() >= 2 && p.first() == j && p.last() == k
}

/// Distinct numbers below `n` are at most `n` many.
pub proof fn lemma_distinct_bounded(s: Seq<usize>, n: nat)
    requires
        s.no_duplicates(),
        forall|k: int| 0 <= k < s.len() ==> (#[trigger] s[k]) < n,
    ensures
        s.len() <= n,
    decreases n,
{
    if s.len() > 0 {
        if exists|j: int| 0 <= j < s.len() && s[j] == n - 1 {
            let j = choose|j: int| 0 <= j < s.len() && s[j] == n - 1;
            let r = s.remove(j);
            assert forall|k: int| 0 <= k < r.len() implies (#[trigger] r[k]) < n - 1 by {
                if k < j {
                    assert(r[k] == s[k]);
                } else {
                    assert(r[k] == s[k + 1]);
                }
            }
            assert forall|a: int, b: int| 0 <= a < r.len() && 0 <= b < r.len() && a != b implies r[a]
                != r[b] by {
                let a0 = if a < j { a } else { a + 1 };
                let b0 = if b < j { b } else { b + 1 };
                assert(r[a] == s[a0] && r[b] == s[b0]);
            }
            lemma_distinct_bounded(r, (n - 1) as nat);
        } else {
            assert(s[0] < n);
            assert forall|k: int| 0 <= k < s.len() implies (#[trigger] s[k]) < n - 1 by {
                assert(s[k] < n);
            }
            lemma_distinct_bounded(s, (n - 1) as nat);
        }
    }
}

/// A single vertex is a path without edges.
pub proof fn lemma_path_of_one(adj: Seq<Set<usize>>, i: usize)
    requires
        i < adj.len(),
    ensures
        is_path(adj, seq![i]),
        has_path_to(adj, i, 0),
{
    reveal(has_path_to);
    let p = seq![i];
    assert(is_path(adj, p) && p.last() == i && p.len() == 0 + 1);
}

/// A contiguous part of a path is a path.
pub proof fn lemma_subpath(adj: Seq<Set<usize>>, p: Seq<usize>, a: int, b: int)
    requires
        is_path(adj, p),
        0 <= a <= b < p.len(),
    ensures
        is_path(adj, p.subrange(a, b + 1)),
{
    let q = p.subrange(a, b + 1);
    assert forall|k: int| 0 <= k < q.len() implies (#[trigger] q[k]) < adj.len() by {
        assert(p[a + k] < adj.len());
    }
    assert forall|k: int| 0 <= k < q.len() - 1 implies #[trigger] step_at(adj, q, k) by {
        assert(step_at(adj, p, a + k));
    }
}

/// A path can be extended by a vertex that is adjacent to its end and
/// differs from it.
pub proof fn lemma_path_push(adj: Seq<Set<usize>>, p: Seq<usize>, c: usize)
    requires
        is_path(adj, p),
        adj[p.last() as int].contains(c),
        c != p.last(),
        c < adj.len(),
    ensures
        is_path(adj, p.push(c)),
{
    let q = p.push(c);
    assert forall|k: int| 0 <= k < q.len() implies (#[trigger] q[k]) < adj.len() by {
        if k < p.len() {
            assert(p[k] < adj.len());
        }
    }
    assert forall|k: int| 0 <= k < q.len() - 1 implies #[trigger] step_at(adj, q, k) by {
        if k < p.len() - 1 {
            assert(step_at(adj, p, k));
        }
    }
}

/// A path of `d` edges to `i` and an edge from `i` to another vertex `c`
/// make a path of `d + 1` edges to `c`.
pub proof fn lemma_path_to_next(adj: Seq<Set<usize>>, i: usize, d: int, c: usize)
    requires
        has_path_to(adj, i, d),
        i < adj.len(),
        adj[i as int].contains(c),
        c != i,
        c < adj.len(),
    ensures
        has_path_to(adj, c, d + 1),
{
    reveal(has_path_to);
    let p = choose|p: Seq<usize>| is_path(adj, p) && p.last() == i && p.len() == d + 1;
    lemma_path_push(adj, p, c);
    let q = p.push(c);
    assert(is_path(adj, q) && q.last() == c && q.len() == d + 1 + 1);
}

/// In an acyclic graph no vertex occurs twice on a path, so a path has no
/// more vertices than the graph.
pub proof fn lemma_path_bound(adj: Seq<Set<usize>>, p: Seq<usize>)
    requires
        acyclic(adj),
        is_path(adj, p),
    ensures
        p.no_duplicates(),
        p.len() <= adj.len(),
{
    assert forall|a: int, b: int| 0 <= a < p.len() && 0 <= b < p.len() && a != b implies p[a]
        != p[b] by {
        let lo = if a < b { a } else { b };
        let hi = if a < b { b } else { a };
        lemma_subpath(adj, p, lo, hi);
        let q = p.subrange(lo, hi + 1);
        assert(is_path(adj, q) && q.len() >= 2);
        assert(q.first() == p[lo] && q.last() == p[hi]);
    }
    lemma_distinct_bounded(p, adj.len());
}

/// In an acyclic graph a path to a vertex has fewer edges than the graph has
/// vertices.
pub proof fn lemma_depth_bound(adj: Seq<Set<usize>>, i: usize, d: int)
    requires
        acyclic(adj),
        has_path_to(adj, i, d),
    ensures
        d < adj.len(),
{
    reveal(has_path_to);
    let p = choose|p: Seq<usize>| is_path(adj, p) && p.last() == i && p.len() == d + 1;
    lemma_path_bound(adj, p);
}

/// Where every edge leads to a vertex with a greater number in `depth`, the
/// vertex at position `k` of a path has a number of at least `k`.
pub proof fn lemma_path_climbs(adj: Seq<Set<usize>>, depth: Seq<usize>, p: Seq<usize>, k: int)
    requires
        depth.len() == adj.len(),
        forall|i: int, c: usize|
            0 <= i < adj.len() && #[trigger] adj[i].contains(c) && c != i && c < adj.len()
                ==> depth[c as int] >= depth[i] + 1,
        is_path(adj, p),
        0 <= k < p.len(),
    ensures
        depth[p[k] as int] >= k,
    decreases k,
{
    if k > 0 {
        lemma_path_climbs(adj, depth, p, k - 1);
        assert(step_at(adj, p, k - 1));
        assert(p[k - 1] < adj.len() && p[k] < adj.len());
    }
}

/// A vertex has at most one depth.
pub proof fn lemma_depth_unique(adj: Seq<Set<usize>>, i: usize, d1: int, d2: int)
    requires
        is_depth(adj, i, d1),
        is_depth(adj, i, d2),
    ensures
        d1 == d2,
{
    reveal(has_path_to);
    let first = choose|p: Seq<usize>| is_path(adj, p) && p.last() == i && p.len() == d1 + 1;
    let second = choose|p: Seq<usize>| is_path(adj, p) && p.last() == i && p.len() == d2 + 1;
    assert(is_path(adj, first) && is_path(adj, second));
}

/// No vertex is adjacent to a greater one.
pub open spec fn descending(adj: Seq<Set<usize>>) -> bool {
    forall|i: int, c: usize| 0 <= i < adj.len() && #[trigger] adj[i].contains(c) ==> c <= i
}

/// Where no vertex is adjacent to a greater one, the vertices of a path
/// decrease.
pub proof fn lemma_path_descends(adj: Seq<Set<usize>>, p: Seq<usize>, k: int)
    requires
        descending(adj),
        is_path(adj, p),
        0 <= k < p.len(),
    ensures
        p[k] + k <= p[0],
    decreases k,
{
    if k > 0 {
        lemma_path_descends(adj, p, k - 1);
        assert(step_at(adj, p, k - 1));
        assert(p[k - 1] < adj.len());
    }
}

/// Where no vertex is adjacent to a greater one, there is no cycle but from
/// a vertex to itself.
pub proof fn lemma_descending_acyclic(adj: Seq<Set<usize>>)
    requires
        descending(adj),
    ensures
        in_range(adj),
        acyclic(adj),
{
    assert forall|p: Seq<usize>| #[trigger] is_path(adj, p) && p.len() >= 2 implies p.first()
        != p.last() by {
        lemma_path_descends(adj, p, p.len() - 1);
    }
}

/// An edge from `j` to another vertex that is `k` or is connected to `k`
/// connects `j` to `k`.
pub proof fn lemma_connects_step(adj: Seq<Set<usize>>, j: usize, c: usize, k: usize)
    requires
        j < adj.len(),
        c < adj.len(),
        adj[j as int].contains(c),
        c != j,
        c == k || connects(adj, c, k),
    ensures
        connects(adj, j, k),
{
    reveal(connects);
    lemma_path_of_one(adj, j);
    lemma_path_push(adj, seq![j], c);
    let e = seq![j].push(c);
    if c == k {
        assert(is_path(adj, e) && e.len() >= 2 && e.first() == j && e.last() == k);
    } else {
        let q = choose|q: Seq<usize>|
            is_path(adj, q) && q.len() >= 2 && q.first() == c && q.last() == k;
        let r = seq![j] + q;
        assert forall|i: int| 0 <= i < r.len() implies (#[trigger] r[i]) < adj.len() by {
            if i > 0 {
                assert(q[i - 1] < adj.len());
            }
        }
        assert forall|i: int| 0 <= i < r.len() - 1 implies #[trigger] step_at(adj, r, i) by {
            if i > 0 {
                assert(step_at(adj, q, i - 1));
            }
        }
        assert(is_path(adj, r) && r.len() >= 2 && r.first() == j && r.last() == k);
    }
}

/// The depth of vertex `i`, where it has one.
pub open spec fn depth_of(adj: Seq<Set<usize>>, i: usize) -> int {
    choose|d: int| is_depth(adj, i, d)
}

/// Where no path to `i` has more than `bound` edges and some path to `i` has
/// `d` edges, `i` has a depth.
proof fn lemma_longest_exists(adj: Seq<Set<usize>>, i: usize, d: int, bound: int)
    requires
        has_path_to(adj, i, d),
        forall|p: Seq<usize>| #[trigger] is_path(adj, p) && p.last() == i ==> p.len() <= bound + 1,
    ensures
        exists|e: int| is_depth(adj, i, e),
    decreases bound - d,
{
    if forall|p: Seq<usize>| #[trigger] is_path(adj, p) && p.last() == i ==> p.len() <= d + 1 {
        assert(is_depth(adj, i, d));
    } else {
        let p = choose|p: Seq<usize>| #[trigger] is_path(adj, p) && p.last() == i && p.len() > d + 1;
        reveal(has_path_to);
        assert(is_path(adj, p) && p.last() == i && p.len() == (p.len() - 1) + 1);
        lemma_longest_exists(adj, i, p.len() - 1, bound);
    }
}

/// Every vertex of an acyclic graph has a depth, namely `depth_of`.
pub proof fn lemma_depth_exists(adj: Seq<Set<usize>>, i: usize)
    requires
        acyclic(adj),
        i < adj.len(),
    ensures
        is_depth(adj, i, depth_of(adj, i)),
        0 <= depth_of(adj, i) < adj.len(),
{
    lemma_path_of_one(adj, i);
    assert forall|p: Seq<usize>| #[trigger] is_path(adj, p) && p.last() == i implies p.len()
        <= adj.len() + 1 by {
        lemma_path_bound(adj, p);
    }
    lemma_longest_exists(adj, i, 0, adj.len() as int);
    lemma_depth_bound(adj, i, depth_of(adj, i));
    reveal(has_path_to);
}

/// A depth of a vertex is its depth.
pub proof fn lemma_depth_is_depth_of(adj: Seq<Set<usize>>, i: usize, d: int)
    requires
        is_depth(adj, i, d),
    ensures
        d == depth_of(adj, i),
{
    lemma_depth_unique(adj, i, d, depth_of(adj, i));
}

/// `j` is another vertex than `i`, and `i` is adjacent to it.
pub open spec fn leads_to(adj: Seq<Set<usize>>, j: usize, i: usize) -> bool {
    j < adj.len() && j != i && adj[j as int].contains(i)
}

/// The depth of a vertex is 0 if it is adjacent to no other vertex, and
/// otherwise one more than the greatest depth of a vertex that it is
/// adjacent to.
pub proof fn lemma_depth_law(adj: Seq<Set<usize>>, i: usize, d: int)
    requires
        i < adj.len(),
        is_depth(adj, i, d),
    ensures
        d >= 0,
        d == 0 <==> forall|j: usize| !#[trigger] leads_to(adj, j, i),
        forall|j: usize, e: int| leads_to(adj, j, i) && #[trigger] is_depth(adj, j, e) ==> e + 1 <= d,
        d > 0 ==> exists|j: usize| #[trigger] leads_to(adj, j, i) && is_depth(adj, j, d - 1),
{
    reveal(has_path_to);
    let p = choose|p: Seq<usize>| is_path(adj, p) && p.last() == i && p.len() == d + 1;
    assert forall|j: usize, e: int| leads_to(adj, j, i) && #[trigger] is_depth(adj, j, e) implies e
        + 1 <= d by {
        lemma_path_to_next(adj, j, e, i);
        let q = choose|q: Seq<usize>| is_path(adj, q) && q.last() == i && q.len() == e + 1 + 1;
        assert(is_path(adj, q));
    }
    if d > 0 {
        let j = p[p.len() - 2];
        assert(step_at(adj, p, p.len() - 2));
        assert(p[p.len() - 2] < adj.len());
        lemma_subpath(adj, p, 0, p.len() - 2);
        let front = p.subrange(0, p.len() - 1);
        assert(is_path(adj, front) && front.last() == j && front.len() == (d - 1) + 1);
        assert(has_path_to(adj, j, d - 1));
        assert forall|q: Seq<usize>| #[trigger] is_path(adj, q) && q.last() == j implies q.len()
            <= (d - 1) + 1 by {
            lemma_path_push(adj, q, i);
            assert(is_path(adj, q.push(i)) && q.push(i).last() == i);
        }
        assert(leads_to(adj, j, i) && is_depth(adj, j, d - 1));
    } else {
        assert forall|j: usize| !#[trigger] leads_to(adj, j, i) by {
            if leads_to(adj, j, i) {
                lemma_path_of_one(adj, j);
                lemma_path_push(adj, seq![j], i);
                let q = seq![j].push(i);
                assert(is_path(adj, q) && q.last() == i);
            }
        }
    }
}

/// A path of at least one edge from `j` to `x` and an edge from `x` to
/// another vertex `c` connect `j` to `c`.
pub proof fn lemma_connects_extend(adj: Seq<Set<usize>>, j: usize, x: usize, c: usize)
    requires
        j == x || connects(adj, j, x),
        x < adj.len(),
        c < adj.len(),
        adj[x as int].contains(c),
        c != x,
    ensures
        connects(adj, j, c),
{
    if j == x {
        lemma_connects_step(adj, j, c, c);
    } else {
        reveal(connects);
        let p = choose|p: Seq<usize>|
            is_path(adj, p) && p.len() >= 2 && p.first() == j && p.last() == x;
        lemma_path_push(adj, p, c);
        let q = p.push(c);
        assert(is_path(adj, q) && q.len() >= 2 && q.first() == j && q.last() == c);
    }
}

/// Every vertex adjacent to a vertex of `seen`, and different from it, is in
/// `seen` and not in `kept`.
pub open spec fn swept(adj: Seq<Set<usize>>, seen: Set<usize>, kept: Set<usize>) -> bool {
    forall|s: usize, c: usize|
        seen.contains(s) && s < adj.len() && #[trigger] adj[s as int].contains(c) && c != s
            ==> seen.contains(c) && !kept.contains(c)
}

/// Along a path that starts in `seen`, every later vertex is in `seen` and
/// not in `kept`.
proof fn lemma_swept_path(
    adj: Seq<Set<usize>>,
    seen: Set<usize>,
    kept: Set<usize>,
    p: Seq<usize>,
    t: int,
)
    requires
        swept(adj, seen, kept),
        is_path(adj, p),
        seen.contains(p[0]),
        1 <= t < p.len(),
    ensures
        seen.contains(p[t]),
        !kept.contains(p[t]),
    decreases t,
{
    if t > 1 {
        lemma_swept_path(adj, seen, kept, p, t - 1);
    }
    assert(step_at(adj, p, t - 1));
    assert(p[t - 1] < adj.len());
}

/// Nothing that a path of at least one edge leads to from a vertex of
/// `seen` is in `kept`.
pub proof fn lemma_swept_excludes(
    adj: Seq<Set<usize>>,
    seen: Set<usize>,
    kept: Set<usize>,
    s: usize,
    k: usize,
)
    requires
        swept(adj, seen, kept),
        seen.contains(s),
        connects(adj, s, k),
    ensures
        !kept.contains(k),
{
    reveal(connects);
    let p = choose|p: Seq<usize>|
        is_path(adj, p) && p.len() >= 2 && p.first() == s && p.last() == k;
    lemma_swept_path(adj, seen, kept, p, p.len() - 1);
}

/// The vertices of a graph of `n` vertices.
pub open spec fn below(n: nat) -> Set<usize> {
    Set::new(|v: usize| v < n)
}

/// There are finitely many numbers below `n`.
pub proof fn lemma_below_finite(n: nat)
    requires
        n <= usize::MAX,
    ensures
        below(n).finite(),
{
    let all = Seq::new(n, |i: int| i as usize);
    assert forall|v: usize| below(n).contains(v) implies all.to_set().contains(v) by {
        assert(all[v as int] == v);
    }
    assert(below(n) =~= all.to_set());
}

/// Of finitely many things, fewer are left out by a set that holds one
/// thing more.
pub proof fn lemma_fewer_left<V>(all: Set<V>, before: Set<V>, after: Set<V>, v: V)
    requires
        all.finite(),
        all.contains(v),
        !before.contains(v),
        after.contains(v),
        before.subset_of(after),
    ensures
        all.difference(after).len() < all.difference(before).len(),
{
    let a = all.difference(after);
    let b = all.difference(before);
    assert(a.subset_of(b.remove(v)));
    vstd::set_lib::lemma_len_subset(a, b.remove(v));
}

} // verus!
