//! Longest-path depths in an acyclic graph given by adjacency sets.

use vstd::prelude::*;
use std::collections::HashSet;
use vstd::std_specs::iter::IteratorSpec;
use crate::dag::{sets, acyclic, has_path_to, in_range, is_depth, is_path, lemma_depth_bound, lemma_path_climbs, lemma_path_of_one, lemma_path_to_next};

verus! {

/// The sum over all vertices of what their depth lacks to `n`.
spec fn slack(depth: Seq<usize>, n: int) -> int
    decreases depth.len(),
{
    if depth.len() == 0 {
        0
    } else {
        slack(depth.drop_last(), n) + (n - depth.last())
    }
}

/// Raising one depth lowers the slack by the same amount.
proof fn lemma_slack_update(depth: Seq<usize>, n: int, i: int, d: usize)
    requires
        0 <= i < depth.len(),
    ensures
        slack(depth.update(i, d), n) == slack(depth, n) - (d - depth[i]),
    decreases depth.len(),
{
    let after = depth.update(i, d);
    if i == depth.len() - 1 {
        assert(after.drop_last() =~= depth.drop_last());
    } else {
        assert(after.drop_last() =~= depth.drop_last().update(i, d));
        lemma_slack_update(depth.drop_last(), n, i, d);
    }
}

/// Where no depth exceeds `n`, the slack is not negative.
proof fn lemma_slack_nonnegative(depth: Seq<usize>, n: int)
    requires
        forall|k: int| 0 <= k < depth.len() ==> (#[trigger] depth[k]) <= n,
    ensures
        slack(depth, n) >= 0,
    decreases depth.len(),
{
    if depth.len() > 0 {
        assert forall|k: int| 0 <= k < depth.drop_last().len() implies (
        #[trigger] depth.drop_last()[k]) <= n by {
            assert(depth[k] <= n);
        }
        lemma_slack_nonnegative(depth.drop_last(), n);
        assert(depth[depth.len() - 1] <= n);
    }
}

/// The depth of `c` is at least `d`, or the stack holds the request to raise
/// it to at least `d`.
spec fn covered(depth: Seq<usize>, stack: Seq<(usize, usize)>, c: usize, d: int) -> bool {
    depth[c as int] >= d || exists|j: int|
        0 <= j < stack.len() && (#[trigger] stack[j]).0 == c && stack[j].1 >= d
}

/// Every vertex adjacent to `i` is covered for one more than the depth of
/// `i`.
spec fn relaxed(adj: Seq<Set<usize>>, depth: Seq<usize>, stack: Seq<(usize, usize)>, i: int) -> bool {
    forall|c: usize| #[trigger]
        adj[i].contains(c) && c != i ==> covered(depth, stack, c, depth[i] + 1)
}

/// The invariant of the work list: the first `seeds` entries are the initial
/// requests that are left; every request and every depth is the length of
/// some path to its vertex; and every vertex but `skip` still waits for its
/// initial request or is relaxed.
spec fn work_inv(
    adj: Seq<Set<usize>>,
    depth: Seq<usize>,
    stack: Seq<(usize, usize)>,
    seeds: int,
    skip: int,
) -> bool {
    &&& in_range(adj)
    &&& adj.len() <= usize::MAX
    &&& depth.len() == adj.len()
    &&& 0 <= seeds <= stack.len()
    &&& seeds <= adj.len()
    &&& forall|j: int| 0 <= j < seeds ==> (#[trigger] stack[j]) == (j as usize, 0usize)
    &&& forall|j: int| seeds <= j < stack.len() ==> (#[trigger] stack[j]).1 >= 1
    &&& forall|j: int|
        0 <= j < stack.len() ==> (#[trigger] stack[j]).0 < adj.len() && has_path_to(
            adj,
            stack[j].0,
            stack[j].1 as int,
        )
    &&& forall|i: int| 0 <= i < adj.len() ==> has_path_to(adj, i as usize, #[trigger] depth[i] as int)
    &&& forall|i: int|
        0 <= i < adj.len() && i != skip ==> (i < seeds && depth[i] == 0) || #[trigger] relaxed(
            adj,
            depth,
            stack,
            i,
        )
}

/// The number of initial requests that are left after the top of the stack
/// has been taken.
spec fn seeds_after_pop(stack: Seq<(usize, usize)>, seeds: int) -> int {
    if seeds < stack.len() {
        seeds
    } else {
        stack.len() - 1
    }
}

/// A request that does not raise the depth of its vertex can be dropped.
proof fn lemma_discard(adj: Seq<Set<usize>>, depth: Seq<usize>, stack: Seq<(usize, usize)>, seeds: int)
    requires
        work_inv(adj, depth, stack, seeds, -1),
        stack.len() > 0,
        depth[stack.last().0 as int] != 0,
        stack.last().1 <= depth[stack.last().0 as int],
    ensures
        work_inv(adj, depth, stack.drop_last(), seeds_after_pop(stack, seeds), -1),
{
    let rest = stack.drop_last();
    let left = seeds_after_pop(stack, seeds);
    let (i, d) = stack.last();
    assert forall|j: int| 0 <= j < rest.len() implies (#[trigger] rest[j]).0 < adj.len()
        && has_path_to(adj, rest[j].0, rest[j].1 as int) by {
        assert(rest[j] == stack[j]);
    }
    assert forall|j: int| 0 <= j < left implies (#[trigger] rest[j]) == (j as usize, 0usize) by {
        assert(rest[j] == stack[j]);
    }
    assert forall|j: int| left <= j < rest.len() implies (#[trigger] rest[j]).1 >= 1 by {
        assert(rest[j] == stack[j]);
    }
    assert forall|a: int| 0 <= a < adj.len() implies (a < left && depth[a] == 0) || #[trigger] relaxed(
        adj,
        depth,
        rest,
        a,
    ) by {
        if a < seeds && depth[a] == 0 {
            if a >= left {
                assert(stack[a] == (a as usize, 0usize));
            }
        } else {
            assert(relaxed(adj, depth, stack, a));
            assert forall|c: usize| #[trigger] adj[a].contains(c) && c != a implies covered(
                depth,
                rest,
                c,
                depth[a] + 1,
            ) by {
                assert(covered(depth, stack, c, depth[a] + 1));
                if depth[c as int] < depth[a] + 1 {
                    let j = choose|j: int|
                        0 <= j < stack.len() && (#[trigger] stack[j]).0 == c && stack[j].1
                            >= depth[a] + 1;
                    if j < rest.len() {
                        assert(rest[j] == stack[j]);
                    }
                }
            }
        }
    }
}

/// A request that raises the depth of its vertex `i` leaves all other
/// vertices as they were, and takes the search one step closer to its end.
proof fn lemma_raise(adj: Seq<Set<usize>>, depth: Seq<usize>, stack: Seq<(usize, usize)>, seeds: int)
    requires
        work_inv(adj, depth, stack, seeds, -1),
        acyclic(adj),
        stack.len() > 0,
        depth[stack.last().0 as int] == 0 || stack.last().1 > depth[stack.last().0 as int],
    ensures
        work_inv(
            adj,
            depth.update(stack.last().0 as int, stack.last().1),
            stack.drop_last(),
            seeds_after_pop(stack, seeds),
            stack.last().0 as int,
        ),
        slack(depth.update(stack.last().0 as int, stack.last().1), adj.len() as int)
            + seeds_after_pop(stack, seeds) < slack(depth, adj.len() as int) + seeds,
        slack(depth.update(stack.last().0 as int, stack.last().1), adj.len() as int) >= 0,
{
    let rest = stack.drop_last();
    let left = seeds_after_pop(stack, seeds);
    let (i, d) = stack.last();
    let raised = depth.update(i as int, d);
    let n = adj.len() as int;
    assert(stack[stack.len() - 1] == (i, d));
    lemma_slack_update(depth, n, i as int, d);
    assert forall|k: int| 0 <= k < raised.len() implies (#[trigger] raised[k]) <= n by {
        if k == i {
            lemma_depth_bound(adj, i, d as int);
        } else {
            assert(has_path_to(adj, k as usize, depth[k] as int));
            lemma_depth_bound(adj, k as usize, depth[k] as int);
        }
    }
    lemma_slack_nonnegative(raised, n);
    assert forall|j: int| 0 <= j < rest.len() implies (#[trigger] rest[j]).0 < adj.len()
        && has_path_to(adj, rest[j].0, rest[j].1 as int) by {
        assert(rest[j] == stack[j]);
    }
    assert forall|j: int| 0 <= j < left implies (#[trigger] rest[j]) == (j as usize, 0usize) by {
        assert(rest[j] == stack[j]);
    }
    assert forall|j: int| left <= j < rest.len() implies (#[trigger] rest[j]).1 >= 1 by {
        assert(rest[j] == stack[j]);
    }
    assert forall|a: int| 0 <= a < adj.len() implies has_path_to(
        adj,
        a as usize,
        #[trigger] raised[a] as int,
    ) by {
        if a != i {
            assert(has_path_to(adj, a as usize, depth[a] as int));
        }
    }
    assert forall|a: int| 0 <= a < adj.len() && a != i implies (a < left && raised[a] == 0)
        || #[trigger] relaxed(adj, raised, rest, a) by {
        if a < seeds && depth[a] == 0 {
            if a >= left {
                assert(stack[a] == (a as usize, 0usize));
            }
        } else {
            assert(relaxed(adj, depth, stack, a));
            assert forall|c: usize| #[trigger] adj[a].contains(c) && c != a implies covered(
                raised,
                rest,
                c,
                raised[a] + 1,
            ) by {
                assert(covered(depth, stack, c, depth[a] + 1));
                if depth[c as int] < depth[a] + 1 {
                    let j = choose|j: int|
                        0 <= j < stack.len() && (#[trigger] stack[j]).0 == c && stack[j].1
                            >= depth[a] + 1;
                    if j < rest.len() {
                        assert(rest[j] == stack[j]);
                    }
                }
            }
        }
    }
}

/// Once the requests for all vertices adjacent to `i` are on the stack, `i`
/// is relaxed too.
proof fn lemma_requested(
    adj: Seq<Set<usize>>,
    depth: Seq<usize>,
    base: Seq<(usize, usize)>,
    stack: Seq<(usize, usize)>,
    seeds: int,
    i: usize,
)
    requires
        work_inv(adj, depth, base, seeds, i as int),
        i < adj.len(),
        base.len() <= stack.len(),
        forall|j: int| 0 <= j < base.len() ==> #[trigger] stack[j] == base[j],
        forall|j: int|
            base.len() <= j < stack.len() ==> (#[trigger] stack[j]).0 < adj.len() && stack[j].1
                == depth[i as int] + 1 && has_path_to(adj, stack[j].0, stack[j].1 as int),
        forall|c: usize| #[trigger]
            adj[i as int].contains(c) && c != i ==> exists|j: int|
                0 <= j < stack.len() && (#[trigger] stack[j]).0 == c && stack[j].1 == depth[i as int]
                    + 1,
    ensures
        work_inv(adj, depth, stack, seeds, -1),
{
    assert forall|j: int| 0 <= j < seeds implies (#[trigger] stack[j]) == (j as usize, 0usize) by {
        assert(stack[j] == base[j]);
    }
    assert forall|j: int| seeds <= j < stack.len() implies (#[trigger] stack[j]).1 >= 1 by {
        if j < base.len() {
            assert(stack[j] == base[j]);
        }
    }
    assert forall|j: int| 0 <= j < stack.len() implies (#[trigger] stack[j]).0 < adj.len()
        && has_path_to(adj, stack[j].0, stack[j].1 as int) by {
        if j < base.len() {
            assert(stack[j] == base[j]);
        }
    }
    assert forall|a: int| 0 <= a < adj.len() implies (a < seeds && depth[a] == 0) || #[trigger] relaxed(
        adj,
        depth,
        stack,
        a,
    ) by {
        if a == i {
            assert forall|c: usize| #[trigger] adj[a].contains(c) && c != a implies covered(
                depth,
                stack,
                c,
                depth[a] + 1,
            ) by {
                let j = choose|j: int|
                    0 <= j < stack.len() && (#[trigger] stack[j]).0 == c && stack[j].1
                        == depth[i as int] + 1;
                assert(stack[j].0 == c && stack[j].1 >= depth[a] + 1);
            }
        } else if !(a < seeds && depth[a] == 0) {
            assert(relaxed(adj, depth, base, a));
            assert forall|c: usize| #[trigger] adj[a].contains(c) && c != a implies covered(
                depth,
                stack,
                c,
                depth[a] + 1,
            ) by {
                assert(covered(depth, base, c, depth[a] + 1));
                if depth[c as int] < depth[a] + 1 {
                    let j = choose|j: int|
                        0 <= j < base.len() && (#[trigger] base[j]).0 == c && base[j].1
                            >= depth[a] + 1;
                    assert(stack[j] == base[j]);
                }
            }
        }
    }
}

/// When no request is left, every vertex has its depth.
proof fn lemma_finished(adj: Seq<Set<usize>>, depth: Seq<usize>, i: int)
    requires
        work_inv(adj, depth, Seq::<(usize, usize)>::empty(), 0, -1),
        0 <= i < adj.len(),
    ensures
        is_depth(adj, i as usize, depth[i] as int),
{
    let none = Seq::<(usize, usize)>::empty();
    assert forall|a: int, c: usize|
        0 <= a < adj.len() && #[trigger] adj[a].contains(c) && c != a && c < adj.len() implies depth[c as int]
        >= depth[a] + 1 by {
        assert(relaxed(adj, depth, none, a));
        assert(covered(depth, none, c, depth[a] + 1));
    }
    assert forall|p: Seq<usize>| #[trigger] is_path(adj, p) && p.last() == i implies p.len()
        <= depth[i] + 1 by {
        lemma_path_climbs(adj, depth, p, p.len() - 1);
    }
}

/// Returns the depth of each vertex of the acyclic graph in which the
/// vertices adjacent to vertex `i` are those of `predecessors[i]`.
///
/// The depth of a vertex is the number of edges of the longest path that
/// ends at it. An edge from a vertex to itself counts for nothing.
pub fn depths(predecessors: &[HashSet<usize>]) -> (depth: Vec<usize>)
    requires
        in_range(sets(predecessors@)),
        acyclic(sets(predecessors@)),
    ensures
        depth.len() == predecessors.len(),
        forall|i: int|
            0 <= i < depth.len() ==> is_depth(sets(predecessors@), i as usize, #[trigger] depth[i] as int),
{
    let ghost adj = sets(predecessors@);
    let n = predecessors.len();
    let mut depth: Vec<usize> = Vec::new();
    let mut stack: Vec<(usize, usize)> = Vec::new();
    let mut seed: usize = 0;
    while seed < n
        invariant
            seed <= n,
            n == adj.len(),
            depth.len() == seed,
            stack.len() == seed,
            forall|j: int| 0 <= j < seed ==> #[trigger] depth[j] == 0,
            forall|j: int| 0 <= j < seed ==> #[trigger] stack[j] == (j as usize, 0usize),
        decreases n - seed,
    {
        depth.push(0);
        stack.push((seed, 0));
        seed += 1;
    }
    let ghost mut seeds: int = n as int;
    proof {
        lemma_slack_nonnegative(depth@, n as int);
        assert forall|j: int| 0 <= j < stack.len() implies (#[trigger] stack@[j]).0 < adj.len()
            && has_path_to(adj, stack@[j].0, stack@[j].1 as int) by {
            lemma_path_of_one(adj, j as usize);
        }
        assert forall|i: int| 0 <= i < adj.len() implies has_path_to(
            adj,
            i as usize,
            #[trigger] depth@[i] as int,
        ) by {
            lemma_path_of_one(adj, i as usize);
        }
    }

    while stack.len() > 0
        invariant
            n == adj.len(),
            adj == sets(predecessors@),
            in_range(adj),
            acyclic(adj),
            work_inv(adj, depth@, stack@, seeds, -1),
            slack(depth@, n as int) >= 0,
        decreases slack(depth@, n as int) + seeds, stack.len(),
    {
        let ghost before = stack@;
        let ghost depth_before = depth@;
        let (i, new_depth) = stack.pop().unwrap();
        assert(before[before.len() - 1] == (i, new_depth));
        if depth[i] == 0 || new_depth > depth[i] {
            proof {
                lemma_raise(adj, depth@, before, seeds);
                seeds = seeds_after_pop(before, seeds);
            }
            depth[i] = new_depth;
            let ghost base = stack@;
            let adjacent = &predecessors[i];
            for c in it: adjacent.iter()
                invariant
                    n == adj.len(),
                    i < n,
                    adj == sets(predecessors@),
                    in_range(adj),
                    acyclic(adj),
                    adjacent == predecessors@[i as int],
                    it.seq() == adjacent.iter().remaining(),
                    depth.len() == n,
                    depth@[i as int] == new_depth,
                    has_path_to(adj, i, new_depth as int),
                    base.len() <= stack.len(),
                    forall|j: int| 0 <= j < base.len() ==> #[trigger] stack@[j] == base[j],
                    forall|j: int|
                        base.len() <= j < stack.len() ==> (#[trigger] stack@[j]).0 < adj.len()
                            && stack@[j].1 == new_depth + 1 && has_path_to(
                            adj,
                            stack@[j].0,
                            stack@[j].1 as int,
                        ),
                    forall|t: int|
                        0 <= t < it.index() && *(#[trigger] it.seq()[t]) != i ==> exists|j: int|
                            0 <= j < stack.len() && (#[trigger] stack@[j]).0 == *it.seq()[t]
                                && stack@[j].1 == new_depth + 1,
            {
                let ghost t0 = it.index();
                let ghost prior = stack@;
                if *c != i {
                    proof {
                        assert(adjacent.iter().remaining().unref()[t0] == *c);
                        assert(adjacent.iter().remaining().unref().to_set().contains(*c));
                        assert(adj[i as int].contains(*c));
                        lemma_path_to_next(adj, i, new_depth as int, *c);
                        lemma_depth_bound(adj, *c, new_depth + 1);
                    }
                    stack.push((*c, new_depth + 1));
                    proof {
                        let top = prior.len() as int;
                        assert(stack@[top].0 == *c && stack@[top].1 == new_depth + 1);
                        assert forall|t: int|
                            0 <= t < t0 + 1 && *(#[trigger] it.seq()[t]) != i implies exists|j: int|
                            0 <= j < stack.len() && (#[trigger] stack@[j]).0 == *it.seq()[t]
                                && stack@[j].1 == new_depth + 1 by {
                            if t < t0 {
                                let j = choose|j: int|
                                    0 <= j < prior.len() && (#[trigger] prior[j]).0 == *it.seq()[t]
                                        && prior[j].1 == new_depth + 1;
                                assert(stack@[j] == prior[j]);
                            } else {
                                assert(stack@[top].0 == *it.seq()[t]);
                            }
                        }
                    }
                }
            }
            proof {
                let all = adjacent.iter().remaining();
                assert forall|c: usize| #[trigger] adj[i as int].contains(c) && c != i implies exists|
                    j: int,
                |
                    0 <= j < stack.len() && (#[trigger] stack@[j]).0 == c && stack@[j].1
                        == depth@[i as int] + 1 by {
                    assert(all.unref().to_set().contains(c));
                    let t = choose|t: int| 0 <= t < all.unref().len() && all.unref()[t] == c;
                    assert(*all[t] == c);
                }
                lemma_requested(adj, depth@, base, stack@, seeds, i);
            }
        } else {
            proof {
                lemma_discard(adj, depth@, before, seeds);
                seeds = seeds_after_pop(before, seeds);
            }
        }
    }

    proof {
        assert(stack@ =~= Seq::<(usize, usize)>::empty());
        assert forall|i: int| 0 <= i < depth.len() implies is_depth(
            adj,
            i as usize,
            #[trigger] depth[i] as int,
        ) by {
            lemma_finished(adj, depth@, i);
        }
    }
    depth
}

} // verus!
