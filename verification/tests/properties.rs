use std::collections::HashSet;
use tarjan_scc::{depths, scc, Components};

/// A graph of `n` vertices whose edges are drawn from a fixed sequence of
/// numbers that `seed` starts.
fn drawn(n: usize, edges: usize, seed: u64) -> Vec<HashSet<usize>> {
    let mut g = vec![HashSet::new(); n];
    let mut state = seed;
    let mut draw = || {
        state = state.wrapping_mul(6364136223846793005).wrapping_add(1442695040888963407);
        (state >> 33) as usize
    };
    if n > 0 {
        for _ in 0..edges {
            let u = draw() % n;
            let v = draw() % n;
            g[u].insert(v);
        }
    }
    g
}

fn samples() -> Vec<Vec<HashSet<usize>>> {
    let mut all = Vec::new();
    for seed in 0..40u64 {
        let n = (seed % 13) as usize;
        let edges = (seed * 7 % 29) as usize;
        all.push(drawn(n, edges, seed));
    }
    all
}

/// `reach[u][v]` says whether a walk of zero or more edges leads from `u`
/// to `v`.
fn reachability(g: &[HashSet<usize>]) -> Vec<Vec<bool>> {
    let n = g.len();
    let mut reach = vec![vec![false; n]; n];
    for u in 0..n {
        reach[u][u] = true;
        for &v in &g[u] {
            reach[u][v] = true;
        }
    }
    for k in 0..n {
        for u in 0..n {
            for v in 0..n {
                if reach[u][k] && reach[k][v] {
                    reach[u][v] = true;
                }
            }
        }
    }
    reach
}

fn successor_sets(c: &Components<usize>) -> Vec<HashSet<usize>> {
    (0..c.len()).map(|i| c.successors(i).unwrap().into_iter().collect()).collect()
}

/// Whether a path of at least one edge between different components leads
/// from `from` to `to`.
fn connected(succ: &[HashSet<usize>], from: usize, to: usize) -> bool {
    let mut seen = vec![false; succ.len()];
    let mut work = vec![from];
    while let Some(x) = work.pop() {
        for &y in &succ[x] {
            if y != x {
                if y == to {
                    return true;
                }
                if !seen[y] {
                    seen[y] = true;
                    work.push(y);
                }
            }
        }
    }
    false
}

#[test]
fn components_partition_the_vertices() {
    for g in samples() {
        let c = scc(&g);
        let mut count = vec![0; g.len()];
        for (i, component) in c.iter().into_iter().enumerate() {
            assert!(!component.is_empty());
            assert_eq!(c.get_by_index(i), Some(component));
            for &v in component {
                count[v] += 1;
                assert_eq!(c.vertex_component_index(&v), Some(i));
                assert_eq!(c.get(&v), Some(component));
            }
        }
        assert!(count.iter().all(|&k| k == 1));
        assert_eq!(c.iter().len(), c.len());
        assert_eq!(c.is_empty(), g.is_empty());
    }
}

#[test]
fn components_are_classes_of_mutual_reachability() {
    for g in samples() {
        let c = scc(&g);
        let reach = reachability(&g);
        for u in 0..g.len() {
            for v in 0..g.len() {
                let same = c.vertex_component_index(&u) == c.vertex_component_index(&v);
                assert_eq!(same, reach[u][v] && reach[v][u]);
            }
        }
    }
}

#[test]
fn successors_are_the_edges_between_components() {
    for g in samples() {
        let c = scc(&g);
        let mut expected = vec![HashSet::new(); c.len()];
        for u in 0..g.len() {
            for v in &g[u] {
                let i = c.vertex_component_index(&u).unwrap();
                let j = c.vertex_component_index(v).unwrap();
                expected[i].insert(j);
            }
        }
        for i in 0..c.len() {
            let listed = c.successors(i).unwrap();
            let as_set: HashSet<usize> = listed.iter().copied().collect();
            assert_eq!(as_set.len(), listed.len());
            assert_eq!(as_set, expected[i]);
        }
        assert_eq!(c.successors(c.len()), None);
    }
}

#[test]
fn no_component_leads_to_a_later_one() {
    for g in samples() {
        let c = scc(&g);
        for (i, successors) in successor_sets(&c).iter().enumerate() {
            assert!(successors.iter().all(|&j| j <= i));
        }
    }
}

#[test]
fn cyclic_means_several_vertices_or_a_loop() {
    for g in samples() {
        let c = scc(&g);
        for i in 0..c.len() {
            let component = c.get_by_index(i).unwrap();
            let expected = component.len() > 1 || g[component[0]].contains(&component[0]);
            assert_eq!(c.is_cyclic(i), expected);
        }
    }
}

#[test]
fn predecessors_invert_successors() {
    for g in samples() {
        let c = scc(&g);
        let successors = successor_sets(&c);
        let predecessors = c.predecessors();
        assert_eq!(predecessors.len(), c.len());
        for i in 0..c.len() {
            for j in 0..c.len() {
                assert_eq!(predecessors[i].contains(&j), successors[j].contains(&i));
            }
        }
    }
}

#[test]
fn depth_is_one_more_than_the_deepest_predecessor() {
    for g in samples() {
        let c = scc(&g);
        let depth = c.depths();
        let predecessors = c.predecessors();
        assert_eq!(depth.len(), c.len());
        for i in 0..c.len() {
            let deepest = predecessors[i].iter().filter(|&&j| j != i).map(|&j| depth[j]).max();
            match deepest {
                None => assert_eq!(depth[i], 0),
                Some(d) => assert_eq!(depth[i], d + 1),
            }
        }
    }
}

#[test]
fn both_ways_to_depths_agree() {
    for g in samples() {
        let c = scc(&g);
        assert_eq!(depths(&successor_sets(&c)), c.depths());
        // Along predecessors the depth of a component is one more than that
        // of its deepest successor.
        let height = depths(&c.predecessors());
        let successors = successor_sets(&c);
        for i in 0..c.len() {
            let deepest = successors[i].iter().filter(|&&j| j != i).map(|&j| height[j]).max();
            match deepest {
                None => assert_eq!(height[i], 0),
                Some(d) => assert_eq!(height[i], d + 1),
            }
        }
    }
}

#[test]
fn order_by_depth_sorts_every_component() {
    for g in samples() {
        let c = scc(&g);
        let depth = c.depths();
        let order = c.order_by_depth();
        let mut expected: Vec<usize> = (0..c.len()).collect();
        expected.sort_by_key(|&i| (depth[i], i));
        assert_eq!(order, expected);
    }
}

#[test]
fn direct_successors_drop_what_another_successor_leads_to() {
    for g in samples() {
        let c = scc(&g);
        let successors = successor_sets(&c);
        for i in 0..c.len() {
            let expected: HashSet<usize> = successors[i]
                .iter()
                .copied()
                .filter(|&k| {
                    !successors[i].iter().any(|&j| j != i && connected(&successors, j, k))
                })
                .collect();
            assert_eq!(c.direct_successors(i), Some(expected));
        }
        assert_eq!(c.direct_successors(c.len()), None);
    }
}

#[test]
fn asking_twice_gives_the_same_answer() {
    for g in samples() {
        let c = scc(&g);
        assert_eq!(c.len(), c.len());
        assert_eq!(c.is_empty(), c.is_empty());
        assert_eq!(c.iter(), c.iter());
        assert_eq!(c.depths(), c.depths());
        assert_eq!(c.predecessors(), c.predecessors());
        assert_eq!(c.order_by_depth(), c.order_by_depth());
        for i in 0..c.len() + 1 {
            assert_eq!(c.get_by_index(i), c.get_by_index(i));
            assert_eq!(c.successors(i), c.successors(i));
            assert_eq!(c.direct_successors(i), c.direct_successors(i));
        }
        for i in 0..c.len() {
            assert_eq!(c.is_cyclic(i), c.is_cyclic(i));
        }
        for v in 0..g.len() + 1 {
            assert_eq!(c.vertex_component_index(&v), c.vertex_component_index(&v));
            assert_eq!(c.get(&v), c.get(&v));
        }
        // A second search of the same graph finds the same classes.
        let again = scc(&g);
        assert_eq!(again.len(), c.len());
        for u in 0..g.len() {
            for v in 0..g.len() {
                assert_eq!(
                    c.vertex_component_index(&u) == c.vertex_component_index(&v),
                    again.vertex_component_index(&u) == again.vertex_component_index(&v)
                );
            }
        }
    }
}
