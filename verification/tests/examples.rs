use std::collections::HashSet;
use tarjan_scc::{depths, scc, Components};

fn graph(n: usize, edges: &[(usize, usize)]) -> Vec<HashSet<usize>> {
    let mut g = vec![HashSet::new(); n];
    for &(u, v) in edges {
        g[u].insert(v);
    }
    g
}

fn set(items: &[usize]) -> HashSet<usize> {
    items.iter().copied().collect()
}

fn members(c: &Components<usize>, i: usize) -> HashSet<usize> {
    c.get_by_index(i).unwrap().iter().copied().collect()
}

#[test]
fn cycle_with_a_tail() {
    let g = graph(3, &[(0, 1), (1, 0), (1, 2)]);
    let c = scc(&g);
    assert_eq!(c.len(), 2);
    let cycle = c.vertex_component_index(&0).unwrap();
    let tail = c.vertex_component_index(&2).unwrap();
    assert_eq!(c.vertex_component_index(&1), Some(cycle));
    assert_eq!(members(&c, cycle), set(&[0, 1]));
    assert_eq!(members(&c, tail), set(&[2]));
    // The tail is complete before the cycle that leads to it.
    assert_eq!(tail, 0);
    assert_eq!(cycle, 1);
    assert!(c.is_cyclic(cycle));
    assert!(!c.is_cyclic(tail));
    let from_cycle: HashSet<usize> = c.successors(cycle).unwrap().into_iter().collect();
    assert_eq!(from_cycle, set(&[cycle, tail]));
    assert_eq!(c.successors(tail), Some(vec![]));
}

#[test]
fn cycle_with_a_tail_depths() {
    let g = graph(3, &[(0, 1), (1, 0), (1, 2)]);
    let c = scc(&g);
    let cycle = c.vertex_component_index(&0).unwrap();
    let tail = c.vertex_component_index(&2).unwrap();
    // Along successors the cycle is a source and the tail lies one edge
    // behind it.
    let down = c.depths();
    assert_eq!(down[cycle], 0);
    assert_eq!(down[tail], 1);
    // Along predecessors the tail, which has no successors, has depth 0 and
    // the cycle has depth 1.
    let up = depths(&c.predecessors());
    assert_eq!(up[tail], 0);
    assert_eq!(up[cycle], 1);
}

#[test]
fn single_vertex_with_self_loop() {
    let g = graph(1, &[(0, 0)]);
    let c = scc(&g);
    assert_eq!(c.len(), 1);
    assert_eq!(members(&c, 0), set(&[0]));
    assert!(c.is_cyclic(0));
    assert_eq!(c.successors(0), Some(vec![0]));
    assert_eq!(c.depths(), vec![0]);
    assert_eq!(c.direct_successors(0), Some(set(&[0])));
}

#[test]
fn single_vertex_without_edges() {
    let g = graph(1, &[]);
    let c = scc(&g);
    assert_eq!(c.len(), 1);
    assert!(!c.is_cyclic(0));
    assert_eq!(c.successors(0), Some(vec![]));
    assert_eq!(c.direct_successors(0), Some(set(&[])));
}

#[test]
fn empty_graph() {
    let g = graph(0, &[]);
    let c = scc(&g);
    assert_eq!(c.len(), 0);
    assert!(c.is_empty());
    assert!(c.iter().is_empty());
    assert_eq!(c.vertex_component_index(&0), None);
    assert!(c.get_by_index(0).is_none());
    assert!(c.get(&0).is_none());
    assert_eq!(c.successors(0), None);
    assert_eq!(c.direct_successors(0), None);
    assert_eq!(c.depths(), Vec::<usize>::new());
    assert_eq!(c.predecessors().len(), 0);
    assert_eq!(c.order_by_depth(), Vec::<usize>::new());
    assert_eq!(depths(&[]), Vec::<usize>::new());
}

#[test]
fn diamond() {
    // A = 0, B = 1, C = 2, D = 3
    let g = graph(4, &[(0, 1), (0, 2), (1, 3), (2, 3)]);
    let c = scc(&g);
    assert_eq!(c.len(), 4);
    let a = c.vertex_component_index(&0).unwrap();
    let b = c.vertex_component_index(&1).unwrap();
    let cc = c.vertex_component_index(&2).unwrap();
    let d = c.vertex_component_index(&3).unwrap();
    assert_eq!(c.direct_successors(a), Some(set(&[b, cc])));
    assert_eq!(c.direct_successors(b), Some(set(&[d])));
    assert_eq!(c.direct_successors(cc), Some(set(&[d])));
    assert_eq!(c.direct_successors(d), Some(set(&[])));
    let depth = c.depths();
    assert_eq!(depth[a], 0);
    assert_eq!(depth[b], 1);
    assert_eq!(depth[cc], 1);
    assert_eq!(depth[d], 2);
}

#[test]
fn diamond_with_shortcut() {
    // As the diamond, with an edge from A to D that the paths through B and
    // C make indirect.
    let g = graph(4, &[(0, 1), (0, 2), (1, 3), (2, 3), (0, 3)]);
    let c = scc(&g);
    let a = c.vertex_component_index(&0).unwrap();
    let b = c.vertex_component_index(&1).unwrap();
    let cc = c.vertex_component_index(&2).unwrap();
    let d = c.vertex_component_index(&3).unwrap();
    let all: HashSet<usize> = c.successors(a).unwrap().into_iter().collect();
    assert_eq!(all, set(&[b, cc, d]));
    assert_eq!(c.direct_successors(a), Some(set(&[b, cc])));
}
