use std::collections::HashSet;
use tarjan_scc::{depths, scc};

fn graph(n: usize, edges: &[(usize, usize)]) -> Vec<HashSet<usize>> {
    let mut g = vec![HashSet::new(); n];
    for &(u, v) in edges {
        g[u].insert(v);
    }
    g
}

fn set(items: &[usize]) -> HashSet<usize> {
    items.iter().copied().collect()
}

#[test]
fn index_out_of_range_is_absent() {
    let c = scc(&graph(2, &[(0, 1)]));
    assert_eq!(c.len(), 2);
    assert!(c.get_by_index(1).is_some());
    assert!(c.get_by_index(2).is_none());
    assert!(c.get_by_index(usize::MAX).is_none());
    assert_eq!(c.successors(2), None);
    assert_eq!(c.successors(usize::MAX), None);
    assert_eq!(c.direct_successors(2), None);
    assert_eq!(c.direct_successors(usize::MAX), None);
}

#[test]
fn unknown_vertex_is_absent() {
    let c = scc(&graph(2, &[(0, 1)]));
    assert_eq!(c.vertex_component_index(&1), Some(0));
    assert_eq!(c.vertex_component_index(&0), Some(1));
    assert_eq!(c.vertex_component_index(&2), None);
    assert_eq!(c.get(&0), Some(&[0][..]));
    assert_eq!(c.get(&2), None);
}

#[test]
fn components_come_in_the_order_of_completion() {
    // 0 -> 1 -> 2 and 3 -> 2: the search from 0 completes 2, 1, 0 and the
    // search from 3 completes 3.
    let c = scc(&graph(4, &[(0, 1), (1, 2), (3, 2)]));
    assert_eq!(c.iter(), vec![&[2][..], &[1][..], &[0][..], &[3][..]]);
    assert_eq!(c.order_by_depth(), vec![2, 3, 1, 0]);
    assert_eq!(c.depths(), vec![2, 1, 0, 0]);
}

#[test]
fn vertices_of_a_component_come_as_popped() {
    // 0 -> 1 -> 2 -> 0: the stack holds 0, 1, 2 when the root 0 is complete.
    let c = scc(&graph(3, &[(0, 1), (1, 2), (2, 0)]));
    assert_eq!(c.iter(), vec![&[2, 1, 0][..]]);
}

#[test]
fn two_cycles_joined_by_a_bridge() {
    let c = scc(&graph(6, &[(0, 1), (1, 2), (2, 0), (2, 3), (3, 4), (4, 5), (5, 3)]));
    assert_eq!(c.len(), 2);
    let first: HashSet<usize> = c.get_by_index(0).unwrap().iter().copied().collect();
    let second: HashSet<usize> = c.get_by_index(1).unwrap().iter().copied().collect();
    assert_eq!(first, set(&[3, 4, 5]));
    assert_eq!(second, set(&[0, 1, 2]));
    assert!(c.is_cyclic(0) && c.is_cyclic(1));
    assert_eq!(c.successors(0), Some(vec![0]));
    let from_second: HashSet<usize> = c.successors(1).unwrap().into_iter().collect();
    assert_eq!(from_second, set(&[0, 1]));
    assert_eq!(c.direct_successors(1), Some(set(&[0, 1])));
    assert_eq!(c.direct_successors(0), Some(set(&[0])));
    assert_eq!(c.depths(), vec![1, 0]);
    assert_eq!(c.predecessors(), vec![set(&[0, 1]), set(&[1])]);
    assert_eq!(c.order_by_depth(), vec![1, 0]);
}

#[test]
fn back_edge_lowers_low_link_to_the_index() {
    // 0 -> 1 -> 2 -> 1 and 2 -> 3 -> 0: one component, found only if the
    // edge 3 -> 0 is followed after 2 -> 1 has been seen.
    let c = scc(&graph(4, &[(0, 1), (1, 2), (2, 1), (2, 3), (3, 0)]));
    assert_eq!(c.len(), 1);
    assert_eq!(c.get_by_index(0).unwrap().len(), 4);
}

#[test]
fn edge_into_finished_component_is_left_aside() {
    // The search from 0 completes {1, 2} before it returns to 0; the edge
    // from 3 to 1 then leads into a finished component.
    let c = scc(&graph(4, &[(0, 1), (1, 2), (2, 1), (0, 3), (3, 1)]));
    assert_eq!(c.len(), 3);
    let pair = c.vertex_component_index(&1).unwrap();
    assert_eq!(c.vertex_component_index(&2), Some(pair));
    assert_eq!(pair, 0);
    assert_ne!(c.vertex_component_index(&3), Some(pair));
    assert_ne!(c.vertex_component_index(&0), c.vertex_component_index(&3));
}

#[test]
fn direct_successors_through_a_cyclic_successor() {
    // 0 -> {1, 2}, 1 <-> 1' (a cycle), 1 -> 2: the successor 2 is reached
    // through the cyclic component of 1.
    let c = scc(&graph(4, &[(0, 1), (0, 2), (1, 3), (3, 1), (1, 2)]));
    assert_eq!(c.len(), 3);
    let top = c.vertex_component_index(&0).unwrap();
    let cycle = c.vertex_component_index(&1).unwrap();
    let leaf = c.vertex_component_index(&2).unwrap();
    assert!(c.is_cyclic(cycle));
    assert_eq!(c.direct_successors(top), Some(set(&[cycle])));
    assert_eq!(c.direct_successors(cycle), Some(set(&[cycle, leaf])));
    assert_eq!(c.direct_successors(leaf), Some(set(&[])));
}

#[test]
fn direct_successors_of_a_wide_graph() {
    // Twenty layers of two components each, every component of a layer
    // leading to both components of the next.
    let layers = 20;
    let mut edges = Vec::new();
    for l in 0..layers - 1 {
        for a in 0..2 {
            for b in 0..2 {
                edges.push((2 * l + a, 2 * (l + 1) + b));
            }
        }
    }
    for v in 2..2 * layers {
        edges.push((0, v));
    }
    let c = scc(&graph(2 * layers, &edges));
    let top = c.vertex_component_index(&0).unwrap();
    let expected = set(&[c.vertex_component_index(&2).unwrap(), c.vertex_component_index(&3).unwrap()]);
    assert_eq!(c.successors(top).unwrap().len(), 2 * layers - 2);
    assert_eq!(c.direct_successors(top), Some(expected));
}

#[test]
fn depths_of_adjacency_sets() {
    assert_eq!(depths(&[set(&[])]), vec![0]);
    assert_eq!(depths(&[set(&[0])]), vec![0]);
    // 0 -> 1 -> 2 and 0 -> 2
    assert_eq!(depths(&[set(&[1, 2]), set(&[2]), set(&[])]), vec![0, 1, 2]);
    // 2 -> 1 -> 0, with loops
    assert_eq!(depths(&[set(&[0]), set(&[0, 1]), set(&[1, 2])]), vec![2, 1, 0]);
    // 0 -> 3, 1 -> 3, 3 -> 2, 1 -> 2
    assert_eq!(depths(&[set(&[3]), set(&[3, 2]), set(&[]), set(&[2])]), vec![0, 0, 2, 1]);
}

#[test]
fn depths_do_not_depend_on_how_vertices_are_numbered() {
    // A chain in which every vertex leads to a greater one, and the same
    // chain in which every vertex leads to a smaller one.
    assert_eq!(depths(&[set(&[1]), set(&[2]), set(&[3]), set(&[])]), vec![0, 1, 2, 3]);
    assert_eq!(depths(&[set(&[]), set(&[0]), set(&[1]), set(&[2])]), vec![3, 2, 1, 0]);
}

#[test]
fn unrelated_components_come_in_the_order_of_the_roots() {
    let c = scc(&graph(3, &[]));
    assert_eq!(c.iter(), vec![&[0][..], &[1][..], &[2][..]]);
    // 3 -> 1: the visit of 0 comes first, then that of 1, then 2, and 3 last.
    let c = scc(&graph(4, &[(3, 1)]));
    assert_eq!(c.iter(), vec![&[0][..], &[1][..], &[2][..], &[3][..]]);
    // 0 -> 2: the visit of 0 completes 2 before 0; 1 follows.
    let c = scc(&graph(3, &[(0, 2)]));
    assert_eq!(c.iter(), vec![&[2][..], &[0][..], &[1][..]]);
}

#[test]
fn a_component_lists_the_vertex_visited_last_first() {
    // 0 -> 1, 1 -> 0, 1 -> 2
    let c = scc(&graph(3, &[(0, 1), (1, 0), (1, 2)]));
    assert_eq!(c.iter(), vec![&[2][..], &[1, 0][..]]);
    // 1 -> 2 -> 3 -> 1, started from 0 -> 2: visited in the order 0, 2, 3, 1.
    let c = scc(&graph(4, &[(0, 2), (1, 2), (2, 3), (3, 1)]));
    assert_eq!(c.iter(), vec![&[1, 3, 2][..], &[0][..]]);
}
