use std::collections::{HashMap, HashSet};
use tarjan_scc::{scc, Scc, StronglyConnected};

/// A graph that enumerates one vertex only; vertex `v` has an edge to
/// `v + 1` up to `last`, and `last` has an edge back to `back`.
struct Lasso {
    last: u32,
    back: u32,
}

impl Scc for Lasso {
    type Vertex = u32;

    fn vertices(&self) -> Vec<u32> {
        vec![0]
    }

    fn successors(&self, v: u32) -> Vec<u32> {
        if v < self.last {
            vec![v + 1]
        } else {
            vec![self.back]
        }
    }
}

#[test]
fn vertices_reached_only_by_edges_are_found() {
    let g = Lasso { last: 5, back: 3 };
    let c = scc(&g);
    assert_eq!(c.len(), 4);
    let cycle = c.vertex_component_index(&3).unwrap();
    assert_eq!(cycle, 0);
    for v in 3..=5 {
        assert_eq!(c.vertex_component_index(&v), Some(cycle));
    }
    assert_eq!(c.vertex_component_index(&2), Some(1));
    assert_eq!(c.vertex_component_index(&1), Some(2));
    assert_eq!(c.vertex_component_index(&0), Some(3));
    assert_eq!(c.vertex_component_index(&6), None);
    assert_eq!(c.get(&4).unwrap().len(), 3);
    assert!(c.get(&6).is_none());
}

#[test]
fn adjacency_map() {
    let mut g: HashMap<char, HashSet<char>> = HashMap::new();
    g.insert('a', ['b'].into_iter().collect());
    g.insert('b', ['c'].into_iter().collect());
    g.insert('c', ['a', 'd'].into_iter().collect());
    g.insert('d', HashSet::new());
    let c = g.strongly_connected_components();
    assert_eq!(c.len(), 2);
    let abc = c.vertex_component_index(&'a').unwrap();
    assert_eq!(c.vertex_component_index(&'b'), Some(abc));
    assert_eq!(c.vertex_component_index(&'c'), Some(abc));
    let d = c.vertex_component_index(&'d').unwrap();
    assert_eq!((d, abc), (0, 1));
    assert_eq!(c.get(&'d'), Some(&['d'][..]));
    assert_eq!(c.vertex_component_index(&'e'), None);
    let mut found: Vec<char> = g.vertices();
    found.sort();
    assert_eq!(found, vec!['a', 'b', 'c', 'd']);
    let mut next: Vec<char> = g.successors('c');
    next.sort();
    assert_eq!(next, vec!['a', 'd']);
}

#[test]
fn adjacency_list_methods() {
    let g: Vec<HashSet<usize>> = vec![[1, 2].into_iter().collect(), HashSet::new(), HashSet::new()];
    assert_eq!(g.vertices(), vec![0, 1, 2]);
    let mut next = g.successors(0);
    next.sort();
    assert_eq!(next, vec![1, 2]);
    assert_eq!(g.successors(1), Vec::<usize>::new());
    let a = g.strongly_connected_components();
    let b = scc(&g);
    assert_eq!(a.len(), 3);
    assert_eq!(a.iter(), b.iter());
}

#[test]
fn long_path_needs_no_deep_call_stack() {
    let n: u32 = 300_000;
    let g = Lasso { last: n, back: n };
    let c = scc(&g);
    assert_eq!(c.len(), (n + 1) as usize);
    assert_eq!(c.vertex_component_index(&n), Some(0));
    assert_eq!(c.vertex_component_index(&0), Some(n as usize));
    assert!(c.is_cyclic(0));
    assert!(!c.is_cyclic(1));
    let depth = c.depths();
    assert_eq!(depth[n as usize], 0);
    assert_eq!(depth[0], n as usize);
    let order = c.order_by_depth();
    assert_eq!(order[0], n as usize);
    assert_eq!(order[n as usize], 0);
}

#[test]
fn long_cycle_needs_no_deep_call_stack() {
    let n: u32 = 300_000;
    let g = Lasso { last: n, back: 0 };
    let c = scc(&g);
    assert_eq!(c.len(), 1);
    assert_eq!(c.get_by_index(0).unwrap().len(), (n + 1) as usize);
    assert!(c.is_cyclic(0));
}

#[test]
fn method_and_function_answer_alike() {
    let g: Vec<HashSet<usize>> = vec![
        [1, 3].into_iter().collect(),
        [0, 2].into_iter().collect(),
        HashSet::new(),
        [2].into_iter().collect(),
        [4].into_iter().collect(),
    ];
    let a = g.strongly_connected_components();
    let b = scc(&g);
    assert_eq!(a.len(), b.len());
    assert_eq!(a.iter(), b.iter());
    assert_eq!(a.depths(), b.depths());
    assert_eq!(a.predecessors(), b.predecessors());
    assert_eq!(a.order_by_depth(), b.order_by_depth());
    for i in 0..a.len() {
        let left: HashSet<usize> = a.successors(i).unwrap().into_iter().collect();
        let right: HashSet<usize> = b.successors(i).unwrap().into_iter().collect();
        assert_eq!(left, right);
        assert_eq!(a.direct_successors(i), b.direct_successors(i));
    }
    for v in 0..g.len() {
        assert_eq!(a.vertex_component_index(&v), b.vertex_component_index(&v));
    }
}
