use gamma::graph::DefaultGraph;
use gamma::matching::{greedy, Pairing};

fn sorted_edges(p: &Pairing) -> Vec<(usize, usize)> {
    let mut e = p.edges();
    e.sort();
    e
}

#[test]
fn greedy_empty() {
    let graph = DefaultGraph::new();
    let pairing = greedy(&graph);

    assert_eq!(sorted_edges(&pairing), vec![]);
}

#[test]
fn greedy_p1() {
    let graph = DefaultGraph::try_from_adjacency(vec![vec![]]).unwrap();
    let pairing = greedy(&graph);

    assert_eq!(sorted_edges(&pairing), vec![]);
}

#[test]
fn greedy_p2() {
    let graph = DefaultGraph::try_from_adjacency(vec![vec![1], vec![0]]).unwrap();
    let pairing = greedy(&graph);

    assert_eq!(sorted_edges(&pairing), vec![(0, 1)]);
}

#[test]
fn greedy_p2_p2() {
    let graph = DefaultGraph::try_from_adjacency(vec![vec![1], vec![0], vec![3], vec![2]])
        .unwrap();
    let pairing = greedy(&graph);

    assert_eq!(sorted_edges(&pairing), vec![(0, 1), (2, 3)]);
}

#[test]
fn greedy_p3() {
    let graph = DefaultGraph::try_from_adjacency(vec![vec![1], vec![0, 2], vec![1]]).unwrap();
    let pairing = greedy(&graph);

    assert_eq!(sorted_edges(&pairing), vec![(0, 1)]);
}

#[test]
fn greedy_p4() {
    let graph = DefaultGraph::try_from_adjacency(vec![
        vec![1],
        vec![0, 2],
        vec![1, 3],
        vec![2],
    ]).unwrap();
    let pairing = greedy(&graph);

    assert_eq!(sorted_edges(&pairing), vec![(0, 1), (2, 3)]);
}

#[test]
fn greedy_s3() {
    let graph = DefaultGraph::try_from_adjacency(vec![
        vec![1],
        vec![0, 2, 3],
        vec![1],
        vec![1],
    ]).unwrap();
    let pairing = greedy(&graph);

    assert_eq!(sorted_edges(&pairing), vec![(0, 1)]);
}

#[test]
fn greedy_c6() {
    let graph = DefaultGraph::try_from_adjacency(vec![
        vec![1, 5],
        vec![0, 2],
        vec![1, 3],
        vec![2, 4],
        vec![3, 5],
        vec![4, 0],
    ]).unwrap();
    let pairing = greedy(&graph);

    assert_eq!(sorted_edges(&pairing), vec![(0, 1), (2, 3), (4, 5)]);
}

#[test]
fn greedy_pairs_only_graph_edges() {
    let graph = DefaultGraph::try_from_adjacency(vec![
        vec![1, 5],
        vec![0, 2],
        vec![1, 3],
        vec![2, 4],
        vec![3, 5],
        vec![4, 0],
    ]).unwrap();
    let pairing = greedy(&graph);

    for (u, v) in pairing.edges() {
        assert_eq!(graph.has_edge(u, v), Ok(true));
    }
}

#[test]
fn greedy_leaves_no_path_edge_with_both_ends_unmatched() {
    let graph = DefaultGraph::try_from_adjacency(vec![
        vec![1],
        vec![0, 2],
        vec![1, 3],
        vec![2],
    ]).unwrap();
    let pairing = greedy(&graph);

    for (u, v) in graph.edges() {
        assert!(pairing.has_node(u) || pairing.has_node(v));
    }
}

#[test]
fn greedy_leaves_no_extendable_edge() {
    let graph = DefaultGraph::try_from_adjacency(vec![
        vec![1, 2, 3],
        vec![0, 2],
        vec![0, 1],
        vec![0, 4],
        vec![3],
    ])
    .unwrap();
    let pairing = greedy(&graph);

    for (sid, tid) in graph.edges() {
        assert!(pairing.has_node(sid) || pairing.has_node(tid));
    }
}
