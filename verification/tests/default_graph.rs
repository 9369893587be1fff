use gamma::graph::{DefaultGraph, Error};
use gamma::traversal::DepthFirst;

#[test]
fn missing_node() {
    let graph = DefaultGraph::try_from_adjacency(vec![vec![1]]);

    assert_eq!(graph.err(), Some(Error::UnknownId(1)))
}

#[test]
fn default_graph_duplicate_edge() {
    let graph = DefaultGraph::try_from_adjacency(vec![vec![1, 1], vec![0]]);

    assert_eq!(graph.err(), Some(Error::DuplicateEdge(0, 1)))
}

#[test]
fn missing_edge() {
    let graph = DefaultGraph::try_from_adjacency(vec![vec![1], vec![]]);

    assert_eq!(graph.err(), Some(Error::MissingEdge(1, 0)))
}

#[test]
fn default_graph_duplicate_edge_from_edges() {
    let graph = DefaultGraph::try_from_edges(vec![(0, 1), (0, 1)]);

    assert_eq!(graph.err(), Some(Error::DuplicateEdge(0, 1)))
}

#[test]
fn duplicate_edge_reverse() {
    let graph = DefaultGraph::try_from_edges(vec![(0, 1), (1, 0)]);

    assert_eq!(graph.err(), Some(Error::DuplicateEdge(1, 0)))
}

#[test]
fn valid() {
    let graph = DefaultGraph::try_from_edges(vec![(0, 1), (1, 2), (3, 4)]).unwrap();
    let mut expected = DefaultGraph::new();

    assert_eq!(expected.add_node(0), Ok(()));
    assert_eq!(expected.add_node(1), Ok(()));
    assert_eq!(expected.add_node(2), Ok(()));
    assert_eq!(expected.add_node(3), Ok(()));
    assert_eq!(expected.add_node(4), Ok(()));
    assert_eq!(expected.add_edge(0, 1), Ok(()));
    assert_eq!(expected.add_edge(1, 2), Ok(()));
    assert_eq!(expected.add_edge(3, 4), Ok(()));

    assert_eq!(graph, expected);
}

#[test]
fn p3_internal() {
    let g1 = DefaultGraph::try_from_adjacency(vec![vec![1], vec![0, 2], vec![1]]).unwrap();
    let traversal = DepthFirst::new(&g1, 1).unwrap();
    let g2 = DefaultGraph::try_from_traversal(traversal).unwrap();

    assert_eq!(g2.edges(), vec![(1, 0), (1, 2)])
}

#[test]
fn default_graph_c3() {
    let g1 = DefaultGraph::try_from_adjacency(vec![vec![1, 2], vec![0, 2], vec![1, 0]])
        .unwrap();
    let traversal = DepthFirst::new(&g1, 0).unwrap();
    let g2 = DefaultGraph::try_from_traversal(traversal).unwrap();

    assert_eq!(g2.edges(), vec![(0, 1), (1, 2), (2, 0)])
}

#[test]
fn default_graph_duplicate() {
    let mut graph = DefaultGraph::try_from_adjacency(vec![vec![]]).unwrap();

    assert_eq!(graph.add_node(0), Err(Error::DuplicateId(0)))
}

#[test]
fn default_graph_add_edge_duplicate() {
    let mut graph = DefaultGraph::try_from_adjacency(vec![vec![1], vec![0]]).unwrap();

    assert_eq!(graph.add_edge(0, 1), Err(Error::DuplicateEdge(0, 1)))
}

#[test]
fn default_graph_duplicate_reverse() {
    let mut graph = DefaultGraph::try_from_adjacency(vec![vec![1], vec![0]]).unwrap();

    assert_eq!(graph.add_edge(1, 0), Err(Error::DuplicateEdge(1, 0)))
}

#[test]
fn missing_sid() {
    let mut graph = DefaultGraph::try_from_adjacency(vec![vec![]]).unwrap();

    assert_eq!(graph.add_edge(1, 0), Err(Error::UnknownId(1)))
}

#[test]
fn missing_tid() {
    let mut graph = DefaultGraph::try_from_adjacency(vec![vec![]]).unwrap();

    assert_eq!(graph.add_edge(0, 1), Err(Error::UnknownId(1)))
}

#[test]
fn default_graph_p0() {
    let graph = DefaultGraph::new();

    assert_eq!(graph.is_empty(), true)
}

#[test]
fn default_graph_p1() {
    let graph = DefaultGraph::try_from_adjacency(vec![vec![]]).unwrap();

    assert_eq!(graph.is_empty(), false)
}

#[test]
fn default_graph_order_p0() {
    let graph = DefaultGraph::new();

    assert_eq!(graph.order(), 0)
}

#[test]
fn default_graph_p3() {
    let graph = DefaultGraph::try_from_adjacency(vec![vec![1], vec![0, 2], vec![1]]).unwrap();

    assert_eq!(graph.order(), 3)
}

#[test]
fn default_graph_size_p0() {
    let graph = DefaultGraph::new();

    assert_eq!(graph.size(), 0)
}

#[test]
fn default_graph_size_p3() {
    let graph = DefaultGraph::try_from_adjacency(vec![vec![1], vec![0, 2], vec![1]]).unwrap();

    assert_eq!(graph.size(), 2)
}

#[test]
fn default_graph_nodes_p0() {
    let graph = DefaultGraph::new();

    assert_eq!(graph.ids(), Vec::<usize>::new())
}

#[test]
fn default_graph_nodes_p3() {
    let graph = DefaultGraph::try_from_adjacency(vec![vec![1], vec![0, 2], vec![1]]).unwrap();

    assert_eq!(graph.ids(), vec![0, 1, 2])
}

#[test]
fn default_graph_given_outside() {
    let graph = DefaultGraph::new();

    assert_eq!(graph.neighbors(1).err(), Some(Error::UnknownId(1)))
}

#[test]
fn default_graph_given_inside_p3() {
    let graph = DefaultGraph::try_from_adjacency(vec![vec![1], vec![0, 2], vec![1]]).unwrap();

    assert_eq!(graph.neighbors(1).unwrap(), vec![0, 2])
}

#[test]
fn default_graph_has_node_given_outside() {
    let graph = DefaultGraph::new();

    assert_eq!(graph.has_id(0), false)
}

#[test]
fn given_inside_p1() {
    let graph = DefaultGraph::try_from_adjacency(vec![vec![]]).unwrap();

    assert_eq!(graph.has_id(0), true)
}

#[test]
fn default_graph_degree_given_outside() {
    let graph = DefaultGraph::new();

    assert_eq!(graph.degree(0), Err(Error::UnknownId(0)))
}

#[test]
fn default_graph_degree_given_inside_p3() {
    let graph = DefaultGraph::try_from_adjacency(vec![vec![1], vec![0, 2], vec![1]]).unwrap();

    assert_eq!(graph.degree(1), Ok(2))
}

#[test]
fn default_graph_edges_p0() {
    let graph = DefaultGraph::new();

    assert_eq!(graph.edges(), Vec::<(usize, usize)>::new())
}

#[test]
fn default_graph_edges_p3() {
    let graph = DefaultGraph::try_from_adjacency(vec![vec![1], vec![0, 2], vec![1]]).unwrap();

    assert_eq!(graph.edges(), vec![(0, 1), (1, 2)])
}

#[test]
fn unk_unk() {
    let graph = DefaultGraph::new();

    assert_eq!(graph.has_edge(0, 1), Err(Error::UnknownId(0)))
}

#[test]
fn sid_unk() {
    let graph = DefaultGraph::try_from_adjacency(vec![vec![]]).unwrap();

    assert_eq!(graph.has_edge(0, 1), Err(Error::UnknownId(1)))
}

#[test]
fn sid_tid() {
    let graph = DefaultGraph::try_from_adjacency(vec![vec![1], vec![0]]).unwrap();

    assert_eq!(graph.has_edge(0, 1), Ok(true))
}

#[test]
fn tid_sid() {
    let graph = DefaultGraph::try_from_adjacency(vec![vec![1], vec![0]]).unwrap();

    assert_eq!(graph.has_edge(1, 0), Ok(true))
}

#[test]
fn c3_and_p3() {
    let c3 = DefaultGraph::try_from_adjacency(vec![vec![1, 2], vec![0, 2], vec![1, 0]])
        .unwrap();
    let p3 = DefaultGraph::try_from_adjacency(vec![vec![1], vec![0, 2], vec![1]]).unwrap();

    assert_eq!(c3 == p3, false)
}

#[test]
fn p2_and_p2_p1() {
    let p2 = DefaultGraph::try_from_adjacency(vec![vec![1], vec![0]]).unwrap();
    let p2_p1 = DefaultGraph::try_from_adjacency(vec![vec![1], vec![0], vec![]]).unwrap();

    assert_eq!(p2 == p2_p1, false)
}

#[test]
fn p2_and_p2_reverse() {
    let g1 = DefaultGraph::try_from_edges(vec![(0, 1)]).unwrap();
    let g2 = DefaultGraph::try_from_edges(vec![(1, 0)]).unwrap();

    assert_eq!(g1 == g2, true)
}

#[test]
fn p2_and_p2_different_ids() {
    let g1 = DefaultGraph::try_from_edges(vec![(0, 1)]).unwrap();
    let g2 = DefaultGraph::try_from_edges(vec![(0, 2)]).unwrap();

    assert_eq!(g1 == g2, false)
}
