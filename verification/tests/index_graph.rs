use gamma::graph::{Error, IndexGraph};

#[test]
fn build_given_unknown_tid() {
    let graph = IndexGraph::build(vec![vec![1]]);

    assert_eq!(graph.err(), Some(Error::UnknownIndex(1)));
}

#[test]
fn build_given_unmatched_sid() {
    let graph = IndexGraph::build(vec![vec![], vec![0]]);

    assert_eq!(graph.err(), Some(Error::MissingPairing(0, 1)));
}

#[test]
fn build_given_unmatched_tid() {
    let graph = IndexGraph::build(vec![vec![1], vec![]]);

    assert_eq!(graph.err(), Some(Error::MissingPairing(1, 0)));
}

#[test]
fn build_given_duplicate_pairing() {
    let graph = IndexGraph::build(vec![vec![1, 1], vec![0]]);

    assert_eq!(graph.err(), Some(Error::DuplicatePairing(0, 1)));
}

#[test]
fn index_graph_is_empty_given_empty() {
    let graph = IndexGraph::build(vec![]).unwrap();

    assert!(graph.is_empty());
}

#[test]
fn index_graph_is_empty_given_p1() {
    let graph = IndexGraph::build(vec![vec![]]).unwrap();

    assert!(!graph.is_empty());
}

#[test]
fn index_graph_order_given_empty() {
    let graph = IndexGraph::build(vec![]).unwrap();

    assert_eq!(graph.order(), 0);
}

#[test]
fn index_graph_order_given_p1() {
    let graph = IndexGraph::build(vec![vec![]]).unwrap();

    assert_eq!(graph.order(), 1);
}

#[test]
fn index_graph_size_given_empty() {
    let graph = IndexGraph::build(vec![vec![]]).unwrap();

    assert_eq!(graph.size(), 0);
}

#[test]
fn index_graph_size_given_p3() {
    let graph = IndexGraph::build(vec![vec![1], vec![0, 2], vec![1]]).unwrap();

    assert_eq!(graph.size(), 2);
}

#[test]
fn index_graph_nodes_given_empty() {
    let graph = IndexGraph::build(vec![]).unwrap();

    assert!(graph.nodes().is_empty());
}

#[test]
fn index_graph_nodes_given_p3() {
    let graph = IndexGraph::build(vec![vec![1], vec![0, 2], vec![1]]).unwrap();

    assert_eq!(graph.nodes(), vec![0, 1, 2]);
}

#[test]
fn index_graph_has_node_given_outside() {
    let graph = IndexGraph::build(vec![]).unwrap();

    assert!(!graph.has_node(1));
}

#[test]
fn index_graph_has_node_given_inside() {
    let graph = IndexGraph::build(vec![vec![]]).unwrap();

    assert!(graph.has_node(0));
}

#[test]
fn index_graph_neighbors_given_outside() {
    let graph = IndexGraph::build(vec![]).unwrap();
    let neighbors = graph.neighbors(1);

    assert_eq!(neighbors.err(), Some(Error::UnknownNode));
}

#[test]
fn index_graph_neighbors_given_p1() {
    let graph = IndexGraph::build(vec![vec![]]).unwrap();
    let neighbors = graph.neighbors(0).unwrap();

    assert!(neighbors.is_empty());
}

#[test]
fn index_graph_neighbors_given_p2() {
    let graph = IndexGraph::build(vec![vec![1], vec![0]]).unwrap();
    let neighbors = graph.neighbors(0).unwrap();

    assert_eq!(neighbors, vec![1]);
}

#[test]
fn index_graph_neighbors_given_p3_secondary() {
    let graph = IndexGraph::build(vec![vec![1], vec![0, 2], vec![1]]).unwrap();
    let neighbors = graph.neighbors(1).unwrap();

    assert_eq!(neighbors, vec![0, 2]);
}

#[test]
fn index_graph_degree_given_outside() {
    let graph = IndexGraph::build(vec![vec![]]).unwrap();
    let degree = graph.degree(1);

    assert_eq!(degree.err(), Some(Error::UnknownNode));
}

#[test]
fn index_graph_degree_given_p3_secondary() {
    let graph = IndexGraph::build(vec![vec![1], vec![0, 2], vec![1]]).unwrap();

    assert_eq!(graph.degree(1), Ok(2));
}

#[test]
fn index_graph_edges_given_empty() {
    let graph = IndexGraph::build(vec![]).unwrap();

    assert!(graph.edges().is_empty());
}

#[test]
fn index_graph_edges_given_p3_secondary() {
    let graph = IndexGraph::build(vec![vec![1], vec![0, 2], vec![1]]).unwrap();

    assert_eq!(graph.edges(), vec![(0, 1), (1, 2)]);
}

#[test]
fn index_graph_has_edge_given_outside_source() {
    let graph = IndexGraph::build(vec![vec![]]).unwrap();
    let result = graph.has_edge(1, 0);

    assert_eq!(result.err(), Some(Error::UnknownNode));
}

#[test]
fn index_graph_has_edge_given_outside_target() {
    let graph = IndexGraph::build(vec![vec![]]).unwrap();
    let result = graph.has_edge(0, 1);

    assert_eq!(result.err(), Some(Error::UnknownNode));
}

#[test]
fn index_graph_has_edge_given_unconnected() {
    let graph = IndexGraph::build(vec![vec![], vec![]]).unwrap();

    assert!(!graph.has_edge(0, 1).unwrap());
}

#[test]
fn index_graph_has_edge_given_connected() {
    let graph = IndexGraph::build(vec![vec![1], vec![0]]).unwrap();

    assert!(graph.has_edge(0, 1).unwrap());
}

#[test]
fn index_graph_has_edge_given_connected_and_reversed() {
    let graph = IndexGraph::build(vec![vec![1], vec![0]]).unwrap();

    assert!(graph.has_edge(1, 0).unwrap());
}
