use gamma::graph::{Error, StableGraph};

#[test]
fn build_given_duplicate_node() {
    let graph = StableGraph::<()>::build(vec![0, 0], vec![]);

    assert_eq!(graph.err(), Some(Error::DuplicateNode(0)))
}

#[test]
fn build_given_invalid_source() {
    let graph = StableGraph::build(vec![0], vec![(1, 0, ())]);

    assert_eq!(graph.err(), Some(Error::UnknownNode));
}

#[test]
fn build_given_invalid_target() {
    let graph = StableGraph::build(vec![0], vec![(0, 1, ())]);

    assert_eq!(graph.err(), Some(Error::UnknownNode));
}

#[test]
fn build_given_duplicate_edge() {
    let graph = StableGraph::build(vec![0, 1], vec![(0, 1, ()), (0, 1, ())]);

    assert_eq!(graph.err(), Some(Error::DuplicateEdge(0, 1)));
}

#[test]
fn build_given_duplicate_edge_reversed() {
    let graph = StableGraph::build(vec![0, 1], vec![(0, 1, ()), (1, 0, ())]);

    assert_eq!(graph.err(), Some(Error::DuplicateEdge(1, 0)));
}

#[test]
fn stable_graph_is_empty_given_empty() {
    let graph = StableGraph::<()>::build(vec![], vec![]).unwrap();

    assert!(graph.is_empty());
}

#[test]
fn stable_graph_is_empty_given_p1() {
    let graph = StableGraph::<()>::build(vec![0], vec![]).unwrap();

    assert!(!graph.is_empty());
}

#[test]
fn stable_graph_order_given_empty() {
    let graph = StableGraph::<()>::build(vec![], vec![]).unwrap();

    assert_eq!(graph.order(), 0);
}

#[test]
fn stable_graph_order_given_p1() {
    let graph = StableGraph::<()>::build(vec![0], vec![]).unwrap();

    assert_eq!(graph.order(), 1);
}

#[test]
fn stable_graph_size_given_empty() {
    let graph = StableGraph::<()>::build(vec![], vec![]).unwrap();

    assert_eq!(graph.size(), 0);
}

#[test]
fn stable_graph_size_given_p3() {
    let graph = StableGraph::build(vec![0, 1, 2], vec![(0, 1, ()), (1, 2, ())]).unwrap();

    assert_eq!(graph.size(), 2);
}

#[test]
fn stable_graph_nodes_given_empty() {
    let graph = StableGraph::<()>::build(vec![], vec![]).unwrap();
    let nodes = graph.nodes();

    assert_eq!(nodes.is_empty(), true);
}

#[test]
fn stable_graph_nodes_given_p3() {
    let graph = StableGraph::build(vec![0, 1, 2], vec![(0, 1, ()), (1, 2, ())]).unwrap();
    let nodes = graph.nodes();

    assert_eq!(nodes, vec![0, 1, 2]);
}

#[test]
fn stable_graph_has_node_given_outside() {
    let graph = StableGraph::<()>::build(vec![0], vec![]).unwrap();

    assert_eq!(graph.has_node(1), false);
}

#[test]
fn stable_graph_has_node_given_inside() {
    let graph = StableGraph::<()>::build(vec![0], vec![]).unwrap();

    assert_eq!(graph.has_node(0), true);
}

#[test]
fn stable_graph_neighbors_given_outside() {
    let graph = StableGraph::<()>::build(vec![0], vec![]).unwrap();
    let neighbors = graph.neighbors(1);

    assert_eq!(neighbors.err(), Some(Error::UnknownNode));
}

#[test]
fn stable_graph_neighbors_given_p1() {
    let graph = StableGraph::<()>::build(vec![0], vec![]).unwrap();
    let neighbors = graph.neighbors(0).unwrap();

    assert!(neighbors.is_empty());
}

#[test]
fn stable_graph_neighbors_given_p2() {
    let graph = StableGraph::build(vec![0, 1], vec![(0, 1, ())]).unwrap();
    let neighbors = graph.neighbors(0).unwrap();

    assert_eq!(neighbors, vec![1]);
}

#[test]
fn stable_graph_neighbors_given_p3_secondary() {
    let graph = StableGraph::build(vec![0, 1, 2], vec![(0, 1, ()), (1, 2, ())]).unwrap();
    let neighbors = graph.neighbors(1).unwrap();

    assert_eq!(neighbors, vec![0, 2]);
}

#[test]
fn stable_graph_degree_given_outside() {
    let graph = StableGraph::<()>::build(vec![0], vec![]).unwrap();
    let degree = graph.degree(1);

    assert_eq!(degree.err(), Some(Error::UnknownNode));
}

#[test]
fn stable_graph_degree_given_p3_secondary() {
    let graph = StableGraph::build(vec![0, 1, 2], vec![(0, 1, ()), (1, 2, ())]).unwrap();

    assert_eq!(graph.degree(1), Ok(2));
}

#[test]
fn stable_graph_edges_given_empty() {
    let graph = StableGraph::<()>::build(vec![], vec![]).unwrap();
    let edges = graph.edges();

    assert!(edges.is_empty());
}

#[test]
fn stable_graph_edges_given_p3_secondary() {
    let graph = StableGraph::build(vec![0, 1, 2], vec![(0, 1, ()), (1, 2, ())]).unwrap();
    let edges = graph.edges();

    assert_eq!(edges, vec![(0, 1), (1, 2)]);
}

#[test]
fn stable_graph_has_edge_given_outside_source() {
    let graph = StableGraph::<()>::build(vec![0], vec![]).unwrap();
    let result = graph.has_edge(1, 0);

    assert_eq!(result.err(), Some(Error::UnknownNode));
}

#[test]
fn stable_graph_has_edge_given_outside_target() {
    let graph = StableGraph::<()>::build(vec![0], vec![]).unwrap();
    let result = graph.has_edge(0, 1);

    assert_eq!(result.err(), Some(Error::UnknownNode));
}

#[test]
fn stable_graph_has_edge_given_unconnected() {
    let graph = StableGraph::<()>::build(vec![0, 1], vec![]).unwrap();

    assert!(!graph.has_edge(0, 1).unwrap());
}

#[test]
fn stable_graph_has_edge_given_connected() {
    let graph = StableGraph::build(vec![0, 1], vec![(0, 1, ())]).unwrap();

    assert!(graph.has_edge(0, 1).unwrap());
}

#[test]
fn stable_graph_has_edge_given_connected_and_reversed() {
    let graph = StableGraph::build(vec![0, 1], vec![(0, 1, ())]).unwrap();

    assert!(graph.has_edge(1, 0).unwrap());
}

#[test]
fn weight_given_outside_source() {
    let graph = StableGraph::<()>::build(vec![0], vec![]).unwrap();
    let weight = graph.weight(1, 0);

    assert_eq!(weight.err(), Some(Error::UnknownNode));
}

#[test]
fn weight_given_outside_target() {
    let graph = StableGraph::<()>::build(vec![0], vec![]).unwrap();
    let weight = graph.weight(0, 1);

    assert_eq!(weight.err(), Some(Error::UnknownNode));
}

#[test]
fn weight_given_no_edge() {
    let graph = StableGraph::<()>::build(vec![0, 1], vec![]).unwrap();
    let weight = graph.weight(0, 1);

    assert_eq!(weight, Ok(None));
}

#[test]
fn weight_given_edge() {
    let graph = StableGraph::build(vec![0, 1], vec![(0, 1, 42)]).unwrap();
    let weight = graph.weight(0, 1);

    assert_eq!(weight, Ok(Some(&42)));
}

#[test]
fn weight_given_edge_reversed() {
    let graph = StableGraph::build(vec![0, 1], vec![(0, 1, 42)]).unwrap();
    let weight = graph.weight(1, 0);

    assert_eq!(weight, Ok(Some(&42)));
}
