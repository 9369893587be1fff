use gamma::graph::{ArrayGraph, Error};

#[test]
fn from_adjacency_given_missing_node() {
    let graph = ArrayGraph::from_adjacency(vec![vec![1]]);

    assert_eq!(graph.err(), Some(Error::MissingNode(1)));
}

#[test]
fn from_adjacency_given_missing_edge() {
    let graph = ArrayGraph::from_adjacency(vec![vec![1], vec![]]);

    assert_eq!(graph.err(), Some(Error::MissingEdge(1, 0)));
}

#[test]
fn from_adjacency_given_duplicate_edge() {
    let graph = ArrayGraph::from_adjacency(vec![vec![1], vec![0, 0]]);

    assert_eq!(graph.err(), Some(Error::DuplicateEdge(1, 0)));
}

#[test]
fn array_graph_neighbors_given_p3_inner() {
    let graph = ArrayGraph::from_adjacency(vec![vec![1], vec![0, 2], vec![1]]).unwrap();

    assert_eq!(graph.neighbors(1).unwrap(), vec![0, 2]);
}

#[test]
fn array_graph_is_empty_given_empty() {
    let graph = ArrayGraph::new();

    assert_eq!(graph.is_empty(), true);
}

#[test]
fn array_graph_is_empty_given_p1() {
    let graph = ArrayGraph::from_adjacency(vec![vec![]]).unwrap();

    assert_eq!(graph.is_empty(), false);
}

#[test]
fn array_graph_order_given_empty() {
    let graph = ArrayGraph::new();

    assert_eq!(graph.order(), 0);
}

#[test]
fn array_graph_order_given_p1() {
    let graph = ArrayGraph::from_adjacency(vec![vec![]]).unwrap();

    assert_eq!(graph.order(), 1);
}

#[test]
fn array_graph_size_given_empty() {
    let graph = ArrayGraph::new();

    assert_eq!(graph.size(), 0);
}

#[test]
fn size_given_p2() {
    let graph = ArrayGraph::from_adjacency(vec![vec![1], vec![0, 2], vec![1]]).unwrap();

    assert_eq!(graph.size(), 2);
}

#[test]
fn array_graph_nodes_given_empty() {
    let graph = ArrayGraph::new();

    assert_eq!(graph.nodes(), Vec::<usize>::new());
}

#[test]
fn nodes_given_p1() {
    let graph = ArrayGraph::from_adjacency(vec![vec![]]).unwrap();

    assert_eq!(graph.nodes(), vec![0]);
}

#[test]
fn array_graph_has_node_given_outside() {
    let graph = ArrayGraph::new();

    assert_eq!(graph.has_node(0), false);
}

#[test]
fn array_graph_has_node_given_inside() {
    let graph = ArrayGraph::from_adjacency(vec![vec![]]).unwrap();

    assert_eq!(graph.has_node(0), true);
}

#[test]
fn array_graph_degree_given_outside() {
    let graph = ArrayGraph::new();

    assert_eq!(graph.degree(0), Err(Error::MissingNode(0)));
}

#[test]
fn array_graph_degree_given_inside() {
    let graph = ArrayGraph::from_adjacency(vec![vec![1], vec![0, 2], vec![1]]).unwrap();

    assert_eq!(graph.degree(1), Ok(2));
}

#[test]
fn array_graph_edges_given_empty() {
    let graph = ArrayGraph::new();

    assert_eq!(graph.edges(), Vec::<(usize, usize)>::new());
}

#[test]
fn edges_give_p3() {
    let graph = ArrayGraph::from_adjacency(vec![vec![1], vec![0, 2], vec![1]]).unwrap();

    assert_eq!(graph.edges(), vec![(0, 1), (1, 2)]);
}

#[test]
fn has_edge_given_sid_outside() {
    let graph = ArrayGraph::from_adjacency(vec![vec![]]).unwrap();

    assert_eq!(graph.has_edge(1, 0), Err(Error::MissingNode(1)));
}
