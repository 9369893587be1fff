use gamma::graph::{Error, HashGraph, Step};

#[test]
fn given_missing_source() {
    let graph = HashGraph::from_traversal(2, vec![Step::new(3, 4, false)]);

    assert_eq!(graph.err(), Some(Error::MissingNode(3)));
}

#[test]
fn given_duplicate_target() {
    let graph = HashGraph::from_traversal(2, vec![
        Step::new(2, 5, false),
        Step::new(2, 5, false),
    ]);

    assert_eq!(graph.err(), Some(Error::DuplicateEdge(2, 5)));
}

#[test]
fn given_duplicate_target_reversed() {
    let graph = HashGraph::from_traversal(2, vec![
        Step::new(2, 5, false),
        Step::new(5, 2, false),
    ]);

    assert_eq!(graph.err(), Some(Error::DuplicateEdge(5, 2)));
}

#[test]
fn given_foo_back_edge_as_cut() {
    let graph = HashGraph::from_traversal(0, vec![
        Step::new(0, 1, false),
        Step::new(1, 0, true),
    ]);

    assert_eq!(graph.err(), Some(Error::DuplicateEdge(1, 0)));
}

#[test]
fn is_emtpy() {
    let graph = HashGraph::from_traversal(0, vec![]).unwrap();

    assert_eq!(graph.is_empty(), false);
}

#[test]
fn hash_graph_order() {
    let graph = HashGraph::from_traversal(0, vec![Step::new(0, 1, false)]).unwrap();

    assert_eq!(graph.order(), 2);
}

#[test]
fn order_given_cut() {
    let graph = HashGraph::from_traversal(0, vec![
        Step::new(0, 1, false),
        Step::new(1, 2, false),
        Step::new(2, 0, true),
    ]).unwrap();

    assert_eq!(graph.order(), 3);
}

#[test]
fn hash_graph_size() {
    let graph = HashGraph::from_traversal(0, vec![
        Step::new(0, 1, false),
        Step::new(0, 2, false),
    ]).unwrap();

    assert_eq!(graph.size(), 2);
}

#[test]
fn size_given_cut() {
    let graph = HashGraph::from_traversal(0, vec![
        Step::new(0, 1, false),
        Step::new(1, 2, false),
        Step::new(2, 0, true),
    ]).unwrap();

    assert_eq!(graph.size(), 3);
}

#[test]
fn hash_graph_nodes() {
    let graph = HashGraph::from_traversal(0, vec![
        Step::new(0, 1, false),
        Step::new(0, 2, false),
    ]).unwrap();

    assert_eq!(graph.nodes(), vec![0, 1, 2]);
}

#[test]
fn nodes_given_cut() {
    let graph = HashGraph::from_traversal(0, vec![
        Step::new(0, 1, false),
        Step::new(1, 2, false),
        Step::new(2, 0, true),
    ]).unwrap();

    assert_eq!(graph.nodes(), vec![0, 1, 2]);
}

#[test]
fn hash_graph_neighbors_given_outside() {
    let graph = HashGraph::from_traversal(0, vec![]).unwrap();

    assert_eq!(graph.neighbors(1).err(), Some(Error::MissingNode(1)));
}

#[test]
fn hash_graph_neighbors_given_p3_inner() {
    let graph = HashGraph::from_traversal(0, vec![
        Step::new(0, 1, false),
        Step::new(1, 2, false),
    ]).unwrap();

    assert_eq!(graph.neighbors(1).unwrap(), vec![0, 2]);
}

#[test]
fn hash_graph_has_node_given_outside() {
    let graph = HashGraph::from_traversal(0, vec![]).unwrap();

    assert_eq!(graph.has_node(1), false);
}

#[test]
fn hash_graph_has_node_given_inside() {
    let graph = HashGraph::from_traversal(0, vec![]).unwrap();

    assert_eq!(graph.has_node(0), true);
}

#[test]
fn hash_graph_degree_given_outside() {
    let graph = HashGraph::from_traversal(0, vec![]).unwrap();

    assert_eq!(graph.degree(1).err(), Some(Error::MissingNode(1)));
}

#[test]
fn hash_graph_edges() {
    let graph = HashGraph::from_traversal(0, vec![
        Step::new(0, 1, false),
        Step::new(1, 2, false),
        Step::new(2, 0, true),
    ]).unwrap();

    assert_eq!(graph.edges(), vec![(0, 1), (1, 2), (2, 0)]);
}

#[test]
fn has_edge_give_source_outside() {
    let graph = HashGraph::from_traversal(0, vec![]).unwrap();

    assert_eq!(graph.has_edge(1, 0).err(), Some(Error::MissingNode(1)));
}

#[test]
fn has_edge_give_target_outside() {
    let graph = HashGraph::from_traversal(0, vec![]).unwrap();

    assert_eq!(graph.has_edge(0, 1).err(), Some(Error::MissingNode(1)));
}

#[test]
fn hash_graph_has_edge_given_unconnected() {
    let graph = HashGraph::from_traversal(0, vec![
        Step::new(0, 1, false),
        Step::new(1, 2, false),
    ]).unwrap();

    assert_eq!(graph.has_edge(0, 2), Ok(false));
}

#[test]
fn hash_graph_has_edge_given_connected() {
    let graph = HashGraph::from_traversal(0, vec![
        Step::new(0, 1, false),
        Step::new(1, 2, false),
    ]).unwrap();

    assert_eq!(graph.has_edge(0, 1), Ok(true));
}

#[test]
fn given_duplicate_edge() {
    let graph = HashGraph::from_edges(vec![(0, 1), (0, 1)], vec![]);

    assert_eq!(graph.err(), Some(Error::DuplicateEdge(0, 1)));
}

#[test]
fn given_duplicate_edge_reversed() {
    let graph = HashGraph::from_edges(vec![(0, 1), (1, 0)], vec![]);

    assert_eq!(graph.err(), Some(Error::DuplicateEdge(1, 0)));
}

#[test]
fn given_duplicate_singleton() {
    let graph = HashGraph::from_edges(vec![(0, 1)], vec![1]);

    assert_eq!(graph.err(), Some(Error::DuplicateNode(1)));
}

#[test]
fn is_empty() {
    let graph = HashGraph::from_edges(vec![(0, 1)], vec![]).unwrap();

    assert_eq!(graph.is_empty(), false);
}

#[test]
fn hash_graph_edges_order() {
    let graph = HashGraph::from_edges(vec![(0, 1), (1, 2), (2, 3)], vec![]).unwrap();

    assert_eq!(graph.order(), 4);
}

#[test]
fn hash_graph_edges_size() {
    let graph = HashGraph::from_edges(vec![(0, 1), (1, 2), (2, 3)], vec![]).unwrap();

    assert_eq!(graph.size(), 3);
}

#[test]
fn hash_graph_edges_nodes() {
    let graph = HashGraph::from_edges(vec![(0, 1), (1, 2), (2, 3)], vec![]).unwrap();

    assert_eq!(graph.nodes(), vec![0, 1, 2, 3]);
}

#[test]
fn nodes_given_singleton() {
    let graph = HashGraph::from_edges(vec![(0, 1)], vec![2]).unwrap();

    assert_eq!(graph.nodes(), vec![0, 1, 2]);
}

#[test]
fn neighbors() {
    let graph = HashGraph::from_edges(vec![(0, 1), (1, 2), (2, 3)], vec![]).unwrap();

    assert_eq!(graph.neighbors(1).unwrap(), vec![0, 2]);
}

#[test]
fn has_node() {
    let graph = HashGraph::from_edges(vec![(0, 1), (1, 2), (2, 3)], vec![]).unwrap();

    assert_eq!(graph.has_node(9), false);
}

#[test]
fn degree() {
    let graph = HashGraph::from_edges(vec![(0, 1), (1, 2), (2, 3)], vec![]).unwrap();

    assert_eq!(graph.degree(1), Ok(2));
}

#[test]
fn hash_graph_from_edges_edges() {
    let graph = HashGraph::from_edges(vec![(0, 1), (2, 3), (1, 2)], vec![]).unwrap();

    assert_eq!(graph.edges(), vec![(0, 1), (2, 3), (1, 2)]);
}

#[test]
fn has_edge() {
    let graph = HashGraph::from_edges(vec![(0, 1), (1, 2), (2, 3)], vec![]).unwrap();

    assert_eq!(graph.has_edge(2, 1), Ok(true));
}
