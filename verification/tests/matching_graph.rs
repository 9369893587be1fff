use gamma::graph::Error;
use gamma::matching::Matching;

fn sorted(mut v: Vec<usize>) -> Vec<usize> {
    v.sort();
    v
}

#[test]
fn build_given_known_source() {
    let matching = Matching::build(vec![(0, 1), (0, 2)]);

    assert_eq!(matching.err(), Some(Error::InvalidEdge))
}

#[test]
fn build_given_known_target() {
    let matching = Matching::build(vec![(0, 1), (1, 2)]);

    assert_eq!(matching.err(), Some(Error::InvalidEdge))
}

#[test]
fn matching_is_empty_given_empty() {
    let matching = Matching::build(vec![]).unwrap();

    assert!(matching.is_empty());
}

#[test]
fn is_empty_given_pair() {
    let matching = Matching::build(vec![(0, 1)]).unwrap();

    assert!(!matching.is_empty());
}

#[test]
fn matching_order_given_empty() {
    let matching = Matching::build(vec![]).unwrap();

    assert_eq!(matching.order(), 0);
}

#[test]
fn order_given_pair() {
    let matching = Matching::build(vec![(0, 1)]).unwrap();

    assert_eq!(matching.order(), 2);
}

#[test]
fn matching_size_given_empty() {
    let matching = Matching::build(vec![]).unwrap();

    assert_eq!(matching.size(), 0);
}

#[test]
fn size_given_pair() {
    let matching = Matching::build(vec![(0, 1)]).unwrap();

    assert_eq!(matching.size(), 1);
}

#[test]
fn matching_nodes_given_empty() {
    let matching = Matching::build(vec![]).unwrap();

    assert_eq!(matching.nodes(), Vec::<usize>::new());
}

#[test]
fn nodes_given_pair() {
    let matching = Matching::build(vec![(0, 1)]).unwrap();

    assert_eq!(sorted(matching.nodes()), vec![0, 1]);
}

#[test]
fn matching_has_node_given_outside() {
    let matching = Matching::build(vec![(0, 1)]).unwrap();

    assert!(!matching.has_node(2));
}

#[test]
fn matching_has_node_given_inside() {
    let matching = Matching::build(vec![(0, 1)]).unwrap();

    assert!(matching.has_node(0));
}

#[test]
fn matching_neighbors_given_outside() {
    let matching = Matching::build(vec![(0, 1)]).unwrap();
    let neighbors = matching.neighbors(2);

    assert_eq!(neighbors.err(), Some(Error::UnknownNode));
}

#[test]
fn neighbors_given_inside() {
    let matching = Matching::build(vec![(0, 1)]).unwrap();
    let neighbors = matching.neighbors(0).unwrap();

    assert_eq!(neighbors, vec![1]);
}

#[test]
fn matching_degree_given_outside() {
    let matching = Matching::build(vec![(0, 1)]).unwrap();

    assert_eq!(matching.degree(2).err(), Some(Error::UnknownNode));
}

#[test]
fn matching_degree_given_inside() {
    let matching = Matching::build(vec![(0, 1)]).unwrap();

    assert_eq!(matching.degree(0), Ok(1));
}

#[test]
fn matching_edges_given_empty() {
    let matching = Matching::build(vec![]).unwrap();

    assert_eq!(matching.edges(), Vec::<(usize, usize)>::new());
}

#[test]
fn edges_given_two() {
    let matching = Matching::build(vec![(0, 1), (2, 3)]).unwrap();
    let mut edges = matching.edges();
    edges.sort();

    assert_eq!(edges, vec![(0, 1), (2, 3)]);
}

#[test]
fn matching_has_edge_given_outside_source() {
    let matching = Matching::build(vec![(0, 1)]).unwrap();
    let result = matching.has_edge(2, 0);

    assert_eq!(result.err(), Some(Error::UnknownNode));
}

#[test]
fn matching_has_edge_given_outside_target() {
    let matching = Matching::build(vec![(0, 1)]).unwrap();
    let result = matching.has_edge(0, 2);

    assert_eq!(result.err(), Some(Error::UnknownNode));
}

#[test]
fn matching_has_edge_given_unconnected() {
    let matching = Matching::build(vec![(0, 1), (2, 3)]).unwrap();

    assert_eq!(matching.has_edge(0, 2), Ok(false));
}

#[test]
fn matching_has_edge_given_connected() {
    let matching = Matching::build(vec![(0, 1)]).unwrap();

    assert_eq!(matching.has_edge(0, 1), Ok(true));
}

#[test]
fn has_edge_given_connected_reverse() {
    let matching = Matching::build(vec![(0, 1)]).unwrap();

    assert_eq!(matching.has_edge(1, 0), Ok(true));
}

#[test]
fn build_given_repeated_target() {
    let matching = Matching::build(vec![(0, 1), (2, 1)]);

    assert_eq!(matching.err(), Some(Error::InvalidEdge))
}
