use gamma::graph::DefaultGraph;
use gamma::matching::{Blossom, Pairing};

fn pairing_eq(a: &Pairing, b: &Pairing) -> bool {
    let mut ea = a.edges();
    let mut eb = b.edges();
    ea.sort();
    eb.sort();
    a.order() == b.order() && ea == eb
}

#[test]
fn root_at_right() {
    let blossom = Blossom::new(1, vec![2, 1, 0], vec![5, 4, 0]);

    assert_eq!(blossom.path(), &vec![2, 1, 0, 4, 5])
}

#[test]
fn root_inside() {
    let blossom = Blossom::new(1, vec![4, 3, 2, 1, 0], vec![7, 6, 2, 1, 0]);

    assert_eq!(blossom.path(), &vec![4, 3, 2, 6, 7])
}

#[test]
fn butterfly_tid_inside() {
    let graph = DefaultGraph::try_from_edges(vec![(0, 1), (1, 2), (2, 0), (3, 2), (3, 1)])
        .unwrap();
    let blossom = Blossom::new(4, vec![0], vec![1, 2, 0]);
    let contracted = blossom.contract_graph(&graph).unwrap();
    let expected = DefaultGraph::try_from_edges(vec![(3, 4)]).unwrap();

    assert_eq!(contracted, expected);
}

#[test]
fn butterfly_sid_inside() {
    let graph = DefaultGraph::try_from_edges(vec![(0, 1), (1, 2), (2, 0), (2, 3), (1, 3)])
        .unwrap();
    let blossom = Blossom::new(4, vec![0], vec![1, 2, 0]);
    let contracted = blossom.contract_graph(&graph).unwrap();
    let expected = DefaultGraph::try_from_edges(vec![(3, 4)]).unwrap();

    assert_eq!(contracted, expected);
}

#[test]
fn blossom_sid_inside() {
    let graph = DefaultGraph::try_from_edges(vec![
        (0, 1),
        (1, 2),
        (2, 3),
        (3, 4),
        (4, 0),
        (4, 5),
        (5, 6),
    ]).unwrap();
    let blossom = Blossom::new(7, vec![4, 0, 1], vec![3, 2, 1]);
    let contracted = blossom.contract_graph(&graph).unwrap();
    let expected = DefaultGraph::try_from_edges(vec![(6, 5), (5, 7)]).unwrap();

    assert_eq!(contracted, expected);
}

#[test]
fn blossom_tid_inside() {
    let graph = DefaultGraph::try_from_edges(vec![
        (0, 1),
        (1, 2),
        (2, 3),
        (3, 4),
        (4, 0),
        (5, 4),
        (5, 6),
    ]).unwrap();
    let blossom = Blossom::new(7, vec![4, 0, 1], vec![3, 2, 1]);
    let contracted = blossom.contract_graph(&graph).unwrap();
    let expected = DefaultGraph::try_from_edges(vec![(6, 5), (5, 7)]).unwrap();

    assert_eq!(contracted, expected);
}

#[test]
fn example_causes_double_edge() {
    let graph = DefaultGraph::try_from_edges(vec![
        (0, 1),
        (1, 2),
        (2, 3),
        (3, 4),
        (4, 5),
        (5, 6),
        (6, 7),
        (7, 8),
        (8, 2),
        (6, 1),
    ]).unwrap();
    let blossom = Blossom::new(9, vec![8, 2, 3, 4], vec![7, 6, 5, 4]);
    let contracted = blossom.contract_graph(&graph).unwrap();
    let expected = DefaultGraph::try_from_edges(vec![(0, 1), (1, 9)]).unwrap();

    assert_eq!(contracted, expected);
}

#[test]
fn blossom_pairing_sid_inside() {
    let blossom = Blossom::new(5, vec![2, 1, 0], vec![4, 3, 0]);
    let mut pairing = Pairing::new();

    pairing.pair(7, 8);
    pairing.pair(1, 6);

    let mut expected = Pairing::new();

    expected.pair(7, 8);
    expected.pair(5, 6);

    assert!(pairing_eq(&blossom.contract_pairing(&pairing), &expected));
}

#[test]
fn blossom_pairing_tid_inside() {
    let blossom = Blossom::new(5, vec![2, 1, 0], vec![4, 3, 0]);
    let mut pairing = Pairing::new();

    pairing.pair(7, 8);
    pairing.pair(6, 1);

    let mut expected = Pairing::new();

    expected.pair(7, 8);
    expected.pair(6, 5);

    assert!(pairing_eq(&blossom.contract_pairing(&pairing), &expected));
}

#[test]
fn sid_tid_inside() {
    let blossom = Blossom::new(5, vec![2, 1, 0], vec![4, 3, 0]);
    let mut pairing = Pairing::new();

    pairing.pair(7, 8);
    pairing.pair(2, 1);

    let mut expected = Pairing::new();

    expected.pair(7, 8);

    assert!(pairing_eq(&blossom.contract_pairing(&pairing), &expected));
}

#[test]
fn missing_blossom_id() {
    let graph = DefaultGraph::try_from_edges(vec![(1, 2), (2, 3), (3, 4), (4, 5), (5, 1)])
        .unwrap();
    let blossom = Blossom::new(5, vec![2, 1, 0], vec![4, 3, 0]);
    let path = vec![8, 9, 10, 11];

    assert_eq!(blossom.lift(path, &graph), vec![8, 9, 10, 11])
}

#[test]
fn none_blossom_none() {
    let graph = DefaultGraph::try_from_edges(vec![(0, 1), (1, 2), (2, 3), (3, 4), (4, 0)])
        .unwrap();
    let blossom = Blossom::new(5, vec![2, 1, 0], vec![4, 3, 0]);
    let path = vec![5];

    assert_eq!(blossom.lift(path, &graph), vec![2, 1, 0, 3, 4])
}

#[test]
fn left_blossom_none() {
    let graph = DefaultGraph::try_from_edges(vec![
        (0, 1),
        (1, 2),
        (2, 3),
        (3, 4),
        (4, 5),
        (5, 1),
    ]).unwrap();
    let blossom = Blossom::new(6, vec![1, 2, 3], vec![5, 4, 3]);
    let path = vec![0, 6];

    assert_eq!(blossom.lift(path, &graph), vec![0, 1, 2, 3, 4, 5])
}

#[test]
fn left_blossom_none_rotated_twice() {
    let graph = DefaultGraph::try_from_edges(vec![
        (0, 1),
        (1, 2),
        (2, 3),
        (3, 4),
        (4, 5),
        (5, 1),
    ]).unwrap();
    let blossom = Blossom::new(6, vec![2, 3, 4], vec![1, 5, 4]);
    let path = vec![0, 6];

    assert_eq!(blossom.lift(path, &graph), vec![0, 1, 2, 3, 4, 5])
}

#[test]
fn none_blossom_right() {
    let graph = DefaultGraph::try_from_edges(vec![
        (0, 1),
        (1, 2),
        (2, 3),
        (3, 4),
        (4, 5),
        (5, 1),
    ]).unwrap();
    let blossom = Blossom::new(6, vec![2, 3, 4], vec![1, 5, 4]);
    let path = vec![6, 0];

    assert_eq!(blossom.lift(path, &graph), vec![2, 3, 4, 5, 1, 0])
}

#[test]
fn left_blossom_right() {
    let graph = DefaultGraph::try_from_edges(vec![
        (0, 1),
        (1, 2),
        (2, 3),
        (3, 4),
        (4, 5),
        (5, 1),
        (3, 6),
    ]).unwrap();
    let blossom = Blossom::new(7, vec![2, 3, 4], vec![1, 5, 4]);
    let path = vec![0, 7, 6];

    assert_eq!(blossom.lift(path, &graph), vec![0, 1, 5, 4, 3, 6])
}

#[test]
fn left_blossom_right_shifted() {
    let graph = DefaultGraph::try_from_edges(vec![
        (0, 5),
        (5, 1),
        (1, 2),
        (2, 3),
        (3, 4),
        (4, 5),
        (3, 6),
    ]).unwrap();
    let blossom = Blossom::new(7, vec![2, 3, 4], vec![1, 5, 4]);
    let path = vec![0, 7, 6];

    assert_eq!(blossom.lift(path, &graph), vec![0, 5, 1, 2, 3, 6])
}
