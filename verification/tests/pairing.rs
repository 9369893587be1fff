use gamma::matching::Pairing;

fn sorted_edges(p: &Pairing) -> Vec<(usize, usize)> {
    let mut e = p.edges();
    e.sort();
    e
}

#[test]
fn pairing_default() {
    let pairing = Pairing::new();

    assert_eq!(pairing.order(), 0);
}

#[test]
fn three_pairs() {
    let mut pairing = Pairing::new();

    pairing.pair(0, 1);
    pairing.pair(2, 3);
    pairing.pair(4, 5);

    assert_eq!(pairing.order(), 6);
}

#[test]
fn pairing_edges_default() {
    let pairing = Pairing::new();

    assert_eq!(pairing.edges().is_empty(), true)
}

#[test]
fn pair_unk_unk() {
    let mut pairing = Pairing::new();

    pairing.pair(0, 1);
    pairing.pair(2, 3);

    assert_eq!(sorted_edges(&pairing), vec![(0, 1), (2, 3)]);
    assert_eq!(pairing.mate(0), 1);
    assert_eq!(pairing.mate(1), 0);
    assert_eq!(pairing.mate(2), 3);
    assert_eq!(pairing.mate(3), 2);
}

#[test]
fn pair_unk_tid() {
    let mut pairing = Pairing::new();

    pairing.pair(1, 2);
    pairing.pair(0, 1);

    assert_eq!(sorted_edges(&pairing), vec![(0, 1)]);
    assert_eq!(pairing.order(), 2);
    assert_eq!(pairing.mate(0), 1);
    assert_eq!(pairing.mate(1), 0);
    assert_eq!(pairing.has_node(2), false);
}

#[test]
fn pair_sid_unk() {
    let mut pairing = Pairing::new();

    pairing.pair(1, 2);
    pairing.pair(2, 3);

    assert_eq!(sorted_edges(&pairing), vec![(2, 3)]);
    assert_eq!(pairing.order(), 2);
    assert_eq!(pairing.mate(2), 3);
    assert_eq!(pairing.mate(3), 2);
    assert_eq!(pairing.has_node(1), false);
}

#[test]
fn pair_sid_tid() {
    let mut pairing = Pairing::new();

    pairing.pair(0, 1);
    pairing.pair(2, 3);
    pairing.pair(1, 2);

    assert_eq!(sorted_edges(&pairing), vec![(1, 2)]);
    assert_eq!(pairing.order(), 2);
    assert_eq!(pairing.mate(1), 2);
    assert_eq!(pairing.mate(2), 1);
    assert_eq!(pairing.has_node(0), false);
    assert_eq!(pairing.has_node(3), false);
}

#[test]
fn augment_empty() {
    let mut pairing = Pairing::new();
    let path = vec![0, 1, 2, 3];

    pairing.augment(path);

    assert_eq!(sorted_edges(&pairing), vec![(0, 1), (2, 3)]);
    assert_eq!(pairing.mate(0), 1);
    assert_eq!(pairing.mate(1), 0);
    assert_eq!(pairing.mate(2), 3);
    assert_eq!(pairing.mate(3), 2);
}

#[test]
fn augment_inner() {
    let mut pairing = Pairing::new();
    let path = vec![0, 1, 2, 3];

    pairing.pair(1, 2);
    pairing.augment(path);

    assert_eq!(sorted_edges(&pairing), vec![(0, 1), (2, 3)]);
    assert_eq!(pairing.mate(0), 1);
    assert_eq!(pairing.mate(1), 0);
    assert_eq!(pairing.mate(2), 3);
    assert_eq!(pairing.mate(3), 2);
}

#[test]
fn pairing_has_node_default() {
    let pairing = Pairing::new();

    assert_eq!(pairing.has_node(0), false)
}

#[test]
fn given_source() {
    let mut pairing = Pairing::new();

    pairing.pair(0, 1);

    assert_eq!(pairing.has_node(0), true)
}

#[test]
fn given_target() {
    let mut pairing = Pairing::new();

    pairing.pair(0, 1);

    assert_eq!(pairing.has_node(1), true)
}

#[test]
fn sid() {
    let mut pairing = Pairing::new();

    pairing.pair(0, 1);

    assert_eq!(pairing.mate(0), 1)
}

#[test]
fn tid() {
    let mut pairing = Pairing::new();

    pairing.pair(0, 1);

    assert_eq!(pairing.mate(1), 0)
}

#[test]
fn augment_along_valid_path_grows_by_one_pair() {
    let mut pairing = Pairing::new();

    pairing.pair(1, 2);

    let before = pairing.order();
    pairing.augment(vec![0, 1, 2, 3]);

    assert_eq!(pairing.order(), before + 2);
}
