use gamma::graph::DefaultGraph;
use gamma::matching::{maximum_matching, Pairing};

fn sorted_edges(p: &Pairing) -> Vec<(usize, usize)> {
    let mut e = p.edges();
    e.sort();
    e
}

fn sorted(mut e: Vec<(usize, usize)>) -> Vec<(usize, usize)> {
    e.sort();
    e
}


fn invariants_hold(graph: &DefaultGraph, pairing: &Pairing) {
    let mut seen: Vec<usize> = Vec::new();
    for (u, v) in pairing.edges() {
        // every matched pair is an edge of the graph
        assert_eq!(graph.has_edge(u, v), Ok(true));
        // mates point back at each other
        assert!(pairing.has_node(u) && pairing.has_node(v));
        assert_eq!(pairing.mate(u), v);
        assert_eq!(pairing.mate(v), u);
        // no vertex appears in two pairs
        assert!(!seen.contains(&u) && !seen.contains(&v));
        seen.push(u);
        seen.push(v);
    }
}

fn brute_force_maximum(order: usize, edges: &[(usize, usize)]) -> usize {
    let m = edges.len();
    let mut best: usize = 0;
    for mask in 0u32..(1u32 << m) {
        let mut used = vec![false; order];
        let mut ok = true;
        let mut count: usize = 0;
        for (i, &(a, b)) in edges.iter().enumerate() {
            if mask & (1u32 << i) != 0 {
                if used[a] || used[b] {
                    ok = false;
                    break;
                }
                used[a] = true;
                used[b] = true;
                count += 1;
            }
        }
        if ok && count > best {
            best = count;
        }
    }
    best
}

#[test]
fn maximum_matching_empty() {
    let graph = DefaultGraph::new();
    let mut pairing = Pairing::new();

    maximum_matching(&graph, &mut pairing);

    assert_eq!(sorted_edges(&pairing), vec![]);
}

#[test]
fn maximum_matching_p2() {
    let graph = DefaultGraph::try_from_adjacency(vec![vec![1], vec![0]]).unwrap();
    let mut pairing = Pairing::new();

    maximum_matching(&graph, &mut pairing);

    assert_eq!(sorted_edges(&pairing), sorted(vec![(0, 1)]));
}

#[test]
fn maximum_matching_p3() {
    let graph = DefaultGraph::try_from_adjacency(vec![vec![1], vec![0, 2], vec![1]]).unwrap();
    let mut pairing = Pairing::new();

    maximum_matching(&graph, &mut pairing);

    assert_eq!(sorted_edges(&pairing), sorted(vec![(0, 1)]));
}

#[test]
fn maximum_matching_p4() {
    let graph = DefaultGraph::try_from_adjacency(vec![
        vec![1],
        vec![0, 2],
        vec![1, 3],
        vec![2],
    ]).unwrap();
    let mut pairing = Pairing::new();

    maximum_matching(&graph, &mut pairing);

    assert_eq!(sorted_edges(&pairing), sorted(vec![(0, 1), (2, 3)]));
}

#[test]
fn c5() {
    let graph = DefaultGraph::try_from_edges(vec![(0, 1), (1, 2), (2, 3), (3, 4), (4, 0)])
        .unwrap();
    let mut pairing = Pairing::new();

    maximum_matching(&graph, &mut pairing);

    assert_eq!(sorted_edges(&pairing), sorted(vec![(0, 1), (2, 3)]));
}

#[test]
fn maximum_matching_c6() {
    let graph = DefaultGraph::try_from_adjacency(vec![
        vec![1, 5],
        vec![0, 2],
        vec![1, 3],
        vec![2, 4],
        vec![3, 5],
        vec![4, 0],
    ]).unwrap();
    let mut pairing = Pairing::new();

    maximum_matching(&graph, &mut pairing);

    assert_eq!(sorted_edges(&pairing), sorted(vec![(0, 1), (2, 3), (4, 5)]));
}

#[test]
fn acenapthene() {
    let graph = DefaultGraph::try_from_edges(vec![
        (0, 1),
        (1, 2),
        (2, 3),
        (3, 4),
        (4, 5),
        (5, 6),
        (6, 7),
        (7, 8),
        (8, 9),
        (9, 10),
        (10, 0),
        (11, 5),
        (11, 1),
        (11, 9),
    ]).unwrap();

    let mut pairing = Pairing::new();

    maximum_matching(&graph, &mut pairing);

    assert_eq!(
        sorted_edges(&pairing),
        sorted(vec![(0, 10), (1, 11), (2, 3), (4, 5), (6, 7), (8, 9)])
    );
}

#[test]
fn maximum_matching_p2_p2() {
    let graph = DefaultGraph::try_from_adjacency(vec![vec![1], vec![0], vec![3], vec![2]])
        .unwrap();
    let mut pairing = Pairing::new();

    maximum_matching(&graph, &mut pairing);

    assert_eq!(sorted_edges(&pairing), sorted(vec![(0, 1), (2, 3)]));
}

#[test]
fn path_through_5_blossom() {
    let graph = DefaultGraph::try_from_edges(vec![
        (0, 1),
        (1, 2),
        (2, 3),
        (3, 4),
        (4, 5),
        (5, 1),
        (4, 6),
        (6, 7),
    ]).unwrap();
    let mut pairing = Pairing::new();

    pairing.pair(2, 3);
    pairing.pair(1, 5);
    pairing.pair(4, 6);

    maximum_matching(&graph, &mut pairing);

    assert_eq!(
        sorted_edges(&pairing),
        sorted(vec![(0, 1), (2, 3), (4, 5), (6, 7)])
    );
}

#[test]
fn yu_zhonge() {
    let graph = DefaultGraph::try_from_edges(vec![
        (1, 2),
        (2, 3),
        (3, 13),
        (13, 14),
        (14, 4),
        (4, 5),
        (5, 6),
        (6, 7),
        (7, 8),
        (8, 9),
        (9, 10),
        (10, 11),
        (11, 5),
        (10, 18),
        (18, 17),
        (17, 16),
        (16, 15),
        (15, 14),
        (18, 19),
        (19, 20),
        (20, 21),
        (21, 22),
        (22, 16),
        (4, 3),
        (13, 12),
    ]).unwrap();
    let mut pairing = Pairing::new();

    pairing.pair(1, 2);
    pairing.pair(3, 13);
    pairing.pair(4, 14);
    pairing.pair(5, 6);
    pairing.pair(7, 8);
    pairing.pair(9, 10);
    pairing.pair(15, 16);
    pairing.pair(17, 18);
    pairing.pair(19, 20);
    pairing.pair(21, 22);

    maximum_matching(&graph, &mut pairing);

    assert_eq!(
        sorted_edges(&pairing),
        sorted(vec![
            (1, 2),
            (3, 4),
            (6, 7),
            (8, 9),
            (5, 11),
            (10, 18),
            (19, 20),
            (21, 22),
            (16, 17),
            (14, 15),
            (12, 13),
        ])
    );
}

#[test]
fn coronene_6_5() {
    let graph = DefaultGraph::try_from_edges(vec![
        (6, 7),
        (7, 8),
        (8, 9),
        (9, 10),
        (10, 11),
        (11, 12),
        (12, 13),
        (13, 14),
        (14, 15),
        (15, 16),
        (16, 17),
        (17, 6),
        (6, 0),
        (8, 1),
        (10, 2),
        (12, 3),
        (14, 4),
        (16, 5),
        (0, 1),
        (1, 2),
        (2, 3),
        (3, 4),
        (4, 5),
        (5, 8),
    ]).unwrap();
    let mut pairing = Pairing::new();

    maximum_matching(&graph, &mut pairing);

    assert_eq!(
        sorted_edges(&pairing),
        sorted(vec![
            (0, 1),
            (2, 3),
            (4, 5),
            (6, 7),
            (8, 9),
            (10, 11),
            (12, 13),
            (14, 15),
            (16, 17),
        ])
    );
}

#[test]
fn coronene_3_5() {
    let graph = DefaultGraph::try_from_edges(vec![
        (4, 5),
        (5, 6),
        (6, 7),
        (7, 8),
        (8, 9),
        (9, 10),
        (10, 11),
        (11, 4),
        (0, 4),
        (1, 6),
        (2, 8),
        (3, 10),
        (0, 1),
        (1, 2),
        (2, 3),
        (3, 0),
    ]).unwrap();
    let mut pairing = Pairing::new();

    maximum_matching(&graph, &mut pairing);

    assert_eq!(
        sorted_edges(&pairing),
        sorted(vec![(4, 5), (0, 1), (8, 9), (10, 11), (2, 3), (6, 7)])
    );
}

#[test]
fn c60() {
    let graph = DefaultGraph::try_from_edges(vec![
        (29, 30),
        (30, 43),
        (43, 44),
        (44, 55),
        (55, 29),
        (29, 28),
        (31, 30),
        (43, 42),
        (44, 45),
        (55, 54),
        (28, 57),
        (57, 56),
        (56, 31),
        (31, 32),
        (32, 33),
        (33, 42),
        (42, 41),
        (41, 40),
        (40, 45),
        (45, 46),
        (46, 47),
        (47, 54),
        (54, 26),
        (26, 27),
        (27, 28),
        (57, 7),
        (56, 4),
        (32, 3),
        (33, 34),
        (41, 36),
        (40, 39),
        (46, 51),
        (47, 48),
        (26, 25),
        (27, 8),
        (7, 6),
        (6, 5),
        (5, 4),
        (4, 3),
        (3, 2),
        (2, 35),
        (35, 34),
        (34, 36),
        (36, 37),
        (37, 38),
        (38, 39),
        (39, 51),
        (51, 50),
        (50, 49),
        (49, 48),
        (48, 25),
        (25, 24),
        (24, 9),
        (9, 8),
        (8, 7),
        (6, 11),
        (5, 0),
        (2, 1),
        (35, 16),
        (37, 17),
        (38, 53),
        (50, 52),
        (49, 22),
        (24, 23),
        (9, 10),
        (11, 12),
        (12, 0),
        (0, 1),
        (1, 15),
        (15, 16),
        (16, 17),
        (17, 18),
        (18, 53),
        (53, 52),
        (52, 21),
        (21, 22),
        (22, 23),
        (23, 58),
        (58, 10),
        (10, 11),
        (12, 13),
        (15, 14),
        (18, 19),
        (21, 20),
        (58, 59),
        (13, 14),
        (14, 19),
        (19, 20),
        (20, 59),
        (59, 13),
    ]).unwrap();
    let mut pairing = Pairing::new();

    maximum_matching(&graph, &mut pairing);

    assert_eq!(
        sorted_edges(&pairing),
        sorted(vec![
            (48, 49),
            (1, 2),
            (17, 37),
            (6, 7),
            (54, 55),
            (31, 56),
            (19, 20),
            (28, 57),
            (26, 27),
            (22, 23),
            (29, 30),
            (4, 5),
            (50, 51),
            (34, 35),
            (24, 25),
            (10, 11),
            (43, 44),
            (3, 32),
            (46, 47),
            (13, 14),
            (33, 42),
            (58, 59),
            (15, 16),
            (8, 9),
            (36, 41),
            (38, 39),
            (21, 52),
            (40, 45),
            (0, 12),
            (18, 53),
        ])
    );
}

#[test]
fn matching_is_valid_and_symmetric_on_c5() {
    let edges = vec![(0, 1), (1, 2), (2, 3), (3, 4), (4, 0)];
    let graph = DefaultGraph::try_from_edges(edges).unwrap();
    let mut pairing = Pairing::new();

    maximum_matching(&graph, &mut pairing);

    for (u, v) in pairing.edges() {
        assert_eq!(graph.has_edge(u, v), Ok(true));
        assert_eq!(pairing.mate(u), v);
        assert_eq!(pairing.mate(v), u);
    }
    assert_eq!(pairing.order(), 4);
}

#[test]
fn rerunning_changes_nothing_on_c5() {
    let graph = DefaultGraph::try_from_edges(vec![(0, 1), (1, 2), (2, 3), (3, 4), (4, 0)])
        .unwrap();
    let mut pairing = Pairing::new();

    maximum_matching(&graph, &mut pairing);

    let once = {
        let mut e = pairing.edges();
        e.sort();
        e
    };

    maximum_matching(&graph, &mut pairing);

    let twice = {
        let mut e = pairing.edges();
        e.sort();
        e
    };

    assert_eq!(once, twice);
}

#[test]
fn seeding_does_not_change_the_cardinality_on_c6() {
    let edges = vec![(0, 1), (1, 2), (2, 3), (3, 4), (4, 5), (5, 0)];
    let graph = DefaultGraph::try_from_edges(edges).unwrap();

    let mut from_empty = Pairing::new();
    maximum_matching(&graph, &mut from_empty);

    let mut from_seed = gamma::matching::greedy(&graph);
    maximum_matching(&graph, &mut from_seed);

    assert_eq!(from_empty.order(), from_seed.order());
}

#[test]
fn scenarios_keep_all_matching_invariants() {
    let cases: Vec<Vec<(usize, usize)>> = vec![
        vec![(0, 1)],
        vec![(0, 1), (1, 2)],
        vec![(0, 1), (1, 2), (2, 3), (3, 4), (4, 0)],
        vec![(0, 1), (1, 2), (2, 3), (3, 4), (4, 5), (5, 0)],
        vec![(0, 1), (1, 2), (2, 3), (3, 4), (4, 5), (5, 1), (4, 6), (6, 7)],
    ];
    for edges in cases {
        let graph = DefaultGraph::try_from_edges(edges).unwrap();
        let mut pairing = Pairing::new();

        maximum_matching(&graph, &mut pairing);
        invariants_hold(&graph, &pairing);
    }
}

#[test]
fn cardinality_agrees_with_brute_force_on_small_graphs() {
    let cases: Vec<(usize, Vec<(usize, usize)>)> = vec![
        (2, vec![(0, 1)]),
        (3, vec![(0, 1), (1, 2)]),
        (4, vec![(0, 1), (1, 2), (2, 3)]),
        (5, vec![(0, 1), (1, 2), (2, 3), (3, 4), (4, 0)]),
        (6, vec![(0, 1), (1, 2), (2, 3), (3, 4), (4, 5), (5, 0)]),
        (8, vec![(0, 1), (1, 2), (2, 3), (3, 4), (4, 5), (5, 1), (4, 6), (6, 7)]),
        (12, vec![
            (0, 1),
            (1, 2),
            (2, 3),
            (3, 4),
            (4, 5),
            (5, 6),
            (6, 7),
            (7, 8),
            (8, 9),
            (9, 10),
            (10, 0),
            (11, 5),
            (11, 1),
            (11, 9),
        ]),
    ];
    for (order, edges) in cases {
        let graph = DefaultGraph::try_from_edges(edges.clone()).unwrap();
        let mut pairing = Pairing::new();

        maximum_matching(&graph, &mut pairing);
        invariants_hold(&graph, &pairing);

        assert_eq!(pairing.edges().len(), brute_force_maximum(order, &edges));
    }
}
