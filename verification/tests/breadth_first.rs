use gamma::graph::DefaultGraph;
use gamma::traversal::{BreadthFirst, Step};

fn collect_steps(mut t: BreadthFirst) -> Vec<Step> {
    let mut out = Vec::new();
    while let Some(step) = t.next() {
        out.push(step);
    }
    out
}

#[test]
fn nonmember_root() {
    let graph = DefaultGraph::try_from_adjacency(vec![vec![]]).unwrap();
    let traversal = BreadthFirst::new(&graph, 0).unwrap();

    assert_eq!(collect_steps(traversal), vec![]);
}

#[test]
fn breadth_first_p1() {
    let graph = DefaultGraph::try_from_adjacency(vec![vec![]]).unwrap();
    let traversal = BreadthFirst::new(&graph, 0).unwrap();

    assert_eq!(collect_steps(traversal), vec![]);
}

#[test]
fn breadth_first_p2() {
    let graph = DefaultGraph::try_from_adjacency(vec![vec![1], vec![0]]).unwrap();
    let traversal = BreadthFirst::new(&graph, 0).unwrap();

    assert_eq!(collect_steps(traversal), vec![Step::new(0, 1, false)]);
}

#[test]
fn p3_primary() {
    let graph = DefaultGraph::try_from_adjacency(vec![vec![1], vec![0, 2], vec![1]]).unwrap();
    let traversal = BreadthFirst::new(&graph, 0).unwrap();

    assert_eq!(
        collect_steps(traversal),
        vec![Step::new(0, 1, false), Step::new(1, 2, false)]
    );
}

#[test]
fn p3_secondary() {
    let graph = DefaultGraph::try_from_adjacency(vec![vec![1], vec![0, 2], vec![1]]).unwrap();
    let traversal = BreadthFirst::new(&graph, 1).unwrap();

    assert_eq!(
        collect_steps(traversal),
        vec![Step::new(1, 0, false), Step::new(1, 2, false)]
    );
}

#[test]
fn p4_primary() {
    let graph = DefaultGraph::try_from_adjacency(vec![
        vec![1],
        vec![0, 2],
        vec![1, 3],
        vec![2],
    ]).unwrap();
    let traversal = BreadthFirst::new(&graph, 1).unwrap();

    assert_eq!(
        collect_steps(traversal),
        vec![
            Step::new(1, 0, false),
            Step::new(1, 2, false),
            Step::new(2, 3, false),
        ]
    );
}

#[test]
fn s3_tertiary() {
    let graph = DefaultGraph::try_from_adjacency(vec![
        vec![1, 2, 3],
        vec![0],
        vec![0],
        vec![0],
    ]).unwrap();
    let traversal = BreadthFirst::new(&graph, 0).unwrap();

    assert_eq!(
        collect_steps(traversal),
        vec![
            Step::new(0, 1, false),
            Step::new(0, 2, false),
            Step::new(0, 3, false),
        ]
    );
}

#[test]
fn s3_primary() {
    let graph = DefaultGraph::try_from_adjacency(vec![
        vec![1, 2, 3],
        vec![0],
        vec![0],
        vec![0],
    ]).unwrap();
    let traversal = BreadthFirst::new(&graph, 1).unwrap();

    assert_eq!(
        collect_steps(traversal),
        vec![
            Step::new(1, 0, false),
            Step::new(0, 2, false),
            Step::new(0, 3, false),
        ]
    );
}

#[test]
fn breadth_first_c3() {
    let graph = DefaultGraph::try_from_adjacency(vec![vec![1, 2], vec![0, 2], vec![1, 0]])
        .unwrap();
    let traversal = BreadthFirst::new(&graph, 0).unwrap();

    assert_eq!(
        collect_steps(traversal),
        vec![
            Step::new(0, 1, false),
            Step::new(0, 2, false),
            Step::new(1, 2, true),
        ]
    );
}

#[test]
fn c4() {
    let graph = DefaultGraph::try_from_adjacency(vec![
        vec![1, 3],
        vec![0, 2],
        vec![1, 3],
        vec![2, 0],
    ]).unwrap();
    let traversal = BreadthFirst::new(&graph, 0).unwrap();

    assert_eq!(
        collect_steps(traversal),
        vec![
            Step::new(0, 1, false),
            Step::new(0, 3, false),
            Step::new(1, 2, false),
            Step::new(3, 2, true),
        ]
    );
}

#[test]
fn diamond() {
    let graph = DefaultGraph::try_from_adjacency(vec![
        vec![1, 2, 3],
        vec![2, 0],
        vec![0, 1, 3],
        vec![0, 2],
    ]).unwrap();
    let bfs = BreadthFirst::new(&graph, 0).unwrap();

    assert_eq!(
        collect_steps(bfs),
        vec![
            Step::new(0, 1, false),
            Step::new(0, 2, false),
            Step::new(0, 3, false),
            Step::new(1, 2, true),
            Step::new(2, 3, true),
        ]
    );
}

#[test]
fn breadth_first_flower_from_stalk() {
    let graph = DefaultGraph::try_from_adjacency(vec![
        vec![1],
        vec![0, 2, 3],
        vec![1, 3],
        vec![2, 1],
    ]).unwrap();
    let bfs = BreadthFirst::new(&graph, 0).unwrap();

    assert_eq!(
        collect_steps(bfs),
        vec![
            Step::new(0, 1, false),
            Step::new(1, 2, false),
            Step::new(1, 3, false),
            Step::new(2, 3, true),
        ]
    );
}

#[test]
fn t2_primary() {
    let graph = DefaultGraph::try_from_adjacency(vec![
        vec![1, 4],
        vec![0, 2, 3],
        vec![1, 5],
        vec![1, 6],
        vec![0],
        vec![2],
        vec![3],
    ]).unwrap();
    let bfs = BreadthFirst::new(&graph, 0).unwrap();

    assert_eq!(
        collect_steps(bfs),
        vec![
            Step::new(0, 1, false),
            Step::new(0, 4, false),
            Step::new(1, 2, false),
            Step::new(1, 3, false),
            Step::new(2, 5, false),
            Step::new(3, 6, false),
        ]
    );
}

#[test]
fn t2_tertiary() {
    let graph = DefaultGraph::try_from_adjacency(vec![
        vec![1, 4],
        vec![0, 2, 3],
        vec![1, 5],
        vec![1, 6],
        vec![0],
        vec![2],
        vec![3],
    ]).unwrap();
    let bfs = BreadthFirst::new(&graph, 1).unwrap();

    assert_eq!(
        collect_steps(bfs),
        vec![
            Step::new(1, 0, false),
            Step::new(1, 2, false),
            Step::new(1, 3, false),
            Step::new(0, 4, false),
            Step::new(2, 5, false),
            Step::new(3, 6, false),
        ]
    );
}

#[test]
fn bicyclo_111() {
    let graph = DefaultGraph::try_from_adjacency(vec![
        vec![1, 2, 3],
        vec![0, 4],
        vec![0, 4],
        vec![0, 4],
        vec![1, 2, 3],
    ]).unwrap();
    let bfs = BreadthFirst::new(&graph, 0).unwrap();

    assert_eq!(
        collect_steps(bfs),
        vec![
            Step::new(0, 1, false),
            Step::new(0, 2, false),
            Step::new(0, 3, false),
            Step::new(1, 4, false),
            Step::new(2, 4, true),
            Step::new(3, 4, true),
        ]
    );
}

#[test]
fn bicyclo_221() {
    let graph = DefaultGraph::try_from_adjacency(vec![
        vec![1, 5],
        vec![0, 2, 6],
        vec![1, 3],
        vec![2, 4],
        vec![3, 5, 6],
        vec![4, 0],
        vec![4, 1],
    ]).unwrap();
    let bfs = BreadthFirst::new(&graph, 0).unwrap();

    assert_eq!(
        collect_steps(bfs),
        vec![
            Step::new(0, 1, false),
            Step::new(0, 5, false),
            Step::new(1, 2, false),
            Step::new(1, 6, false),
            Step::new(5, 4, false),
            Step::new(2, 3, false),
            Step::new(6, 4, true),
            Step::new(4, 3, true),
        ]
    );
}

#[test]
fn butterfly() {
    let graph = DefaultGraph::try_from_adjacency(vec![
        vec![1, 2],
        vec![0, 2],
        vec![0, 1, 3, 4],
        vec![2, 4],
        vec![2, 3],
    ]).unwrap();
    let bfs = BreadthFirst::new(&graph, 0).unwrap();

    assert_eq!(
        collect_steps(bfs),
        vec![
            Step::new(0, 1, false),
            Step::new(0, 2, false),
            Step::new(1, 2, true),
            Step::new(2, 3, false),
            Step::new(2, 4, false),
            Step::new(3, 4, true),
        ]
    );
}
