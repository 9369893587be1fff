use gamma::graph::{DefaultGraph, Error};
use gamma::traversal::{DepthFirst, Step};

fn collect_steps(mut t: DepthFirst) -> Vec<Step> {
    let mut out = Vec::new();
    while let Some(step) = t.next() {
        out.push(step);
    }
    out
}

#[test]
fn depth_first_into_table_p3() {
    let graph = DefaultGraph::try_from_adjacency(vec![vec![1], vec![0, 2], vec![1]]).unwrap();
    let traversal = DepthFirst::new(&graph, 0).unwrap();

    assert_eq!(traversal.into_table(), (vec![0, 1, 2], vec![(0, 1), (1, 2)]))
}

#[test]
fn depth_first_into_table_c3() {
    let graph = DefaultGraph::try_from_adjacency(vec![vec![1, 2], vec![0, 2], vec![1, 0]])
        .unwrap();
    let traversal = DepthFirst::new(&graph, 0).unwrap();

    assert_eq!(
        traversal.into_table(),
        (vec![0, 1, 2], vec![(0, 1), (1, 2), (2, 0)])
    )
}

#[test]
fn depth_first_into_table_s3() {
    let graph = DefaultGraph::try_from_adjacency(vec![
        vec![1],
        vec![0, 2, 3],
        vec![1],
        vec![1],
    ]).unwrap();
    let traversal = DepthFirst::new(&graph, 0).unwrap();

    assert_eq!(
        traversal.into_table(),
        (vec![0, 1, 2, 3], vec![(0, 1), (1, 2), (1, 3)])
    );
}

#[test]
fn unknown_root() {
    let graph = DefaultGraph::new();
    let traversal = DepthFirst::new(&graph, 1);

    assert_eq!(traversal.err(), Some(Error::MissingNode(1)));
}

#[test]
fn depth_first_p1() {
    let graph = DefaultGraph::try_from_adjacency(vec![vec![]]).unwrap();
    let traversal = DepthFirst::new(&graph, 0).unwrap();

    assert_eq!(collect_steps(traversal), vec![]);
}

#[test]
fn depth_first_p2() {
    let graph = DefaultGraph::try_from_adjacency(vec![vec![1], vec![0]]).unwrap();
    let traversal = DepthFirst::new(&graph, 0).unwrap();

    assert_eq!(collect_steps(traversal), vec![Step::new(0, 1, false)]);
}

#[test]
fn depth_first_p3() {
    let graph = DefaultGraph::try_from_adjacency(vec![vec![1], vec![0, 2], vec![1]]).unwrap();
    let traversal = DepthFirst::new(&graph, 0).unwrap();

    assert_eq!(
        collect_steps(traversal),
        vec![Step::new(0, 1, false), Step::new(1, 2, false)]
    );
}

#[test]
fn p3_inside() {
    let graph = DefaultGraph::try_from_adjacency(vec![vec![1], vec![0, 2], vec![1]]).unwrap();
    let traversal = DepthFirst::new(&graph, 1).unwrap();

    assert_eq!(
        collect_steps(traversal),
        vec![Step::new(1, 0, false), Step::new(1, 2, false)]
    );
}

#[test]
fn depth_first_p4() {
    let graph = DefaultGraph::try_from_adjacency(vec![
        vec![1],
        vec![0, 2],
        vec![1, 3],
        vec![2],
    ]).unwrap();
    let traversal = DepthFirst::new(&graph, 0).unwrap();

    assert_eq!(
        collect_steps(traversal),
        vec![
            Step::new(0, 1, false),
            Step::new(1, 2, false),
            Step::new(2, 3, false),
        ]
    );
}

#[test]
fn depth_first_c3() {
    let graph = DefaultGraph::try_from_adjacency(vec![vec![1, 2], vec![0, 2], vec![1, 0]])
        .unwrap();
    let traversal = DepthFirst::new(&graph, 0).unwrap();

    assert_eq!(
        collect_steps(traversal),
        vec![
            Step::new(0, 1, false),
            Step::new(1, 2, false),
            Step::new(2, 0, true),
        ]
    );
}

#[test]
fn depth_first_s3() {
    let graph = DefaultGraph::try_from_adjacency(vec![
        vec![1],
        vec![0, 2, 3],
        vec![1],
        vec![1],
    ]).unwrap();
    let traversal = DepthFirst::new(&graph, 0).unwrap();

    assert_eq!(
        collect_steps(traversal),
        vec![
            Step::new(0, 1, false),
            Step::new(1, 2, false),
            Step::new(1, 3, false),
        ]
    );
}

#[test]
fn s3_inside() {
    let graph = DefaultGraph::try_from_adjacency(vec![
        vec![1],
        vec![0, 2, 3],
        vec![1],
        vec![1],
    ]).unwrap();
    let traversal = DepthFirst::new(&graph, 1).unwrap();

    assert_eq!(
        collect_steps(traversal),
        vec![
            Step::new(1, 0, false),
            Step::new(1, 2, false),
            Step::new(1, 3, false),
        ]
    );
}

#[test]
fn depth_first_flower_from_stalk() {
    let graph = DefaultGraph::try_from_adjacency(vec![
        vec![1],
        vec![0, 2, 3],
        vec![1, 3],
        vec![2, 1],
    ]).unwrap();
    let traversal = DepthFirst::new(&graph, 0).unwrap();

    assert_eq!(
        collect_steps(traversal),
        vec![
            Step::new(0, 1, false),
            Step::new(1, 2, false),
            Step::new(2, 3, false),
            Step::new(3, 1, true),
        ]
    );
}

#[test]
fn flower_with_cut_in_branch() {
    let graph = DefaultGraph::try_from_adjacency(vec![
        vec![1, 2],
        vec![0, 2],
        vec![1, 0, 3],
        vec![2],
    ]).unwrap();
    let traversal = DepthFirst::new(&graph, 0).unwrap();

    assert_eq!(
        collect_steps(traversal),
        vec![
            Step::new(0, 1, false),
            Step::new(1, 2, false),
            Step::new(2, 0, true),
            Step::new(2, 3, false),
        ]
    );
}

#[test]
fn blocked_branched_path() {
    let graph = DefaultGraph::try_from_adjacency(vec![
        vec![1],
        vec![0, 2, 3, 4],
        vec![1],
        vec![1, 4],
        vec![3, 1],
    ]).unwrap();
    let traversal = DepthFirst::new(&graph, 0).unwrap();

    assert_eq!(
        collect_steps(traversal),
        vec![
            Step::new(0, 1, false),
            Step::new(1, 2, false),
            Step::new(1, 3, false),
            Step::new(3, 4, false),
            Step::new(4, 1, true),
        ]
    );
}

#[test]
fn bicyclo_220_with_cut_on_second_branching() {
    let graph = DefaultGraph::try_from_adjacency(vec![
        vec![1, 5],
        vec![0, 2],
        vec![1, 5, 3],
        vec![2, 4],
        vec![3, 5],
        vec![2, 4, 0],
    ]).unwrap();
    let traversal = DepthFirst::new(&graph, 0).unwrap();

    assert_eq!(
        collect_steps(traversal),
        vec![
            Step::new(0, 1, false),
            Step::new(1, 2, false),
            Step::new(2, 5, false),
            Step::new(5, 4, false),
            Step::new(4, 3, false),
            Step::new(3, 2, true),
            Step::new(5, 0, true),
        ]
    );
}

#[test]
fn bicyclo_210() {
    let graph = DefaultGraph::try_from_adjacency(vec![
        vec![1, 2, 4],
        vec![0, 2],
        vec![1, 0, 3],
        vec![2, 4],
        vec![3, 0],
    ]).unwrap();
    let traversal = DepthFirst::new(&graph, 0).unwrap();

    assert_eq!(
        collect_steps(traversal),
        vec![
            Step::new(0, 1, false),
            Step::new(1, 2, false),
            Step::new(2, 0, true),
            Step::new(2, 3, false),
            Step::new(3, 4, false),
            Step::new(4, 0, true),
        ]
    );
}

#[test]
fn cube() {
    let graph = DefaultGraph::try_from_adjacency(vec![
        vec![1, 3, 4],
        vec![0, 2, 5],
        vec![1, 3, 6],
        vec![2, 0, 7],
        vec![5, 7, 0],
        vec![4, 6, 1],
        vec![5, 7, 2],
        vec![6, 4, 3],
    ]).unwrap();
    let traversal = DepthFirst::new(&graph, 0).unwrap();

    assert_eq!(
        collect_steps(traversal),
        vec![
            Step::new(0, 1, false),
            Step::new(1, 2, false),
            Step::new(2, 3, false),
            Step::new(3, 0, true),
            Step::new(3, 7, false),
            Step::new(7, 6, false),
            Step::new(6, 5, false),
            Step::new(5, 4, false),
            Step::new(4, 7, true),
            Step::new(4, 0, true),
            Step::new(5, 1, true),
            Step::new(6, 2, true),
        ]
    );
}
