use gamma::graph::DefaultGraph;
use gamma::selection::components;

fn collect(graph: &DefaultGraph) -> Vec<DefaultGraph> {
    let mut comps = components(graph);
    let mut out = Vec::new();
    while let Some(c) = comps.next() {
        out.push(c);
    }
    out
}

#[test]
fn components_p1() {
    let graph = DefaultGraph::try_from_adjacency(vec![vec![]]).unwrap();
    let found = collect(&graph);
    let expected = vec![DefaultGraph::try_from_adjacency(vec![vec![]]).unwrap()];

    assert_eq!(found, expected);
}

#[test]
fn p1_p1() {
    let graph = DefaultGraph::try_from_adjacency(vec![vec![], vec![]]).unwrap();
    let found = collect(&graph);
    let mut c1 = DefaultGraph::new();
    let mut c2 = DefaultGraph::new();

    assert_eq!(c1.add_node(0), Ok(()));
    assert_eq!(c2.add_node(1), Ok(()));

    assert_eq!(found, vec![c1, c2]);
}

#[test]
fn components_p2() {
    let graph = DefaultGraph::try_from_adjacency(vec![vec![1], vec![0]]).unwrap();
    let found = collect(&graph);
    let expected = vec![DefaultGraph::try_from_adjacency(vec![vec![1], vec![0]]).unwrap()];

    assert_eq!(found, expected);
}

#[test]
fn p2_p1() {
    let graph = DefaultGraph::try_from_adjacency(vec![vec![1], vec![0], vec![]]).unwrap();
    let found = collect(&graph);
    let mut c1 = DefaultGraph::new();
    let mut c2 = DefaultGraph::new();

    assert_eq!(c1.add_node(0), Ok(()));
    assert_eq!(c1.add_node(1), Ok(()));
    assert_eq!(c1.add_edge(0, 1), Ok(()));

    assert_eq!(c2.add_node(2), Ok(()));

    assert_eq!(found, vec![c1, c2]);
}

#[test]
fn p2_p2_p2() {
    let graph = DefaultGraph::try_from_adjacency(vec![
        vec![1],
        vec![0],
        vec![3],
        vec![2],
        vec![5],
        vec![4],
    ]).unwrap();
    let found = collect(&graph);
    let mut c1 = DefaultGraph::new();
    let mut c2 = DefaultGraph::new();
    let mut c3 = DefaultGraph::new();

    assert_eq!(c1.add_node(0), Ok(()));
    assert_eq!(c1.add_node(1), Ok(()));
    assert_eq!(c1.add_edge(0, 1), Ok(()));

    assert_eq!(c2.add_node(2), Ok(()));
    assert_eq!(c2.add_node(3), Ok(()));
    assert_eq!(c2.add_edge(2, 3), Ok(()));

    assert_eq!(c3.add_node(4), Ok(()));
    assert_eq!(c3.add_node(5), Ok(()));
    assert_eq!(c3.add_edge(4, 5), Ok(()));

    assert_eq!(found, vec![c1, c2, c3]);
}

#[test]
fn c3_p2() {
    let graph = DefaultGraph::try_from_adjacency(vec![
        vec![1, 2],
        vec![0, 2],
        vec![0, 1],
        vec![4],
        vec![3],
    ]).unwrap();
    let found = collect(&graph);
    let mut c1 = DefaultGraph::new();
    let mut c2 = DefaultGraph::new();

    assert_eq!(c1.add_node(0), Ok(()));
    assert_eq!(c1.add_node(1), Ok(()));
    assert_eq!(c1.add_node(2), Ok(()));
    assert_eq!(c1.add_edge(0, 1), Ok(()));
    assert_eq!(c1.add_edge(1, 2), Ok(()));
    assert_eq!(c1.add_edge(2, 0), Ok(()));

    assert_eq!(c2.add_node(3), Ok(()));
    assert_eq!(c2.add_node(4), Ok(()));
    assert_eq!(c2.add_edge(3, 4), Ok(()));

    assert_eq!(found, vec![c1, c2]);
}
