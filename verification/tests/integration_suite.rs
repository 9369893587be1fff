use gamma::graph::StableGraph;

fn gimmie_graph<'a>() -> StableGraph<&'a str> {
    StableGraph::build(vec![0, 1, 2], vec![(0, 1, "a"), (1, 2, "b")]).unwrap()
}

#[test]
fn retured_graph() {
    let graph = gimmie_graph();

    assert_eq!(graph.order(), 3);
}

#[test]
fn stable_graph_api() {
    let graph = StableGraph::build(vec![0, 1, 2], vec![(0, 1, "a"), (1, 2, "b")]).unwrap();

    assert_eq!(graph.is_empty(), false);
    assert_eq!(graph.order(), 3);
    assert_eq!(graph.size(), 2);
    assert_eq!(graph.nodes(), vec![0, 1, 2]);
    assert_eq!(graph.has_node(0), true);
    assert_eq!(graph.neighbors(1).unwrap(), vec![0, 2]);
    assert_eq!(graph.degree(1).unwrap(), 2);
    assert_eq!(graph.edges(), vec![(0, 1), (1, 2)]);
    assert_eq!(graph.has_edge(0, 1).unwrap(), true);
    assert_eq!(graph.has_edge(1, 0).unwrap(), true);
    assert_eq!(graph.has_edge(0, 2).unwrap(), false);
}
