use gamma::matching::Forest;

fn sorted(mut v: Vec<usize>) -> Vec<usize> {
    v.sort();
    v
}

#[test]
fn forest_outside() {
    let forest = Forest::new();

    assert_eq!(forest.path(0), None)
}

#[test]
fn root() {
    let mut forest = Forest::new();

    forest.add_root(0);

    assert_eq!(forest.path(0), Some(vec![0]))
}

#[test]
fn child() {
    let mut forest = Forest::new();

    forest.add_root(0);
    forest.add_edge(0, 1);

    assert_eq!(forest.path(1), Some(vec![1, 0]))
}

#[test]
fn grandchild() {
    let mut forest = Forest::new();

    forest.add_root(0);
    forest.add_edge(0, 1);
    forest.add_edge(1, 2);

    assert_eq!(forest.path(2), Some(vec![2, 1, 0]))
}

#[test]
fn grandchild_with_branching_before() {
    let mut forest = Forest::new();

    forest.add_root(0);
    forest.add_edge(0, 1);
    forest.add_edge(0, 2);
    forest.add_edge(0, 3);
    forest.add_edge(1, 4);
    forest.add_edge(2, 5);
    forest.add_edge(3, 6);
    forest.add_edge(5, 7);

    assert_eq!(forest.path(7), Some(vec![7, 5, 2, 0]))
}

#[test]
fn grandchild_and_other_path() {
    let mut forest = Forest::new();

    forest.add_root(0);
    forest.add_edge(0, 1);
    forest.add_edge(1, 2);
    forest.add_root(3);
    forest.add_edge(3, 4);
    forest.add_edge(3, 5);
    forest.add_edge(5, 6);

    assert_eq!(forest.path(2), Some(vec![2, 1, 0]))
}

#[test]
fn forest_empty() {
    let forest = Forest::new();

    assert_eq!(forest.even_nodes(), Vec::<usize>::new())
}

#[test]
fn two_root() {
    let mut forest = Forest::new();

    forest.add_root(0);
    forest.add_root(1);

    assert_eq!(sorted(forest.even_nodes()), vec![0, 1])
}

#[test]
fn complex_tree() {
    let mut forest = Forest::new();

    forest.add_root(0);
    forest.add_edge(0, 1);
    forest.add_edge(1, 2);
    forest.add_root(3);
    forest.add_edge(3, 4);
    forest.add_edge(4, 5);
    forest.add_edge(4, 6);

    assert_eq!(sorted(forest.even_nodes()), sorted(vec![0, 3, 2, 5, 6]))
}
