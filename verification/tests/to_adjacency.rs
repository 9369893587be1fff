use gamma::traversal::{to_adjacency, Step};

fn sorted(mut m: Vec<(usize, Vec<usize>)>) -> Vec<(usize, Vec<usize>)> {
    m.sort();
    m
}

#[test]
fn to_adjacency_empty() {
    let steps: Vec<Step> = vec![];
    let result = to_adjacency(steps).unwrap();

    assert_eq!(result.is_empty(), true);
}

#[test]
fn to_adjacency_p2() {
    let edges = vec![Step::new(0, 1, false)];
    let result = to_adjacency(edges).unwrap();

    assert_eq!(sorted(result), vec![(0, vec![1]), (1, vec![0])]);
}

#[test]
fn to_adjacency_p3() {
    let edges = vec![Step::new(0, 1, false), Step::new(1, 2, false)];
    let result = to_adjacency(edges).unwrap();

    assert_eq!(
        sorted(result),
        vec![(0, vec![1]), (1, vec![0, 2]), (2, vec![1])]
    );
}

#[test]
fn to_adjacency_c3() {
    let edges = vec![
        Step::new(0, 1, false),
        Step::new(1, 2, false),
        Step::new(2, 0, true),
    ];
    let result = to_adjacency(edges).unwrap();

    assert_eq!(
        sorted(result),
        vec![(0, vec![1, 2]), (1, vec![0, 2]), (2, vec![1, 0])]
    );
}

#[test]
fn to_adjacency_s3() {
    let edges = vec![
        Step::new(0, 1, false),
        Step::new(1, 2, false),
        Step::new(1, 3, false),
    ];
    let result = to_adjacency(edges).unwrap();

    assert_eq!(
        sorted(result),
        vec![(0, vec![1]), (1, vec![0, 2, 3]), (2, vec![1]), (3, vec![1])]
    );
}
