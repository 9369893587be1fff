use gamma::matching::Marker;

#[test]
fn marker_outside() {
    let marker = Marker::new();

    assert_eq!(marker.has_node(0), false)
}

#[test]
fn marker_inside() {
    let mut marker = Marker::new();

    marker.mark_node(0);

    assert_eq!(marker.has_node(0), true)
}

#[test]
fn marker_edge_outside() {
    let marker = Marker::new();

    assert_eq!(marker.has_edge(0, 1), false);
}

#[test]
fn marker_edge_inside() {
    let mut marker = Marker::new();

    marker.mark_edge(0, 1);

    assert_eq!(marker.has_edge(0, 1), true);
}

#[test]
fn inside_reverse() {
    let mut marker = Marker::new();

    marker.mark_edge(0, 1);

    assert_eq!(marker.has_edge(1, 0), true);
}

#[test]
fn mark_node_twice_is_noop() {
    let mut marker = Marker::new();

    marker.mark_node(0);
    marker.mark_node(0);

    assert_eq!(marker.has_node(0), true);
}

#[test]
fn mark_edge_twice_is_noop() {
    let mut marker = Marker::new();

    marker.mark_edge(0, 1);
    marker.mark_edge(0, 1);

    assert_eq!(marker.has_edge(0, 1), true);
    assert_eq!(marker.has_edge(1, 0), true);
}

#[test]
fn mark_edge_twice_reversed_is_noop() {
    let mut marker = Marker::new();

    marker.mark_edge(0, 1);
    marker.mark_edge(1, 0);

    assert_eq!(marker.has_edge(0, 1), true);
    assert_eq!(marker.has_edge(1, 0), true);
}
