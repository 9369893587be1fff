use vstd::prelude::*;
use crate::graph::error::Error;

verus! {

/// The capability set an undirected graph container offers: vertex and
/// edge enumeration, membership, neighbor lists, and adjacency tests, all
/// described against the container's own vertex sequence, neighbor lists,
/// and edge list.
pub trait Graph: Sized {
    /// The container's internal consistency.
    spec fn wf(&self) -> bool;

    /// The vertices, in the container's stable order.
    spec fn node_seq(&self) -> Seq<usize>;

    /// The neighbor list of `id`, in the container's stable order.
    spec fn neighbors_spec(&self, id: usize) -> Seq<usize>;

    /// The undirected edges, each exactly once.
    spec fn edge_seq(&self) -> Seq<(usize, usize)>;

    /// Whether `id` is a vertex.
    open spec fn contains_node(&self, id: usize) -> bool {
        self.node_seq().contains(id)
    }

    /// Whether `a` and `b` are joined by an edge.
    open spec fn adjacent(&self, a: usize, b: usize) -> bool {
        self.contains_node(a) && self.neighbors_spec(a).contains(b)
    }

    /// Whether there are no vertices.
    fn is_empty(&self) -> (r: bool)
        requires
            self.wf(),
        ensures
            r == (self.node_seq().len() == 0),
    ;

    /// The number of vertices.
    fn order(&self) -> (r: usize)
        requires
            self.wf(),
        ensures
            r == self.node_seq().len(),
    ;

    /// The number of undirected edges.
    fn size(&self) -> (r: usize)
        requires
            self.wf(),
        ensures
            r == self.edge_seq().len(),
    ;

    /// The vertices, in the container's stable order.
    fn ids(&self) -> (r: Vec<usize>)
        requires
            self.wf(),
        ensures
            r@ == self.node_seq(),
    ;

    /// Whether `id` is a vertex.
    fn has_id(&self, id: usize) -> (r: bool)
        requires
            self.wf(),
        ensures
            r == self.contains_node(id),
    ;

    /// The neighbors of `id`; fails exactly when `id` is not a vertex.
    fn neighbors(&self, id: usize) -> (r: Result<Vec<usize>, Error>)
        requires
            self.wf(),
        ensures
            match r {
                Ok(v) => self.contains_node(id) && v@ == self.neighbors_spec(id),
                Err(_) => !self.contains_node(id),
            },
    ;

    /// The number of neighbors of `id`; fails exactly when `id` is not a
    /// vertex.
    fn degree(&self, id: usize) -> (r: Result<usize, Error>)
        requires
            self.wf(),
        ensures
            match r {
                Ok(d) => self.contains_node(id) && d == self.neighbors_spec(id).len(),
                Err(_) => !self.contains_node(id),
            },
    ;

    /// The undirected edges, each exactly once.
    fn edges(&self) -> (r: Vec<(usize, usize)>)
        requires
            self.wf(),
        ensures
            r@ == self.edge_seq(),
    ;

    /// Whether the edge `(sid, tid)` is present; fails exactly when an
    /// endpoint is not a vertex.
    fn has_edge(&self, sid: usize, tid: usize) -> (r: Result<bool, Error>)
        requires
            self.wf(),
        ensures
            match r {
                Ok(b) => self.contains_node(sid) && self.contains_node(tid) && b == self.adjacent(
                    sid,
                    tid,
                ),
                Err(_) => !(self.contains_node(sid) && self.contains_node(tid)),
            },
    ;
}

} // verus!
