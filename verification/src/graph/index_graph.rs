use vstd::prelude::*;
use crate::graph::default_graph::{
    adjacency_entry_ok, valid_adjacency, DefaultGraph,
};
use crate::graph::error::Error;

verus! {

/// A graph over the vertices `0 .. order - 1`, built from an adjacency
/// array, with vertex, neighbor and edge order fixed by the input. Useful
/// where a precise, stable neighbor order matters.
#[derive(Debug)]
pub struct IndexGraph {
    inner: DefaultGraph,
}

impl IndexGraph {
    /// The vertices, `0` up to the order.
    pub closed spec fn node_seq(&self) -> Seq<usize> {
        self.inner.node_seq()
    }

    /// Whether `id` is a vertex.
    pub closed spec fn contains_node(&self, id: usize) -> bool {
        self.inner.contains_node(id)
    }

    /// The neighbor list of `id`.
    pub closed spec fn neighbors_spec(&self, id: usize) -> Seq<usize> {
        self.inner.neighbors_spec(id)
    }

    /// Whether `a` and `b` are joined by an edge.
    pub closed spec fn adjacent(&self, a: usize, b: usize) -> bool {
        self.inner.adjacent(a, b)
    }

    /// The undirected edges, each once, sources ascending.
    pub closed spec fn edge_seq(&self) -> Seq<(usize, usize)> {
        self.inner.edge_seq()
    }

    pub closed spec fn wf(&self) -> bool {
        &&& self.inner.wf()
        &&& forall|j: int| 0 <= j < self.node_seq().len() ==> #[trigger] self.node_seq()[j] == j
    }

    /// Build from an adjacency array; entry `i` must list every neighbor of
    /// vertex `i`, in the order they are to be iterated. Fails with
    /// `UnknownIndex` for an out-of-range neighbor, `DuplicatePairing` for
    /// a neighbor repeated in its row (or naming its own vertex), and
    /// `MissingPairing` for a missing back pairing.
    pub fn build(entries: Vec<Vec<usize>>) -> (r: Result<Self, Error>)
        ensures
            ({
                let rows = entries@.map_values(|v: Vec<usize>| v@);
                match r {
                    Ok(g) => {
                        &&& valid_adjacency(rows)
                        &&& g.wf()
                        &&& g.node_seq().len() == rows.len()
                        &&& forall|i: int|
                            0 <= i < rows.len() ==> #[trigger] g.neighbors_spec(i as usize)
                                == rows[i]
                    },
                    Err(e) => {
                        &&& !valid_adjacency(rows)
                        &&& exists|i: int, k: int|
                            0 <= i < rows.len() && 0 <= k < rows[i].len() && !(
                            #[trigger] adjacency_entry_ok(rows, i, k)) && {
                                ||| (e == Error::UnknownIndex(rows[i][k]) && rows[i][k]
                                    >= rows.len())
                                ||| (e == Error::DuplicatePairing(i as usize, rows[i][k]) && (
                                rows[i][k] == i || exists|k2: int|
                                    0 <= k2 < rows[i].len() && k2 != k && rows[i][k2] == rows[i][k]))
                                ||| (e == Error::MissingPairing(rows[i][k], i as usize) && !rows[
                                    rows[i][k] as int].contains(i as usize))
                            }
                    },
                }
            }),
    {
        let ghost rows = entries@.map_values(|v: Vec<usize>| v@);
        let n = entries.len();
        let mut i: usize = 0;
        while i < n
            invariant
                n == entries@.len(),
                rows == entries@.map_values(|v: Vec<usize>| v@),
                i <= n,
                forall|i2: int, k2: int|
                    0 <= i2 < i && 0 <= k2 < rows[i2].len() ==> #[trigger] adjacency_entry_ok(
                        rows,
                        i2,
                        k2,
                    ),
            decreases n - i,
        {
            let row_len = entries[i].len();
            let mut k: usize = 0;
            while k < row_len
                invariant
                    n == entries@.len(),
                    rows == entries@.map_values(|v: Vec<usize>| v@),
                    i < n,
                    row_len == rows[i as int].len(),
                    k <= row_len,
                    forall|i2: int, k2: int|
                        0 <= i2 < i && 0 <= k2 < rows[i2].len() ==> #[trigger] adjacency_entry_ok(
                            rows,
                            i2,
                            k2,
                        ),
                    forall|k2: int|
                        0 <= k2 < k ==> #[trigger] adjacency_entry_ok(rows, i as int, k2),
                decreases row_len - k,
            {
                let tid = entries[i][k];
                proof {
                    assert(rows[i as int][k as int] == tid);
                }
                if tid >= n {
                    proof {
                        assert(!adjacency_entry_ok(rows, i as int, k as int));
                    }
                    return Err(Error::UnknownIndex(tid));
                }
                if tid == i {
                    proof {
                        assert(!adjacency_entry_ok(rows, i as int, k as int));
                    }
                    return Err(Error::DuplicatePairing(i, tid));
                }
                if pairing_after(&entries[i], k + 1, tid) {
                    proof {
                        let j = choose|j: int|
                            k + 1 <= j < rows[i as int].len() && rows[i as int][j] == tid;
                        assert(j != k && rows[i as int][j] == rows[i as int][k as int]);
                        assert(!adjacency_entry_ok(rows, i as int, k as int));
                    }
                    return Err(Error::DuplicatePairing(i, tid));
                }
                proof {
                    assert forall|k2: int|
                        0 <= k2 < rows[i as int].len() && k2 != k implies rows[i as int][k2]
                        != tid by {
                        if k2 < k {
                            assert(adjacency_entry_ok(rows, i as int, k2));
                            assert(rows[i as int][k as int] != rows[i as int][k2]);
                        }
                    }
                }
                if !pairing_present(&entries[tid], i) {
                    proof {
                        assert(rows[tid as int] == entries@[tid as int]@);
                        assert(!adjacency_entry_ok(rows, i as int, k as int));
                    }
                    return Err(Error::MissingPairing(tid, i));
                }
                proof {
                    assert(rows[tid as int].contains(i));
                    assert(adjacency_entry_ok(rows, i as int, k as int));
                }
                k = k + 1;
            }
            i = i + 1;
        }
        proof {
            assert(valid_adjacency(rows));
        }
        match DefaultGraph::try_from_adjacency(entries) {
            Ok(inner) => Ok(IndexGraph { inner }),
            Err(_) => vstd::pervasive::unreached(),
        }
    }

    /// Whether there are no vertices.
    pub fn is_empty(&self) -> (r: bool)
        requires
            self.wf(),
        ensures
            r == (self.node_seq().len() == 0),
    {
        self.inner.is_empty()
    }

    /// The number of vertices.
    pub fn order(&self) -> (r: usize)
        requires
            self.wf(),
        ensures
            r == self.node_seq().len(),
    {
        self.inner.order()
    }

    /// The number of undirected edges.
    pub fn size(&self) -> (r: usize)
        requires
            self.wf(),
        ensures
            r == self.edge_seq().len(),
    {
        self.inner.size()
    }

    /// The vertices, `0` up to the order, in order.
    pub fn nodes(&self) -> (r: Vec<usize>)
        requires
            self.wf(),
        ensures
            r@ == self.node_seq(),
    {
        self.inner.ids()
    }

    /// Whether `id` is a vertex.
    pub fn has_node(&self, id: usize) -> (r: bool)
        requires
            self.wf(),
        ensures
            r == self.contains_node(id),
    {
        self.inner.has_id(id)
    }

    /// The neighbors of `id`, in row order; absent ids report
    /// `UnknownNode`.
    pub fn neighbors(&self, id: usize) -> (r: Result<Vec<usize>, Error>)
        requires
            self.wf(),
        ensures
            match r {
                Ok(v) => self.contains_node(id) && v@ == self.neighbors_spec(id),
                Err(e) => !self.contains_node(id) && e == Error::UnknownNode,
            },
    {
        match self.inner.neighbors(id) {
            Ok(v) => Ok(v),
            Err(_) => Err(Error::UnknownNode),
        }
    }

    /// The degree of `id`; absent ids report `UnknownNode`.
    pub fn degree(&self, id: usize) -> (r: Result<usize, Error>)
        requires
            self.wf(),
        ensures
            match r {
                Ok(d) => self.contains_node(id) && d == self.neighbors_spec(id).len(),
                Err(e) => !self.contains_node(id) && e == Error::UnknownNode,
            },
    {
        match self.inner.degree(id) {
            Ok(d) => Ok(d),
            Err(_) => Err(Error::UnknownNode),
        }
    }

    /// The undirected edges, each once, sources ascending.
    pub fn edges(&self) -> (r: Vec<(usize, usize)>)
        requires
            self.wf(),
        ensures
            r@ == self.edge_seq(),
    {
        self.inner.edges()
    }

    /// Whether the edge `(sid, tid)` is present; a missing endpoint
    /// reports `UnknownNode`, `sid` first.
    pub fn has_edge(&self, sid: usize, tid: usize) -> (r: Result<bool, Error>)
        requires
            self.wf(),
        ensures
            match r {
                Ok(b) => self.contains_node(sid) && self.contains_node(tid) && b == self.adjacent(
                    sid,
                    tid,
                ),
                Err(e) => e == Error::UnknownNode && !(self.contains_node(sid)
                    && self.contains_node(tid)),
            },
    {
        match self.inner.has_edge(sid, tid) {
            Ok(b) => Ok(b),
            Err(_) => Err(Error::UnknownNode),
        }
    }
}

/// Whether a row holds `x` at or after position `start`.
fn pairing_after(v: &Vec<usize>, start: usize, x: usize) -> (r: bool)
    ensures
        r == exists|j: int| start <= j < v@.len() && v@[j] == x,
{
    let mut i: usize = start;
    while i < v.len()
        invariant
            start <= i,
            forall|j: int| start <= j < i ==> v@[j] != x,
        decreases v@.len() - i,
    {
        if v[i] == x {
            proof {
                assert(start <= i < v@.len() && v@[i as int] == x);
            }
            return true;
        }
        i = i + 1;
    }
    false
}

/// Whether a row holds `x`.
fn pairing_present(v: &Vec<usize>, x: usize) -> (r: bool)
    ensures
        r == v@.contains(x),
{
    let mut i: usize = 0;
    while i < v.len()
        invariant
            i <= v@.len(),
            forall|j: int| 0 <= j < i ==> v@[j] != x,
        decreases v@.len() - i,
    {
        if v[i] == x {
            return true;
        }
        i = i + 1;
    }
    false
}

} // verus!
