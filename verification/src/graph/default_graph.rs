use vstd::prelude::*;
use vstd::pervasive::VecAdditionalExecFns;
use crate::graph::error::Error;

verus! {

/// Pushing an element extends what a sequence contains by exactly that
/// element.
pub proof fn lemma_push_contains<T>(s: Seq<T>, e: T)
    ensures
        forall|x: T| #[trigger] s.push(e).contains(x) <==> s.contains(x) || x == e,
{
    assert forall|x: T| #[trigger] s.push(e).contains(x) <==> s.contains(x) || x == e by {
        if s.contains(x) {
            let k = choose|k: int| 0 <= k < s.len() && s[k] == x;
            assert(s.push(e)[k] == x);
        } else if x == e {
            assert(s.push(e)[s.len() as int] == x);
        } else if s.push(e).contains(x) {
            let k = choose|k: int| 0 <= k < s.push(e).len() && s.push(e)[k] == x;
            if k < s.len() {
                assert(s[k] == x);
            }
        }
    }
}

/// One adjacency-list entry is in bounds, loop-free, unrepeated in its row,
/// and mirrored by a back edge.
pub open spec fn adjacency_entry_ok(rows: Seq<Seq<usize>>, i: int, k: int) -> bool {
    &&& rows[i][k] < rows.len()
    &&& rows[i][k] != i
    &&& forall|k2: int| 0 <= k2 < rows[i].len() && k2 != k ==> rows[i][k2] != rows[i][k]
    &&& rows[rows[i][k] as int].contains(i as usize)
}

/// A whole adjacency list describes an undirected simple graph over the
/// vertices `0 .. rows.len()`.
pub open spec fn valid_adjacency(rows: Seq<Seq<usize>>) -> bool {
    forall|i: int, k: int|
        0 <= i < rows.len() && 0 <= k < rows[i].len() ==> #[trigger] adjacency_entry_ok(rows, i, k)
}

/// Whether two stored edges name the same undirected edge.
pub open spec fn same_undirected(e: (usize, usize), f: (usize, usize)) -> bool {
    e == f || (e.0 == f.1 && e.1 == f.0)
}

/// An undirected simple graph backed by adjacency lists. Vertices and
/// neighbors are iterated in the order in which they were added.
#[derive(Debug)]
pub struct DefaultGraph {
    ids: Vec<usize>,
    adjacency: Vec<Vec<usize>>,
    edges: Vec<(usize, usize)>,
}

impl DefaultGraph {
    /// The vertices, in insertion order.
    pub closed spec fn node_seq(&self) -> Seq<usize> {
        self.ids@
    }

    /// Whether `id` is a vertex of the graph.
    pub open spec fn contains_node(&self, id: usize) -> bool {
        self.node_seq().contains(id)
    }

    /// The neighbor list of `id`, in insertion order; empty for absent ids.
    pub closed spec fn neighbors_spec(&self, id: usize) -> Seq<usize> {
        if self.contains_node(id) {
            let j = choose|j: int| 0 <= j < self.ids@.len() && self.ids@[j] == id;
            self.adjacency@[j]@
        } else {
            Seq::empty()
        }
    }

    /// Whether `a` and `b` are joined by an edge.
    pub open spec fn adjacent(&self, a: usize, b: usize) -> bool {
        self.contains_node(a) && self.neighbors_spec(a).contains(b)
    }

    /// The undirected edges, each exactly once, in insertion order.
    pub closed spec fn edge_seq(&self) -> Seq<(usize, usize)> {
        self.edges@
    }

    pub closed spec fn wf(&self) -> bool {
        &&& self.ids@.no_duplicates()
        &&& self.adjacency@.len() == self.ids@.len()
        &&& forall|i: int|
            0 <= i < self.adjacency@.len() ==> (#[trigger] self.adjacency@[i])@.no_duplicates()
        &&& forall|i: int, k: int|
            0 <= i < self.adjacency@.len() && 0 <= k < self.adjacency@[i]@.len()
                ==> self.ids@.contains(#[trigger] self.adjacency@[i]@[k])
                && self.adjacency@[i]@[k] != self.ids@[i]
        &&& forall|i: int, j: int|
            0 <= i < self.ids@.len() && 0 <= j < self.ids@.len() ==> ((
            #[trigger] self.adjacency@[i])@.contains(self.ids@[j]) <==> (
            #[trigger] self.adjacency@[j])@.contains(self.ids@[i]))
        &&& forall|k: int|
            0 <= k < self.edges@.len() ==> self.adjacent(
                (#[trigger] self.edges@[k]).0,
                self.edges@[k].1,
            )
        &&& forall|i: int, j: int|
            0 <= i < self.ids@.len() && 0 <= j < self.ids@.len() && (
            #[trigger] self.adjacency@[i])@.contains(#[trigger] self.ids@[j])
                ==> self.edges@.contains((self.ids@[i], self.ids@[j])) || self.edges@.contains(
                (self.ids@[j], self.ids@[i]))
        &&& forall|k: int, l: int|
            0 <= k < l < self.edges@.len() ==> !same_undirected(
                #[trigger] self.edges@[k],
                #[trigger] self.edges@[l],
            )
    }

    /// The stored row at index `i` is the neighbor list of `ids[i]`.
    proof fn lemma_row(&self, i: int)
        requires
            self.wf(),
            0 <= i < self.ids@.len(),
        ensures
            self.contains_node(self.ids@[i]),
            self.neighbors_spec(self.ids@[i]) == self.adjacency@[i]@,
    {
        let v = self.ids@[i];
        assert(self.node_seq()[i] == v);
        let j = choose|j: int| 0 <= j < self.ids@.len() && self.ids@[j] == v;
        assert(j == i);
    }

    /// What well-formedness means at the level of vertices and edges:
    /// vertices are unique, adjacency is symmetric, irreflexive, and between
    /// members only, and the edge list enumerates each undirected edge
    /// exactly once.
    pub proof fn lemma_graph_facts(&self)
        requires
            self.wf(),
        ensures
            self.node_seq().no_duplicates(),
            forall|a: usize, b: usize|
                #[trigger] self.adjacent(a, b) ==> self.adjacent(b, a) && self.contains_node(a)
                    && self.contains_node(b) && a != b,
            forall|k: int|
                0 <= k < self.edge_seq().len() ==> self.adjacent(
                    (#[trigger] self.edge_seq()[k]).0,
                    self.edge_seq()[k].1,
                ),
            forall|a: usize, b: usize|
                #[trigger] self.adjacent(a, b) ==> self.edge_seq().contains((a, b))
                    || self.edge_seq().contains((b, a)),
            forall|k: int, l: int|
                0 <= k < l < self.edge_seq().len() ==> !same_undirected(
                    #[trigger] self.edge_seq()[k],
                    #[trigger] self.edge_seq()[l],
                ),
            forall|v: usize| (#[trigger] self.neighbors_spec(v)).no_duplicates(),
    {
        assert forall|v: usize| (#[trigger] self.neighbors_spec(v)).no_duplicates() by {
            if self.contains_node(v) {
                let j = choose|j: int| 0 <= j < self.ids@.len() && self.ids@[j] == v;
                assert(self.adjacency@[j]@.no_duplicates());
            } else {
                assert(self.neighbors_spec(v) == Seq::<usize>::empty());
            }
        }
        assert forall|a: usize, b: usize| #[trigger] self.adjacent(a, b) implies self.adjacent(
            b,
            a,
        ) && self.contains_node(a) && self.contains_node(b) && a != b by {
            let i = choose|i: int| 0 <= i < self.ids@.len() && self.ids@[i] == a;
            self.lemma_row(i);
            let k = choose|k: int|
                0 <= k < self.adjacency@[i]@.len() && self.adjacency@[i]@[k] == b;
            assert(self.ids@.contains(b));
            let j = choose|j: int| 0 <= j < self.ids@.len() && self.ids@[j] == b;
            self.lemma_row(j);
            assert(self.adjacency@[i]@.contains(self.ids@[j]));
            assert(self.adjacency@[j]@.contains(self.ids@[i]));
        }
        assert forall|a: usize, b: usize| #[trigger] self.adjacent(a, b) implies self.edge_seq()
            .contains((a, b)) || self.edge_seq().contains((b, a)) by {
            let i = choose|i: int| 0 <= i < self.ids@.len() && self.ids@[i] == a;
            self.lemma_row(i);
            assert(self.ids@.contains(b));
            let j = choose|j: int| 0 <= j < self.ids@.len() && self.ids@[j] == b;
            assert(self.adjacency@[i]@.contains(self.ids@[j]));
        }
    }

    /// A vertex that is not a member has no neighbors.
    pub proof fn lemma_absent_neighbors(&self)
        ensures
            forall|v: usize|
                !self.contains_node(v) ==> #[trigger] self.neighbors_spec(v) == Seq::<
                    usize,
                >::empty(),
    {
    }

    /// Whether `a` and `b` are joined by an edge, with absent vertices
    /// simply not adjacent.
    pub(crate) fn adjacent_nodes(&self, a: usize, b: usize) -> (r: bool)
        requires
            self.wf(),
        ensures
            r == self.adjacent(a, b),
    {
        if self.has_id(a) && self.has_id(b) {
            match self.has_edge(a, b) {
                Ok(x) => x,
                Err(_) => vstd::pervasive::unreached(),
            }
        } else {
            proof {
                if self.adjacent(a, b) {
                    self.lemma_graph_facts();
                }
            }
            false
        }
    }

    /// An empty graph.
    pub fn new() -> (r: Self)
        ensures
            r.wf(),
            r.node_seq() == Seq::<usize>::empty(),
            r.edge_seq() == Seq::<(usize, usize)>::empty(),
    {
        let r = Self { ids: Vec::new(), adjacency: Vec::new(), edges: Vec::new() };
        proof {
            assert(r.node_seq() =~= Seq::<usize>::empty());
            assert(r.edge_seq() =~= Seq::<(usize, usize)>::empty());
        }
        r
    }

    /// The position of `id` among the vertices, if it is one.
    fn find_index(&self, id: usize) -> (r: Option<usize>)
        ensures
            match r {
                Some(j) => j < self.ids@.len() && self.ids@[j as int] == id && forall|l: int|
                    0 <= l < j ==> self.ids@[l] != id,
                None => !self.contains_node(id),
            },
    {
        let mut i: usize = 0;
        while i < self.ids.len()
            invariant
                i <= self.ids@.len(),
                forall|j: int| 0 <= j < i ==> self.ids@[j] != id,
            decreases self.ids@.len() - i,
        {
            if self.ids[i] == id {
                return Some(i);
            }
            i = i + 1;
        }
        None
    }

    /// Whether there are no vertices.
    pub fn is_empty(&self) -> (r: bool)
        ensures
            r == (self.node_seq().len() == 0),
    {
        self.ids.len() == 0
    }

    /// The number of vertices.
    pub fn order(&self) -> (r: usize)
        ensures
            r == self.node_seq().len(),
    {
        self.ids.len()
    }

    /// The number of undirected edges.
    pub fn size(&self) -> (r: usize)
        ensures
            r == self.edge_seq().len(),
    {
        self.edges.len()
    }

    /// The vertices, in insertion order.
    pub fn ids(&self) -> (r: Vec<usize>)
        ensures
            r@ == self.node_seq(),
    {
        self.ids.clone()
    }

    /// Whether `id` is a vertex.
    pub fn has_id(&self, id: usize) -> (r: bool)
        ensures
            r == self.contains_node(id),
    {
        match self.find_index(id) {
            Some(j) => {
                proof {
                    assert(self.node_seq()[j as int] == id);
                }
                true
            },
            None => false,
        }
    }

    /// The neighbors of `id`, in insertion order.
    pub fn neighbors(&self, id: usize) -> (r: Result<Vec<usize>, Error>)
        requires
            self.wf(),
        ensures
            match r {
                Ok(v) => self.contains_node(id) && v@ == self.neighbors_spec(id),
                Err(e) => !self.contains_node(id) && e == Error::UnknownId(id),
            },
    {
        match self.find_index(id) {
            Some(j) => {
                proof {
                    self.lemma_row(j as int);
                }
                Ok(self.adjacency[j].clone())
            },
            None => Err(Error::UnknownId(id)),
        }
    }

    /// The degree of `id`: how many neighbors it has.
    pub fn degree(&self, id: usize) -> (r: Result<usize, Error>)
        requires
            self.wf(),
        ensures
            match r {
                Ok(d) => self.contains_node(id) && d == self.neighbors_spec(id).len(),
                Err(e) => !self.contains_node(id) && e == Error::UnknownId(id),
            },
    {
        match self.find_index(id) {
            Some(j) => {
                proof {
                    self.lemma_row(j as int);
                }
                Ok(self.adjacency[j].len())
            },
            None => Err(Error::UnknownId(id)),
        }
    }

    /// The undirected edges, each exactly once, in insertion order.
    pub fn edges(&self) -> (r: Vec<(usize, usize)>)
        ensures
            r@ == self.edge_seq(),
    {
        copy_edge_vec(&self.edges)
    }

    /// Whether the edge `(sid, tid)` is present. Both ids must be members;
    /// the missing one is reported, `sid` first.
    pub fn has_edge(&self, sid: usize, tid: usize) -> (r: Result<bool, Error>)
        requires
            self.wf(),
        ensures
            match r {
                Ok(b) => self.contains_node(sid) && self.contains_node(tid) && b == self.adjacent(
                    sid,
                    tid,
                ),
                Err(e) => (e == Error::UnknownId(sid) && !self.contains_node(sid)) || (e
                    == Error::UnknownId(tid) && self.contains_node(sid) && !self.contains_node(
                    tid,
                )),
            },
    {
        let si = match self.find_index(sid) {
            Some(j) => j,
            None => {
                return Err(Error::UnknownId(sid));
            },
        };
        proof {
            assert(self.node_seq()[si as int] == sid);
            self.lemma_row(si as int);
        }
        if self.has_id(tid) {
            Ok(contains_val(&self.adjacency[si], tid))
        } else {
            Err(Error::UnknownId(tid))
        }
    }

    /// Add a vertex. Fails with `DuplicateId` exactly when it is already
    /// present; nothing changes in that case.
    pub fn add_node(&mut self, id: usize) -> (r: Result<(), Error>)
        requires
            old(self).wf(),
        ensures
            final(self).wf(),
            match r {
                Ok(()) => {
                    &&& !old(self).contains_node(id)
                    &&& final(self).node_seq() == old(self).node_seq().push(id)
                    &&& final(self).edge_seq() == old(self).edge_seq()
                    &&& final(self).neighbors_spec(id) == Seq::<usize>::empty()
                    &&& forall|v: usize|
                        old(self).contains_node(v) ==> #[trigger] final(self).neighbors_spec(v)
                            == old(self).neighbors_spec(v)
                },
                Err(e) => {
                    &&& e == Error::DuplicateId(id)
                    &&& old(self).contains_node(id)
                    &&& *final(self) == *old(self)
                },
            },
    {
        let ghost olds = *self;
        if self.has_id(id) {
            return Err(Error::DuplicateId(id));
        }
        self.ids.push(id);
        self.adjacency.push(Vec::new());
        proof {
            let n = olds.ids@.len();
            lemma_push_contains(olds.ids@, id);
            assert forall|j: int| 0 <= j < n implies self.ids@[j] == olds.ids@[j] by {}
            assert forall|j: int| 0 <= j < n implies (#[trigger] self.adjacency@[j])
                == olds.adjacency@[j] by {}
            assert(self.wf()) by {
                assert(self.adjacency@[n as int]@ =~= Seq::<usize>::empty());
                assert forall|i: int, j: int|
                    0 <= i < self.ids@.len() && 0 <= j < self.ids@.len() implies ((
                #[trigger] self.adjacency@[i])@.contains(self.ids@[j]) <==> (
                #[trigger] self.adjacency@[j])@.contains(self.ids@[i])) by {
                    if i < n && j < n {
                        assert(olds.adjacency@[i]@.contains(olds.ids@[j])
                            <==> olds.adjacency@[j]@.contains(olds.ids@[i]));
                    } else if i == n && j < n {
                        assert(!self.adjacency@[i]@.contains(self.ids@[j]));
                        if self.adjacency@[j]@.contains(self.ids@[i]) {
                            assert(olds.adjacency@[j]@.contains(id));
                            assert(olds.ids@.contains(id));
                        }
                    } else if j == n && i < n {
                        assert(!self.adjacency@[j]@.contains(self.ids@[i]));
                        if self.adjacency@[i]@.contains(self.ids@[j]) {
                            assert(olds.adjacency@[i]@.contains(id));
                            assert(olds.ids@.contains(id));
                        }
                    }
                }
                assert forall|k: int| 0 <= k < self.edges@.len() implies self.adjacent(
                    (#[trigger] self.edges@[k]).0,
                    self.edges@[k].1,
                ) by {
                    assert(olds.adjacent(olds.edges@[k].0, olds.edges@[k].1));
                    olds.lemma_unchanged_adjacent(self, olds.edges@[k].0);
                }
                assert forall|i: int, j: int|
                    0 <= i < self.ids@.len() && 0 <= j < self.ids@.len() && (
                #[trigger] self.adjacency@[i])@.contains(#[trigger] self.ids@[j])
                    implies self.edges@.contains((self.ids@[i], self.ids@[j]))
                    || self.edges@.contains((self.ids@[j], self.ids@[i])) by {
                    if i < n && j < n {
                    } else if i == n {
                        assert(self.adjacency@[i]@.len() == 0);
                    } else {
                        assert(olds.adjacency@[i]@.contains(id));
                        assert(olds.ids@.contains(id));
                    }
                }
            }
            assert(self.node_seq() =~= olds.node_seq().push(id));
            self.lemma_row(n as int);
            assert(self.neighbors_spec(id) =~= Seq::<usize>::empty());
            assert forall|v: usize| olds.contains_node(v) implies #[trigger] self.neighbors_spec(
                v,
            ) == olds.neighbors_spec(v) by {
                olds.lemma_unchanged_neighbors(self, v);
            }
        }
        Ok(())
    }

    /// Add the undirected edge `(sid, tid)`. Fails with `UnknownId` for the
    /// first absent endpoint, and with `DuplicateEdge` when the edge is
    /// already present in either direction or when `sid == tid` (the
    /// container holds loop-free graphs); nothing changes on failure.
    pub fn add_edge(&mut self, sid: usize, tid: usize) -> (r: Result<(), Error>)
        requires
            old(self).wf(),
        ensures
            final(self).wf(),
            match r {
                Ok(()) => {
                    &&& old(self).contains_node(sid)
                    &&& old(self).contains_node(tid)
                    &&& sid != tid
                    &&& !old(self).adjacent(sid, tid)
                    &&& final(self).node_seq() == old(self).node_seq()
                    &&& final(self).edge_seq() == old(self).edge_seq().push((sid, tid))
                    &&& final(self).neighbors_spec(sid) == old(self).neighbors_spec(sid).push(tid)
                    &&& final(self).neighbors_spec(tid) == old(self).neighbors_spec(tid).push(sid)
                    &&& forall|v: usize|
                        v != sid && v != tid ==> #[trigger] final(self).neighbors_spec(v) == old(
                            self,
                        ).neighbors_spec(v)
                },
                Err(e) => {
                    &&& *final(self) == *old(self)
                    &&& (e == Error::UnknownId(sid) && !old(self).contains_node(sid) || e
                        == Error::UnknownId(tid) && old(self).contains_node(sid) && !old(
                        self,
                    ).contains_node(tid) || e == Error::DuplicateEdge(sid, tid) && old(
                        self,
                    ).contains_node(sid) && old(self).contains_node(tid) && (old(self).adjacent(
                        sid,
                        tid,
                    ) || sid == tid))
                },
            },
    {
        let ghost olds = *self;
        let si = match self.find_index(sid) {
            Some(j) => j,
            None => {
                return Err(Error::UnknownId(sid));
            },
        };
        proof {
            assert(self.node_seq()[si as int] == sid);
        }
        let ti = match self.find_index(tid) {
            Some(j) => j,
            None => {
                return Err(Error::UnknownId(tid));
            },
        };
        proof {
            assert(self.node_seq()[ti as int] == tid);
            self.lemma_row(si as int);
            self.lemma_row(ti as int);
        }
        if sid == tid {
            return Err(Error::DuplicateEdge(sid, tid));
        }
        if contains_val(&self.adjacency[si], tid) {
            return Err(Error::DuplicateEdge(sid, tid));
        }
        proof {
            assert(si != ti);
            assert(!olds.adjacency@[ti as int]@.contains(sid)) by {
                assert(olds.adjacency@[ti as int]@.contains(olds.ids@[si as int])
                    <==> olds.adjacency@[si as int]@.contains(olds.ids@[ti as int]));
            }
        }
        let mut row_s = self.adjacency[si].clone();
        row_s.push(tid);
        self.adjacency.set(si, row_s);
        let mut row_t = self.adjacency[ti].clone();
        row_t.push(sid);
        self.adjacency.set(ti, row_t);
        self.edges.push((sid, tid));
        proof {
            self.lemma_add_edge_effect(olds, sid, tid, si as int, ti as int);
        }
        Ok(())
    }

    /// The whole well-formedness and row bookkeeping for `add_edge`.
    proof fn lemma_add_edge_effect(&self, olds: DefaultGraph, sid: usize, tid: usize, si: int, ti: int)
        requires
            olds.wf(),
            0 <= si < olds.ids@.len(),
            0 <= ti < olds.ids@.len(),
            olds.ids@[si] == sid,
            olds.ids@[ti] == tid,
            sid != tid,
            si != ti,
            !olds.adjacency@[si]@.contains(tid),
            self.ids@ == olds.ids@,
            self.edges@ == olds.edges@.push((sid, tid)),
            self.adjacency@.len() == olds.adjacency@.len(),
            self.adjacency@[si]@ == olds.adjacency@[si]@.push(tid),
            self.adjacency@[ti]@ == olds.adjacency@[ti]@.push(sid),
            forall|j: int|
                0 <= j < olds.adjacency@.len() && j != si && j != ti
                    ==> (#[trigger] self.adjacency@[j])@ == olds.adjacency@[j]@,
        ensures
            self.wf(),
            self.node_seq() == olds.node_seq(),
            self.edge_seq() == olds.edge_seq().push((sid, tid)),
            !olds.adjacent(sid, tid),
            self.neighbors_spec(sid) == olds.neighbors_spec(sid).push(tid),
            self.neighbors_spec(tid) == olds.neighbors_spec(tid).push(sid),
            forall|v: usize|
                v != sid && v != tid ==> #[trigger] self.neighbors_spec(v) == olds.neighbors_spec(
                    v,
                ),
    {
        let n = olds.ids@.len() as int;
        olds.lemma_row(si);
        olds.lemma_row(ti);
        assert(!olds.adjacency@[ti]@.contains(sid)) by {
            assert(olds.adjacency@[ti]@.contains(olds.ids@[si])
                <==> olds.adjacency@[si]@.contains(olds.ids@[ti]));
        }
        lemma_push_contains(olds.adjacency@[si]@, tid);
        lemma_push_contains(olds.adjacency@[ti]@, sid);
        lemma_push_contains(olds.edges@, (sid, tid));
        // uniqueness of indices: ids[j] == sid exactly at si, == tid exactly at ti
        assert forall|j: int| 0 <= j < n && j != si implies olds.ids@[j] != sid by {}
        assert forall|j: int| 0 <= j < n && j != ti implies olds.ids@[j] != tid by {}
        assert(self.wf()) by {
            assert forall|i: int|
                0 <= i < self.adjacency@.len() implies (
            #[trigger] self.adjacency@[i])@.no_duplicates() by {
                if i == si {
                    let s = olds.adjacency@[si]@;
                    assert forall|a: int, b: int|
                        0 <= a < b < s.push(tid).len() implies s.push(tid)[a] != s.push(tid)[b] by {
                        if b < s.len() {
                        } else {
                            assert(s.push(tid)[b] == tid);
                            assert(s[a] == s.push(tid)[a]);
                            assert(!s.contains(tid));
                            assert(s.contains(s[a]));
                        }
                    }
                } else if i == ti {
                    let s = olds.adjacency@[ti]@;
                    assert forall|a: int, b: int|
                        0 <= a < b < s.push(sid).len() implies s.push(sid)[a] != s.push(sid)[b] by {
                        if b < s.len() {
                        } else {
                            assert(s.push(sid)[b] == sid);
                            assert(s[a] == s.push(sid)[a]);
                            assert(!s.contains(sid));
                            assert(s.contains(s[a]));
                        }
                    }
                }
            }
            assert forall|i: int, k: int|
                0 <= i < self.adjacency@.len() && 0 <= k < self.adjacency@[i]@.len()
                implies self.ids@.contains(#[trigger] self.adjacency@[i]@[k])
                && self.adjacency@[i]@[k] != self.ids@[i] by {
                if i == si {
                    if k < olds.adjacency@[si]@.len() {
                        assert(self.adjacency@[i]@[k] == olds.adjacency@[si]@[k]);
                    } else {
                        assert(self.adjacency@[i]@[k] == tid);
                        assert(olds.node_seq()[ti] == tid);
                    }
                } else if i == ti {
                    if k < olds.adjacency@[ti]@.len() {
                        assert(self.adjacency@[i]@[k] == olds.adjacency@[ti]@[k]);
                    } else {
                        assert(self.adjacency@[i]@[k] == sid);
                        assert(olds.node_seq()[si] == sid);
                    }
                }
            }
            assert forall|i: int, j: int|
                0 <= i < self.ids@.len() && 0 <= j < self.ids@.len() implies ((
            #[trigger] self.adjacency@[i])@.contains(self.ids@[j]) <==> (
            #[trigger] self.adjacency@[j])@.contains(self.ids@[i])) by {
                let rowi = self.adjacency@[i]@;
                let rowj = self.adjacency@[j]@;
                if i == si {
                    assert(rowi.contains(self.ids@[j]) <==> olds.adjacency@[si]@.contains(
                        olds.ids@[j]) || olds.ids@[j] == tid);
                } else if i == ti {
                    assert(rowi.contains(self.ids@[j]) <==> olds.adjacency@[ti]@.contains(
                        olds.ids@[j]) || olds.ids@[j] == sid);
                } else {
                    assert(rowi == olds.adjacency@[i]@);
                }
                if j == si {
                    assert(rowj.contains(self.ids@[i]) <==> olds.adjacency@[si]@.contains(
                        olds.ids@[i]) || olds.ids@[i] == tid);
                } else if j == ti {
                    assert(rowj.contains(self.ids@[i]) <==> olds.adjacency@[ti]@.contains(
                        olds.ids@[i]) || olds.ids@[i] == sid);
                } else {
                    assert(rowj == olds.adjacency@[j]@);
                }
                assert(olds.adjacency@[i]@.contains(olds.ids@[j]) <==> olds.adjacency@[j]@
                    .contains(olds.ids@[i]));
            }
            assert forall|k: int| 0 <= k < self.edges@.len() implies self.adjacent(
                (#[trigger] self.edges@[k]).0,
                self.edges@[k].1,
            ) by {
                if k < olds.edges@.len() {
                    assert(olds.adjacent(olds.edges@[k].0, olds.edges@[k].1));
                    let a = olds.edges@[k].0;
                    let b = olds.edges@[k].1;
                    let ia = choose|ia: int| 0 <= ia < n && olds.ids@[ia] == a;
                    olds.lemma_row(ia);
                    self.lemma_row_plain(ia);
                    if ia == si {
                        assert(self.adjacency@[ia]@.contains(b));
                    } else if ia == ti {
                        assert(self.adjacency@[ia]@.contains(b));
                    } else {
                        assert(self.adjacency@[ia]@ == olds.adjacency@[ia]@);
                    }
                    assert(self.node_seq()[ia] == a);
                    assert(self.neighbors_spec(a) == self.adjacency@[ia]@) by {
                        self.lemma_row_plain(ia);
                    }
                } else {
                    assert(self.edges@[k] == (sid, tid));
                    assert(self.adjacency@[si]@.contains(tid));
                    assert(self.node_seq()[si] == sid);
                    self.lemma_row_plain(si);
                }
            }
            assert forall|i: int, j: int|
                0 <= i < self.ids@.len() && 0 <= j < self.ids@.len() && (
            #[trigger] self.adjacency@[i])@.contains(#[trigger] self.ids@[j])
                implies self.edges@.contains((self.ids@[i], self.ids@[j])) || self.edges@.contains(
                (self.ids@[j], self.ids@[i])) by {
                let covered_old = olds.adjacency@[i]@.contains(olds.ids@[j]);
                if covered_old {
                    assert(olds.edges@.contains((olds.ids@[i], olds.ids@[j]))
                        || olds.edges@.contains((olds.ids@[j], olds.ids@[i])));
                } else {
                    if i == si && j == ti {
                        assert(self.edges@[self.edges@.len() - 1] == (sid, tid));
                        assert(self.edges@.contains((sid, tid)));
                    } else if i == ti && j == si {
                        assert(self.edges@.contains((sid, tid)));
                    } else if i == si {
                        assert(self.adjacency@[i]@.contains(self.ids@[j]));
                        assert(olds.ids@[j] == tid || olds.adjacency@[si]@.contains(olds.ids@[j]));
                        assert(j == ti);
                    } else if i == ti {
                        assert(olds.ids@[j] == sid || olds.adjacency@[ti]@.contains(olds.ids@[j]));
                        assert(j == si);
                    } else {
                        assert(self.adjacency@[i]@ == olds.adjacency@[i]@);
                    }
                }
            }
            assert forall|k: int, l: int|
                0 <= k < l < self.edges@.len() implies !same_undirected(
                #[trigger] self.edges@[k],
                #[trigger] self.edges@[l],
            ) by {
                if l == self.edges@.len() - 1 {
                    assert(self.edges@[l] == (sid, tid));
                    let e = olds.edges@[k];
                    assert(self.edges@[k] == e);
                    if same_undirected(e, (sid, tid)) {
                        assert(olds.adjacent(e.0, e.1));
                        olds.lemma_graph_facts();
                        assert(olds.adjacent(sid, tid));
                        assert(olds.neighbors_spec(sid) == olds.adjacency@[si]@);
                    }
                }
            }
        }
        self.lemma_row_plain(si);
        self.lemma_row_plain(ti);
        assert(self.neighbors_spec(sid) == olds.neighbors_spec(sid).push(tid));
        assert(self.neighbors_spec(tid) == olds.neighbors_spec(tid).push(sid));
        assert forall|v: usize|
            v != sid && v != tid implies #[trigger] self.neighbors_spec(v)
            == olds.neighbors_spec(v) by {
            if olds.contains_node(v) {
                let j = choose|j: int| 0 <= j < n && olds.ids@[j] == v;
                assert(j != si && j != ti);
                olds.lemma_row(j);
                self.lemma_row_plain(j);
                assert(self.adjacency@[j]@ == olds.adjacency@[j]@);
            } else {
                if self.contains_node(v) {
                    let j = choose|j: int| 0 <= j < self.ids@.len() && self.ids@[j] == v;
                    assert(olds.node_seq()[j] == v);
                }
            }
        }
    }

    /// Build a graph from a list of undirected edges, adding unseen
    /// endpoints as vertices on the way. Fails with `DuplicateEdge` exactly
    /// at the first entry that repeats an earlier edge (in either
    /// direction) or joins a vertex to itself.
    pub fn try_from_edges(list: Vec<(usize, usize)>) -> (r: Result<DefaultGraph, Error>)
        ensures
            match r {
                Ok(g) => {
                    &&& g.wf()
                    &&& forall|k: int|
                        0 <= k < list@.len() ==> g.adjacent(
                            (#[trigger] list@[k]).0,
                            list@[k].1,
                        )
                    &&& forall|a: usize, b: usize|
                        #[trigger] g.adjacent(a, b) ==> exists|l: int|
                            0 <= l < list@.len() && (list@[l] == (a, b) || list@[l] == (b, a))
                },
                Err(e) => exists|k: int|
                    0 <= k < list@.len() && e == Error::DuplicateEdge(
                        (#[trigger] list@[k]).0,
                        list@[k].1,
                    ) && (list@[k].0 == list@[k].1 || exists|l: int|
                        0 <= l < k && same_undirected(list@[l], list@[k])),
            },
    {
        let mut g = DefaultGraph::new();
        let mut k: usize = 0;
        while k < list.len()
            invariant
                k <= list@.len(),
                g.wf(),
                forall|l: int|
                    0 <= l < k ==> g.adjacent((#[trigger] list@[l]).0, list@[l].1),
                forall|a: usize, b: usize|
                    #[trigger] g.adjacent(a, b) ==> exists|l: int|
                        0 <= l < k && (list@[l] == (a, b) || list@[l] == (b, a)),
            decreases list@.len() - k,
        {
            let (sid, tid) = list[k];
            let ghost g0 = g;
            if !g.has_id(sid) {
                match g.add_node(sid) {
                    Ok(()) => (),
                    Err(_) => vstd::pervasive::unreached(),
                }
                proof {
                    lemma_same_adjacency(g0, g, sid);
                }
            }
            let ghost g1 = g;
            if !g.has_id(tid) {
                match g.add_node(tid) {
                    Ok(()) => (),
                    Err(_) => vstd::pervasive::unreached(),
                }
                proof {
                    lemma_same_adjacency(g1, g, tid);
                }
            }
            let ghost g2 = g;
            match g.add_edge(sid, tid) {
                Ok(()) => {
                    proof {
                        lemma_push_contains(g2.neighbors_spec(sid), tid);
                        lemma_push_contains(g2.neighbors_spec(tid), sid);
                        assert(g.adjacent(sid, tid));
                        assert forall|a: usize, b: usize|
                            #[trigger] g.adjacent(a, b) implies exists|l: int|
                            0 <= l < k + 1 && (list@[l] == (a, b) || list@[l] == (b, a)) by {
                            if a == sid && b == tid {
                                assert(list@[k as int] == (a, b));
                            } else if a == tid && b == sid {
                                assert(list@[k as int] == (b, a));
                            } else {
                                assert(g.neighbors_spec(a).contains(b));
                                if a != sid && a != tid {
                                    assert(g.neighbors_spec(a) == g2.neighbors_spec(a));
                                    assert(g2.adjacent(a, b));
                                } else {
                                    assert(g2.adjacent(a, b));
                                }
                                let l = choose|l: int|
                                    0 <= l < k && (list@[l] == (a, b) || list@[l] == (b, a));
                                assert(0 <= l < k + 1);
                            }
                        }
                        assert forall|l: int|
                            0 <= l < k + 1 implies g.adjacent(
                            (#[trigger] list@[l]).0,
                            list@[l].1,
                        ) by {
                            if l < k {
                                assert(g2.adjacent(list@[l].0, list@[l].1));
                                let a = list@[l].0;
                                if a != sid && a != tid {
                                    assert(g.neighbors_spec(a) == g2.neighbors_spec(a));
                                }
                            }
                        }
                    }
                },
                Err(e) => {
                    proof {
                        assert(g2.contains_node(sid) && g2.contains_node(tid));
                        assert(e == Error::DuplicateEdge(sid, tid));
                        if sid != tid {
                            assert(g2.adjacent(sid, tid));
                            let l = choose|l: int|
                                0 <= l < k && (list@[l] == (sid, tid) || list@[l] == (tid, sid));
                            assert(same_undirected(list@[l], list@[k as int]));
                        }
                        assert(list@[k as int] == (sid, tid));
                    }
                    return Err(e);
                },
            }
            k = k + 1;
        }
        Ok(g)
    }

    /// Build a graph from an adjacency list: entry `i` lists all neighbors
    /// of vertex `i`, in order. Every neighbor must be in bounds
    /// (`UnknownId`), not repeat an earlier entry of its row and not name
    /// its own vertex (`DuplicateEdge`), and be mirrored by a back edge
    /// (`MissingEdge`). The rows are kept verbatim as the neighbor lists.
    pub fn try_from_adjacency(entries: Vec<Vec<usize>>) -> (r: Result<DefaultGraph, Error>)
        ensures
            ({
                let rows = entries@.map_values(|v: Vec<usize>| v@);
                match r {
                    Ok(g) => {
                        &&& valid_adjacency(rows)
                        &&& g.wf()
                        &&& g.node_seq().len() == rows.len()
                        &&& forall|i: int| 0 <= i < rows.len() ==> #[trigger] g.node_seq()[i] == i
                        &&& forall|i: int|
                            0 <= i < rows.len() ==> #[trigger] g.neighbors_spec(i as usize)
                                == rows[i]
                    },
                    Err(e) => {
                        &&& !valid_adjacency(rows)
                        &&& exists|i: int, k: int|
                            0 <= i < rows.len() && 0 <= k < rows[i].len() && !(
                            #[trigger] adjacency_entry_ok(rows, i, k)) && (e == Error::UnknownId(
                                rows[i][k],
                            ) || e == Error::DuplicateEdge(i as usize, rows[i][k]) || e
                                == Error::MissingEdge(rows[i][k], i as usize))
                    },
                }
            }),
    {
        let ghost rows = entries@.map_values(|v: Vec<usize>| v@);
        let n = entries.len();
        // validation pass
        let mut i: usize = 0;
        while i < n
            invariant
                n == entries@.len(),
                rows == entries@.map_values(|v: Vec<usize>| v@),
                i <= n,
                forall|i2: int, k2: int|
                    0 <= i2 < i && 0 <= k2 < rows[i2].len() ==> #[trigger] adjacency_entry_ok(
                        rows,
                        i2,
                        k2,
                    ),
            decreases n - i,
        {
            let row_len = entries[i].len();
            let mut k: usize = 0;
            while k < row_len
                invariant
                    n == entries@.len(),
                    rows == entries@.map_values(|v: Vec<usize>| v@),
                    i < n,
                    row_len == rows[i as int].len(),
                    k <= row_len,
                    forall|i2: int, k2: int|
                        0 <= i2 < i && 0 <= k2 < rows[i2].len() ==> #[trigger] adjacency_entry_ok(
                            rows,
                            i2,
                            k2,
                        ),
                    forall|k2: int|
                        0 <= k2 < k ==> #[trigger] adjacency_entry_ok(rows, i as int, k2),
                decreases row_len - k,
            {
                let tid = entries[i][k];
                proof {
                    assert(rows[i as int][k as int] == tid);
                }
                if tid >= n {
                    proof {
                        assert(!adjacency_entry_ok(rows, i as int, k as int));
                    }
                    return Err(Error::UnknownId(tid));
                }
                if tid == i {
                    proof {
                        assert(!adjacency_entry_ok(rows, i as int, k as int));
                    }
                    return Err(Error::DuplicateEdge(i, tid));
                }
                if contains_from(&entries[i], k + 1, tid) {
                    proof {
                        let j = choose|j: int|
                            k + 1 <= j < rows[i as int].len() && rows[i as int][j] == tid;
                        assert(j != k && rows[i as int][j] == rows[i as int][k as int]);
                        assert(!adjacency_entry_ok(rows, i as int, k as int));
                    }
                    return Err(Error::DuplicateEdge(i, tid));
                }
                proof {
                    assert forall|k2: int|
                        0 <= k2 < rows[i as int].len() && k2 != k implies rows[i as int][k2]
                        != tid by {
                        if k2 < k {
                            assert(adjacency_entry_ok(rows, i as int, k2));
                            assert(rows[i as int][k as int] != rows[i as int][k2]);
                        }
                    }
                }
                if !contains_val(&entries[tid], i) {
                    proof {
                        assert(rows[tid as int] == entries@[tid as int]@);
                        assert(!adjacency_entry_ok(rows, i as int, k as int));
                    }
                    return Err(Error::MissingEdge(tid, i));
                }
                proof {
                    assert(rows[tid as int].contains(i));
                    assert(adjacency_entry_ok(rows, i as int, k as int));
                }
                k = k + 1;
            }
            i = i + 1;
        }
        proof {
            assert(valid_adjacency(rows));
        }
        // construction pass: vertices 0 .. n and the canonical edge list
        let mut ids: Vec<usize> = Vec::new();
        let mut edges: Vec<(usize, usize)> = Vec::new();
        let mut s: usize = 0;
        while s < n
            invariant
                n == entries@.len(),
                rows == entries@.map_values(|v: Vec<usize>| v@),
                valid_adjacency(rows),
                s <= n,
                ids@.len() == s,
                forall|j: int| 0 <= j < s ==> #[trigger] ids@[j] == j,
                forall|m: int|
                    0 <= m < edges@.len() ==> ((#[trigger] edges@[m]).0 < edges@[m].1
                        && edges@[m].1 < n && edges@[m].0 < s && rows[edges@[m].0 as int].contains(
                        edges@[m].1,
                    )),
                forall|s2: usize, t: usize|
                    s2 < s && #[trigger] rows[s2 as int].contains(t) && s2 < t ==> edges@.contains(
                        (s2, t),
                    ),
                forall|m1: int, m2: int| 0 <= m1 < m2 < edges@.len() ==> edges@[m1] != edges@[m2],
            decreases n - s,
        {
            ids.push(s);
            let row_len = entries[s].len();
            let mut k: usize = 0;
            while k < row_len
                invariant
                    n == entries@.len(),
                    rows == entries@.map_values(|v: Vec<usize>| v@),
                    valid_adjacency(rows),
                    s < n,
                    row_len == rows[s as int].len(),
                    k <= row_len,
                    forall|m: int|
                        0 <= m < edges@.len() ==> ((#[trigger] edges@[m]).0 < edges@[m].1
                            && edges@[m].1 < n && edges@[m].0 <= s && rows[edges@[
                            m].0 as int].contains(edges@[m].1)),
                    forall|s2: usize, t: usize|
                        s2 < s && #[trigger] rows[s2 as int].contains(t) && s2 < t
                            ==> edges@.contains((s2, t)),
                    forall|t: usize|
                        #[trigger] edges@.contains((s, t)) ==> exists|k2: int|
                            0 <= k2 < k && rows[s as int][k2] == t,
                    forall|k2: int|
                        0 <= k2 < k && s < rows[s as int][k2] ==> edges@.contains(
                            (s, #[trigger] rows[s as int][k2]),
                        ),
                    forall|m1: int, m2: int|
                        0 <= m1 < m2 < edges@.len() ==> edges@[m1] != edges@[m2],
                decreases row_len - k,
            {
                let tid = entries[s][k];
                proof {
                    assert(rows[s as int][k as int] == tid);
                    assert(adjacency_entry_ok(rows, s as int, k as int));
                }
                if s < tid {
                    let ghost e0 = edges@;
                    proof {
                        if e0.contains((s, tid)) {
                            let k2 = choose|k2: int|
                                0 <= k2 < k && rows[s as int][k2] == tid;
                            assert(rows[s as int][k2] != rows[s as int][k as int]);
                        }
                    }
                    edges.push((s, tid));
                    proof {
                        lemma_push_contains(e0, (s, tid));
                        assert(edges@[edges@.len() - 1] == (s, tid));
                        assert forall|t: usize|
                            #[trigger] edges@.contains((s, t)) implies exists|k2: int|
                            0 <= k2 < k + 1 && rows[s as int][k2] == t by {
                            if e0.contains((s, t)) {
                                let k2 = choose|k2: int|
                                    0 <= k2 < k && rows[s as int][k2] == t;
                                assert(0 <= k2 < k + 1 && rows[s as int][k2] == t);
                            } else {
                                assert(t == tid);
                                assert(rows[s as int][k as int] == t);
                            }
                        }
                        assert forall|k2: int|
                            0 <= k2 < k + 1 && s < rows[s as int][k2] implies edges@.contains(
                            (s, #[trigger] rows[s as int][k2]),
                        ) by {
                            if k2 < k {
                                assert(e0.contains((s, rows[s as int][k2])));
                            }
                        }
                        assert forall|s2: usize, t: usize|
                            s2 < s && #[trigger] rows[s2 as int].contains(t) && s2 < t
                            implies edges@.contains((s2, t)) by {
                            assert(e0.contains((s2, t)));
                        }
                    }
                } else {
                    proof {
                        assert forall|k2: int|
                            0 <= k2 < k + 1 && s < rows[s as int][k2] implies edges@.contains(
                            (s, #[trigger] rows[s as int][k2]),
                        ) by {}
                    }
                }
                k = k + 1;
            }
            proof {
                assert forall|s2: usize, t: usize|
                    s2 < s + 1 && #[trigger] rows[s2 as int].contains(t) && s2 < t
                    implies edges@.contains((s2, t)) by {
                    if s2 == s {
                        let k2 = choose|k2: int|
                            0 <= k2 < rows[s as int].len() && rows[s as int][k2] == t;
                        assert(edges@.contains((s, rows[s as int][k2])));
                    }
                }
            }
            s = s + 1;
        }
        let g = DefaultGraph { ids, adjacency: entries, edges };
        proof {
            lemma_adjacency_graph_wf(&g, rows);
        }
        Ok(g)
    }

    /// Build a graph from a depth-first traversal: the first step's source
    /// seeds the vertex set, every non-cut step adds its target, and every
    /// step adds its edge. A traversal that repeats an edge or names an
    /// unseen vertex surfaces the underlying build error.
    pub fn try_from_traversal(traversal: crate::traversal::depth_first::DepthFirst) -> (r: Result<
        DefaultGraph,
        Error,
    >)
        requires
            traversal.wf(),
        ensures
            match r {
                Ok(g) => {
                    &&& g.wf()
                    &&& forall|a: usize, b: usize|
                        #[trigger] g.adjacent(a, b) ==> traversal.graph_spec().adjacent(a, b)
                    &&& forall|v: usize|
                        #[trigger] g.contains_node(v) ==> traversal.graph_spec().contains_node(v)
                },
                Err(_) => true,
            },
    {
        let ghost host = traversal.graph_spec();
        let mut t = traversal;
        let mut result = DefaultGraph::new();
        proof {
            t.lemma_graph_wf();
            t.lemma_visited_bound();
            host.lemma_graph_facts();
            result.lemma_absent_neighbors();
        }
        loop
            invariant
                t.wf(),
                t.graph_spec() == host,
                host.wf(),
                t.visited_count() <= host.node_seq().len(),
                result.wf(),
                forall|a: usize, b: usize|
                    #[trigger] result.adjacent(a, b) ==> host.adjacent(a, b),
                forall|v: usize| #[trigger] result.contains_node(v) ==> host.contains_node(v),
            ensures
                result.wf(),
                forall|a: usize, b: usize|
                    #[trigger] result.adjacent(a, b) ==> host.adjacent(a, b),
                forall|v: usize| #[trigger] result.contains_node(v) ==> host.contains_node(v),
            decreases host.node_seq().len() - t.visited_count(), t.stack_len(),
        {
            let step = match t.next() {
                Some(s) => s,
                None => {
                    break ;
                },
            };
            proof {
                t.lemma_visited_bound();
                host.lemma_graph_facts();
            }
            let ghost r0 = result;
            if result.is_empty() {
                match result.add_node(step.sid) {
                    Ok(()) => (),
                    Err(e) => {
                        return Err(e);
                    },
                }
                proof {
                    lemma_same_adjacency(r0, result, step.sid);
                    lemma_push_contains(r0.node_seq(), step.sid);
                }
            }
            let ghost r1 = result;
            if !step.cut {
                match result.add_node(step.tid) {
                    Ok(()) => (),
                    Err(e) => {
                        return Err(e);
                    },
                }
                proof {
                    lemma_same_adjacency(r1, result, step.tid);
                    lemma_push_contains(r1.node_seq(), step.tid);
                }
            }
            let ghost r2 = result;
            match result.add_edge(step.sid, step.tid) {
                Ok(()) => (),
                Err(e) => {
                    return Err(e);
                },
            }
            proof {
                lemma_add_edge_adjacent(r2, result, step.sid, step.tid);
                assert(result.node_seq() == r2.node_seq());
                assert forall|v: usize|
                    #[trigger] result.contains_node(v) implies host.contains_node(v) by {
                    assert(result.contains_node(v) == r2.contains_node(v));
                }
            }
        }
        Ok(result)
    }

    /// Like `lemma_row`, but from the structural facts alone (used while
    /// well-formedness of the new value is still being established).
    proof fn lemma_row_plain(&self, i: int)
        requires
            self.ids@.no_duplicates(),
            self.adjacency@.len() == self.ids@.len(),
            0 <= i < self.ids@.len(),
        ensures
            self.contains_node(self.ids@[i]),
            self.neighbors_spec(self.ids@[i]) == self.adjacency@[i]@,
    {
        let v = self.ids@[i];
        assert(self.node_seq()[i] == v);
        let j = choose|j: int| 0 <= j < self.ids@.len() && self.ids@[j] == v;
        assert(j == i);
    }

    /// Helper: a vertex keeps its row when rows at its index are unchanged.
    proof fn lemma_unchanged_neighbors(&self, other: &DefaultGraph, v: usize)
        requires
            self.contains_node(v),
            self.ids@.no_duplicates(),
            other.ids@.no_duplicates(),
            self.adjacency@.len() == self.ids@.len(),
            other.adjacency@.len() == other.ids@.len(),
            self.ids@.len() <= other.ids@.len(),
            forall|j: int| 0 <= j < self.ids@.len() ==> self.ids@[j] == other.ids@[j],
            forall|j: int|
                0 <= j < self.ids@.len() ==> (#[trigger] other.adjacency@[j])@
                    == self.adjacency@[j]@,
        ensures
            other.contains_node(v),
            other.neighbors_spec(v) == self.neighbors_spec(v),
    {
        let i = choose|i: int| 0 <= i < self.ids@.len() && self.ids@[i] == v;
        assert(other.ids@[i] == v);
        assert(other.node_seq()[i] == v);
        let js = choose|j: int| 0 <= j < self.ids@.len() && self.ids@[j] == v;
        let jo = choose|j: int| 0 <= j < other.ids@.len() && other.ids@[j] == v;
        assert(self.node_seq()[js] == v);
        assert(jo < self.ids@.len() || other.ids@[jo] != other.ids@[i]) by {}
        assert(jo == i && js == i);
    }

    /// Helper: adjacency at `a` carries over when the rows carry over.
    proof fn lemma_unchanged_adjacent(&self, other: &DefaultGraph, a: usize)
        requires
            self.ids@.no_duplicates(),
            other.ids@.no_duplicates(),
            self.adjacency@.len() == self.ids@.len(),
            other.adjacency@.len() == other.ids@.len(),
            self.ids@.len() <= other.ids@.len(),
            forall|j: int| 0 <= j < self.ids@.len() ==> self.ids@[j] == other.ids@[j],
            forall|j: int|
                0 <= j < self.ids@.len() ==> (#[trigger] other.adjacency@[j])@
                    == self.adjacency@[j]@,
        ensures
            forall|b: usize| self.adjacent(a, b) ==> #[trigger] other.adjacent(a, b),
    {
        assert forall|b: usize| self.adjacent(a, b) implies #[trigger] other.adjacent(a, b) by {
            self.lemma_unchanged_neighbors(other, a);
        }
    }
}

/// A copy of a vector of edges.
fn copy_edge_vec(v: &Vec<(usize, usize)>) -> (r: Vec<(usize, usize)>)
    ensures
        r@ == v@,
{
    let mut r: Vec<(usize, usize)> = Vec::new();
    let mut i: usize = 0;
    while i < v.len()
        invariant
            i <= v@.len(),
            r@ == v@.subrange(0, i as int),
        decreases v@.len() - i,
    {
        r.push(v[i]);
        proof {
            assert(r@ =~= v@.subrange(0, i + 1));
        }
        i = i + 1;
    }
    proof {
        assert(r@ =~= v@);
    }
    r
}

/// The graph assembled from a validated adjacency list is well-formed, its
/// vertices are `0 .. rows.len()` in order, and its neighbor lists are the
/// rows themselves.
proof fn lemma_adjacency_graph_wf(g: &DefaultGraph, rows: Seq<Seq<usize>>)
    requires
        rows == g.adjacency@.map_values(|v: Vec<usize>| v@),
        valid_adjacency(rows),
        g.ids@.len() == rows.len(),
        forall|j: int| 0 <= j < g.ids@.len() ==> #[trigger] g.ids@[j] == j,
        forall|m: int|
            0 <= m < g.edges@.len() ==> ((#[trigger] g.edges@[m]).0 < g.edges@[m].1
                && g.edges@[m].1 < rows.len() && g.edges@[m].0 < rows.len() && rows[g.edges@[
            m].0 as int].contains(g.edges@[m].1)),
        forall|s2: usize, t: usize|
            s2 < rows.len() && #[trigger] rows[s2 as int].contains(t) && s2 < t
                ==> g.edges@.contains((s2, t)),
        forall|m1: int, m2: int| 0 <= m1 < m2 < g.edges@.len() ==> g.edges@[m1] != g.edges@[m2],
    ensures
        g.wf(),
        g.node_seq().len() == rows.len(),
        forall|i: int| 0 <= i < rows.len() ==> #[trigger] g.node_seq()[i] == i,
        forall|i: int| 0 <= i < rows.len() ==> #[trigger] g.neighbors_spec(i as usize) == rows[i],
{
    let n = rows.len() as int;
    assert forall|i: int| 0 <= i < n implies (#[trigger] g.adjacency@[i])@ == rows[i] by {}
    assert(g.ids@.no_duplicates());
    assert forall|v: usize| #[trigger] g.contains_node(v) implies v < n by {
        let j = choose|j: int| 0 <= j < g.ids@.len() && g.ids@[j] == v;
    }
    assert forall|v: usize| v < n implies #[trigger] g.contains_node(v) by {
        assert(g.node_seq()[v as int] == v);
    }
    // each row is duplicate-free, in bounds, and loop-free
    assert forall|i: int| 0 <= i < n implies (#[trigger] g.adjacency@[i])@.no_duplicates() by {
        assert forall|k1: int, k2: int|
            0 <= k1 < k2 < rows[i].len() implies rows[i][k1] != rows[i][k2] by {
            assert(adjacency_entry_ok(rows, i, k2));
        }
    }
    assert forall|i: int, k: int|
        0 <= i < n && 0 <= k < g.adjacency@[i]@.len() implies g.ids@.contains(
        #[trigger] g.adjacency@[i]@[k],
    ) && g.adjacency@[i]@[k] != g.ids@[i] by {
        assert(adjacency_entry_ok(rows, i, k));
        assert(g.contains_node(rows[i][k]));
    }
    // symmetry of the rows
    assert forall|i: int, j: int|
        0 <= i < n && 0 <= j < n && (#[trigger] g.adjacency@[i])@.contains(g.ids@[j]) implies (
    #[trigger] g.adjacency@[j])@.contains(g.ids@[i]) by {
        let k = choose|k: int| 0 <= k < rows[i].len() && rows[i][k] == g.ids@[j];
        assert(adjacency_entry_ok(rows, i, k));
        assert(rows[rows[i][k] as int].contains(i as usize));
        assert(rows[i][k] == j);
    }
    // row lookups go through the identity id list
    assert forall|i: int| 0 <= i < n implies #[trigger] g.neighbors_spec(i as usize) == rows[i] by {
        g.lemma_row_plain(i);
        assert(g.ids@[i] == i);
    }
    // edge list entries are adjacencies
    assert forall|m: int| 0 <= m < g.edges@.len() implies g.adjacent(
        (#[trigger] g.edges@[m]).0,
        g.edges@[m].1,
    ) by {
        let s2 = g.edges@[m].0;
        assert(g.neighbors_spec(s2) == rows[s2 as int]);
    }
    // every adjacency is covered by the edge list
    assert forall|i: int, j: int|
        0 <= i < n && 0 <= j < n && (#[trigger] g.adjacency@[i])@.contains(#[trigger] g.ids@[j])
        implies g.edges@.contains((g.ids@[i], g.ids@[j])) || g.edges@.contains(
        (g.ids@[j], g.ids@[i]),
    ) by {
        assert(rows[i].contains(j as usize));
        if i < j {
            assert(g.edges@.contains(((i as usize), (j as usize))));
        } else if j < i {
            assert(g.adjacency@[j]@.contains(g.ids@[i]));
            assert(rows[j].contains(i as usize));
            assert(g.edges@.contains(((j as usize), (i as usize))));
        } else {
            let k = choose|k: int| 0 <= k < rows[i].len() && rows[i][k] == g.ids@[j];
            assert(adjacency_entry_ok(rows, i, k));
        }
    }
    // no undirected edge is listed twice
    assert forall|m1: int, m2: int| 0 <= m1 < m2 < g.edges@.len() implies !same_undirected(
        #[trigger] g.edges@[m1],
        #[trigger] g.edges@[m2],
    ) by {}
}

/// Adding one undirected edge extends the adjacency relation by exactly
/// that edge, in both directions.
pub proof fn lemma_add_edge_adjacent(g0: DefaultGraph, g1: DefaultGraph, x: usize, y: usize)
    requires
        g0.contains_node(x),
        g0.contains_node(y),
        g1.node_seq() == g0.node_seq(),
        g1.neighbors_spec(x) == g0.neighbors_spec(x).push(y),
        g1.neighbors_spec(y) == g0.neighbors_spec(y).push(x),
        forall|v: usize|
            v != x && v != y ==> #[trigger] g1.neighbors_spec(v) == g0.neighbors_spec(v),
    ensures
        forall|a: usize, b: usize|
            #[trigger] g1.adjacent(a, b) <==> (g0.adjacent(a, b) || (a == x && b == y) || (a == y
                && b == x)),
{
    lemma_push_contains(g0.neighbors_spec(x), y);
    lemma_push_contains(g0.neighbors_spec(y), x);
    assert forall|a: usize, b: usize|
        #[trigger] g1.adjacent(a, b) <==> (g0.adjacent(a, b) || (a == x && b == y) || (a == y && b
            == x)) by {
        if a == x {
            assert(g1.neighbors_spec(a) == g0.neighbors_spec(x).push(y));
        } else if a == y {
            assert(g1.neighbors_spec(a) == g0.neighbors_spec(y).push(x));
        } else {
            assert(g1.neighbors_spec(a) == g0.neighbors_spec(a));
        }
    }
}

/// Adding an isolated vertex leaves the adjacency relation unchanged.
pub proof fn lemma_same_adjacency(g0: DefaultGraph, g1: DefaultGraph, id: usize)
    requires
        !g0.contains_node(id),
        g1.node_seq() == g0.node_seq().push(id),
        g1.neighbors_spec(id) == Seq::<usize>::empty(),
        forall|v: usize|
            g0.contains_node(v) ==> #[trigger] g1.neighbors_spec(v) == g0.neighbors_spec(v),
    ensures
        forall|a: usize, b: usize| #[trigger] g1.adjacent(a, b) <==> g0.adjacent(a, b),
        forall|v: usize| #[trigger] g1.contains_node(v) <==> g0.contains_node(v) || v == id,
{
    lemma_push_contains(g0.node_seq(), id);
    assert forall|a: usize, b: usize| #[trigger] g1.adjacent(a, b) <==> g0.adjacent(a, b) by {
        if g1.adjacent(a, b) {
            assert(g1.contains_node(a));
            if a == id {
                assert(g1.neighbors_spec(a).len() == 0);
            } else {
                assert(g0.contains_node(a));
                assert(g1.neighbors_spec(a) == g0.neighbors_spec(a));
            }
        }
        if g0.adjacent(a, b) {
            assert(g1.contains_node(a));
            assert(g1.neighbors_spec(a) == g0.neighbors_spec(a));
        }
    }
}

/// Whether a vector of ids holds `x` at or after position `start`.
fn contains_from(v: &Vec<usize>, start: usize, x: usize) -> (r: bool)
    ensures
        r == exists|j: int| start <= j < v@.len() && v@[j] == x,
{
    let mut i: usize = start;
    while i < v.len()
        invariant
            start <= i,
            forall|j: int| start <= j < i ==> v@[j] != x,
        decreases v@.len() - i,
    {
        if v[i] == x {
            proof {
                assert(start <= i < v@.len() && v@[i as int] == x);
            }
            return true;
        }
        i = i + 1;
    }
    false
}

/// Whether a vector of ids holds `x`.
pub(crate) fn contains_val(v: &Vec<usize>, x: usize) -> (r: bool)
    ensures
        r == v@.contains(x),
{
    let mut i: usize = 0;
    while i < v.len()
        invariant
            i <= v@.len(),
            forall|j: int| 0 <= j < i ==> v@[j] != x,
        decreases v@.len() - i,
    {
        if v[i] == x {
            return true;
        }
        i = i + 1;
    }
    false
}

/// The position of the first occurrence of `id`, or `-1` if there is none.
pub open spec fn first_idx(s: Seq<usize>, id: usize) -> int
    decreases s.len(),
{
    if s.len() == 0 {
        -1
    } else if s[0] == id {
        0
    } else {
        let r = first_idx(s.drop_first(), id);
        if r < 0 {
            -1
        } else {
            r + 1
        }
    }
}

/// A first occurrence at `j` fixes `first_idx`.
pub proof fn lemma_first_idx_at(s: Seq<usize>, id: usize, j: int)
    requires
        0 <= j < s.len(),
        s[j] == id,
        forall|l: int| 0 <= l < j ==> s[l] != id,
    ensures
        first_idx(s, id) == j,
    decreases s.len(),
{
    if j == 0 {
    } else {
        assert(s[0] != id);
        assert(s.drop_first()[j - 1] == s[j]);
        assert forall|l: int| 0 <= l < j - 1 implies s.drop_first()[l] != id by {
            assert(s.drop_first()[l] == s[l + 1]);
        }
        lemma_first_idx_at(s.drop_first(), id, j - 1);
    }
}

/// No occurrence means no first position.
proof fn lemma_first_idx_none(s: Seq<usize>, id: usize)
    requires
        forall|l: int| 0 <= l < s.len() ==> s[l] != id,
    ensures
        first_idx(s, id) == -1,
    decreases s.len(),
{
    if s.len() > 0 {
        assert(s[0] != id);
        assert forall|l: int| 0 <= l < s.drop_first().len() implies s.drop_first()[l] != id by {
            assert(s.drop_first()[l] == s[l + 1]);
        }
        lemma_first_idx_none(s.drop_first(), id);
    }
}

impl DefaultGraph {
    /// The neighbor row stored at the first position of `id`, exactly as
    /// the lookups read it; empty when `id` is absent or its row is out of
    /// range.
    pub closed spec fn first_row(&self, id: usize) -> Seq<usize> {
        let j = first_idx(self.ids@, id);
        if 0 <= j < self.adjacency@.len() {
            self.adjacency@[j]@
        } else {
            Seq::empty()
        }
    }
}

impl PartialEq for DefaultGraph {
    /// Semantic equality: the same vertex count and edge count, every
    /// vertex of the left graph a vertex of the right one, and every edge
    /// of the left graph an edge of the right one — regardless of order
    /// or edge direction.
    fn eq(&self, other: &Self) -> (r: bool) {
        if self.size() != other.size() {
            return false;
        }
        if self.order() != other.order() {
            return false;
        }
        let mut k: usize = 0;
        while k < self.ids.len()
            invariant
                k <= self.ids@.len(),
                forall|l: int| 0 <= l < k ==> other.ids@.contains(#[trigger] self.ids@[l]),
            decreases self.ids@.len() - k,
        {
            match other.find_index(self.ids[k]) {
                Some(j) => {
                    proof {
                        assert(other.node_seq()[j as int] == self.ids@[k as int]);
                    }
                },
                None => {
                    return false;
                },
            }
            k = k + 1;
        }
        let mut m: usize = 0;
        while m < self.edges.len()
            invariant
                m <= self.edges@.len(),
                forall|l: int|
                    0 <= l < m ==> {
                        let e = #[trigger] self.edges@[l];
                        other.ids@.contains(e.0) && other.ids@.contains(e.1)
                            && other.first_row(e.0).contains(e.1)
                    },
            decreases self.edges@.len() - m,
        {
            let (sid, tid) = self.edges[m];
            let j = match other.find_index(sid) {
                Some(j) => {
                    proof {
                        lemma_first_idx_at(other.ids@, sid, j as int);
                        assert(other.node_seq()[j as int] == sid);
                    }
                    j
                },
                None => {
                    proof {
                        lemma_first_idx_none(other.ids@, sid);
                        if other.ids@.contains(sid) {
                            let l = choose|l: int|
                                0 <= l < other.ids@.len() && other.ids@[l] == sid;
                        }
                    }
                    return false;
                },
            };
            match other.find_index(tid) {
                Some(j2) => {
                    proof {
                        assert(other.node_seq()[j2 as int] == tid);
                    }
                },
                None => {
                    proof {
                        if other.ids@.contains(tid) {
                            let l = choose|l: int|
                                0 <= l < other.ids@.len() && other.ids@[l] == tid;
                        }
                    }
                    return false;
                },
            }
            if j >= other.adjacency.len() {
                proof {
                    assert(other.first_row(sid) =~= Seq::<usize>::empty());
                }
                return false;
            }
            if !contains_val(&other.adjacency[j], tid) {
                proof {
                    assert(other.first_row(sid) == other.adjacency@[j as int]@);
                }
                return false;
            }
            proof {
                assert(other.first_row(sid) == other.adjacency@[j as int]@);
            }
            m = m + 1;
        }
        true
    }
}

impl vstd::std_specs::cmp::PartialEqSpecImpl for DefaultGraph {
    closed spec fn obeys_eq_spec() -> bool {
        true
    }

    closed spec fn eq_spec(&self, other: &Self) -> bool {
        &&& self.edges@.len() == other.edges@.len()
        &&& self.ids@.len() == other.ids@.len()
        &&& forall|l: int| 0 <= l < self.ids@.len() ==> other.ids@.contains(#[trigger] self.ids@[l])
        &&& forall|l: int|
            0 <= l < self.edges@.len() ==> {
                let e = #[trigger] self.edges@[l];
                other.ids@.contains(e.0) && other.ids@.contains(e.1) && other.first_row(
                    e.0,
                ).contains(e.1)
            }
    }
}

impl crate::graph::graph::Graph for DefaultGraph {
    open spec fn wf(&self) -> bool {
        DefaultGraph::wf(self)
    }

    open spec fn node_seq(&self) -> Seq<usize> {
        DefaultGraph::node_seq(self)
    }

    open spec fn neighbors_spec(&self, id: usize) -> Seq<usize> {
        DefaultGraph::neighbors_spec(self, id)
    }

    open spec fn edge_seq(&self) -> Seq<(usize, usize)> {
        DefaultGraph::edge_seq(self)
    }

    fn is_empty(&self) -> (r: bool) {
        DefaultGraph::is_empty(self)
    }

    fn order(&self) -> (r: usize) {
        DefaultGraph::order(self)
    }

    fn size(&self) -> (r: usize) {
        DefaultGraph::size(self)
    }

    fn ids(&self) -> (r: Vec<usize>) {
        DefaultGraph::ids(self)
    }

    fn has_id(&self, id: usize) -> (r: bool) {
        DefaultGraph::has_id(self, id)
    }

    fn neighbors(&self, id: usize) -> (r: Result<Vec<usize>, Error>) {
        DefaultGraph::neighbors(self, id)
    }

    fn degree(&self, id: usize) -> (r: Result<usize, Error>) {
        DefaultGraph::degree(self, id)
    }

    fn edges(&self) -> (r: Vec<(usize, usize)>) {
        DefaultGraph::edges(self)
    }

    fn has_edge(&self, sid: usize, tid: usize) -> (r: Result<bool, Error>) {
        DefaultGraph::has_edge(self, sid, tid)
    }
}

} // verus!
