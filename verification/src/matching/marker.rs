use vstd::prelude::*;

verus! {

/// Scratch state for one augmenting-path search: a set of visited vertices
/// and a set of examined undirected edges. Edges are stored in both
/// directions, so membership is direction-blind.
pub struct Marker {
    nodes: Vec<usize>,
    edges: Vec<(usize, usize)>,
}

impl Marker {
    /// Whether `id` has been marked as a vertex.
    pub closed spec fn node_marked(&self, id: usize) -> bool {
        self.nodes@.contains(id)
    }

    /// Whether the undirected edge `(sid, tid)` has been marked.
    pub closed spec fn edge_marked(&self, sid: usize, tid: usize) -> bool {
        self.edges@.contains((sid, tid))
    }

    /// How many vertices are marked (each at most once).
    pub closed spec fn node_count(&self) -> nat {
        self.nodes@.len()
    }

    pub closed spec fn wf(&self) -> bool {
        &&& self.nodes@.no_duplicates()
        &&& forall|a: usize, b: usize|
            #[trigger] self.edges@.contains((a, b)) ==> a != b && self.edges@.contains((b, a))
    }

    /// A marker with nothing marked.
    pub fn new() -> (r: Self)
        ensures
            r.wf(),
            r.node_count() == 0,
            forall|v: usize| !(#[trigger] r.node_marked(v)),
            forall|a: usize, b: usize| !(#[trigger] r.edge_marked(a, b)),
    {
        Self { nodes: Vec::new(), edges: Vec::new() }
    }

    /// Mark a vertex; marking one that is already marked is a no-op.
    pub fn mark_node(&mut self, id: usize)
        requires
            old(self).wf(),
        ensures
            final(self).wf(),
            old(self).node_marked(id) ==> *final(self) == *old(self),
            !old(self).node_marked(id) ==> final(self).node_count() == old(self).node_count() + 1,
            forall|v: usize|
                #[trigger] final(self).node_marked(v) == (old(self).node_marked(v) || v == id),
            forall|a: usize, b: usize|
                #[trigger] final(self).edge_marked(a, b) == old(self).edge_marked(a, b),
    {
        if self.has_node(id) {
            return ;
        }
        let ghost n0 = self.nodes@;
        self.nodes.push(id);
        proof {
            assert forall|v: usize| #[trigger]
                self.nodes@.contains(v) == (n0.contains(v) || v == id) by {
                if n0.contains(v) {
                    let k = choose|k: int| 0 <= k < n0.len() && n0[k] == v;
                    assert(self.nodes@[k] == v);
                } else if v == id {
                    assert(self.nodes@[self.nodes@.len() - 1] == v);
                } else if self.nodes@.contains(v) {
                    let k = choose|k: int| 0 <= k < self.nodes@.len() && self.nodes@[k] == v;
                    if k < n0.len() {
                        assert(n0[k] == v);
                    }
                }
            }
        }
    }

    /// Whether `id` has been marked as a vertex.
    pub fn has_node(&self, id: usize) -> (r: bool)
        ensures
            r == self.node_marked(id),
    {
        let mut i: usize = 0;
        while i < self.nodes.len()
            invariant
                i <= self.nodes@.len(),
                forall|j: int| 0 <= j < i ==> self.nodes@[j] != id,
            decreases self.nodes@.len() - i,
        {
            if self.nodes[i] == id {
                return true;
            }
            i = i + 1;
        }
        false
    }

    /// Mark an undirected edge, in both directions at once; marking one
    /// that is already marked is a no-op.
    pub fn mark_edge(&mut self, sid: usize, tid: usize)
        requires
            old(self).wf(),
            sid != tid,
        ensures
            final(self).wf(),
            forall|a: usize, b: usize|
                #[trigger] final(self).edge_marked(a, b) == (old(self).edge_marked(a, b) || (a
                    == sid && b == tid) || (a == tid && b == sid)),
            forall|v: usize| #[trigger] final(self).node_marked(v) == old(self).node_marked(v),
            final(self).node_count() == old(self).node_count(),
    {
        if self.has_edge(sid, tid) {
            return ;
        }
        let ghost e0 = self.edges@;
        self.edges.push((sid, tid));
        self.edges.push((tid, sid));
        proof {
            assert(self.edges@ == e0.push((sid, tid)).push((tid, sid)));
            assert forall|a: usize, b: usize| #[trigger]
                self.edges@.contains((a, b)) == (e0.contains((a, b)) || (a == sid && b == tid) || (
                a == tid && b == sid)) by {
                if e0.contains((a, b)) {
                    let k = choose|k: int| 0 <= k < e0.len() && e0[k] == (a, b);
                    assert(self.edges@[k] == (a, b));
                } else if (a == sid && b == tid) {
                    assert(self.edges@[self.edges@.len() - 2] == (a, b));
                } else if (a == tid && b == sid) {
                    assert(self.edges@[self.edges@.len() - 1] == (a, b));
                } else if self.edges@.contains((a, b)) {
                    let k = choose|k: int| 0 <= k < self.edges@.len() && self.edges@[k] == (a, b);
                    if k < e0.len() {
                        assert(e0[k] == (a, b));
                    }
                }
            }
        }
    }

    /// The marked vertices are distinct, so their count is bounded by any
    /// duplicate-free sequence that contains them all.
    pub proof fn lemma_count_bound(&self, s: Seq<usize>)
        requires
            self.wf(),
            s.no_duplicates(),
            forall|v: usize| #[trigger] self.node_marked(v) ==> s.contains(v),
        ensures
            self.node_count() <= s.len(),
    {
        broadcast use vstd::set::group_set_axioms;

        self.nodes@.unique_seq_to_set();
        s.unique_seq_to_set();
        assert(self.nodes@.to_set().subset_of(s.to_set())) by {
            assert forall|v: usize| self.nodes@.to_set().contains(v) implies s.to_set().contains(
                v,
            ) by {
                assert(self.nodes@.contains(v));
                assert(self.node_marked(v));
                assert(s.contains(v));
            }
        }
        vstd::set_lib::lemma_len_subset(self.nodes@.to_set(), s.to_set());
    }

    /// Whether the undirected edge `(sid, tid)` has been marked, in either
    /// direction.
    pub fn has_edge(&self, sid: usize, tid: usize) -> (r: bool)
        ensures
            r == self.edge_marked(sid, tid),
    {
        let mut i: usize = 0;
        while i < self.edges.len()
            invariant
                i <= self.edges@.len(),
                forall|j: int| 0 <= j < i ==> self.edges@[j] != (sid, tid),
            decreases self.edges@.len() - i,
        {
            let e = self.edges[i];
            if e.0 == sid && e.1 == tid {
                return true;
            }
            i = i + 1;
        }
        false
    }
}

} // verus!
