use vstd::prelude::*;
use crate::graph::default_graph::DefaultGraph;
use crate::traversal::depth_first::DepthFirst;

verus! {

/// Walks a graph's vertices in order and hands out one freshly built graph
/// per connected component.
pub struct Components<'a> {
    visited: Vec<usize>,
    pos: usize,
    graph: &'a DefaultGraph,
}

/// The connected components of `graph`, one graph each, in the order of
/// their first vertices.
pub fn components<'a>(graph: &'a DefaultGraph) -> (r: Components<'a>)
    requires
        graph.wf(),
    ensures
        r.wf(),
        r.graph_spec() == *graph,
        r.pos_spec() == 0,
        r.pos_spec() <= r.graph_spec().node_seq().len(),
{
    Components { visited: Vec::new(), pos: 0, graph }
}

impl<'a> Components<'a> {
    /// The graph being split into components.
    pub closed spec fn graph_spec(&self) -> DefaultGraph {
        *self.graph
    }

    /// How far the vertex scan has advanced.
    pub closed spec fn pos_spec(&self) -> nat {
        self.pos as nat
    }

    pub closed spec fn wf(&self) -> bool {
        &&& self.graph.wf()
        &&& self.pos <= self.graph.node_seq().len()
        &&& self.visited@.no_duplicates()
    }

    /// The next connected component: a well-formed graph with at least one
    /// vertex whose vertices and edges all belong to the host graph.
    pub fn next(&mut self) -> (r: Option<DefaultGraph>)
        requires
            old(self).wf(),
        ensures
            final(self).wf(),
            final(self).graph_spec() == old(self).graph_spec(),
            final(self).pos_spec() <= final(self).graph_spec().node_seq().len(),
            match r {
                Some(g) => {
                    &&& g.wf()
                    &&& g.node_seq().len() >= 1
                    &&& forall|a: usize, b: usize|
                        #[trigger] g.adjacent(a, b) ==> old(self).graph_spec().adjacent(a, b)
                    &&& forall|v: usize|
                        #[trigger] g.contains_node(v) ==> old(self).graph_spec().contains_node(v)
                    &&& final(self).pos_spec() > old(self).pos_spec()
                },
                None => final(self).pos_spec() == old(self).graph_spec().node_seq().len(),
            },
    {
        let ids = self.graph.ids();
        loop
            invariant
                self.graph == old(self).graph,
                self.graph.wf(),
                ids@ == self.graph.node_seq(),
                self.pos <= ids@.len(),
                old(self).pos <= self.pos,
                self.visited@.no_duplicates(),
            ensures
                self.pos == ids@.len(),
                old(self).pos <= self.pos,
                self.visited@.no_duplicates(),
            decreases ids@.len() - self.pos,
        {
            if self.pos >= ids.len() {
                break ;
            }
            let root = ids[self.pos];
            proof {
                assert(self.graph.node_seq()[self.pos as int] == root);
                assert(self.graph.contains_node(root));
            }
            self.pos = self.pos + 1;
            if contains_id(&self.visited, root) {
                continue ;
            }
            push_unseen(&mut self.visited, root);
            let traversal = match DepthFirst::new(self.graph, root) {
                Ok(t) => t,
                Err(_) => vstd::pervasive::unreached(),
            };
            // a failed rebuild must not lose vertices: fall back to the
            // bare root, so the rest of the component is picked up later
            let mut component = match DefaultGraph::try_from_traversal(traversal) {
                Ok(c) => c,
                Err(_) => DefaultGraph::new(),
            };
            if component.is_empty() {
                match component.add_node(root) {
                    Ok(()) => (),
                    Err(_) => vstd::pervasive::unreached(),
                }
                proof {
                    crate::graph::default_graph::lemma_push_contains(Seq::<usize>::empty(), root);
                    assert forall|a: usize, b: usize|
                        #[trigger] component.adjacent(a, b) implies self.graph.adjacent(a, b) by {
                        assert(component.neighbors_spec(a) == Seq::<usize>::empty()) by {
                            if a == root {
                            } else {
                                component.lemma_absent_neighbors();
                                assert(!component.contains_node(a));
                            }
                        }
                    }
                    assert forall|v: usize|
                        #[trigger] component.contains_node(v) implies self.graph.contains_node(
                        v,
                    ) by {
                        assert(v == root);
                    }
                }
                return Some(component);
            } else {
                let cids = component.ids();
                let mut k: usize = 0;
                while k < cids.len()
                    invariant
                        k <= cids@.len(),
                        self.graph == old(self).graph,
                        self.graph.wf(),
                        self.pos <= self.graph.node_seq().len(),
                        old(self).pos < self.pos,
                        self.visited@.no_duplicates(),
                    decreases cids@.len() - k,
                {
                    if !contains_id(&self.visited, cids[k]) {
                        push_unseen(&mut self.visited, cids[k]);
                    }
                    k = k + 1;
                }
                return Some(component);
            }
        }
        None
    }
}

/// Whether the visited list holds `x`.
fn contains_id(v: &Vec<usize>, x: usize) -> (r: bool)
    ensures
        r == v@.contains(x),
{
    let mut i: usize = 0;
    while i < v.len()
        invariant
            i <= v@.len(),
            forall|j: int| 0 <= j < i ==> v@[j] != x,
        decreases v@.len() - i,
    {
        if v[i] == x {
            return true;
        }
        i = i + 1;
    }
    false
}

/// Append a vertex the list does not yet hold.
fn push_unseen(v: &mut Vec<usize>, x: usize)
    requires
        old(v)@.no_duplicates(),
        !old(v)@.contains(x),
    ensures
        final(v)@ == old(v)@.push(x),
        final(v)@.no_duplicates(),
{
    let ghost v0 = v@;
    v.push(x);
    proof {
        assert forall|a: int, b: int| 0 <= a < b < v@.len() implies v@[a] != v@[b] by {
            if b == v@.len() - 1 {
                assert(v@[b] == x);
                assert(v0[a] == v@[a]);
                assert(v0.contains(v0[a]));
            }
        }
    }
}

} // verus!
