use vstd::prelude::*;
use crate::graph::default_graph::DefaultGraph;
use crate::graph::error::Error;
use crate::traversal::step::Step;

verus! {

/// Iterates the edges of a graph in breadth-first order from a chosen
/// root, yielding cycle-closing edges as cuts.
pub struct BreadthFirst<'a> {
    nodes: Vec<usize>,
    queue: Vec<(usize, usize)>,
    graph: &'a DefaultGraph,
}

impl<'a> BreadthFirst<'a> {
    /// The graph being traversed.
    pub closed spec fn graph_spec(&self) -> DefaultGraph {
        *self.graph
    }

    /// How many vertices have been visited so far.
    pub closed spec fn visited_count(&self) -> nat {
        self.nodes@.len()
    }

    /// How many discovered edges wait in the queue.
    pub closed spec fn queue_len(&self) -> nat {
        self.queue@.len()
    }

    pub closed spec fn wf(&self) -> bool {
        &&& self.graph.wf()
        &&& self.nodes@.no_duplicates()
        &&& forall|k: int|
            0 <= k < self.nodes@.len() ==> self.graph.contains_node(#[trigger] self.nodes@[k])
        &&& forall|k: int|
            0 <= k < self.queue@.len() ==> self.graph.adjacent(
                (#[trigger] self.queue@[k]).0,
                self.queue@[k].1,
            )
    }

    /// The visited set never outgrows the graph.
    pub proof fn lemma_visited_bound(&self)
        requires
            self.wf(),
        ensures
            self.visited_count() <= self.graph_spec().node_seq().len(),
    {
        broadcast use vstd::set::group_set_axioms;

        self.graph.lemma_graph_facts();
        self.nodes@.unique_seq_to_set();
        self.graph.node_seq().unique_seq_to_set();
        assert(self.nodes@.to_set().subset_of(self.graph.node_seq().to_set())) by {
            assert forall|v: usize|
                self.nodes@.to_set().contains(v) implies self.graph.node_seq().to_set().contains(
                v,
            ) by {
                assert(self.nodes@.contains(v));
                let k = choose|k: int| 0 <= k < self.nodes@.len() && self.nodes@[k] == v;
                assert(self.graph.contains_node(v));
            }
        }
        vstd::set_lib::lemma_len_subset(self.nodes@.to_set(), self.graph.node_seq().to_set());
    }

    /// Begin a traversal at `root`. Fails with `MissingNode` exactly when
    /// the root is not a vertex of the graph.
    pub fn new(graph: &'a DefaultGraph, root: usize) -> (r: Result<Self, Error>)
        requires
            graph.wf(),
        ensures
            match r {
                Ok(t) => t.wf() && t.graph_spec() == *graph && graph.contains_node(root)
                    && t.visited_count() == 1,
                Err(e) => e == Error::MissingNode(root) && !graph.contains_node(root),
            },
    {
        let nb = match graph.neighbors(root) {
            Ok(x) => x,
            Err(_) => {
                return Err(Error::MissingNode(root));
            },
        };
        let mut queue: Vec<(usize, usize)> = Vec::new();
        let mut i: usize = 0;
        while i < nb.len()
            invariant
                graph.wf(),
                graph.contains_node(root),
                nb@ == graph.neighbors_spec(root),
                i <= nb@.len(),
                forall|k: int|
                    0 <= k < queue@.len() ==> graph.adjacent(
                        (#[trigger] queue@[k]).0,
                        queue@[k].1,
                    ),
            decreases nb@.len() - i,
        {
            proof {
                assert(graph.neighbors_spec(root)[i as int] == nb@[i as int]);
            }
            let ghost q0 = queue@;
            queue.insert(0, (root, nb[i]));
            proof {
                assert forall|k: int|
                    0 <= k < queue@.len() implies graph.adjacent(
                    (#[trigger] queue@[k]).0,
                    queue@[k].1,
                ) by {
                    if k > 0 {
                        assert(queue@[k] == q0[k - 1]);
                    }
                }
            }
            i = i + 1;
        }
        let mut nodes: Vec<usize> = Vec::new();
        nodes.push(root);
        Ok(Self { nodes, queue, graph })
    }

    /// The next traversal step, if any edge is pending. Each step crosses
    /// an edge of the graph; a step into unvisited territory grows the
    /// visited set, and a cut step only shrinks the queue.
    pub fn next(&mut self) -> (r: Option<Step>)
        requires
            old(self).wf(),
        ensures
            final(self).wf(),
            final(self).graph_spec() == old(self).graph_spec(),
            match r {
                Some(step) => {
                    &&& old(self).graph_spec().adjacent(step.sid, step.tid)
                    &&& ((final(self).visited_count() == old(self).visited_count() + 1) || (final(
                        self).visited_count() == old(self).visited_count() && final(
                        self).queue_len() < old(self).queue_len()))
                },
                None => {
                    &&& final(self).visited_count() == old(self).visited_count()
                    &&& final(self).queue_len() == old(self).queue_len()
                },
            },
    {
        let (parent, node) = match self.queue.pop() {
            Some(e) => e,
            None => {
                return None;
            },
        };
        proof {
            assert(old(self).queue@[old(self).queue@.len() - 1] == (parent, node));
            assert(self.graph.adjacent(parent, node));
        }
        if contains_visited(&self.nodes, node) {
            return Some(Step::new(parent, node, true));
        }
        proof {
            self.graph.lemma_graph_facts();
            assert(self.graph.adjacent(node, parent)) by {
                assert(self.graph.adjacent(parent, node));
            }
        }
        let nbrs = match self.graph.neighbors(node) {
            Ok(x) => x,
            Err(_) => vstd::pervasive::unreached(),
        };
        let mut i: usize = 0;
        while i < nbrs.len()
            invariant
                self.graph == old(self).graph,
                self.graph.wf(),
                self.graph.contains_node(node),
                nbrs@ == self.graph.neighbors_spec(node),
                i <= nbrs@.len(),
                self.nodes@ == old(self).nodes@,
                forall|k: int|
                    0 <= k < self.nodes@.len() ==> self.graph.contains_node(
                        #[trigger] self.nodes@[k],
                    ),
                forall|k: int|
                    0 <= k < self.queue@.len() ==> self.graph.adjacent(
                        (#[trigger] self.queue@[k]).0,
                        self.queue@[k].1,
                    ),
            decreases nbrs@.len() - i,
        {
            let neighbor = nbrs[i];
            proof {
                assert(self.graph.neighbors_spec(node)[i as int] == neighbor);
                assert(self.graph.adjacent(node, neighbor));
            }
            if neighbor == parent || contains_visited(&self.nodes, neighbor) {
                i = i + 1;
                continue ;
            }
            let ghost q0 = self.queue@;
            self.queue.insert(0, (node, neighbor));
            proof {
                assert forall|k: int|
                    0 <= k < self.queue@.len() implies self.graph.adjacent(
                    (#[trigger] self.queue@[k]).0,
                    self.queue@[k].1,
                ) by {
                    if k > 0 {
                        assert(self.queue@[k] == q0[k - 1]);
                    }
                }
            }
            i = i + 1;
        }
        let ghost n0 = self.nodes@;
        self.nodes.push(node);
        proof {
            crate::graph::default_graph::lemma_push_contains(n0, node);
            assert(self.nodes@.no_duplicates()) by {
                assert forall|a: int, b: int|
                    0 <= a < b < self.nodes@.len() implies self.nodes@[a] != self.nodes@[b] by {
                    if b == self.nodes@.len() - 1 {
                        assert(self.nodes@[b] == node);
                        assert(n0[a] == self.nodes@[a]);
                        assert(n0.contains(n0[a]));
                    }
                }
            }
        }
        Some(Step::new(parent, node, false))
    }
}

/// Whether the visited list holds `x`.
fn contains_visited(v: &Vec<usize>, x: usize) -> (r: bool)
    ensures
        r == v@.contains(x),
{
    let mut i: usize = 0;
    while i < v.len()
        invariant
            i <= v@.len(),
            forall|j: int| 0 <= j < i ==> v@[j] != x,
        decreases v@.len() - i,
    {
        if v[i] == x {
            return true;
        }
        i = i + 1;
    }
    false
}

} // verus!
