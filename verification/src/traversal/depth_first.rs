use vstd::prelude::*;
use crate::graph::default_graph::DefaultGraph;
use crate::graph::error::Error;
use crate::traversal::step::Step;

verus! {

/// Iterates the edges of a graph in depth-first order from a chosen root.
/// Every edge of the root's connected component is yielded exactly once;
/// edges that close a cycle come out flagged as cuts.
pub struct DepthFirst<'a> {
    nodes: Vec<usize>,
    stack: Vec<(usize, usize)>,
    graph: &'a DefaultGraph,
}

impl<'a> DepthFirst<'a> {
    /// The graph being traversed.
    pub closed spec fn graph_spec(&self) -> DefaultGraph {
        *self.graph
    }

    /// How many vertices have been visited so far.
    pub closed spec fn visited_count(&self) -> nat {
        self.nodes@.len()
    }

    /// How many half-explored edges are pending.
    pub closed spec fn stack_len(&self) -> nat {
        self.stack@.len()
    }

    pub closed spec fn wf(&self) -> bool {
        &&& self.graph.wf()
        &&& self.nodes@.no_duplicates()
        &&& forall|k: int|
            0 <= k < self.nodes@.len() ==> self.graph.contains_node(#[trigger] self.nodes@[k])
        &&& forall|k: int|
            0 <= k < self.stack@.len() ==> self.graph.adjacent(
                (#[trigger] self.stack@[k]).0,
                self.stack@[k].1,
            )
    }

    /// A live traversal's graph is well-formed.
    pub proof fn lemma_graph_wf(&self)
        requires
            self.wf(),
        ensures
            self.graph_spec().wf(),
    {
    }

    /// The visited set never outgrows the graph.
    pub proof fn lemma_visited_bound(&self)
        requires
            self.wf(),
        ensures
            self.visited_count() <= self.graph_spec().node_seq().len(),
    {
        broadcast use vstd::set::group_set_axioms;

        self.graph.lemma_graph_facts();
        self.nodes@.unique_seq_to_set();
        self.graph.node_seq().unique_seq_to_set();
        assert(self.nodes@.to_set().subset_of(self.graph.node_seq().to_set())) by {
            assert forall|v: usize|
                self.nodes@.to_set().contains(v) implies self.graph.node_seq().to_set().contains(
                v,
            ) by {
                assert(self.nodes@.contains(v));
                let k = choose|k: int| 0 <= k < self.nodes@.len() && self.nodes@[k] == v;
                assert(self.graph.contains_node(v));
            }
        }
        vstd::set_lib::lemma_len_subset(self.nodes@.to_set(), self.graph.node_seq().to_set());
    }

    /// Begin a traversal at `root`. Fails with `MissingNode` exactly when
    /// the root is not a vertex of the graph.
    pub fn new(graph: &'a DefaultGraph, root: usize) -> (r: Result<Self, Error>)
        requires
            graph.wf(),
        ensures
            match r {
                Ok(t) => t.wf() && t.graph_spec() == *graph && graph.contains_node(root)
                    && t.visited_count() == 1,
                Err(e) => e == Error::MissingNode(root) && !graph.contains_node(root),
            },
    {
        let nb = match graph.neighbors(root) {
            Ok(x) => x,
            Err(_) => {
                return Err(Error::MissingNode(root));
            },
        };
        let mut stack: Vec<(usize, usize)> = Vec::new();
        let mut i: usize = nb.len();
        while i > 0
            invariant
                graph.wf(),
                graph.contains_node(root),
                nb@ == graph.neighbors_spec(root),
                i <= nb@.len(),
                forall|k: int|
                    0 <= k < stack@.len() ==> graph.adjacent(
                        (#[trigger] stack@[k]).0,
                        stack@[k].1,
                    ),
            decreases i,
        {
            i = i - 1;
            proof {
                assert(graph.neighbors_spec(root)[i as int] == nb@[i as int]);
            }
            stack.push((root, nb[i]));
        }
        let mut nodes: Vec<usize> = Vec::new();
        nodes.push(root);
        Ok(Self { nodes, stack, graph })
    }

    /// The next traversal step, if any edge is pending. Each step crosses
    /// an edge of the graph; a step into unvisited territory grows the
    /// visited set, and a cut step only shrinks the pending stack.
    pub fn next(&mut self) -> (r: Option<Step>)
        requires
            old(self).wf(),
        ensures
            final(self).wf(),
            final(self).graph_spec() == old(self).graph_spec(),
            match r {
                Some(step) => {
                    &&& old(self).graph_spec().adjacent(step.sid, step.tid)
                    &&& ((final(self).visited_count() == old(self).visited_count() + 1) || (final(
                        self).visited_count() == old(self).visited_count() && final(
                        self).stack_len() < old(self).stack_len()))
                },
                None => {
                    &&& final(self).visited_count() == old(self).visited_count()
                    &&& final(self).stack_len() == old(self).stack_len()
                },
            },
    {
        let (parent, node) = match self.stack.pop() {
            Some(e) => e,
            None => {
                return None;
            },
        };
        proof {
            assert(old(self).stack@[old(self).stack@.len() - 1] == (parent, node));
            assert(self.graph.adjacent(parent, node));
        }
        if contains_node_id(&self.nodes, node) {
            return Some(Step::new(parent, node, true));
        }
        proof {
            self.graph.lemma_graph_facts();
            assert(self.graph.adjacent(node, parent)) by {
                assert(self.graph.adjacent(parent, node));
            }
        }
        let nbrs = match self.graph.neighbors(node) {
            Ok(x) => x,
            Err(_) => vstd::pervasive::unreached(),
        };
        let mut i: usize = nbrs.len();
        while i > 0
            invariant
                self.graph == old(self).graph,
                self.graph.wf(),
                self.graph.contains_node(node),
                nbrs@ == self.graph.neighbors_spec(node),
                i <= nbrs@.len(),
                self.nodes@ == old(self).nodes@,
                forall|k: int|
                    0 <= k < self.nodes@.len() ==> self.graph.contains_node(
                        #[trigger] self.nodes@[k],
                    ),
                forall|k: int|
                    0 <= k < self.stack@.len() ==> self.graph.adjacent(
                        (#[trigger] self.stack@[k]).0,
                        self.stack@[k].1,
                    ),
            decreases i,
        {
            i = i - 1;
            let neighbor = nbrs[i];
            proof {
                assert(self.graph.neighbors_spec(node)[i as int] == neighbor);
                assert(self.graph.adjacent(node, neighbor));
            }
            if neighbor == parent {
                continue ;
            }
            if contains_node_id(&self.nodes, neighbor) {
                // a pending edge into this neighbor would repeat the edge
                // now being closed; drop such entries
                let filtered = retain_edges(&self.stack, neighbor, node);
                proof {
                    assert forall|k: int|
                        0 <= k < filtered@.len() implies self.graph.adjacent(
                        (#[trigger] filtered@[k]).0,
                        filtered@[k].1,
                    ) by {
                        assert(self.stack@.contains(filtered@[k]));
                        let l = choose|l: int|
                            0 <= l < self.stack@.len() && self.stack@[l] == filtered@[k];
                    }
                }
                self.stack = filtered;
            }
            self.stack.push((node, neighbor));
        }
        let ghost n0 = self.nodes@;
        self.nodes.push(node);
        proof {
            crate::graph::default_graph::lemma_push_contains(n0, node);
            assert(self.nodes@.no_duplicates()) by {
                assert forall|a: int, b: int|
                    0 <= a < b < self.nodes@.len() implies self.nodes@[a] != self.nodes@[b] by {
                    if b == self.nodes@.len() - 1 {
                        assert(self.nodes@[b] == node);
                        assert(n0[a] == self.nodes@[a]);
                        assert(n0.contains(n0[a]));
                    }
                }
            }
        }
        Some(Step::new(parent, node, false))
    }

    /// Run the whole traversal, returning the visited vertices and the
    /// crossed edges, every one of them an edge of the graph.
    pub fn into_table(self) -> (r: (Vec<usize>, Vec<(usize, usize)>))
        requires
            self.wf(),
        ensures
            forall|k: int|
                0 <= k < r.1@.len() ==> self.graph_spec().adjacent(
                    (#[trigger] r.1@[k]).0,
                    r.1@[k].1,
                ),
    {
        let ghost g = self.graph_spec();
        let mut t = self;
        let mut nodes: Vec<usize> = Vec::new();
        let mut edges: Vec<(usize, usize)> = Vec::new();
        proof {
            t.lemma_visited_bound();
        }
        loop
            invariant
                t.wf(),
                t.graph_spec() == g,
                t.visited_count() <= g.node_seq().len(),
                forall|k: int|
                    0 <= k < edges@.len() ==> g.adjacent((#[trigger] edges@[k]).0, edges@[k].1),
            ensures
                forall|k: int|
                    0 <= k < edges@.len() ==> g.adjacent((#[trigger] edges@[k]).0, edges@[k].1),
            decreases g.node_seq().len() - t.visited_count(), t.stack_len(),
        {
            let step = match t.next() {
                Some(s) => s,
                None => {
                    break ;
                },
            };
            proof {
                t.lemma_visited_bound();
            }
            if nodes.len() == 0 {
                nodes.push(step.sid);
            }
            if !step.cut {
                nodes.push(step.tid);
            }
            edges.push((step.sid, step.tid));
        }
        (nodes, edges)
    }
}

/// Whether the visited list holds `x`.
fn contains_node_id(v: &Vec<usize>, x: usize) -> (r: bool)
    ensures
        r == v@.contains(x),
{
    let mut i: usize = 0;
    while i < v.len()
        invariant
            i <= v@.len(),
            forall|j: int| 0 <= j < i ==> v@[j] != x,
        decreases v@.len() - i,
    {
        if v[i] == x {
            return true;
        }
        i = i + 1;
    }
    false
}

/// The pending stack without the entries that leave `neighbor` or enter
/// `node`.
fn retain_edges(stack: &Vec<(usize, usize)>, neighbor: usize, node: usize) -> (r: Vec<
    (usize, usize),
>)
    ensures
        forall|k: int| 0 <= k < r@.len() ==> stack@.contains(#[trigger] r@[k]),
{
    let mut r: Vec<(usize, usize)> = Vec::new();
    let mut i: usize = 0;
    while i < stack.len()
        invariant
            i <= stack@.len(),
            forall|k: int| 0 <= k < r@.len() ==> stack@.contains(#[trigger] r@[k]),
        decreases stack@.len() - i,
    {
        let e = stack[i];
        if e.0 != neighbor && e.1 != node {
            let ghost r0 = r@;
            r.push(e);
            proof {
                assert forall|k: int|
                    0 <= k < r@.len() implies stack@.contains(#[trigger] r@[k]) by {
                    if k < r0.len() {
                        assert(r@[k] == r0[k]);
                    } else {
                        assert(r@[k] == stack@[i as int]);
                    }
                }
            }
        }
        i = i + 1;
    }
    r
}

} // verus!
