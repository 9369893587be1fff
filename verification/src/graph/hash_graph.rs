use vstd::prelude::*;
use crate::graph::default_graph::DefaultGraph;
use crate::graph::error::Error;
use crate::graph::step::Step;

verus! {

/// Whether `v` is an endpoint of some listed edge.
pub open spec fn edge_endpoint(edges: Seq<(usize, usize)>, v: usize) -> bool {
    exists|k: int| 0 <= k < edges.len() && ((#[trigger] edges[k]).0 == v || edges[k].1 == v)
}

/// Whether the edge list is loop-free and repeats no undirected edge.
pub open spec fn edges_clean(edges: Seq<(usize, usize)>) -> bool {
    &&& forall|k: int| 0 <= k < edges.len() ==> (#[trigger] edges[k]).0 != edges[k].1
    &&& forall|k: int, l: int|
        0 <= l < k < edges.len() ==> !crate::graph::default_graph::same_undirected(
            #[trigger] edges[l],
            #[trigger] edges[k],
        )
}

/// Whether the singleton list repeats nothing: no singleton twice, none
/// that is already an edge endpoint.
pub open spec fn singletons_clean(edges: Seq<(usize, usize)>, singles: Seq<usize>) -> bool {
    &&& singles.no_duplicates()
    &&& forall|s: int| 0 <= s < singles.len() ==> !edge_endpoint(edges, #[trigger] singles[s])
}

/// The vertex list grown by one more edge's endpoints: the source, then
/// the target, each only when it has not appeared yet.
pub open spec fn with_endpoints(nodes: Seq<usize>, e: (usize, usize)) -> Seq<usize> {
    let n1 = if nodes.contains(e.0) {
        nodes
    } else {
        nodes.push(e.0)
    };
    if n1.contains(e.1) {
        n1
    } else {
        n1.push(e.1)
    }
}

/// The endpoints of the edge list, in order of first appearance.
pub open spec fn endpoint_order(edges: Seq<(usize, usize)>) -> Seq<usize>
    decreases edges.len(),
{
    if edges.len() == 0 {
        Seq::empty()
    } else {
        with_endpoints(endpoint_order(edges.drop_last()), edges.last())
    }
}

/// The vertices a traversal has introduced before step `k`: the root and
/// every earlier step's target.
pub open spec fn seen_by(root: usize, steps: Seq<Step>, k: int, v: usize) -> bool {
    v == root || exists|l: int| 0 <= l < k && (#[trigger] steps[l]).tid == v
}

/// Whether two steps walk the same undirected edge.
pub open spec fn same_step_edge(a: Step, b: Step) -> bool {
    (a.sid == b.sid && a.tid == b.tid) || (a.sid == b.tid && a.tid == b.sid)
}

/// What step `k` of a well-formed traversal looks like: it leaves a
/// vertex already seen, walks no loop, repeats no earlier edge, and is
/// marked cut whenever it closes back onto a seen vertex.
pub open spec fn step_ok(root: usize, steps: Seq<Step>, k: int) -> bool {
    &&& seen_by(root, steps, k, steps[k].sid)
    &&& steps[k].sid != steps[k].tid
    &&& (seen_by(root, steps, k, steps[k].tid) ==> steps[k].cut)
    &&& forall|l: int| 0 <= l < k ==> !same_step_edge(#[trigger] steps[l], steps[k])
}

/// Whether every step of the traversal is well formed.
pub open spec fn traversal_ok(root: usize, steps: Seq<Step>) -> bool {
    forall|k: int| 0 <= k < steps.len() ==> #[trigger] step_ok(root, steps, k)
}

/// A defect the traversal builder reports as `DuplicateEdge`: the step
/// walks a loop, repeats an earlier step's edge, or closes onto a seen
/// vertex without being marked cut.
pub open spec fn step_edge_defect(root: usize, steps: Seq<Step>, k: int) -> bool {
    ||| steps[k].sid == steps[k].tid
    ||| (seen_by(root, steps, k, steps[k].tid) && !steps[k].cut)
    ||| exists|l: int| 0 <= l < k && same_step_edge(#[trigger] steps[l], steps[k])
}

/// The vertices a traversal builds, in order: the root, then each step's
/// target the first time it appears.
pub open spec fn traversal_node_order(root: usize, steps: Seq<Step>) -> Seq<usize>
    decreases steps.len(),
{
    if steps.len() == 0 {
        seq![root]
    } else {
        let prev = traversal_node_order(root, steps.drop_last());
        if prev.contains(steps.last().tid) {
            prev
        } else {
            prev.push(steps.last().tid)
        }
    }
}

/// A graph with arbitrary vertex identifiers, built from a traversal or an
/// edge list. Iteration orders follow first appearance, which makes it
/// convenient for extracting subgraphs from other graphs.
#[derive(Debug)]
pub struct HashGraph {
    inner: DefaultGraph,
}

impl HashGraph {
    /// The vertices, in order of first appearance.
    pub closed spec fn node_seq(&self) -> Seq<usize> {
        self.inner.node_seq()
    }

    /// Whether `id` is a vertex.
    pub closed spec fn contains_node(&self, id: usize) -> bool {
        self.inner.contains_node(id)
    }

    /// The neighbor list of `id`.
    pub closed spec fn neighbors_spec(&self, id: usize) -> Seq<usize> {
        self.inner.neighbors_spec(id)
    }

    /// Whether `a` and `b` are joined by an edge.
    pub closed spec fn adjacent(&self, a: usize, b: usize) -> bool {
        self.inner.adjacent(a, b)
    }

    /// The undirected edges, each once, in order of first appearance.
    pub closed spec fn edge_seq(&self) -> Seq<(usize, usize)> {
        self.inner.edge_seq()
    }

    pub closed spec fn wf(&self) -> bool {
        self.inner.wf()
    }

    /// Build from a traversal rooted at `root`. Every step's source must
    /// be known already (`MissingNode`); a non-cut step introduces its
    /// target, while a loop, a step that repeats an edge in either
    /// direction, or a non-cut step back onto a seen vertex is a
    /// `DuplicateEdge`. On success the edges are the steps, in order, and
    /// the vertices are the root and then each step's target the first
    /// time it appears.
    pub fn from_traversal(root: usize, steps: Vec<Step>) -> (r: Result<Self, Error>)
        ensures
            match r {
                Ok(g) => {
                    &&& g.wf()
                    &&& g.contains_node(root)
                    &&& traversal_ok(root, steps@)
                    &&& forall|k: int|
                        0 <= k < steps@.len() ==> g.adjacent(
                            (#[trigger] steps@[k]).sid,
                            steps@[k].tid,
                        )
                    &&& forall|a: usize, b: usize|
                        #[trigger] g.adjacent(a, b) ==> exists|k: int|
                            0 <= k < steps@.len() && ((#[trigger] steps@[k]).sid == a
                                && steps@[k].tid == b || steps@[k].sid == b && steps@[k].tid == a)
                    &&& forall|v: usize|
                        #[trigger] g.contains_node(v) <==> seen_by(
                            root,
                            steps@,
                            steps@.len() as int,
                            v,
                        )
                    &&& g.node_seq() == traversal_node_order(root, steps@)
                    &&& g.edge_seq().len() == steps@.len()
                    &&& forall|k: int|
                        0 <= k < steps@.len() ==> g.edge_seq()[k] == ((
                        #[trigger] steps@[k]).sid, steps@[k].tid)
                },
                Err(e) => {
                    &&& !traversal_ok(root, steps@)
                    &&& (e matches Error::MissingNode(_) ==> exists|k: int|
                        0 <= k < steps@.len() && !seen_by(
                            root,
                            steps@,
                            k,
                            (#[trigger] steps@[k]).sid,
                        ))
                    &&& (e matches Error::DuplicateEdge(_, _) ==> exists|k: int|
                        0 <= k < steps@.len() && #[trigger] step_edge_defect(root, steps@, k))
                    &&& (e is MissingNode || e is DuplicateEdge)
                },
            },
    {
        let mut inner = DefaultGraph::new();
        let ghost gstart = inner;
        match inner.add_node(root) {
            Ok(()) => (),
            Err(_) => vstd::pervasive::unreached(),
        }
        proof {
            crate::graph::default_graph::lemma_push_contains(Seq::<usize>::empty(), root);
            crate::graph::default_graph::lemma_same_adjacency(gstart, inner, root);
            gstart.lemma_absent_neighbors();
            assert(inner.node_seq() =~= traversal_node_order(root, steps@.subrange(0, 0)));
        }
        let mut k: usize = 0;
        while k < steps.len()
            invariant
                k <= steps@.len(),
                inner.wf(),
                inner.contains_node(root),
                inner.node_seq() == traversal_node_order(root, steps@.subrange(0, k as int)),
                inner.edge_seq().len() == k,
                forall|l: int|
                    0 <= l < k ==> inner.edge_seq()[l] == ((#[trigger] steps@[l]).sid,
                    steps@[l].tid),
                forall|l: int|
                    0 <= l < k ==> inner.adjacent((#[trigger] steps@[l]).sid, steps@[l].tid),
                forall|a: usize, b: usize|
                    #[trigger] inner.adjacent(a, b) ==> exists|l: int|
                        0 <= l < k && ((#[trigger] steps@[l]).sid == a && steps@[l].tid == b
                            || steps@[l].sid == b && steps@[l].tid == a),
                forall|v: usize|
                    #[trigger] inner.contains_node(v) <==> seen_by(root, steps@, k as int, v),
                forall|l: int| 0 <= l < k ==> #[trigger] step_ok(root, steps@, l),
            decreases steps@.len() - k,
        {
            let step = steps[k];
            proof {
                assert(steps@[k as int] == step);
            }
            if !inner.has_id(step.sid) {
                proof {
                    assert(!step_ok(root, steps@, k as int));
                    assert(!seen_by(root, steps@, k as int, steps@[k as int].sid));
                }
                return Err(Error::MissingNode(step.sid));
            }
            let ghost g0 = inner;
            if inner.has_id(step.tid) {
                if !step.cut {
                    proof {
                        assert(!step_ok(root, steps@, k as int));
                        assert(inner.contains_node(step.tid));
                        assert(seen_by(root, steps@, k as int, step.tid));
                        assert(step_edge_defect(root, steps@, k as int));
                    }
                    return Err(Error::DuplicateEdge(step.sid, step.tid));
                }
                let dup = match inner.has_edge(step.tid, step.sid) {
                    Ok(x) => x,
                    Err(_) => vstd::pervasive::unreached(),
                };
                if dup {
                    proof {
                        let l = choose|l: int|
                            0 <= l < k && ((#[trigger] steps@[l]).sid == step.tid && steps@[l].tid
                                == step.sid || steps@[l].sid == step.sid && steps@[l].tid
                                == step.tid);
                        assert(same_step_edge(steps@[l], steps@[k as int]));
                        assert(!step_ok(root, steps@, k as int));
                        assert(step_edge_defect(root, steps@, k as int));
                    }
                    return Err(Error::DuplicateEdge(step.sid, step.tid));
                }
                proof {
                    inner.lemma_graph_facts();
                }
                match inner.add_edge(step.sid, step.tid) {
                    Ok(()) => (),
                    Err(e) => {
                        proof {
                            assert(step.sid == step.tid);
                            assert(!step_ok(root, steps@, k as int));
                            assert(step_edge_defect(root, steps@, k as int));
                        }
                        return Err(e);
                    },
                }
                proof {
                    crate::graph::default_graph::lemma_add_edge_adjacent(
                        g0,
                        inner,
                        step.sid,
                        step.tid,
                    );
                    assert(inner.node_seq() == g0.node_seq());
                    assert(step_ok(root, steps@, k as int)) by {
                        assert forall|l: int|
                            0 <= l < k implies !same_step_edge(
                            #[trigger] steps@[l],
                            steps@[k as int],
                        ) by {
                            if same_step_edge(steps@[l], steps@[k as int]) {
                                assert(g0.adjacent(steps@[l].sid, steps@[l].tid));
                            }
                        }
                    }
                    assert forall|v: usize| #[trigger]
                        inner.contains_node(v) <==> seen_by(root, steps@, k + 1, v) by {
                        let via = g0.contains_node(v);
                        if seen_by(root, steps@, k + 1, v) && !seen_by(root, steps@, k as int, v) {
                            let l = choose|l: int|
                                0 <= l < k + 1 && (#[trigger] steps@[l]).tid == v;
                            assert(l == k);
                            assert(v == step.tid);
                            assert(g0.contains_node(step.tid));
                        }
                        if g0.contains_node(v) {
                            assert(seen_by(root, steps@, k as int, v));
                            if v != root {
                                let l = choose|l: int|
                                    0 <= l < k && (#[trigger] steps@[l]).tid == v;
                                assert(0 <= l < k + 1 && steps@[l].tid == v);
                            }
                        }
                    }
                    let subk = steps@.subrange(0, k as int);
                    let subk1 = steps@.subrange(0, k + 1);
                    assert(subk1.drop_last() =~= subk);
                    assert(subk1.last() == steps@[k as int]);
                    assert(inner.node_seq() == traversal_node_order(root, subk1)) by {
                        assert(g0.node_seq().contains(step.tid));
                    }
                    assert(inner.edge_seq().len() == k + 1) by {
                        assert(inner.edge_seq() == g0.edge_seq().push((step.sid, step.tid)));
                    }
                    assert forall|l: int|
                        0 <= l < k + 1 implies inner.edge_seq()[l] == ((#[trigger] steps@[l]).sid,
                    steps@[l].tid) by {
                        if l < k {
                            assert(inner.edge_seq()[l] == g0.edge_seq()[l]);
                        } else {
                            assert(inner.edge_seq()[l] == (step.sid, step.tid));
                        }
                    }
                }
            } else {
                match inner.add_node(step.tid) {
                    Ok(()) => (),
                    Err(_) => vstd::pervasive::unreached(),
                }
                let ghost g1 = inner;
                proof {
                    crate::graph::default_graph::lemma_push_contains(g0.node_seq(), step.tid);
                    crate::graph::default_graph::lemma_same_adjacency(g0, g1, step.tid);
                    g0.lemma_graph_facts();
                    assert(!g1.adjacent(step.sid, step.tid)) by {
                        if g1.adjacent(step.sid, step.tid) {
                            assert(g0.adjacent(step.sid, step.tid));
                            assert(g0.contains_node(step.tid));
                        }
                    }
                    assert(step.sid != step.tid) by {
                        assert(g0.contains_node(step.sid));
                    }
                }
                match inner.add_edge(step.sid, step.tid) {
                    Ok(()) => (),
                    Err(_) => vstd::pervasive::unreached(),
                }
                proof {
                    crate::graph::default_graph::lemma_add_edge_adjacent(
                        g1,
                        inner,
                        step.sid,
                        step.tid,
                    );
                    assert(inner.node_seq() == g1.node_seq());
                    assert(step_ok(root, steps@, k as int)) by {
                        assert(!seen_by(root, steps@, k as int, step.tid));
                        assert forall|l: int|
                            0 <= l < k implies !same_step_edge(
                            #[trigger] steps@[l],
                            steps@[k as int],
                        ) by {
                            if same_step_edge(steps@[l], steps@[k as int]) {
                                assert(g0.adjacent(steps@[l].sid, steps@[l].tid));
                                assert(g0.contains_node(step.tid));
                            }
                        }
                    }
                    assert forall|v: usize| #[trigger]
                        inner.contains_node(v) <==> seen_by(root, steps@, k + 1, v) by {
                        if seen_by(root, steps@, k + 1, v) && !seen_by(root, steps@, k as int, v) {
                            let l = choose|l: int|
                                0 <= l < k + 1 && (#[trigger] steps@[l]).tid == v;
                            assert(l == k);
                            assert(v == step.tid);
                        }
                        if inner.contains_node(v) && !g0.contains_node(v) {
                            assert(v == step.tid);
                            assert(0 <= k < k + 1 && steps@[k as int].tid == v);
                        }
                    }
                    let subk = steps@.subrange(0, k as int);
                    let subk1 = steps@.subrange(0, k + 1);
                    assert(subk1.drop_last() =~= subk);
                    assert(subk1.last() == steps@[k as int]);
                    assert(inner.node_seq() == traversal_node_order(root, subk1)) by {
                        assert(!g0.node_seq().contains(step.tid)) by {
                            if g0.contains_node(step.tid) {
                            }
                        }
                        assert(g1.node_seq() == g0.node_seq().push(step.tid));
                        assert(inner.node_seq() == g1.node_seq());
                    }
                    assert(inner.edge_seq().len() == k + 1) by {
                        assert(inner.edge_seq() == g1.edge_seq().push((step.sid, step.tid)));
                        assert(g1.edge_seq() == g0.edge_seq());
                    }
                    assert forall|l: int|
                        0 <= l < k + 1 implies inner.edge_seq()[l] == ((#[trigger] steps@[l]).sid,
                    steps@[l].tid) by {
                        if l < k {
                            assert(inner.edge_seq()[l] == g0.edge_seq()[l]);
                        } else {
                            assert(inner.edge_seq()[l] == (step.sid, step.tid));
                        }
                    }
                }
            }
            k = k + 1;
        }
        proof {
            assert(steps@.subrange(0, steps@.len() as int) =~= steps@);
        }
        Ok(HashGraph { inner })
    }

    /// Build a node-induced subgraph from an edge list plus isolated
    /// vertices. A repeated edge, in either direction, or a loop is a
    /// `DuplicateEdge`; a singleton that repeats any endpoint or another
    /// singleton is a `DuplicateNode`. On success the edge list is kept
    /// verbatim and the vertices are the endpoints in order of first
    /// appearance, then the singletons.
    pub fn from_edges(edges: Vec<(usize, usize)>, singletons: Vec<usize>) -> (r: Result<
        Self,
        Error,
    >)
        ensures
            match r {
                Ok(g) => {
                    &&& g.wf()
                    &&& edges_clean(edges@)
                    &&& singletons_clean(edges@, singletons@)
                    &&& g.edge_seq() == edges@
                    &&& g.node_seq() == endpoint_order(edges@) + singletons@
                    &&& forall|k: int|
                        0 <= k < edges@.len() ==> g.adjacent(
                            (#[trigger] edges@[k]).0,
                            edges@[k].1,
                        )
                    &&& forall|a: usize, b: usize|
                        #[trigger] g.adjacent(a, b) ==> exists|k: int|
                            0 <= k < edges@.len() && ((#[trigger] edges@[k]) == (a, b) || edges@[k]
                                == (b, a))
                    &&& forall|v: usize|
                        #[trigger] g.contains_node(v) <==> edge_endpoint(edges@, v)
                            || singletons@.contains(v)
                },
                Err(e) => {
                    &&& !(edges_clean(edges@) && singletons_clean(edges@, singletons@))
                    &&& (e matches Error::DuplicateEdge(_, _) ==> !edges_clean(edges@))
                    &&& (e matches Error::DuplicateNode(_) ==> edges_clean(edges@)
                        && !singletons_clean(edges@, singletons@))
                    &&& (e is DuplicateEdge || e is DuplicateNode)
                },
            },
    {
        let mut inner = DefaultGraph::new();
        proof {
            assert(inner.edge_seq() =~= edges@.subrange(0, 0));
            assert(inner.node_seq() =~= endpoint_order(edges@.subrange(0, 0)));
        }
        let mut k: usize = 0;
        while k < edges.len()
            invariant
                k <= edges@.len(),
                inner.wf(),
                inner.edge_seq() == edges@.subrange(0, k as int),
                inner.node_seq() == endpoint_order(edges@.subrange(0, k as int)),
                forall|l: int|
                    0 <= l < k ==> inner.adjacent((#[trigger] edges@[l]).0, edges@[l].1),
                forall|a: usize, b: usize|
                    #[trigger] inner.adjacent(a, b) ==> exists|l: int|
                        0 <= l < k && ((#[trigger] edges@[l]) == (a, b) || edges@[l] == (b, a)),
                forall|v: usize|
                    #[trigger] inner.contains_node(v) <==> exists|l: int|
                        0 <= l < k && ((#[trigger] edges@[l]).0 == v || edges@[l].1 == v),
                forall|l: int| 0 <= l < k ==> (#[trigger] edges@[l]).0 != edges@[l].1,
                forall|l1: int, l2: int|
                    0 <= l1 < l2 < k ==> !crate::graph::default_graph::same_undirected(
                        #[trigger] edges@[l1],
                        #[trigger] edges@[l2],
                    ),
            decreases edges@.len() - k,
        {
            let (sid, tid) = edges[k];
            proof {
                assert(edges@[k as int] == (sid, tid));
            }
            let ghost g0 = inner;
            if !inner.has_id(sid) {
                match inner.add_node(sid) {
                    Ok(()) => (),
                    Err(_) => vstd::pervasive::unreached(),
                }
                proof {
                    crate::graph::default_graph::lemma_same_adjacency(g0, inner, sid);
                }
            }
            let ghost g1 = inner;
            if !inner.has_id(tid) {
                match inner.add_node(tid) {
                    Ok(()) => (),
                    Err(_) => vstd::pervasive::unreached(),
                }
                proof {
                    crate::graph::default_graph::lemma_same_adjacency(g1, inner, tid);
                }
            }
            let dup = match inner.has_edge(sid, tid) {
                Ok(x) => x,
                Err(_) => vstd::pervasive::unreached(),
            };
            if dup {
                proof {
                    let l = choose|l: int|
                        0 <= l < k && ((#[trigger] edges@[l]) == (sid, tid) || edges@[l] == (
                        tid,
                        sid,
                        ));
                    assert(crate::graph::default_graph::same_undirected(
                        edges@[l],
                        edges@[k as int],
                    ));
                    assert(!edges_clean(edges@));
                }
                return Err(Error::DuplicateEdge(sid, tid));
            }
            let ghost g2 = inner;
            match inner.add_edge(sid, tid) {
                Ok(()) => (),
                Err(e) => {
                    proof {
                        assert(sid == tid);
                        assert(e == Error::DuplicateEdge(sid, tid));
                        assert(!edges_clean(edges@)) by {
                            assert(edges@[k as int].0 == edges@[k as int].1);
                        }
                    }
                    return Err(e);
                },
            }
            proof {
                crate::graph::default_graph::lemma_add_edge_adjacent(g2, inner, sid, tid);
                assert(inner.node_seq() == g2.node_seq());
                assert(g2.contains_node(sid) && g2.contains_node(tid));
                assert(inner.contains_node(sid) && inner.contains_node(tid));
                let subk = edges@.subrange(0, k as int);
                let subk1 = edges@.subrange(0, k + 1);
                assert(subk1.drop_last() =~= subk);
                assert(subk1.last() == edges@[k as int]);
                assert(inner.edge_seq() =~= subk1) by {
                    assert(inner.edge_seq() == g2.edge_seq().push((sid, tid)));
                }
                assert(inner.node_seq() == endpoint_order(subk1)) by {
                    let base = endpoint_order(subk);
                    let n1 = if base.contains(sid) {
                        base
                    } else {
                        base.push(sid)
                    };
                    assert(g1.node_seq() == n1);
                    assert(g2.node_seq() == (if n1.contains(tid) {
                        n1
                    } else {
                        n1.push(tid)
                    }));
                    assert(endpoint_order(subk1) == with_endpoints(
                        endpoint_order(subk1.drop_last()),
                        subk1.last(),
                    ));
                }
                assert forall|v: usize| #[trigger]
                    inner.contains_node(v) <==> exists|l: int|
                        0 <= l < k + 1 && ((#[trigger] edges@[l]).0 == v || edges@[l].1 == v) by {
                    let via1 = g1.contains_node(v);
                    let via2 = g2.contains_node(v);
                    if inner.contains_node(v) {
                        if g0.contains_node(v) {
                            let l = choose|l: int|
                                0 <= l < k && ((#[trigger] edges@[l]).0 == v || edges@[l].1 == v);
                            assert(0 <= l < k + 1);
                        } else {
                            assert(v == sid || v == tid);
                        }
                    } else {
                        if exists|l: int|
                            0 <= l < k + 1 && ((#[trigger] edges@[l]).0 == v || edges@[l].1
                                == v) {
                            let l = choose|l: int|
                                0 <= l < k + 1 && ((#[trigger] edges@[l]).0 == v || edges@[l].1
                                    == v);
                            if l < k {
                                assert(g0.contains_node(v));
                            } else {
                                assert(v == sid || v == tid);
                            }
                        }
                    }
                }
                assert forall|l1: int, l2: int|
                    0 <= l1 < l2 < k + 1 implies !crate::graph::default_graph::same_undirected(
                    #[trigger] edges@[l1],
                    #[trigger] edges@[l2],
                ) by {
                    if l2 == k {
                        if crate::graph::default_graph::same_undirected(edges@[l1], edges@[l2]) {
                            assert(g2.adjacent(edges@[l1].0, edges@[l1].1));
                            g2.lemma_graph_facts();
                        }
                    }
                }
            }
            k = k + 1;
        }
        proof {
            assert(edges@.subrange(0, edges@.len() as int) =~= edges@);
            assert(endpoint_order(edges@) + singletons@.subrange(0, 0) =~= endpoint_order(edges@));
        }
        let mut s: usize = 0;
        while s < singletons.len()
            invariant
                s <= singletons@.len(),
                inner.wf(),
                inner.edge_seq() == edges@,
                inner.node_seq() == endpoint_order(edges@) + singletons@.subrange(0, s as int),
                forall|l: int|
                    0 <= l < edges@.len() ==> inner.adjacent(
                        (#[trigger] edges@[l]).0,
                        edges@[l].1,
                    ),
                forall|a: usize, b: usize|
                    #[trigger] inner.adjacent(a, b) ==> exists|l: int|
                        0 <= l < edges@.len() && ((#[trigger] edges@[l]) == (a, b) || edges@[l]
                            == (b, a)),
                forall|v: usize|
                    #[trigger] inner.contains_node(v) <==> edge_endpoint(edges@, v) || exists|
                        l: int,
                    |
                        0 <= l < s && #[trigger] singletons@[l] == v,
                edges_clean(edges@),
                forall|l: int| 0 <= l < s ==> !edge_endpoint(edges@, #[trigger] singletons@[l]),
                forall|l1: int, l2: int|
                    0 <= l1 < l2 < s ==> singletons@[l1] != singletons@[l2],
            decreases singletons@.len() - s,
        {
            let singleton = singletons[s];
            if inner.has_id(singleton) {
                proof {
                    assert(singletons@[s as int] == singleton);
                    if edge_endpoint(edges@, singleton) {
                        assert(!singletons_clean(edges@, singletons@));
                    } else {
                        let l = choose|l: int| 0 <= l < s && #[trigger] singletons@[l] == singleton;
                        assert(singletons@[l] == singletons@[s as int]);
                        assert(!singletons_clean(edges@, singletons@));
                    }
                }
                return Err(Error::DuplicateNode(singleton));
            }
            let ghost g0 = inner;
            match inner.add_node(singleton) {
                Ok(()) => (),
                Err(_) => vstd::pervasive::unreached(),
            }
            proof {
                crate::graph::default_graph::lemma_same_adjacency(g0, inner, singleton);
                assert(!edge_endpoint(edges@, singleton)) by {
                    if edge_endpoint(edges@, singleton) {
                        assert(g0.contains_node(singleton));
                    }
                }
                assert(singletons@[s as int] == singleton);
                assert(inner.node_seq() == endpoint_order(edges@) + singletons@.subrange(
                    0,
                    s + 1,
                )) by {
                    assert(inner.node_seq() == g0.node_seq().push(singleton));
                    assert((endpoint_order(edges@) + singletons@.subrange(0, s as int)).push(
                        singleton,
                    ) =~= endpoint_order(edges@) + singletons@.subrange(0, s + 1));
                }
            }
            s = s + 1;
        }
        proof {
            assert forall|l: int|
                0 <= l < singletons@.len() implies inner.contains_node(
                #[trigger] singletons@[l],
            ) by {}
            assert(singletons@.no_duplicates());
            assert(singletons@.subrange(0, singletons@.len() as int) =~= singletons@);
        }
        Ok(HashGraph { inner })
    }

    /// Whether there are no vertices.
    pub fn is_empty(&self) -> (r: bool)
        requires
            self.wf(),
        ensures
            r == (self.node_seq().len() == 0),
    {
        self.inner.is_empty()
    }

    /// The number of vertices.
    pub fn order(&self) -> (r: usize)
        requires
            self.wf(),
        ensures
            r == self.node_seq().len(),
    {
        self.inner.order()
    }

    /// The number of undirected edges.
    pub fn size(&self) -> (r: usize)
        requires
            self.wf(),
        ensures
            r == self.edge_seq().len(),
    {
        self.inner.size()
    }

    /// The vertices, in order of first appearance.
    pub fn nodes(&self) -> (r: Vec<usize>)
        requires
            self.wf(),
        ensures
            r@ == self.node_seq(),
    {
        self.inner.ids()
    }

    /// Whether `id` is a vertex.
    pub fn has_node(&self, id: usize) -> (r: bool)
        requires
            self.wf(),
        ensures
            r == self.contains_node(id),
    {
        self.inner.has_id(id)
    }

    /// The neighbors of `id`, in order of first appearance; absent ids
    /// report `MissingNode`.
    pub fn neighbors(&self, id: usize) -> (r: Result<Vec<usize>, Error>)
        requires
            self.wf(),
        ensures
            match r {
                Ok(v) => self.contains_node(id) && v@ == self.neighbors_spec(id),
                Err(e) => !self.contains_node(id) && e == Error::MissingNode(id),
            },
    {
        match self.inner.neighbors(id) {
            Ok(v) => Ok(v),
            Err(_) => Err(Error::MissingNode(id)),
        }
    }

    /// The degree of `id`; absent ids report `MissingNode`.
    pub fn degree(&self, id: usize) -> (r: Result<usize, Error>)
        requires
            self.wf(),
        ensures
            match r {
                Ok(d) => self.contains_node(id) && d == self.neighbors_spec(id).len(),
                Err(e) => !self.contains_node(id) && e == Error::MissingNode(id),
            },
    {
        match self.inner.degree(id) {
            Ok(d) => Ok(d),
            Err(_) => Err(Error::MissingNode(id)),
        }
    }

    /// The undirected edges, each once, in order of first appearance.
    pub fn edges(&self) -> (r: Vec<(usize, usize)>)
        requires
            self.wf(),
        ensures
            r@ == self.edge_seq(),
    {
        self.inner.edges()
    }

    /// Whether the edge `(sid, tid)` is present; a missing endpoint
    /// reports `MissingNode`, `sid` first.
    pub fn has_edge(&self, sid: usize, tid: usize) -> (r: Result<bool, Error>)
        requires
            self.wf(),
        ensures
            match r {
                Ok(b) => self.contains_node(sid) && self.contains_node(tid) && b == self.adjacent(
                    sid,
                    tid,
                ),
                Err(e) => (e == Error::MissingNode(sid) && !self.contains_node(sid)) || (e
                    == Error::MissingNode(tid) && self.contains_node(sid) && !self.contains_node(
                    tid,
                )),
            },
    {
        match self.inner.has_edge(sid, tid) {
            Ok(b) => Ok(b),
            Err(e) => match e {
                Error::UnknownId(x) => Err(Error::MissingNode(x)),
                _ => vstd::pervasive::unreached(),
            },
        }
    }
}

} // verus!
