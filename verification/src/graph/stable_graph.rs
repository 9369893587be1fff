use vstd::prelude::*;
use crate::graph::error::Error;

verus! {

/// The targets of every directed entry whose source is `node`, in storage
/// order.
pub open spec fn targets_of<E>(s: Seq<(usize, usize, E)>, node: usize) -> Seq<usize>
    decreases s.len(),
{
    if s.len() == 0 {
        Seq::empty()
    } else {
        (if s[0].0 == node {
            seq![s[0].1]
        } else {
            Seq::empty()
        }) + targets_of(s.drop_first(), node)
    }
}

/// Whether some directed entry runs from `source` to `target`.
pub open spec fn has_entry<E>(s: Seq<(usize, usize, E)>, source: usize, target: usize) -> bool {
    exists|k: int| 0 <= k < s.len() && (#[trigger] s[k]).0 == source && s[k].1 == target
}

/// Whether two weighted edges join the same two vertices, in either
/// direction.
pub open spec fn same_weighted_edge<E>(a: (usize, usize, E), b: (usize, usize, E)) -> bool {
    (a.0 == b.0 && a.1 == b.1) || (a.0 == b.1 && a.1 == b.0)
}

/// Whether a build input is well formed: no repeated vertex, every edge
/// terminal listed, no loop, and no undirected edge listed twice.
pub open spec fn build_input_clean<E>(
    node_list: Seq<usize>,
    edge_list: Seq<(usize, usize, E)>,
) -> bool {
    &&& node_list.no_duplicates()
    &&& forall|k: int|
        0 <= k < edge_list.len() ==> node_list.contains((#[trigger] edge_list[k]).0)
            && node_list.contains(edge_list[k].1) && edge_list[k].0 != edge_list[k].1
    &&& forall|k: int, l: int|
        0 <= l < k < edge_list.len() ==> !same_weighted_edge(
            #[trigger] edge_list[l],
            #[trigger] edge_list[k],
        )
}

/// Whether the weighted edge list is loop-free and repeats no edge in
/// either direction.
pub open spec fn edge_pairs_clean<E>(edge_list: Seq<(usize, usize, E)>) -> bool {
    &&& forall|k: int| 0 <= k < edge_list.len() ==> (#[trigger] edge_list[k]).0 != edge_list[k].1
    &&& forall|k: int, l: int|
        0 <= l < k < edge_list.len() ==> !same_weighted_edge(
            #[trigger] edge_list[l],
            #[trigger] edge_list[k],
        )
}

/// A directed entry already present among those built so far means the
/// edge about to be added repeats a listed one.
proof fn lemma_entry_repeats<E>(
    entries: Seq<(usize, usize, E)>,
    edge_list: Seq<(usize, usize, E)>,
    k: int,
    s: usize,
    t: usize,
)
    requires
        0 <= k < edge_list.len(),
        entries.len() == 2 * k,
        forall|m: int|
            0 <= m < entries.len() ==> ((#[trigger] entries[m]).0 == (if m % 2 == 0 {
                edge_list[m / 2].0
            } else {
                edge_list[m / 2].1
            }) && entries[m].1 == (if m % 2 == 0 {
                edge_list[m / 2].1
            } else {
                edge_list[m / 2].0
            })),
        has_entry(entries, s, t),
        edge_list[k].0 == s && edge_list[k].1 == t || edge_list[k].0 == t && edge_list[k].1 == s,
    ensures
        exists|l: int| 0 <= l < k && same_weighted_edge(#[trigger] edge_list[l], edge_list[k]),
{
    let m = choose|m: int|
        0 <= m < entries.len() && (#[trigger] entries[m]).0 == s && entries[m].1 == t;
    let l = m / 2;
    assert(0 <= l < k);
    assert(same_weighted_edge(edge_list[l], edge_list[k]));
}

/// An undirected graph with arbitrarily weighted edges. Vertices, their
/// neighbors and the edges are iterated in the order the build call listed
/// them; each edge stores its weight in both directions.
pub struct StableGraph<E> {
    nodes: Vec<usize>,
    entries: Vec<(usize, usize, E)>,
    edges: Vec<(usize, usize)>,
}

impl<E: Clone> StableGraph<E> {
    /// The vertices, in build order.
    pub closed spec fn node_seq(&self) -> Seq<usize> {
        self.nodes@
    }

    /// Whether `node` is a vertex.
    pub open spec fn contains_node(&self, node: usize) -> bool {
        self.node_seq().contains(node)
    }

    /// The directed entries: one per edge and direction, with the weight.
    pub closed spec fn entry_seq(&self) -> Seq<(usize, usize, E)> {
        self.entries@
    }

    /// The undirected edges, each once, in build order.
    pub closed spec fn edge_seq(&self) -> Seq<(usize, usize)> {
        self.edges@
    }

    pub closed spec fn wf(&self) -> bool {
        &&& self.nodes@.no_duplicates()
        &&& forall|k: int|
            0 <= k < self.entries@.len() ==> self.nodes@.contains(
                (#[trigger] self.entries@[k]).0,
            ) && self.nodes@.contains(self.entries@[k].1)
    }

    /// Build from a vertex list and a weighted edge list. Fails exactly
    /// when the input repeats a vertex (`DuplicateNode`), names an edge
    /// terminal outside the vertex list (`UnknownNode`), or repeats an
    /// edge in either direction or joins a vertex to itself
    /// (`DuplicateEdge`). On success the vertices, edges and directed
    /// entries are exactly those listed, in order.
    pub fn build(node_list: Vec<usize>, edge_list: Vec<(usize, usize, E)>) -> (r: Result<
        Self,
        Error,
    >)
        ensures
            match r {
                Ok(g) => {
                    &&& g.wf()
                    &&& build_input_clean(node_list@, edge_list@)
                    &&& g.node_seq() == node_list@
                    &&& g.edge_seq().len() == edge_list@.len()
                    &&& forall|k: int|
                        0 <= k < edge_list@.len() ==> g.edge_seq()[k] == ((
                        #[trigger] edge_list@[k]).0, edge_list@[k].1)
                    &&& g.entry_seq().len() == 2 * edge_list@.len()
                    &&& forall|m: int|
                        0 <= m < g.entry_seq().len() ==> ((#[trigger] g.entry_seq()[m]).0 == (
                        if m % 2 == 0 {
                            edge_list@[m / 2].0
                        } else {
                            edge_list@[m / 2].1
                        }) && g.entry_seq()[m].1 == (if m % 2 == 0 {
                            edge_list@[m / 2].1
                        } else {
                            edge_list@[m / 2].0
                        }))
                    &&& forall|k: int|
                        0 <= k < edge_list@.len() ==> has_entry(
                            g.entry_seq(),
                            (#[trigger] edge_list@[k]).0,
                            edge_list@[k].1,
                        ) && has_entry(g.entry_seq(), edge_list@[k].1, edge_list@[k].0)
                },
                Err(e) => {
                    &&& !build_input_clean(node_list@, edge_list@)
                    &&& (e matches Error::DuplicateNode(_) ==> !node_list@.no_duplicates())
                    &&& (e == Error::UnknownNode ==> node_list@.no_duplicates() && exists|k: int|
                        0 <= k < edge_list@.len() && (!node_list@.contains(
                            (#[trigger] edge_list@[k]).0,
                        ) || !node_list@.contains(edge_list@[k].1)))
                    &&& (e matches Error::DuplicateEdge(_, _) ==> node_list@.no_duplicates()
                        && !edge_pairs_clean(edge_list@))
                    &&& (e == Error::UnknownNode || (e matches Error::DuplicateNode(_)) || (
                    e matches Error::DuplicateEdge(_, _)))
                },
            },
    {
        let mut nodes: Vec<usize> = Vec::new();
        let mut i: usize = 0;
        while i < node_list.len()
            invariant
                i <= node_list@.len(),
                nodes@ == node_list@.subrange(0, i as int),
                nodes@.no_duplicates(),
            decreases node_list@.len() - i,
        {
            let node = node_list[i];
            if stable_contains(&nodes, node) {
                proof {
                    let j = choose|j: int| 0 <= j < nodes@.len() && nodes@[j] == node;
                    assert(node_list@[j] == node && node_list@[i as int] == node);
                    assert(!node_list@.no_duplicates());
                }
                return Err(Error::DuplicateNode(node));
            }
            let ghost n0 = nodes@;
            nodes.push(node);
            proof {
                assert(nodes@ =~= node_list@.subrange(0, i + 1));
                assert forall|a: int, b: int|
                    0 <= a < b < nodes@.len() implies nodes@[a] != nodes@[b] by {
                    if b == nodes@.len() - 1 {
                        assert(nodes@[b] == node);
                        assert(n0[a] == nodes@[a]);
                        assert(n0.contains(n0[a]));
                    }
                }
            }
            i = i + 1;
        }
        proof {
            assert(nodes@ =~= node_list@);
        }
        let mut entries: Vec<(usize, usize, E)> = Vec::new();
        let mut edges: Vec<(usize, usize)> = Vec::new();
        let total: usize = edge_list.len();
        let mut k: usize = 0;
        let mut rest = edge_list;
        while rest.len() > 0
            invariant
                nodes@ == node_list@,
                nodes@.no_duplicates(),
                forall|l: int|
                    0 <= l < entries@.len() ==> nodes@.contains((#[trigger] entries@[l]).0)
                        && nodes@.contains(entries@[l].1),
                total == edge_list@.len(),
                k + rest@.len() == total,
                rest@ == edge_list@.skip(k as int),
                edges@.len() == k,
                forall|l: int|
                    0 <= l < k ==> edges@[l] == ((#[trigger] edge_list@[l]).0, edge_list@[l].1),
                entries@.len() == 2 * k,
                forall|m: int|
                    0 <= m < entries@.len() ==> ((#[trigger] entries@[m]).0 == (if m % 2 == 0 {
                        edge_list@[m / 2].0
                    } else {
                        edge_list@[m / 2].1
                    }) && entries@[m].1 == (if m % 2 == 0 {
                        edge_list@[m / 2].1
                    } else {
                        edge_list@[m / 2].0
                    })),
                forall|l: int|
                    0 <= l < k ==> node_list@.contains((#[trigger] edge_list@[l]).0)
                        && node_list@.contains(edge_list@[l].1) && edge_list@[l].0
                        != edge_list@[l].1,
                forall|l1: int, l2: int|
                    0 <= l1 < l2 < k ==> !same_weighted_edge(
                        #[trigger] edge_list@[l1],
                        #[trigger] edge_list@[l2],
                    ),
                forall|l: int|
                    0 <= l < k ==> has_entry(
                        entries@,
                        (#[trigger] edge_list@[l]).0,
                        edge_list@[l].1,
                    ) && has_entry(entries@, edge_list@[l].1, edge_list@[l].0),
            decreases rest@.len(),
        {
            let (source, target, weight) = rest.remove(0);
            proof {
                assert(edge_list@.skip(k as int)[0] == edge_list@[k as int]);
                assert(edge_list@[k as int] == (source, target, weight));
                assert(rest@ =~= edge_list@.skip(k + 1));
            }
            if !stable_contains(&nodes, source) {
                proof {
                    assert(!node_list@.contains(edge_list@[k as int].0));
                }
                return Err(Error::UnknownNode);
            }
            if stable_has_entry(&entries, source, target) {
                proof {
                    lemma_entry_repeats(entries@, edge_list@, k as int, source, target);
                    assert(!edge_pairs_clean(edge_list@)) by {
                        let l = choose|l: int|
                            0 <= l < k && same_weighted_edge(
                                #[trigger] edge_list@[l],
                                edge_list@[k as int],
                            );
                        assert(same_weighted_edge(edge_list@[l], edge_list@[k as int]));
                    }
                }
                return Err(Error::DuplicateEdge(source, target));
            }
            if !stable_contains(&nodes, target) {
                proof {
                    assert(!node_list@.contains(edge_list@[k as int].1));
                }
                return Err(Error::UnknownNode);
            }
            if stable_has_entry(&entries, target, source) {
                proof {
                    lemma_entry_repeats(entries@, edge_list@, k as int, target, source);
                    assert(!edge_pairs_clean(edge_list@)) by {
                        let l = choose|l: int|
                            0 <= l < k && same_weighted_edge(
                                #[trigger] edge_list@[l],
                                edge_list@[k as int],
                            );
                        assert(same_weighted_edge(edge_list@[l], edge_list@[k as int]));
                    }
                }
                return Err(Error::DuplicateEdge(source, target));
            }
            if source == target {
                proof {
                    assert(!edge_pairs_clean(edge_list@)) by {
                        assert(edge_list@[k as int].0 == edge_list@[k as int].1);
                    }
                }
                return Err(Error::DuplicateEdge(source, target));
            }
            proof {
                assert forall|l1: int|
                    0 <= l1 < k implies !same_weighted_edge(
                    #[trigger] edge_list@[l1],
                    edge_list@[k as int],
                ) by {
                    if same_weighted_edge(edge_list@[l1], edge_list@[k as int]) {
                        assert(entries@[2 * l1].0 == edge_list@[l1].0 && entries@[2 * l1].1
                            == edge_list@[l1].1);
                        assert(has_entry(entries@, edge_list@[l1].0, edge_list@[l1].1));
                    }
                }
            }
            let ghost e0 = entries@;
            entries.push((source, target, weight.clone()));
            entries.push((target, source, weight));
            edges.push((source, target));
            proof {
                assert(entries@[entries@.len() - 2].0 == source && entries@[entries@.len()
                    - 2].1 == target);
                assert(entries@[entries@.len() - 1].0 == target && entries@[entries@.len()
                    - 1].1 == source);
                assert forall|m: int|
                    0 <= m < entries@.len() implies ((#[trigger] entries@[m]).0 == (if m % 2
                        == 0 {
                        edge_list@[m / 2].0
                    } else {
                        edge_list@[m / 2].1
                    }) && entries@[m].1 == (if m % 2 == 0 {
                        edge_list@[m / 2].1
                    } else {
                        edge_list@[m / 2].0
                    })) by {
                    if m < 2 * k {
                        assert(entries@[m] == e0[m]);
                    } else if m == 2 * k {
                        assert(entries@[m].0 == source && entries@[m].1 == target);
                    } else {
                        assert(m == 2 * k + 1);
                    }
                }
                assert forall|l: int|
                    0 <= l < k + 1 implies has_entry(
                    entries@,
                    (#[trigger] edge_list@[l]).0,
                    edge_list@[l].1,
                ) && has_entry(entries@, edge_list@[l].1, edge_list@[l].0) by {
                    if l < k {
                        let m1 = choose|m: int|
                            0 <= m < e0.len() && (#[trigger] e0[m]).0 == edge_list@[l].0
                                && e0[m].1 == edge_list@[l].1;
                        assert(entries@[m1] == e0[m1]);
                        let m2 = choose|m: int|
                            0 <= m < e0.len() && (#[trigger] e0[m]).0 == edge_list@[l].1
                                && e0[m].1 == edge_list@[l].0;
                        assert(entries@[m2] == e0[m2]);
                    } else {
                        assert(entries@[2 * k].0 == source && entries@[2 * k].1 == target);
                        assert(entries@[2 * k + 1].0 == target && entries@[2 * k + 1].1
                            == source);
                    }
                }
                assert(k < total);
            }
            k = k + 1;
        }
        Ok(StableGraph { nodes, entries, edges })
    }

    /// Whether there are no vertices.
    pub fn is_empty(&self) -> (r: bool)
        ensures
            r == (self.node_seq().len() == 0),
    {
        self.nodes.len() == 0
    }

    /// The number of vertices.
    pub fn order(&self) -> (r: usize)
        ensures
            r == self.node_seq().len(),
    {
        self.nodes.len()
    }

    /// The number of undirected edges.
    pub fn size(&self) -> (r: usize)
        ensures
            r == self.edge_seq().len(),
    {
        self.edges.len()
    }

    /// The vertices, in build order.
    pub fn nodes(&self) -> (r: Vec<usize>)
        ensures
            r@ == self.node_seq(),
    {
        let mut r: Vec<usize> = Vec::new();
        let mut i: usize = 0;
        while i < self.nodes.len()
            invariant
                i <= self.nodes@.len(),
                r@ == self.nodes@.subrange(0, i as int),
            decreases self.nodes@.len() - i,
        {
            r.push(self.nodes[i]);
            proof {
                assert(r@ =~= self.nodes@.subrange(0, i + 1));
            }
            i = i + 1;
        }
        proof {
            assert(r@ =~= self.nodes@);
        }
        r
    }

    /// Whether `node` is a vertex.
    pub fn has_node(&self, node: usize) -> (r: bool)
        ensures
            r == self.contains_node(node),
    {
        stable_contains(&self.nodes, node)
    }

    /// The neighbors of `node`, in the order its edges were listed; an
    /// absent vertex reports `UnknownNode`.
    pub fn neighbors(&self, node: usize) -> (r: Result<Vec<usize>, Error>)
        ensures
            match r {
                Ok(v) => self.contains_node(node) && v@ == targets_of(self.entry_seq(), node),
                Err(e) => !self.contains_node(node) && e == Error::UnknownNode,
            },
    {
        if !stable_contains(&self.nodes, node) {
            return Err(Error::UnknownNode);
        }
        let mut r: Vec<usize> = Vec::new();
        proof {
            assert(self.entries@.skip(0) =~= self.entries@);
            assert(r@ + targets_of(self.entries@, node) =~= targets_of(self.entries@, node));
        }
        let mut i: usize = 0;
        while i < self.entries.len()
            invariant
                i <= self.entries@.len(),
                r@ + targets_of(self.entries@.skip(i as int), node) == targets_of(
                    self.entries@,
                    node,
                ),
            decreases self.entries@.len() - i,
        {
            let ghost before = r@;
            let ghost tail = self.entries@.skip(i as int);
            if self.entries[i].0 == node {
                r.push(self.entries[i].1);
            }
            proof {
                assert(tail[0] == self.entries@[i as int]);
                assert(tail.drop_first() =~= self.entries@.skip(i + 1));
                assert(targets_of(tail, node) == (if tail[0].0 == node {
                    seq![tail[0].1]
                } else {
                    Seq::<usize>::empty()
                }) + targets_of(self.entries@.skip(i + 1), node));
                assert(r@ + targets_of(self.entries@.skip(i + 1), node) =~= targets_of(
                    self.entries@,
                    node,
                ));
            }
            i = i + 1;
        }
        proof {
            assert(self.entries@.skip(self.entries@.len() as int) =~= Seq::<
                (usize, usize, E),
            >::empty());
            assert(r@ =~= targets_of(self.entries@, node));
        }
        Ok(r)
    }

    /// The degree of `node`; an absent vertex reports `UnknownNode`.
    pub fn degree(&self, node: usize) -> (r: Result<usize, Error>)
        ensures
            match r {
                Ok(d) => self.contains_node(node) && d == targets_of(
                    self.entry_seq(),
                    node,
                ).len(),
                Err(e) => !self.contains_node(node) && e == Error::UnknownNode,
            },
    {
        match self.neighbors(node) {
            Ok(v) => Ok(v.len()),
            Err(e) => Err(e),
        }
    }

    /// The undirected edges, each once, in build order.
    pub fn edges(&self) -> (r: Vec<(usize, usize)>)
        ensures
            r@ == self.edge_seq(),
    {
        let mut r: Vec<(usize, usize)> = Vec::new();
        let mut i: usize = 0;
        while i < self.edges.len()
            invariant
                i <= self.edges@.len(),
                r@ == self.edges@.subrange(0, i as int),
            decreases self.edges@.len() - i,
        {
            r.push(self.edges[i]);
            proof {
                assert(r@ =~= self.edges@.subrange(0, i + 1));
            }
            i = i + 1;
        }
        proof {
            assert(r@ =~= self.edges@);
        }
        r
    }

    /// Whether `source` and `target` are joined by an edge; looked up from
    /// the source's side, with `UnknownNode` for an absent source, or for
    /// an absent target when no entry decides first.
    pub fn has_edge(&self, source: usize, target: usize) -> (r: Result<bool, Error>)
        ensures
            match r {
                Ok(b) => self.contains_node(source) && b == has_entry(
                    self.entry_seq(),
                    source,
                    target,
                ) && (b || self.contains_node(target)),
                Err(e) => e == Error::UnknownNode && (!self.contains_node(source) || (!has_entry(
                    self.entry_seq(),
                    source,
                    target,
                ) && !self.contains_node(target))),
            },
    {
        if !stable_contains(&self.nodes, source) {
            return Err(Error::UnknownNode);
        }
        if stable_has_entry(&self.entries, source, target) {
            Ok(true)
        } else if stable_contains(&self.nodes, target) {
            Ok(false)
        } else {
            Err(Error::UnknownNode)
        }
    }

    /// The weight stored from `source` towards `target`: `Some` of a
    /// reference to it for an edge, `None` for two known but unconnected
    /// vertices, and `UnknownNode` otherwise.
    pub fn weight(&self, source: usize, target: usize) -> (r: Result<Option<&E>, Error>)
        ensures
            match r {
                Ok(w) => match w {
                    Some(value) => exists|m: int|
                        0 <= m < self.entry_seq().len() && (#[trigger] self.entry_seq()[m]).0
                            == source && self.entry_seq()[m].1 == target && self.entry_seq()[m].2
                            == *value,
                    None => self.contains_node(source) && self.contains_node(target) && !has_entry(
                        self.entry_seq(),
                        source,
                        target,
                    ),
                },
                Err(e) => e == Error::UnknownNode && (!self.contains_node(source) || (!has_entry(
                    self.entry_seq(),
                    source,
                    target,
                ) && !self.contains_node(target))),
            },
    {
        if !stable_contains(&self.nodes, source) {
            return Err(Error::UnknownNode);
        }
        let mut i: usize = 0;
        while i < self.entries.len()
            invariant
                i <= self.entries@.len(),
                forall|m: int|
                    0 <= m < i ==> !((#[trigger] self.entries@[m]).0 == source
                        && self.entries@[m].1 == target),
            decreases self.entries@.len() - i,
        {
            if self.entries[i].0 == source && self.entries[i].1 == target {
                proof {
                    assert(0 <= i < self.entry_seq().len() && (self.entry_seq()[i as int]).0
                        == source && self.entry_seq()[i as int].1 == target);
                }
                return Ok(Some(&self.entries[i].2));
            }
            i = i + 1;
        }
        if stable_contains(&self.nodes, target) {
            Ok(None)
        } else {
            Err(Error::UnknownNode)
        }
    }
}

/// Whether the vertex list holds `x`.
fn stable_contains(v: &Vec<usize>, x: usize) -> (r: bool)
    ensures
        r == v@.contains(x),
{
    let mut i: usize = 0;
    while i < v.len()
        invariant
            i <= v@.len(),
            forall|j: int| 0 <= j < i ==> v@[j] != x,
        decreases v@.len() - i,
    {
        if v[i] == x {
            return true;
        }
        i = i + 1;
    }
    false
}

/// Whether a directed entry from `source` to `target` is stored.
fn stable_has_entry<E>(entries: &Vec<(usize, usize, E)>, source: usize, target: usize) -> (r:
    bool)
    ensures
        r == has_entry(entries@, source, target),
{
    let mut i: usize = 0;
    while i < entries.len()
        invariant
            i <= entries@.len(),
            forall|m: int|
                0 <= m < i ==> !((#[trigger] entries@[m]).0 == source && entries@[m].1
                    == target),
        decreases entries@.len() - i,
    {
        if entries[i].0 == source && entries[i].1 == target {
            return true;
        }
        i = i + 1;
    }
    false
}

/// Some directed entry runs from `node` to `t` exactly when `t` shows up
/// among `node`'s targets.
proof fn lemma_targets_has_entry<E>(s: Seq<(usize, usize, E)>, node: usize, t: usize)
    ensures
        targets_of(s, node).contains(t) <==> has_entry(s, node, t),
    decreases s.len(),
{
    if s.len() > 0 {
        lemma_targets_has_entry(s.drop_first(), node, t);
        let head: Seq<usize> = if s[0].0 == node {
            seq![s[0].1]
        } else {
            Seq::empty()
        };
        let tail = targets_of(s.drop_first(), node);
        assert(targets_of(s, node) == head + tail);
        if targets_of(s, node).contains(t) {
            let k = choose|k: int|
                0 <= k < targets_of(s, node).len() && targets_of(s, node)[k] == t;
            if k < head.len() {
                assert(s[0].0 == node && s[0].1 == t);
            } else {
                assert(tail[k - head.len()] == t);
                assert(tail.contains(t));
                let m = choose|m: int|
                    0 <= m < s.drop_first().len() && (#[trigger] s.drop_first()[m]).0 == node
                        && s.drop_first()[m].1 == t;
                assert(s[m + 1] == s.drop_first()[m]);
            }
        }
        if has_entry(s, node, t) {
            let m = choose|m: int| 0 <= m < s.len() && (#[trigger] s[m]).0 == node && s[m].1 == t;
            if m == 0 {
                assert(targets_of(s, node)[0] == t);
            } else {
                assert(s.drop_first()[m - 1] == s[m]);
                assert(has_entry(s.drop_first(), node, t));
                assert(tail.contains(t));
                let k = choose|k: int| 0 <= k < tail.len() && tail[k] == t;
                assert(targets_of(s, node)[head.len() + k] == t);
            }
        }
    }
}

impl<E: Clone> crate::graph::graph::Graph for StableGraph<E> {
    open spec fn wf(&self) -> bool {
        StableGraph::wf(self)
    }

    open spec fn node_seq(&self) -> Seq<usize> {
        StableGraph::node_seq(self)
    }

    open spec fn neighbors_spec(&self, id: usize) -> Seq<usize> {
        targets_of(StableGraph::entry_seq(self), id)
    }

    open spec fn edge_seq(&self) -> Seq<(usize, usize)> {
        StableGraph::edge_seq(self)
    }

    fn is_empty(&self) -> (r: bool) {
        StableGraph::is_empty(self)
    }

    fn order(&self) -> (r: usize) {
        StableGraph::order(self)
    }

    fn size(&self) -> (r: usize) {
        StableGraph::size(self)
    }

    fn ids(&self) -> (r: Vec<usize>) {
        StableGraph::nodes(self)
    }

    fn has_id(&self, id: usize) -> (r: bool) {
        StableGraph::has_node(self, id)
    }

    fn neighbors(&self, id: usize) -> (r: Result<Vec<usize>, Error>) {
        StableGraph::neighbors(self, id)
    }

    fn degree(&self, id: usize) -> (r: Result<usize, Error>) {
        StableGraph::degree(self, id)
    }

    fn edges(&self) -> (r: Vec<(usize, usize)>) {
        StableGraph::edges(self)
    }

    fn has_edge(&self, sid: usize, tid: usize) -> (r: Result<bool, Error>) {
        let r = StableGraph::has_edge(self, sid, tid);
        proof {
            lemma_targets_has_entry(self.entries@, sid, tid);
            if r is Ok && r.unwrap() {
                let m = choose|m: int|
                    0 <= m < self.entries@.len() && (#[trigger] self.entries@[m]).0 == sid
                        && self.entries@[m].1 == tid;
                assert(self.nodes@.contains(self.entries@[m].1));
            }
        }
        r
    }
}

impl<E: Clone> crate::graph::weighted_graph::WeightedGraph<E> for StableGraph<E> {
    fn weight(&self, source: usize, target: usize) -> (r: Result<Option<&E>, Error>) {
        let r = StableGraph::weight(self, source, target);
        proof {
            lemma_targets_has_entry(self.entries@, source, target);
            if r is Ok && r.unwrap() is Some {
                let m = choose|m: int|
                    0 <= m < self.entries@.len() && (#[trigger] self.entries@[m]).0 == source
                        && self.entries@[m].1 == target;
                assert(has_entry(self.entries@, source, target));
                assert(self.nodes@.contains(self.entries@[m].0));
            }
        }
        r
    }
}

} // verus!
