use vstd::prelude::*;
use crate::graph::error::Error;
use crate::matching::blossom::copy_ids;

verus! {

/// Whether two source-target pairs share a terminal.
pub open spec fn touches(a: (usize, usize), b: (usize, usize)) -> bool {
    a.0 == b.0 || a.0 == b.1 || a.1 == b.0 || a.1 == b.1
}

/// Whether some two distinct pairs of the list share a terminal.
pub open spec fn shares_terminal(s: Seq<(usize, usize)>) -> bool {
    exists|l: int, k: int| 0 <= l < k < s.len() && touches(#[trigger] s[l], #[trigger] s[k])
}

/// An undirected graph in which every vertex has degree one: a set of
/// disjoint edges, each stored once as a source-target pair.
pub struct Matching {
    nodes: Vec<usize>,
    edges: Vec<(usize, usize)>,
}

impl Matching {
    /// The vertices, in order of first appearance.
    pub closed spec fn node_seq(&self) -> Seq<usize> {
        self.nodes@
    }

    /// The stored pairs, in insertion order.
    pub closed spec fn edge_seq(&self) -> Seq<(usize, usize)> {
        self.edges@
    }

    /// Whether `node` is an endpoint of some pair.
    pub open spec fn contains_node(&self, node: usize) -> bool {
        self.node_seq().contains(node)
    }

    pub closed spec fn wf(&self) -> bool {
        &&& self.nodes@.no_duplicates()
        &&& forall|k: int|
            0 <= k < self.edges@.len() ==> self.nodes@.contains((#[trigger] self.edges@[k]).0)
                && self.nodes@.contains(self.edges@[k].1)
        &&& forall|k: int, l: int|
            0 <= k < l < self.edges@.len() ==> (#[trigger] self.edges@[k]).0 != (
            #[trigger] self.edges@[l]).0
    }

    /// Build a matching from source-target pairs. Fails with `InvalidEdge`
    /// exactly when two pairs of the input share a terminal, so that every
    /// built matching really gives each of its vertices degree one.
    pub fn build(spec: Vec<(usize, usize)>) -> (r: Result<Self, Error>)
        ensures
            match r {
                Ok(m) => {
                    &&& m.wf()
                    &&& m.edge_seq() == spec@
                    &&& !shares_terminal(spec@)
                    &&& forall|v: usize|
                        #[trigger] m.contains_node(v) <==> exists|k: int|
                            0 <= k < spec@.len() && ((#[trigger] spec@[k]).0 == v || spec@[k].1
                                == v)
                },
                Err(e) => {
                    &&& e == Error::InvalidEdge
                    &&& shares_terminal(spec@)
                },
            },
    {
        let mut nodes: Vec<usize> = Vec::new();
        let mut edges: Vec<(usize, usize)> = Vec::new();
        let mut k: usize = 0;
        while k < spec.len()
            invariant
                k <= spec@.len(),
                nodes@.no_duplicates(),
                edges@ == spec@.subrange(0, k as int),
                forall|j: int|
                    0 <= j < edges@.len() ==> nodes@.contains((#[trigger] edges@[j]).0)
                        && nodes@.contains(edges@[j].1),
                forall|v: usize|
                    #[trigger] nodes@.contains(v) <==> exists|j: int|
                        0 <= j < k && ((#[trigger] spec@[j]).0 == v || spec@[j].1 == v),
                !shares_terminal(spec@.subrange(0, k as int)),
                forall|j: int, l: int|
                    0 <= j < l < edges@.len() ==> (#[trigger] edges@[j]).0 != (
                    #[trigger] edges@[l]).0,
            decreases spec@.len() - k,
        {
            let (source, target) = spec[k];
            if matching_contains(&nodes, source) || matching_contains(&nodes, target) {
                proof {
                    assert(spec@[k as int].0 == source && spec@[k as int].1 == target);
                    if nodes@.contains(source) {
                        let j = choose|j: int|
                            0 <= j < k && ((#[trigger] spec@[j]).0 == source || spec@[j].1
                                == source);
                        assert(touches(spec@[j], spec@[k as int]));
                    } else {
                        let j = choose|j: int|
                            0 <= j < k && ((#[trigger] spec@[j]).0 == target || spec@[j].1
                                == target);
                        assert(touches(spec@[j], spec@[k as int]));
                    }
                }
                return Err(Error::InvalidEdge);
            }
            let ghost n0 = nodes@;
            nodes.push(source);
            proof {
                crate::graph::default_graph::lemma_push_contains(n0, source);
                lemma_push_unique(n0, source);
            }
            let ghost n1 = nodes@;
            if !matching_contains(&nodes, target) {
                nodes.push(target);
                proof {
                    crate::graph::default_graph::lemma_push_contains(n1, target);
                    lemma_push_unique(n1, target);
                }
            }
            let ghost e0 = edges@;
            edges.push((source, target));
            proof {
                assert(edges@ =~= spec@.subrange(0, k + 1));
                assert forall|v: usize|
                    #[trigger] nodes@.contains(v) <==> exists|j: int|
                        0 <= j < k + 1 && ((#[trigger] spec@[j]).0 == v || spec@[j].1 == v) by {
                    if nodes@.contains(v) {
                        if n0.contains(v) {
                            let j = choose|j: int|
                                0 <= j < k && ((#[trigger] spec@[j]).0 == v || spec@[j].1 == v);
                            assert(0 <= j < k + 1);
                        } else {
                            assert(v == source || v == target);
                            assert(spec@[k as int].0 == source && spec@[k as int].1 == target);
                        }
                    } else {
                        if exists|j: int|
                            0 <= j < k + 1 && ((#[trigger] spec@[j]).0 == v || spec@[j].1 == v) {
                            let j = choose|j: int|
                                0 <= j < k + 1 && ((#[trigger] spec@[j]).0 == v || spec@[j].1
                                    == v);
                            if j < k {
                                assert(n0.contains(v));
                            } else {
                                assert(v == source || v == target);
                            }
                        }
                    }
                }
                assert forall|j: int, l: int|
                    0 <= j < l < edges@.len() implies (#[trigger] edges@[j]).0 != (
                #[trigger] edges@[l]).0 by {
                    if l == edges@.len() - 1 {
                        assert(edges@[l].0 == source);
                        assert(edges@[j] == e0[j]);
                        assert(n0.contains(e0[j].0));
                    }
                }
                assert(!shares_terminal(spec@.subrange(0, k + 1))) by {
                    let pre = spec@.subrange(0, k + 1);
                    if shares_terminal(pre) {
                        let (l, j) = choose|l: int, j: int|
                            0 <= l < j < pre.len() && touches(#[trigger] pre[l], #[trigger] pre[j]);
                        assert(pre[l] == spec@[l] && pre[j] == spec@[j]);
                        if j < k {
                            assert(spec@.subrange(0, k as int)[l] == spec@[l]);
                            assert(spec@.subrange(0, k as int)[j] == spec@[j]);
                        } else {
                            assert(j == k);
                            assert(spec@[j].0 == source && spec@[j].1 == target);
                            assert(n0.contains(spec@[l].0) && n0.contains(spec@[l].1)) by {
                                assert(0 <= l < k && (spec@[l].0 == spec@[l].0 || spec@[l].1
                                    == spec@[l].0));
                                assert(0 <= l < k && (spec@[l].0 == spec@[l].1 || spec@[l].1
                                    == spec@[l].1));
                            }
                        }
                    }
                }
            }
            k = k + 1;
        }
        proof {
            assert(edges@ =~= spec@);
            assert(spec@.subrange(0, spec@.len() as int) =~= spec@);
        }
        Ok(Matching { nodes, edges })
    }

    /// Whether there are no vertices.
    pub fn is_empty(&self) -> (r: bool)
        ensures
            r == (self.node_seq().len() == 0),
    {
        self.nodes.len() == 0
    }

    /// The number of vertices (twice the number of pairs when every target
    /// is fresh).
    pub fn order(&self) -> (r: usize)
        ensures
            r == self.node_seq().len(),
    {
        self.nodes.len()
    }

    /// The number of pairs.
    pub fn size(&self) -> (r: usize)
        ensures
            r == self.edge_seq().len(),
    {
        self.edges.len()
    }

    /// The vertices, in order of first appearance.
    pub fn nodes(&self) -> (r: Vec<usize>)
        ensures
            r@ == self.node_seq(),
    {
        copy_ids(&self.nodes)
    }

    /// Whether `node` is an endpoint of some pair.
    pub fn has_node(&self, node: usize) -> (r: bool)
        ensures
            r == self.contains_node(node),
    {
        matching_contains(&self.nodes, node)
    }

    /// The single neighbor of a pair's source. Only sources have neighbor
    /// lists; any other vertex reports `UnknownNode`.
    pub fn neighbors(&self, node: usize) -> (r: Result<Vec<usize>, Error>)
        ensures
            match r {
                Ok(v) => exists|k: int|
                    0 <= k < self.edge_seq().len() && (#[trigger] self.edge_seq()[k]).0 == node
                        && v@ == seq![self.edge_seq()[k].1],
                Err(e) => e == Error::UnknownNode && forall|k: int|
                    0 <= k < self.edge_seq().len() ==> (#[trigger] self.edge_seq()[k]).0 != node,
            },
    {
        let mut i: usize = 0;
        while i < self.edges.len()
            invariant
                i <= self.edges@.len(),
                forall|j: int| 0 <= j < i ==> (#[trigger] self.edges@[j]).0 != node,
            decreases self.edges@.len() - i,
        {
            if self.edges[i].0 == node {
                let mut v: Vec<usize> = Vec::new();
                v.push(self.edges[i].1);
                proof {
                    assert(v@ =~= seq![self.edge_seq()[i as int].1]);
                }
                return Ok(v);
            }
            i = i + 1;
        }
        Err(Error::UnknownNode)
    }

    /// Every endpoint has degree one; an absent vertex reports
    /// `UnknownNode`.
    pub fn degree(&self, node: usize) -> (r: Result<usize, Error>)
        ensures
            match r {
                Ok(d) => self.contains_node(node) && d == 1,
                Err(e) => e == Error::UnknownNode && !self.contains_node(node),
            },
    {
        if matching_contains(&self.nodes, node) {
            Ok(1)
        } else {
            Err(Error::UnknownNode)
        }
    }

    /// The stored pairs, in insertion order.
    pub fn edges(&self) -> (r: Vec<(usize, usize)>)
        ensures
            r@ == self.edge_seq(),
    {
        let mut r: Vec<(usize, usize)> = Vec::new();
        let mut i: usize = 0;
        while i < self.edges.len()
            invariant
                i <= self.edges@.len(),
                r@ == self.edges@.subrange(0, i as int),
            decreases self.edges@.len() - i,
        {
            r.push(self.edges[i]);
            proof {
                assert(r@ =~= self.edges@.subrange(0, i + 1));
            }
            i = i + 1;
        }
        proof {
            assert(r@ =~= self.edges@);
        }
        r
    }

    /// Whether `source` and `target` are paired. The lookup mirrors the
    /// storage: the pair keyed by `source` decides first; only when
    /// `source` keys no pair is the pair keyed by `target` consulted. A
    /// mismatch is `false` when the other vertex is known and
    /// `UnknownNode` when it is not.
    pub fn has_edge(&self, source: usize, target: usize) -> (r: Result<bool, Error>)
        ensures
            match r {
                Ok(b) => {
                    ||| (self.mate_of(source) == Some(target) && b)
                    ||| (self.mate_of(source).is_some() && self.mate_of(source).unwrap() != target
                        && self.contains_node(target) && !b)
                    ||| (self.mate_of(source).is_none() && self.mate_of(target) == Some(source)
                        && b)
                    ||| (self.mate_of(source).is_none() && self.mate_of(target).is_some()
                        && self.mate_of(target).unwrap() != source && self.contains_node(source)
                        && !b)
                },
                Err(e) => {
                    &&& e == Error::UnknownNode
                    &&& {
                        ||| (self.mate_of(source).is_some() && self.mate_of(source).unwrap()
                            != target && !self.contains_node(target))
                        ||| (self.mate_of(source).is_none() && self.mate_of(target).is_some()
                            && self.mate_of(target).unwrap() != source && !self.contains_node(
                            source,
                        ))
                        ||| (self.mate_of(source).is_none() && self.mate_of(target).is_none())
                    }
                },
            },
    {
        match self.find_source(source) {
            Some(ix) => {
                proof {
                    lemma_first_value_at(self.edges@, source, ix as int);
                }
                let mate = self.edges[ix].1;
                if mate == target {
                    Ok(true)
                } else if matching_contains(&self.nodes, target) {
                    Ok(false)
                } else {
                    Err(Error::UnknownNode)
                }
            },
            None => {
                proof {
                    lemma_first_value_none(self.edges@, source);
                }
                match self.find_source(target) {
                    Some(ix) => {
                        proof {
                            lemma_first_value_at(self.edges@, target, ix as int);
                        }
                        let mate = self.edges[ix].1;
                        if mate == source {
                            Ok(true)
                        } else if matching_contains(&self.nodes, source) {
                            Ok(false)
                        } else {
                            Err(Error::UnknownNode)
                        }
                    },
                    None => {
                        proof {
                            lemma_first_value_none(self.edges@, target);
                        }
                        Err(Error::UnknownNode)
                    },
                }
            },
        }
    }

    /// The mate stored for the pair keyed by `key`, if any.
    pub closed spec fn mate_of(&self, key: usize) -> Option<usize> {
        first_value(self.edges@, key)
    }

    /// The position of the pair whose source is `key`, if any.
    fn find_source(&self, key: usize) -> (r: Option<usize>)
        ensures
            match r {
                Some(ix) => ix < self.edges@.len() && self.edges@[ix as int].0 == key && forall|
                    j: int,
                |
                    0 <= j < ix ==> (#[trigger] self.edges@[j]).0 != key,
                None => forall|j: int| 0 <= j < self.edges@.len() ==> (#[trigger] self.edges@[j]).0
                    != key,
            },
    {
        let mut i: usize = 0;
        while i < self.edges.len()
            invariant
                i <= self.edges@.len(),
                forall|j: int| 0 <= j < i ==> (#[trigger] self.edges@[j]).0 != key,
            decreases self.edges@.len() - i,
        {
            if self.edges[i].0 == key {
                return Some(i);
            }
            i = i + 1;
        }
        None
    }
}

/// Whether the node list holds `x`.
fn matching_contains(v: &Vec<usize>, x: usize) -> (r: bool)
    ensures
        r == v@.contains(x),
{
    let mut i: usize = 0;
    while i < v.len()
        invariant
            i <= v@.len(),
            forall|j: int| 0 <= j < i ==> v@[j] != x,
        decreases v@.len() - i,
    {
        if v[i] == x {
            return true;
        }
        i = i + 1;
    }
    false
}

/// A pushed fresh element keeps the node list duplicate-free.
proof fn lemma_push_unique(s: Seq<usize>, x: usize)
    requires
        s.no_duplicates(),
        !s.contains(x),
    ensures
        s.push(x).no_duplicates(),
{
    assert forall|a: int, b: int|
        0 <= a < b < s.push(x).len() implies s.push(x)[a] != s.push(x)[b] by {
        if b == s.len() {
            assert(s.push(x)[b] == x);
            assert(s.push(x)[a] == s[a]);
            assert(s.contains(s[a]));
        }
    }
}

/// The value of the first pair keyed by `key`, scanning front to back.
pub open spec fn first_value(s: Seq<(usize, usize)>, key: usize) -> Option<usize>
    decreases s.len(),
{
    if s.len() == 0 {
        None
    } else if s[0].0 == key {
        Some(s[0].1)
    } else {
        first_value(s.drop_first(), key)
    }
}

/// A first occurrence at `ix` fixes `first_value`.
proof fn lemma_first_value_at(s: Seq<(usize, usize)>, key: usize, ix: int)
    requires
        0 <= ix < s.len(),
        s[ix].0 == key,
        forall|j: int| 0 <= j < ix ==> (#[trigger] s[j]).0 != key,
    ensures
        first_value(s, key) == Some(s[ix].1),
    decreases s.len(),
{
    if ix == 0 {
    } else {
        assert(s[0].0 != key);
        assert(s.drop_first()[ix - 1] == s[ix]);
        assert forall|j: int| 0 <= j < ix - 1 implies (#[trigger] s.drop_first()[j]).0 != key by {
            assert(s.drop_first()[j] == s[j + 1]);
        }
        lemma_first_value_at(s.drop_first(), key, ix - 1);
    }
}

/// No occurrence means no first value.
proof fn lemma_first_value_none(s: Seq<(usize, usize)>, key: usize)
    requires
        forall|j: int| 0 <= j < s.len() ==> (#[trigger] s[j]).0 != key,
    ensures
        first_value(s, key).is_none(),
    decreases s.len(),
{
    if s.len() > 0 {
        assert(s[0].0 != key);
        assert forall|j: int|
            0 <= j < s.drop_first().len() implies (#[trigger] s.drop_first()[j]).0 != key by {
            assert(s.drop_first()[j] == s[j + 1]);
        }
        lemma_first_value_none(s.drop_first(), key);
    }
}

} // verus!
