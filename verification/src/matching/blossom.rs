use vstd::prelude::*;
use crate::graph::default_graph::{lemma_push_contains, DefaultGraph};
use crate::graph::error::Error;
use crate::matching::pairing::Pairing;

verus! {

/// How a contracted graph relates one of its edges back to the host graph:
/// an edge of the host either survives unchanged (both endpoints outside
/// the blossom), or is redirected to the fresh vertex `id` (one endpoint
/// inside), or disappears (both inside).
pub open spec fn contracted_adjacent(
    graph: &DefaultGraph,
    path: Seq<usize>,
    id: usize,
    a: usize,
    b: usize,
) -> bool {
    ||| (a != id && b != id && !path.contains(a) && !path.contains(b) && graph.adjacent(a, b))
    ||| (a == id && b != id && !path.contains(b) && exists|s: usize|
        path.contains(s) && graph.adjacent(s, b))
    ||| (b == id && a != id && !path.contains(a) && exists|s: usize|
        path.contains(s) && graph.adjacent(s, a))
}

/// Whether `s` is a cyclic rotation of `c`.
pub open spec fn rotation_of(s: Seq<usize>, c: Seq<usize>) -> bool {
    exists|k: int| 0 <= k < c.len() && s == c.subrange(k, c.len() as int) + c.subrange(0, k)
}

/// Whether `mid` is a leading segment of some rotation of the cycle,
/// taken forward or in reverse.
pub open spec fn is_cycle_prefix(mid: Seq<usize>, cycle: Seq<usize>) -> bool {
    exists|rot: Seq<usize>|
        (rotation_of(rot, cycle) || rotation_of(rot, cycle.reverse())) && mid == rot.subrange(
            0,
            mid.len() as int,
        )
}

/// The cycle rotated `t` steps to the right: the last `t` vertices move
/// to the front.
pub open spec fn rotated(c: Seq<usize>, t: int) -> Seq<usize> {
    c.subrange(c.len() - t, c.len() as int) + c.subrange(0, c.len() - t)
}

/// `t` names the rotation the lift picks for attaching the cycle's head:
/// the first right-rotation whose first vertex is adjacent to `sid`, or
/// a full turn when none is.
pub open spec fn head_rotation_pick(graph: &DefaultGraph, sid: usize, c: Seq<usize>, t: int) -> bool {
    &&& 0 <= t <= c.len()
    &&& forall|u: int| 0 <= u < t ==> !graph.adjacent(sid, #[trigger] rotated(c, u)[0])
    &&& (t < c.len() ==> graph.adjacent(sid, rotated(c, t)[0]))
}

/// `t` names the rotation the lift picks for attaching the cycle's tail:
/// the first right-rotation whose last vertex is adjacent to `tid`, or a
/// full turn when none is.
pub open spec fn tail_rotation_pick(graph: &DefaultGraph, tid: usize, c: Seq<usize>, t: int) -> bool {
    &&& 0 <= t <= c.len()
    &&& forall|u: int|
        0 <= u < t ==> !graph.adjacent(#[trigger] rotated(c, u)[c.len() - 1], tid)
    &&& (t < c.len() ==> graph.adjacent(rotated(c, t)[c.len() - 1], tid))
}

/// `q` names the length of the cycle piece the lift emits: up to and
/// including the first vertex of the rotation adjacent to `tid`, or the
/// whole rotation when none is.
pub open spec fn scan_pick(graph: &DefaultGraph, rot: Seq<usize>, tid: usize, q: int) -> bool {
    &&& 1 <= q <= rot.len()
    &&& forall|u: int| 0 <= u < q - 1 ==> !graph.adjacent(#[trigger] rot[u], tid)
    &&& (q < rot.len() ==> graph.adjacent(rot[q - 1], tid))
}

/// Rotating right once more moves from rotation `t` to rotation `t + 1`.
proof fn lemma_rotated_step(c: Seq<usize>, t: int)
    requires
        0 <= t < c.len(),
    ensures
        seq![rotated(c, t)[c.len() - 1]] + rotated(c, t).subrange(0, c.len() - 1) =~= rotated(
            c,
            t + 1,
        ),
{
    let n = c.len() as int;
    let s = rotated(c, t);
    let a = seq![s[n - 1]] + s.subrange(0, n - 1);
    assert(s.len() == n);
    assert forall|i: int| 0 <= i < n implies a[i] == rotated(c, t + 1)[i] by {
        if i == 0 {
            assert(a[0] == s[n - 1]);
        } else {
            assert(a[i] == s[i - 1]);
        }
    }
}

/// A leading segment of a rotation, in either direction, is a cycle
/// prefix.
proof fn lemma_cycle_prefix_intro(mid: Seq<usize>, rot: Seq<usize>, cycle: Seq<usize>)
    requires
        rotation_of(rot, cycle) || rotation_of(rot, cycle.reverse()),
        mid == rot.subrange(0, mid.len() as int),
    ensures
        is_cycle_prefix(mid, cycle),
{
    assert((rotation_of(rot, cycle) || rotation_of(rot, cycle.reverse())) && mid == rot.subrange(
        0,
        mid.len() as int,
    ));
}

/// A cycle is a rotation of itself.
proof fn lemma_rotation_init(c: Seq<usize>)
    requires
        c.len() >= 1,
    ensures
        rotation_of(c, c),
{
    let n = c.len() as int;
    assert(c.subrange(0, n) + c.subrange(0, 0) =~= c);
    assert(rotation_of(c, c)) by {
        assert(0 <= 0 < c.len() && c == c.subrange(0, n) + c.subrange(0, 0));
    }
}

/// Moving the last element to the front keeps a sequence a rotation of
/// the same cycle.
proof fn lemma_rotation_step(s: Seq<usize>, c: Seq<usize>)
    requires
        rotation_of(s, c),
    ensures
        rotation_of(seq![s[s.len() - 1]] + s.subrange(0, s.len() - 1), c),
{
    let n = c.len() as int;
    let k = choose|k: int| 0 <= k < n && s == c.subrange(k, n) + c.subrange(0, k);
    assert(s.len() == n);
    let t = seq![s[s.len() - 1]] + s.subrange(0, s.len() - 1);
    let k2 = if k == 0 {
        n - 1
    } else {
        k - 1
    };
    assert forall|i: int| 0 <= i < n implies t[i] == (c.subrange(k2, n) + c.subrange(0, k2))[i] by {
        if i == 0 {
            assert(t[0] == s[n - 1]);
        } else {
            assert(t[i] == s[i - 1]);
        }
    }
    assert(t =~= c.subrange(k2, n) + c.subrange(0, k2));
}

/// An odd cycle discovered during the alternating search: a fresh vertex
/// identifier together with the cycle's vertices, base last among the two
/// even forest paths that met.
#[derive(Debug)]
pub struct Blossom {
    id: usize,
    path: Vec<usize>,
}

impl Blossom {
    /// The fresh identifier that stands for the whole cycle.
    pub closed spec fn id_spec(&self) -> usize {
        self.id
    }

    /// The cycle's vertices.
    pub closed spec fn path_spec(&self) -> Seq<usize> {
        self.path@
    }

    /// The fresh identifier that stands for the whole cycle.
    pub fn id(&self) -> (r: usize)
        ensures
            r == self.id_spec(),
    {
        self.id
    }

    /// The cycle's vertices.
    pub fn path(&self) -> (r: &Vec<usize>)
        ensures
            r@ == self.path_spec(),
    {
        &self.path
    }


    /// Assemble the stored cycle once the base has been located at
    /// `left[i] == right[j]`.
    fn assemble(id: usize, left: &Vec<usize>, right: &Vec<usize>, i: usize, j: usize) -> (r: Self)
        requires
            i < left@.len(),
            j < right@.len(),
            left@[i as int] == right@[j as int],
        ensures
            r.id_spec() == id,
            r.path_spec() == left@.subrange(0, i as int) + seq![left@[i as int]]
                + right@.subrange(0, j as int).reverse(),
            r.path_spec().len() >= 1,
            r.path_spec().contains(left@[0]),
            right@.len() > 0 ==> r.path_spec().contains(right@[0]),
            forall|k: int|
                0 <= k < r.path_spec().len() ==> left@.contains(#[trigger] r.path_spec()[k])
                    || right@.contains(r.path_spec()[k]),
    {
        let base = left[i];
        let mut path: Vec<usize> = Vec::new();
        let mut k: usize = 0;
        while k < i
            invariant
                k <= i,
                i < left@.len(),
                path@ == left@.subrange(0, k as int),
            decreases i - k,
        {
            path.push(left[k]);
            proof {
                assert(path@ =~= left@.subrange(0, k + 1));
            }
            k = k + 1;
        }
        path.push(base);
        proof {
            assert(path@ =~= left@.subrange(0, i as int) + seq![left@[i as int]]);
        }
        let ghost head = path@;
        let mut k2: usize = j;
        while k2 > 0
            invariant
                k2 <= j,
                j < right@.len(),
                head == left@.subrange(0, i as int) + seq![left@[i as int]],
                path@ == head + right@.subrange(k2 as int, j as int).reverse(),
            decreases k2,
        {
            k2 = k2 - 1;
            path.push(right[k2]);
            proof {
                assert(path@ =~= head + right@.subrange(k2 as int, j as int).reverse());
            }
        }
        proof {
            assert(path@ == head + right@.subrange(0, j as int).reverse());
        }
        let r = Self { id, path };
        proof {
            let gi = i as int;
            let gj = j as int;
            let p = r.path_spec();
            assert(p == left@.subrange(0, gi) + seq![left@[gi]] + right@.subrange(0, gj).reverse());
            assert(p[gi] == left@[gi]);
            assert(p[0] == left@[0]);
            assert(p.contains(left@[0]));
            if gj > 0 {
                assert(p[p.len() - 1] == right@.subrange(0, gj).reverse()[gj - 1]);
                assert(right@.subrange(0, gj).reverse()[gj - 1] == right@[0]);
                assert(p.contains(right@[0]));
            } else {
                if right@.len() > 0 {
                    assert(right@[gj] == left@[gi]);
                    assert(p.contains(right@[0]));
                }
            }
            assert forall|k3: int|
                0 <= k3 < p.len() implies left@.contains(#[trigger] p[k3]) || right@.contains(
                p[k3],
            ) by {
                if k3 <= gi {
                    assert(p[k3] == left@[k3]);
                } else {
                    assert(p[k3] == right@[gj - 1 - (k3 - gi - 1)]);
                }
            }
        }
        r
    }

    /// Build the blossom from two forest paths that share a vertex. The
    /// base is the first vertex of `left` (scanned outermost) that also
    /// occurs in `right` (scanned innermost); the stored cycle is the part
    /// of `left` before the base, the base, then the part of `right`
    /// before it, reversed.
    pub fn new(id: usize, left: Vec<usize>, right: Vec<usize>) -> (r: Self)
        requires
            exists|i: int| 0 <= i < left@.len() && right@.contains(#[trigger] left@[i]),
        ensures
            r.id_spec() == id,
            exists|i: int, j: int|
                {
                    &&& 0 <= i < left@.len()
                    &&& 0 <= j < right@.len()
                    &&& #[trigger] left@[i] == #[trigger] right@[j]
                    &&& forall|i2: int| 0 <= i2 < i ==> !right@.contains(#[trigger] left@[i2])
                    &&& forall|j2: int| 0 <= j2 < j ==> right@[j2] != left@[i]
                    &&& r.path_spec() == left@.subrange(0, i) + seq![left@[i]] + right@.subrange(
                        0,
                        j,
                    ).reverse()
                },
            r.path_spec().len() >= 1,
            left@.len() > 0 ==> r.path_spec().contains(left@[0]),
            right@.len() > 0 ==> r.path_spec().contains(right@[0]),
            forall|k: int|
                0 <= k < r.path_spec().len() ==> left@.contains(#[trigger] r.path_spec()[k])
                    || right@.contains(r.path_spec()[k]),
    {
        let mut i: usize = 0;
        while i < left.len()
            invariant
                i <= left@.len(),
                exists|i2: int| 0 <= i2 < left@.len() && right@.contains(#[trigger] left@[i2]),
                forall|i2: int| 0 <= i2 < i ==> !right@.contains(#[trigger] left@[i2]),
            decreases left@.len() - i,
        {
            let mut j: usize = 0;
            while j < right.len()
                invariant
                    i < left@.len(),
                    j <= right@.len(),
                    forall|i2: int| 0 <= i2 < i ==> !right@.contains(#[trigger] left@[i2]),
                    forall|j2: int| 0 <= j2 < j ==> right@[j2] != left@[i as int],
                decreases right@.len() - j,
            {
                if left[i] == right[j] {
                    let r = Self::assemble(id, &left, &right, i, j);
                    proof {
                        let gi = i as int;
                        let gj = j as int;
                        assert({
                            &&& 0 <= gi < left@.len()
                            &&& 0 <= gj < right@.len()
                            &&& left@[gi] == right@[gj]
                            &&& forall|i2: int|
                                0 <= i2 < gi ==> !right@.contains(#[trigger] left@[i2])
                            &&& forall|j2: int| 0 <= j2 < gj ==> right@[j2] != left@[gi]
                            &&& r.path_spec() == left@.subrange(0, gi) + seq![left@[gi]]
                                + right@.subrange(0, gj).reverse()
                        });
                    }
                    return r;
                }
                j = j + 1;
            }
            i = i + 1;
        }
        proof {
            let i2 = choose|i2: int|
                0 <= i2 < left@.len() && right@.contains(#[trigger] left@[i2]);
            assert(!right@.contains(left@[i2]));
        }
        vstd::pervasive::unreached()
    }
    /// Contract the blossom out of `graph`: a fresh vertex `id` takes the
    /// place of the whole cycle, edges inside the cycle disappear, edges
    /// leaving it are redirected to `id` (deduplicated), and everything
    /// else is kept. The result lists `id` first and then the surviving
    /// host vertices in the host's iteration order.
    pub fn contract_graph(&self, graph: &DefaultGraph) -> (r: Result<DefaultGraph, Error>)
        requires
            graph.wf(),
            !graph.contains_node(self.id_spec()),
        ensures
            match r {
                Ok(g) => {
                    &&& g.wf()
                    &&& forall|v: usize|
                        #[trigger] g.contains_node(v) <==> (v == self.id_spec() || (
                        graph.contains_node(v) && !self.path_spec().contains(v)))
                    &&& forall|a: usize, b: usize|
                        #[trigger] g.adjacent(a, b) <==> contracted_adjacent(
                            graph,
                            self.path_spec(),
                            self.id_spec(),
                            a,
                            b,
                        )
                    &&& g.node_seq().len() >= 1
                    &&& g.node_seq()[0] == self.id_spec()
                    &&& forall|a: int, b: int|
                        1 <= a < b < g.node_seq().len()
                            ==> crate::graph::default_graph::first_idx(
                            graph.node_seq(),
                            #[trigger] g.node_seq()[a],
                        ) < crate::graph::default_graph::first_idx(
                            graph.node_seq(),
                            #[trigger] g.node_seq()[b],
                        )
                },
                Err(_) => false,
            },
    {
        let id = self.id;
        let ghost pc = self.path_spec();
        let mut result = DefaultGraph::new();
        match result.add_node(id) {
            Ok(()) => (),
            Err(_) => vstd::pervasive::unreached(),
        }
        proof {
            lemma_push_contains(Seq::<usize>::empty(), id);
            assert forall|v: usize| #[trigger] result.contains_node(v) implies v == id by {}
            assert(result.contains_node(id));
            result.lemma_absent_neighbors();
        }
        let ids = graph.ids();
        let mut i: usize = 0;
        while i < ids.len()
            invariant
                graph.wf(),
                !graph.contains_node(id),
                pc == self.path_spec(),
                id == self.id_spec(),
                ids@ == graph.node_seq(),
                i <= ids@.len(),
                result.wf(),
                result.contains_node(id),
                result.node_seq().len() >= 1,
                result.node_seq()[0] == id,
                forall|a: int|
                    1 <= a < result.node_seq().len() ==> 0
                        <= crate::graph::default_graph::first_idx(
                        ids@,
                        #[trigger] result.node_seq()[a],
                    ) < i,
                forall|a: int, b: int|
                    1 <= a < b < result.node_seq().len()
                        ==> crate::graph::default_graph::first_idx(
                        ids@,
                        #[trigger] result.node_seq()[a],
                    ) < crate::graph::default_graph::first_idx(
                        ids@,
                        #[trigger] result.node_seq()[b],
                    ),
                forall|v: usize|
                    #[trigger] result.contains_node(v) <==> (v == id || (exists|l: int|
                        0 <= l < i && ids@[l] == v && !pc.contains(v))),
                forall|v: usize| #[trigger] result.neighbors_spec(v) == Seq::<usize>::empty(),
            decreases ids@.len() - i,
        {
            let v = ids[i];
            proof {
                assert(graph.node_seq()[i as int] == v);
            }
            if !crate::graph::default_graph::contains_val(&self.path, v) {
                proof {
                    if result.contains_node(v) {
                        graph.lemma_graph_facts();
                        let l = choose|l: int| 0 <= l < i && ids@[l] == v && !pc.contains(v);
                        assert(ids@[l] == ids@[i as int]);
                    }
                }
                let ghost r0 = result;
                match result.add_node(v) {
                    Ok(()) => (),
                    Err(_) => vstd::pervasive::unreached(),
                }
                proof {
                    lemma_push_contains(r0.node_seq(), v);
                    result.lemma_absent_neighbors();
                    graph.lemma_graph_facts();
                    assert forall|j: int| 0 <= j < i implies ids@[j] != v by {
                        assert(ids@[i as int] == v);
                    }
                    crate::graph::default_graph::lemma_first_idx_at(ids@, v, i as int);
                    assert(result.node_seq() == r0.node_seq().push(v));
                    assert(result.node_seq()[0] == id);
                    assert forall|a: int|
                        1 <= a < result.node_seq().len() implies 0
                        <= crate::graph::default_graph::first_idx(
                        ids@,
                        #[trigger] result.node_seq()[a],
                    ) < i + 1 by {
                        if a < result.node_seq().len() - 1 {
                            assert(result.node_seq()[a] == r0.node_seq()[a]);
                        } else {
                            assert(result.node_seq()[a] == v);
                        }
                    }
                    assert forall|a: int, b: int|
                        1 <= a < b < result.node_seq().len()
                        implies crate::graph::default_graph::first_idx(
                        ids@,
                        #[trigger] result.node_seq()[a],
                    ) < crate::graph::default_graph::first_idx(
                        ids@,
                        #[trigger] result.node_seq()[b],
                    ) by {
                        if b < result.node_seq().len() - 1 {
                            assert(result.node_seq()[a] == r0.node_seq()[a]);
                            assert(result.node_seq()[b] == r0.node_seq()[b]);
                        } else {
                            assert(result.node_seq()[a] == r0.node_seq()[a]);
                            assert(result.node_seq()[b] == v);
                        }
                    }
                    assert forall|u: usize|
                        #[trigger] result.neighbors_spec(u) == Seq::<usize>::empty() by {
                        if result.contains_node(u) {
                            if u == v {
                            } else {
                                assert(r0.contains_node(u));
                                assert(result.neighbors_spec(u) == r0.neighbors_spec(u));
                            }
                        }
                    }
                    assert forall|u: usize|
                        #[trigger] result.contains_node(u) <==> (u == id || (exists|l: int|
                            0 <= l < i + 1 && ids@[l] == u && !pc.contains(u))) by {
                        if result.contains_node(u) {
                            if u == v {
                                assert(ids@[i as int] == u && !pc.contains(u));
                            } else {
                                assert(r0.contains_node(u));
                            }
                        } else {
                            assert(!r0.contains_node(u) && u != v);
                        }
                    }
                }
            } else {
                proof {
                    assert forall|u: usize|
                        #[trigger] result.contains_node(u) <==> (u == id || (exists|l: int|
                            0 <= l < i + 1 && ids@[l] == u && !pc.contains(u))) by {
                        if !result.contains_node(u) && u != id {
                            if exists|l: int| 0 <= l < i + 1 && ids@[l] == u && !pc.contains(u) {
                                let l = choose|l: int|
                                    0 <= l < i + 1 && ids@[l] == u && !pc.contains(u);
                                assert(l < i || u == v);
                            }
                        }
                    }
                }
            }
            i = i + 1;
        }
        proof {
            assert forall|v: usize|
                #[trigger] result.contains_node(v) <==> (v == id || (graph.contains_node(v)
                    && !pc.contains(v))) by {
                if graph.contains_node(v) && !pc.contains(v) {
                    let l = choose|l: int| 0 <= l < ids@.len() && ids@[l] == v;
                }
            }
        }
        let es = graph.edges();
        let mut k: usize = 0;
        while k < es.len()
            invariant
                graph.wf(),
                !graph.contains_node(id),
                pc == self.path_spec(),
                id == self.id_spec(),
                es@ == graph.edge_seq(),
                k <= es@.len(),
                result.wf(),
                result.node_seq().len() >= 1,
                result.node_seq()[0] == id,
                forall|a: int, b: int|
                    1 <= a < b < result.node_seq().len()
                        ==> crate::graph::default_graph::first_idx(
                        graph.node_seq(),
                        #[trigger] result.node_seq()[a],
                    ) < crate::graph::default_graph::first_idx(
                        graph.node_seq(),
                        #[trigger] result.node_seq()[b],
                    ),
                forall|v: usize|
                    #[trigger] result.contains_node(v) <==> (v == id || (graph.contains_node(v)
                        && !pc.contains(v))),
                forall|a: usize, b: usize|
                    #[trigger] result.adjacent(a, b) <==> exists|m: int|
                        0 <= m < k && edge_connects(pc, id, #[trigger] es@[m], a, b),
            decreases es@.len() - k,
        {
            let (sid, tid) = es[k];
            proof {
                graph.lemma_graph_facts();
                assert(graph.adjacent(sid, tid));
            }
            let sin = crate::graph::default_graph::contains_val(&self.path, sid);
            let tin = crate::graph::default_graph::contains_val(&self.path, tid);
            let ghost r0 = result;
            if sin && !tin {
                let dup = match result.has_edge(id, tid) {
                    Ok(x) => x,
                    Err(_) => vstd::pervasive::unreached(),
                };
                if !dup {
                    match result.add_edge(id, tid) {
                        Ok(()) => (),
                        Err(_) => vstd::pervasive::unreached(),
                    }
                    proof {
                        crate::graph::default_graph::lemma_add_edge_adjacent(r0, result, id, tid);
                        assert(result.node_seq() == r0.node_seq());
                    }
                }
                proof {
                    lemma_connect_step(pc, id, es@, k as int, r0, &result, id, tid);
                }
            } else if !sin && tin {
                let dup = match result.has_edge(sid, id) {
                    Ok(x) => x,
                    Err(_) => vstd::pervasive::unreached(),
                };
                if !dup {
                    match result.add_edge(sid, id) {
                        Ok(()) => (),
                        Err(_) => vstd::pervasive::unreached(),
                    }
                    proof {
                        crate::graph::default_graph::lemma_add_edge_adjacent(r0, result, sid, id);
                        assert(result.node_seq() == r0.node_seq());
                    }
                }
                proof {
                    lemma_connect_step(pc, id, es@, k as int, r0, &result, sid, id);
                }
            } else if !sin && !tin {
                proof {
                    if result.adjacent(sid, tid) {
                        let m = choose|m: int|
                            0 <= m < k && edge_connects(pc, id, #[trigger] es@[m], sid, tid);
                        assert(crate::graph::default_graph::same_undirected(es@[m], es@[k as int]));
                    }
                }
                match result.add_edge(sid, tid) {
                    Ok(()) => (),
                    Err(_) => vstd::pervasive::unreached(),
                }
                proof {
                    crate::graph::default_graph::lemma_add_edge_adjacent(r0, result, sid, tid);
                    assert(result.node_seq() == r0.node_seq());
                    lemma_connect_step(pc, id, es@, k as int, r0, &result, sid, tid);
                }
            } else {
                proof {
                    assert forall|a: usize, b: usize|
                        #[trigger] result.adjacent(a, b) <==> exists|m: int|
                            0 <= m < k + 1 && edge_connects(pc, id, #[trigger] es@[m], a, b) by {
                        if result.adjacent(a, b) {
                            let m = choose|m: int|
                                0 <= m < k && edge_connects(pc, id, #[trigger] es@[m], a, b);
                            assert(0 <= m < k + 1 && edge_connects(pc, id, es@[m], a, b));
                        } else {
                            if exists|m: int|
                                0 <= m < k + 1 && edge_connects(pc, id, #[trigger] es@[m], a, b) {
                                let m = choose|m: int|
                                    0 <= m < k + 1 && edge_connects(pc, id, #[trigger] es@[m], a, b);
                                assert(!edge_connects(pc, id, es@[k as int], a, b));
                                assert(0 <= m < k && edge_connects(pc, id, es@[m], a, b));
                            }
                        }
                    }
                }
            }
            proof {
                assert(result.node_seq() == r0.node_seq());
                assert forall|v: usize|
                    #[trigger] result.contains_node(v) <==> (v == id || (graph.contains_node(v)
                        && !pc.contains(v))) by {
                    assert(result.contains_node(v) == r0.contains_node(v));
                }
            }
            k = k + 1;
        }
        proof {
            graph.lemma_graph_facts();
            assert forall|a: usize, b: usize|
                #[trigger] result.adjacent(a, b) <==> contracted_adjacent(graph, pc, id, a, b) by {
                if result.adjacent(a, b) {
                    let m = choose|m: int|
                        0 <= m < es@.len() && edge_connects(pc, id, #[trigger] es@[m], a, b);
                    assert(graph.adjacent(es@[m].0, es@[m].1));
                    assert(graph.adjacent(es@[m].1, es@[m].0));
                }
                if contracted_adjacent(graph, pc, id, a, b) {
                    if a != id && b != id {
                        assert(graph.adjacent(a, b));
                        assert(graph.edge_seq().contains((a, b)) || graph.edge_seq().contains(
                            (b, a),
                        ));
                        if graph.edge_seq().contains((a, b)) {
                            let m = choose|m: int|
                                0 <= m < es@.len() && es@[m] == (a, b);
                            assert(edge_connects(pc, id, es@[m], a, b));
                        } else {
                            let m = choose|m: int|
                                0 <= m < es@.len() && es@[m] == (b, a);
                            assert(edge_connects(pc, id, es@[m], a, b));
                        }
                    } else if a == id {
                        let s = choose|s: usize| pc.contains(s) && graph.adjacent(s, b);
                        assert(graph.edge_seq().contains((s, b)) || graph.edge_seq().contains(
                            (b, s),
                        ));
                        assert(!pc.contains(b)) by {
                            assert(contracted_adjacent(graph, pc, id, a, b));
                        }
                        if graph.edge_seq().contains((s, b)) {
                            let m = choose|m: int|
                                0 <= m < es@.len() && es@[m] == (s, b);
                            assert(edge_connects(pc, id, es@[m], a, b));
                        } else {
                            let m = choose|m: int|
                                0 <= m < es@.len() && es@[m] == (b, s);
                            assert(edge_connects(pc, id, es@[m], a, b));
                        }
                    } else {
                        let s = choose|s: usize| pc.contains(s) && graph.adjacent(s, a);
                        assert(graph.edge_seq().contains((s, a)) || graph.edge_seq().contains(
                            (a, s),
                        ));
                        if graph.edge_seq().contains((s, a)) {
                            let m = choose|m: int|
                                0 <= m < es@.len() && es@[m] == (s, a);
                            assert(edge_connects(pc, id, es@[m], a, b));
                        } else {
                            let m = choose|m: int|
                                0 <= m < es@.len() && es@[m] == (a, s);
                            assert(edge_connects(pc, id, es@[m], a, b));
                        }
                    }
                }
            }
        }
        Ok(result)
    }

    /// Contract the blossom out of a pairing: a member of the cycle that is
    /// matched outside it is replaced by `id`, pairs with both ends outside
    /// the cycle are kept as they are, and pairs internal to the cycle are
    /// dropped. `id` ends up matched exactly when some cycle member was
    /// matched outside the cycle.
    pub fn contract_pairing(&self, pairing: &Pairing) -> (r: Pairing)
        requires
            pairing.wf(),
            forall|u: usize|
                #[trigger] pairing@.contains_key(u) ==> u != self.id_spec() && pairing@[u]
                    != self.id_spec(),
        ensures
            r.wf(),
            forall|u: usize|
                #[trigger] r@.contains_key(u) ==> {
                    ||| (!self.path_spec().contains(u) && !self.path_spec().contains(r@[u])
                        && pairing@.contains_key(u) && pairing@[u] == r@[u])
                    ||| (u == self.id_spec() && !self.path_spec().contains(r@[u]) && exists|
                        s: usize,
                    |
                        self.path_spec().contains(s) && #[trigger] pairing@.contains_key(s)
                            && pairing@[s] == r@[u])
                    ||| (r@[u] == self.id_spec() && !self.path_spec().contains(u)
                        && pairing@.contains_key(u) && self.path_spec().contains(pairing@[u]))
                },
            forall|u: usize|
                #[trigger] pairing@.contains_key(u) && !self.path_spec().contains(u)
                    && !self.path_spec().contains(pairing@[u]) ==> r@.contains_key(u) && r@[u]
                    == pairing@[u],
            r@.contains_key(self.id_spec()) <==> exists|s: usize|
                self.path_spec().contains(s) && #[trigger] pairing@.contains_key(s)
                    && !self.path_spec().contains(pairing@[s]),
    {
        let id = self.id;
        let ghost pc = self.path_spec();
        let ghost m = pairing@;
        let mut result = Pairing::new();
        let pe = pairing.edges();
        let mut k: usize = 0;
        while k < pe.len()
            invariant
                pairing.wf(),
                pc == self.path_spec(),
                id == self.id_spec(),
                m == pairing@,
                forall|u: usize|
                    #[trigger] m.contains_key(u) ==> u != id && m[u] != id,
                k <= pe@.len(),
                pe@.no_duplicates(),
                forall|l: int|
                    0 <= l < pe@.len() ==> (#[trigger] pe@[l]).0 < pe@[l].1 && m.contains_key(
                        pe@[l].0,
                    ) && m[pe@[l].0] == pe@[l].1,
                result.wf(),
                forall|u: usize|
                    #[trigger] result@.contains_key(u) ==> {
                        ||| (!pc.contains(u) && !pc.contains(result@[u]) && m.contains_key(u)
                            && m[u] == result@[u])
                        ||| (u == id && !pc.contains(result@[u]) && exists|s: usize|
                            pc.contains(s) && #[trigger] m.contains_key(s) && m[s] == result@[u])
                        ||| (result@[u] == id && !pc.contains(u) && m.contains_key(u)
                            && pc.contains(m[u]))
                    },
                forall|l: int|
                    0 <= l < k && !pc.contains((#[trigger] pe@[l]).0) && !pc.contains(pe@[l].1)
                        ==> result@.contains_key(pe@[l].0) && result@[pe@[l].0] == pe@[l].1,
                (exists|l: int|
                    0 <= l < k && (pc.contains((#[trigger] pe@[l]).0) != pc.contains(pe@[l].1)))
                    <==> result@.contains_key(id),
            decreases pe@.len() - k,
        {
            let (sid, tid) = pe[k];
            proof {
                crate::matching::pairing::lemma_wf_sym(pairing);
                crate::matching::pairing::lemma_mate_symmetric(pairing, sid, tid);
                assert forall|l: int| 0 <= l < k implies (#[trigger] pe@[l]).0 != sid && pe@[l].0
                    != tid && pe@[l].1 != sid && pe@[l].1 != tid by {
                    lemma_edges_disjoint(m, pe@, l, k as int);
                }
            }
            let sin = crate::graph::default_graph::contains_val(&self.path, sid);
            let tin = crate::graph::default_graph::contains_val(&self.path, tid);
            let ghost r0 = result@;
            proof {
                crate::matching::pairing::lemma_wf_sym(&result);
                if !sin && !tin && result@.contains_key(id) {
                    // whatever `id` is matched to comes from a boundary pair,
                    // so it is neither endpoint of this outside pair
                    assert(r0[id] != sid && r0[id] != tid) by {
                        assert(!m.contains_key(id));
                        assert(result@[id] != id);
                        let s = choose|s: usize|
                            pc.contains(s) && #[trigger] m.contains_key(s) && m[s] == result@[id];
                        if r0[id] == sid {
                            assert(m[sid] == s);
                        }
                        if r0[id] == tid {
                            assert(m[tid] == s);
                        }
                    }
                }
            }
            if sin && !tin {
                result.pair(id, tid);
                proof {
                    crate::matching::pairing::lemma_pair_map_cases(r0, id, tid);
                    assert forall|l: int|
                        0 <= l < k + 1 && !pc.contains((#[trigger] pe@[l]).0) && !pc.contains(
                        pe@[l].1,
                    ) implies result@.contains_key(pe@[l].0) && result@[pe@[l].0] == pe@[l].1 by {
                        if l < k {
                            crate::matching::pairing::lemma_pair_map_keeps(
                                r0,
                                id,
                                tid,
                                pe@[l].0,
                            );
                        }
                    }
                    assert(pc.contains(pe@[k as int].0) != pc.contains(pe@[k as int].1));
                }
            } else if !sin && tin {
                result.pair(sid, id);
                proof {
                    crate::matching::pairing::lemma_pair_map_cases(r0, sid, id);
                    assert forall|l: int|
                        0 <= l < k + 1 && !pc.contains((#[trigger] pe@[l]).0) && !pc.contains(
                        pe@[l].1,
                    ) implies result@.contains_key(pe@[l].0) && result@[pe@[l].0] == pe@[l].1 by {
                        if l < k {
                            crate::matching::pairing::lemma_pair_map_keeps(
                                r0,
                                sid,
                                id,
                                pe@[l].0,
                            );
                        }
                    }
                    assert(pc.contains(pe@[k as int].0) != pc.contains(pe@[k as int].1));
                }
            } else if !sin && !tin {
                result.pair(sid, tid);
                proof {
                    crate::matching::pairing::lemma_pair_map_cases(r0, sid, tid);
                    assert forall|l: int|
                        0 <= l < k + 1 && !pc.contains((#[trigger] pe@[l]).0) && !pc.contains(
                        pe@[l].1,
                    ) implies result@.contains_key(pe@[l].0) && result@[pe@[l].0] == pe@[l].1 by {
                        if l < k {
                            crate::matching::pairing::lemma_pair_map_keeps(
                                r0,
                                sid,
                                tid,
                                pe@[l].0,
                            );
                        }
                    }
                    if result@.contains_key(id) {
                        assert(r0.contains_key(id));
                    }
                    if r0.contains_key(id) {
                        crate::matching::pairing::lemma_pair_map_keeps(r0, sid, tid, id);
                    }
                }
            }
            k = k + 1;
        }
        proof {
            assert forall|u: usize|
                #[trigger] m.contains_key(u) && !pc.contains(u) && !pc.contains(m[u])
                implies result@.contains_key(u) && result@[u] == m[u] by {
                crate::matching::pairing::lemma_wf_sym(&result);
                crate::matching::pairing::lemma_mate_symmetric(pairing, u, m[u]);
                if u < m[u] {
                    assert(pe@.contains((u, m[u])));
                    let l = choose|l: int| 0 <= l < pe@.len() && pe@[l] == (u, m[u]);
                    assert(result@.contains_key(pe@[l].0) && result@[pe@[l].0] == pe@[l].1);
                } else {
                    assert(pe@.contains((m[u], u)));
                    let l = choose|l: int| 0 <= l < pe@.len() && pe@[l] == (m[u], u);
                    assert(result@.contains_key(pe@[l].0) && result@[pe@[l].0] == pe@[l].1);
                    assert(result@.contains_key(m[u]) && result@[m[u]] == u);
                }
            }
            assert((exists|s: usize|
                pc.contains(s) && #[trigger] m.contains_key(s) && !pc.contains(m[s]))
                <==> result@.contains_key(id)) by {
                if exists|s: usize|
                    pc.contains(s) && #[trigger] m.contains_key(s) && !pc.contains(m[s]) {
                    let s = choose|s: usize|
                        pc.contains(s) && #[trigger] m.contains_key(s) && !pc.contains(m[s]);
                    crate::matching::pairing::lemma_mate_symmetric(pairing, s, m[s]);
                    if s < m[s] {
                        assert(pe@.contains((s, m[s])));
                        let l = choose|l: int| 0 <= l < pe@.len() && pe@[l] == (s, m[s]);
                        assert(pc.contains(pe@[l].0) != pc.contains(pe@[l].1));
                    } else {
                        assert(pe@.contains((m[s], s)));
                        let l = choose|l: int| 0 <= l < pe@.len() && pe@[l] == (m[s], s);
                        assert(pc.contains(pe@[l].0) != pc.contains(pe@[l].1));
                    }
                }
                if result@.contains_key(id) {
                    let l = choose|l: int|
                        0 <= l < pe@.len() && (pc.contains((#[trigger] pe@[l]).0) != pc.contains(
                            pe@[l].1,
                        ));
                    crate::matching::pairing::lemma_mate_symmetric(pairing, pe@[l].0, pe@[l].1);
                    if pc.contains(pe@[l].0) {
                        assert(pc.contains(pe@[l].0) && m.contains_key(pe@[l].0) && !pc.contains(
                            m[pe@[l].0],
                        ));
                    } else {
                        assert(pc.contains(pe@[l].1) && m.contains_key(pe@[l].1) && !pc.contains(
                            m[pe@[l].1],
                        ));
                    }
                }
            }
        }
        result
    }

    /// Rewrite an augmenting path found in the contracted graph as a vertex
    /// sequence of the original graph. A path that does not mention the
    /// blossom is returned unchanged; a path that is just the blossom
    /// becomes the stored cycle; otherwise the cycle is rotated so that its
    /// ends attach to the path's neighbors of `id`, scanning forward or
    /// backward around the cycle as the required parity demands. The caller
    /// re-checks the result before using it.
    pub fn lift(&self, path: Vec<usize>, graph: &DefaultGraph) -> (r: Vec<usize>)
        requires
            graph.wf(),
            self.path_spec().len() >= 1,
        ensures
            !path@.contains(self.id_spec()) ==> r@ == path@,
            path@.len() == 1 && path@[0] == self.id_spec() ==> r@ == self.path_spec(),
            path@.len() >= 2 && path@.contains(self.id_spec()) ==> exists|i: int|
                0 <= i < path@.len() && path@[i] == self.id_spec() && (forall|l: int|
                    0 <= l < i ==> path@[l] != self.id_spec()) && exists|mid: Seq<usize>|
                    1 <= mid.len() <= self.path_spec().len() && is_cycle_prefix(
                        mid,
                        self.path_spec(),
                    ) && r@ == path@.subrange(0, i) + mid + path@.subrange(
                        i + 1,
                        path@.len() as int,
                    ),
            path@.len() >= 2 && path@.contains(self.id_spec()) ==> exists|i: int|
                {
                    &&& 0 <= i < path@.len()
                    &&& path@[i] == self.id_spec()
                    &&& forall|l: int| 0 <= l < i ==> path@[l] != self.id_spec()
                    &&& ({
                        let lft = path@.subrange(0, i);
                        let rgt = path@.subrange(i + 1, path@.len() as int);
                        let cyc = self.path_spec();
                        if rgt.len() == 0 {
                            exists|t: int|
                                head_rotation_pick(graph, lft[lft.len() - 1], cyc, t) && r@ == lft
                                    + rotated(cyc, t)
                        } else if lft.len() == 0 {
                            exists|t: int|
                                tail_rotation_pick(graph, rgt[0], cyc, t) && r@ == rotated(cyc, t)
                                    + rgt
                        } else {
                            exists|t: int, q: int|
                                {
                                    &&& head_rotation_pick(graph, lft[lft.len() - 1], cyc, t)
                                    &&& scan_pick(graph, rotated(cyc, t), rgt[0], q)
                                    &&& {
                                        let fwd = lft + rotated(cyc, t).subrange(0, q) + rgt;
                                        ||| (fwd.len() % 2 == 0 && r@ == fwd)
                                        ||| (fwd.len() % 2 == 1 && exists|t2: int, q2: int|
                                            {
                                                &&& head_rotation_pick(
                                                    graph,
                                                    lft[lft.len() - 1],
                                                    cyc.reverse(),
                                                    t2,
                                                )
                                                &&& scan_pick(
                                                    graph,
                                                    rotated(cyc.reverse(), t2),
                                                    rgt[0],
                                                    q2,
                                                )
                                                &&& r@ == lft + rotated(
                                                    cyc.reverse(),
                                                    t2,
                                                ).subrange(0, q2) + rgt
                                            })
                                    }
                                }
                        }
                    })
                },
    {
        let mut index: usize = 0;
        let mut found = false;
        while index < path.len() && !found
            invariant
                index <= path@.len(),
                found ==> index < path@.len() && path@[index as int] == self.id_spec(),
                forall|l: int| 0 <= l < index ==> path@[l] != self.id_spec(),
            decreases path@.len() - index, if found { 0int } else { 1int },
        {
            if path[index] == self.id {
                found = true;
            } else {
                index = index + 1;
            }
        }
        if !found {
            proof {
                if path@.contains(self.id_spec()) {
                    let l = choose|l: int| 0 <= l < path@.len() && path@[l] == self.id_spec();
                }
            }
            return path;
        }
        let mut left: Vec<usize> = Vec::new();
        let mut i: usize = 0;
        while i < index
            invariant
                index < path@.len(),
                i <= index,
                left@ == path@.subrange(0, i as int),
            decreases index - i,
        {
            left.push(path[i]);
            proof {
                assert(left@ =~= path@.subrange(0, i + 1));
            }
            i = i + 1;
        }
        let mut right: Vec<usize> = Vec::new();
        let mut i2: usize = index + 1;
        while i2 < path.len()
            invariant
                index < path@.len(),
                index + 1 <= i2 <= path@.len(),
                right@ == path@.subrange(index + 1, i2 as int),
            decreases path@.len() - i2,
        {
            right.push(path[i2]);
            proof {
                assert(right@ =~= path@.subrange(index + 1, i2 + 1));
            }
            i2 = i2 + 1;
        }
        let ghost lft = left@;
        let ghost rgt = right@;
        proof {
            assert(path@[index as int] == self.id_spec());
            assert(path@.contains(self.id_spec()));
        }
        if left.len() == 0 && right.len() == 0 {
            proof {
                if path@.len() != 1 {
                    if index == 0 {
                        assert(right@.len() == path@.len() - 1);
                    } else {
                        assert(left@.len() == index as int);
                    }
                }
            }
            let r = copy_ids(&self.path);
            return r;
        }
        if right.len() == 0 {
            let r = self.lift_left_blossom(left, graph);
            proof {
                assert(0 <= index < path@.len() && path@[index as int] == self.id_spec());
                let rot = choose|rot: Seq<usize>|
                    rotation_of(rot, self.path_spec()) && r@ == lft + rot;
                assert(rot =~= rot.subrange(0, rot.len() as int));
                lemma_cycle_prefix_intro(rot, rot, self.path_spec());
                assert(r@ =~= path@.subrange(0, index as int) + rot + path@.subrange(
                    index + 1,
                    path@.len() as int,
                ));
                assert(lft == path@.subrange(0, index as int));
                assert(rgt == path@.subrange(index + 1, path@.len() as int));
                let t = choose|t: int|
                    head_rotation_pick(graph, lft[lft.len() - 1], self.path_spec(), t) && r@
                        == lft + rotated(self.path_spec(), t);
                assert(head_rotation_pick(graph, lft[lft.len() - 1], self.path_spec(), t) && r@
                    == lft + rotated(self.path_spec(), t));
            }
            return r;
        }
        if left.len() == 0 {
            let r = self.lift_blossom_right(right, graph);
            proof {
                assert(0 <= index < path@.len() && path@[index as int] == self.id_spec());
                let rot = choose|rot: Seq<usize>|
                    rotation_of(rot, self.path_spec()) && r@ == rot + rgt;
                assert(rot =~= rot.subrange(0, rot.len() as int));
                lemma_cycle_prefix_intro(rot, rot, self.path_spec());
                assert(r@ =~= path@.subrange(0, index as int) + rot + path@.subrange(
                    index + 1,
                    path@.len() as int,
                ));
                assert(lft == path@.subrange(0, index as int));
                assert(rgt == path@.subrange(index + 1, path@.len() as int));
                let t = choose|t: int|
                    tail_rotation_pick(graph, rgt[0], self.path_spec(), t) && r@ == rotated(
                        self.path_spec(),
                        t,
                    ) + rgt;
                assert(tail_rotation_pick(graph, rgt[0], self.path_spec(), t) && r@ == rotated(
                    self.path_spec(),
                    t,
                ) + rgt);
            }
            return r;
        }
        let r = self.lift_left_blossom_right(left, right, graph);
        proof {
            assert(0 <= index < path@.len() && path@[index as int] == self.id_spec());
            let mid = choose|mid: Seq<usize>|
                1 <= mid.len() <= self.path_spec().len() && is_cycle_prefix(
                    mid,
                    self.path_spec(),
                ) && r@ == lft + mid + rgt;
            assert(r@ == path@.subrange(0, index as int) + mid + path@.subrange(
                index + 1,
                path@.len() as int,
            ));
            assert(lft == path@.subrange(0, index as int));
            assert(rgt == path@.subrange(index + 1, path@.len() as int));
            assert(lft.len() >= 1 && rgt.len() >= 1);
        }
        r
    }

    /// The blossom is the rightmost segment: rotate the cycle until its
    /// first vertex attaches to the end of `left`, then append it.
    fn lift_left_blossom(&self, left: Vec<usize>, graph: &DefaultGraph) -> (r: Vec<usize>)
        requires
            graph.wf(),
            left@.len() >= 1,
            self.path_spec().len() >= 1,
        ensures
            r@.len() == left@.len() + self.path_spec().len(),
            exists|rot: Seq<usize>| rotation_of(rot, self.path_spec()) && r@ == left@ + rot,
            exists|t: int|
                head_rotation_pick(graph, left@[left@.len() - 1], self.path_spec(), t) && r@
                    == left@ + rotated(self.path_spec(), t),
    {
        let sid = left[left.len() - 1];
        let mut copy = copy_ids(&self.path);
        proof {
            lemma_rotation_init(self.path_spec());
            assert(copy@ =~= rotated(self.path_spec(), 0));
        }
        let mut tries: usize = 0;
        loop
            invariant
                copy@.len() == self.path_spec().len(),
                copy@.len() >= 1,
                tries <= copy@.len(),
                graph.wf(),
                rotation_of(copy@, self.path_spec()),
                copy@ == rotated(self.path_spec(), tries as int),
                forall|u: int|
                    0 <= u < tries ==> !graph.adjacent(
                        sid,
                        #[trigger] rotated(self.path_spec(), u)[0],
                    ),
            ensures
                copy@.len() == self.path_spec().len(),
                rotation_of(copy@, self.path_spec()),
                exists|t: int|
                    head_rotation_pick(graph, sid, self.path_spec(), t) && copy@ == rotated(
                        self.path_spec(),
                        t,
                    ),
            decreases copy@.len() - tries,
        {
            if tries >= copy.len() {
                proof {
                    assert(head_rotation_pick(graph, sid, self.path_spec(), tries as int));
                }
                break ;
            }
            if graph.adjacent_nodes(sid, copy[0]) {
                proof {
                    assert(copy@[0] == rotated(self.path_spec(), tries as int)[0]);
                    assert(head_rotation_pick(graph, sid, self.path_spec(), tries as int));
                }
                break ;
            }
            let ghost prev = copy@;
            copy = rotate_right_once(&copy);
            proof {
                lemma_rotation_step(prev, self.path_spec());
                lemma_rotated_step(self.path_spec(), tries as int);
                assert(copy@ =~= rotated(self.path_spec(), tries + 1));
                assert forall|u: int|
                    0 <= u < tries + 1 implies !graph.adjacent(
                    sid,
                    #[trigger] rotated(self.path_spec(), u)[0],
                ) by {
                    if u == tries {
                        assert(rotated(self.path_spec(), u)[0] == prev[0]);
                    }
                }
            }
            tries = tries + 1;
        }
        let ghost rot = copy@;
        let mut r = left;
        r.append(&mut copy);
        proof {
            assert(r@ == left@ + rot);
        }
        r
    }

    /// The blossom is the leftmost segment: rotate the cycle until its last
    /// vertex attaches to the start of `right`, then prepend it.
    fn lift_blossom_right(&self, right: Vec<usize>, graph: &DefaultGraph) -> (r: Vec<usize>)
        requires
            graph.wf(),
            right@.len() >= 1,
            self.path_spec().len() >= 1,
        ensures
            r@.len() == right@.len() + self.path_spec().len(),
            exists|rot: Seq<usize>| rotation_of(rot, self.path_spec()) && r@ == rot + right@,
            exists|t: int|
                tail_rotation_pick(graph, right@[0], self.path_spec(), t) && r@ == rotated(
                    self.path_spec(),
                    t,
                ) + right@,
    {
        let tid = right[0];
        let mut copy = copy_ids(&self.path);
        proof {
            lemma_rotation_init(self.path_spec());
            assert(copy@ =~= rotated(self.path_spec(), 0));
        }
        let mut tries: usize = 0;
        loop
            invariant
                copy@.len() == self.path_spec().len(),
                copy@.len() >= 1,
                tries <= copy@.len(),
                graph.wf(),
                rotation_of(copy@, self.path_spec()),
                copy@ == rotated(self.path_spec(), tries as int),
                forall|u: int|
                    0 <= u < tries ==> !graph.adjacent(
                        #[trigger] rotated(self.path_spec(), u)[self.path_spec().len() - 1],
                        tid,
                    ),
            ensures
                copy@.len() == self.path_spec().len(),
                rotation_of(copy@, self.path_spec()),
                exists|t: int|
                    tail_rotation_pick(graph, tid, self.path_spec(), t) && copy@ == rotated(
                        self.path_spec(),
                        t,
                    ),
            decreases copy@.len() - tries,
        {
            if tries >= copy.len() {
                proof {
                    assert(tail_rotation_pick(graph, tid, self.path_spec(), tries as int));
                }
                break ;
            }
            if graph.adjacent_nodes(copy[copy.len() - 1], tid) {
                proof {
                    assert(copy@[copy@.len() - 1] == rotated(self.path_spec(), tries as int)[
                        self.path_spec().len() - 1]);
                    assert(tail_rotation_pick(graph, tid, self.path_spec(), tries as int));
                }
                break ;
            }
            let ghost prev = copy@;
            copy = rotate_right_once(&copy);
            proof {
                lemma_rotation_step(prev, self.path_spec());
                lemma_rotated_step(self.path_spec(), tries as int);
                assert(copy@ =~= rotated(self.path_spec(), tries + 1));
                assert forall|u: int|
                    0 <= u < tries + 1 implies !graph.adjacent(
                    #[trigger] rotated(self.path_spec(), u)[self.path_spec().len() - 1],
                    tid,
                ) by {
                    if u == tries {
                        assert(rotated(self.path_spec(), u)[self.path_spec().len() - 1] == prev[
                            prev.len() - 1]);
                    }
                }
            }
            tries = tries + 1;
        }
        let ghost rot = copy@;
        let ghost rt = right@;
        let mut r = copy;
        let mut right = right;
        r.append(&mut right);
        proof {
            assert(r@ == rot + rt);
        }
        r
    }

    /// The blossom is interior: rotate the cycle to attach to the left
    /// segment, emit vertices up to the first one adjacent to the right
    /// segment, and fall back to the reversed cycle when the forward walk
    /// has the wrong parity. Either way the result is the left segment,
    /// then a leading piece of some rotation of the cycle or its
    /// reversal, then the right segment.
    fn lift_left_blossom_right(
        &self,
        left: Vec<usize>,
        right: Vec<usize>,
        graph: &DefaultGraph,
    ) -> (r: Vec<usize>)
        requires
            graph.wf(),
            left@.len() >= 1,
            right@.len() >= 1,
            self.path_spec().len() >= 1,
        ensures
            exists|mid: Seq<usize>|
                1 <= mid.len() <= self.path_spec().len() && is_cycle_prefix(
                    mid,
                    self.path_spec(),
                ) && r@ == left@ + mid + right@,
            ({
                let cyc = self.path_spec();
                let s_attach = left@[left@.len() - 1];
                let t_attach = right@[0];
                exists|t: int, q: int|
                    {
                        &&& head_rotation_pick(graph, s_attach, cyc, t)
                        &&& scan_pick(graph, rotated(cyc, t), t_attach, q)
                        &&& {
                            let fwd = left@ + rotated(cyc, t).subrange(0, q) + right@;
                            ||| (fwd.len() % 2 == 0 && r@ == fwd)
                            ||| (fwd.len() % 2 == 1 && exists|t2: int, q2: int|
                                {
                                    &&& head_rotation_pick(graph, s_attach, cyc.reverse(), t2)
                                    &&& scan_pick(graph, rotated(cyc.reverse(), t2), t_attach, q2)
                                    &&& r@ == left@ + rotated(cyc.reverse(), t2).subrange(0, q2)
                                        + right@
                                })
                        }
                    }
            }),
    {
        let ghost lft = left@;
        let ghost rgt = right@;
        let ghost cyc = self.path_spec();
        let sid = left[left.len() - 1];
        let tid = right[0];
        let mut forward_blossom = copy_ids(&self.path);
        proof {
            lemma_rotation_init(cyc);
            assert(forward_blossom@ =~= rotated(cyc, 0));
        }
        let mut tries: usize = 0;
        loop
            invariant
                forward_blossom@.len() == cyc.len(),
                cyc == self.path_spec(),
                forward_blossom@.len() >= 1,
                tries <= forward_blossom@.len(),
                graph.wf(),
                rotation_of(forward_blossom@, cyc),
                forward_blossom@ == rotated(cyc, tries as int),
                forall|u: int|
                    0 <= u < tries ==> !graph.adjacent(sid, #[trigger] rotated(cyc, u)[0]),
            ensures
                forward_blossom@.len() == cyc.len(),
                forward_blossom@.len() >= 1,
                rotation_of(forward_blossom@, cyc),
                exists|t: int|
                    head_rotation_pick(graph, sid, cyc, t) && forward_blossom@ == rotated(cyc, t),
            decreases forward_blossom@.len() - tries,
        {
            if tries >= forward_blossom.len() {
                proof {
                    assert(head_rotation_pick(graph, sid, cyc, tries as int));
                }
                break ;
            }
            if graph.adjacent_nodes(sid, forward_blossom[0]) {
                proof {
                    assert(forward_blossom@[0] == rotated(cyc, tries as int)[0]);
                    assert(head_rotation_pick(graph, sid, cyc, tries as int));
                }
                break ;
            }
            let ghost prev = forward_blossom@;
            forward_blossom = rotate_right_once(&forward_blossom);
            proof {
                lemma_rotation_step(prev, cyc);
                lemma_rotated_step(cyc, tries as int);
                assert(forward_blossom@ =~= rotated(cyc, tries + 1));
                assert forall|u: int|
                    0 <= u < tries + 1 implies !graph.adjacent(
                    sid,
                    #[trigger] rotated(cyc, u)[0],
                ) by {
                    if u == tries {
                        assert(rotated(cyc, u)[0] == prev[0]);
                    }
                }
            }
            tries = tries + 1;
        }
        let mut forward = copy_ids(&left);
        let mut m: usize = 0;
        proof {
            assert(forward@ =~= lft + forward_blossom@.subrange(0, 0));
        }
        loop
            invariant_except_break
                m <= forward_blossom@.len(),
                graph.wf(),
                lft == left@,
                forward_blossom@.len() >= 1,
                forward@ == lft + forward_blossom@.subrange(0, m as int),
                forall|u: int|
                    0 <= u < m ==> !graph.adjacent(#[trigger] forward_blossom@[u], tid),
            ensures
                exists|q: int|
                    scan_pick(graph, forward_blossom@, tid, q) && forward@ == lft
                        + forward_blossom@.subrange(0, q),
            decreases forward_blossom@.len() - m,
        {
            if m >= forward_blossom.len() {
                proof {
                    assert(scan_pick(graph, forward_blossom@, tid, m as int));
                }
                break ;
            }
            forward.push(forward_blossom[m]);
            proof {
                assert(forward@ =~= lft + forward_blossom@.subrange(0, m + 1));
            }
            if graph.adjacent_nodes(forward_blossom[m], tid) {
                proof {
                    assert(scan_pick(graph, forward_blossom@, tid, m + 1));
                }
                break ;
            }
            proof {
                assert forall|u: int|
                    0 <= u < m + 1 implies !graph.adjacent(
                    #[trigger] forward_blossom@[u],
                    tid,
                ) by {}
            }
            m = m + 1;
        }
        let ghost fb = forward_blossom@;
        let ghost fwd0 = forward@;
        let mut right_copy = copy_ids(&right);
        forward.append(&mut right_copy);
        proof {
            assert(forward@ == fwd0 + rgt);
        }
        if forward.len() % 2 == 0 {
            proof {
                let t = choose|t: int|
                    head_rotation_pick(graph, sid, cyc, t) && fb == rotated(cyc, t);
                let q = choose|q: int|
                    scan_pick(graph, fb, tid, q) && fwd0 == lft + fb.subrange(0, q);
                let mid = fb.subrange(0, q);
                assert(mid == fb.subrange(0, mid.len() as int));
                assert(rotation_of(fb, cyc));
                lemma_cycle_prefix_intro(mid, fb, cyc);
                assert(forward@ == left@ + mid + right@);
                assert(scan_pick(graph, rotated(cyc, t), tid, q));
                assert(forward@ == left@ + rotated(cyc, t).subrange(0, q) + right@);
            }
            return forward;
        }
        let ghost gfwd = forward@;
        let mut reverse_blossom = reversed_ids(&self.path);
        proof {
            lemma_rotation_init(cyc.reverse());
            assert(reverse_blossom@ =~= rotated(cyc.reverse(), 0));
            assert(cyc.reverse().len() == cyc.len());
        }
        let mut tries2: usize = 0;
        loop
            invariant
                reverse_blossom@.len() == cyc.len(),
                cyc == self.path_spec(),
                reverse_blossom@.len() >= 1,
                tries2 <= reverse_blossom@.len(),
                graph.wf(),
                rotation_of(reverse_blossom@, cyc.reverse()),
                reverse_blossom@ == rotated(cyc.reverse(), tries2 as int),
                forall|u: int|
                    0 <= u < tries2 ==> !graph.adjacent(
                        sid,
                        #[trigger] rotated(cyc.reverse(), u)[0],
                    ),
            ensures
                reverse_blossom@.len() == cyc.len(),
                reverse_blossom@.len() >= 1,
                rotation_of(reverse_blossom@, cyc.reverse()),
                exists|t: int|
                    head_rotation_pick(graph, sid, cyc.reverse(), t) && reverse_blossom@
                        == rotated(cyc.reverse(), t),
            decreases reverse_blossom@.len() - tries2,
        {
            if tries2 >= reverse_blossom.len() {
                proof {
                    assert(head_rotation_pick(graph, sid, cyc.reverse(), tries2 as int));
                }
                break ;
            }
            if graph.adjacent_nodes(sid, reverse_blossom[0]) {
                proof {
                    assert(reverse_blossom@[0] == rotated(cyc.reverse(), tries2 as int)[0]);
                    assert(head_rotation_pick(graph, sid, cyc.reverse(), tries2 as int));
                }
                break ;
            }
            let ghost prev = reverse_blossom@;
            reverse_blossom = rotate_right_once(&reverse_blossom);
            proof {
                lemma_rotation_step(prev, cyc.reverse());
                lemma_rotated_step(cyc.reverse(), tries2 as int);
                assert(reverse_blossom@ =~= rotated(cyc.reverse(), tries2 + 1));
                assert forall|u: int|
                    0 <= u < tries2 + 1 implies !graph.adjacent(
                    sid,
                    #[trigger] rotated(cyc.reverse(), u)[0],
                ) by {
                    if u == tries2 {
                        assert(rotated(cyc.reverse(), u)[0] == prev[0]);
                    }
                }
            }
            tries2 = tries2 + 1;
        }
        let mut reverse = left;
        let mut m2: usize = 0;
        proof {
            assert(reverse@ =~= lft + reverse_blossom@.subrange(0, 0));
        }
        loop
            invariant_except_break
                m2 <= reverse_blossom@.len(),
                graph.wf(),
                reverse_blossom@.len() >= 1,
                reverse@ == lft + reverse_blossom@.subrange(0, m2 as int),
                forall|u: int|
                    0 <= u < m2 ==> !graph.adjacent(#[trigger] reverse_blossom@[u], tid),
            ensures
                exists|q: int|
                    scan_pick(graph, reverse_blossom@, tid, q) && reverse@ == lft
                        + reverse_blossom@.subrange(0, q),
            decreases reverse_blossom@.len() - m2,
        {
            if m2 >= reverse_blossom.len() {
                proof {
                    assert(scan_pick(graph, reverse_blossom@, tid, m2 as int));
                }
                break ;
            }
            reverse.push(reverse_blossom[m2]);
            proof {
                assert(reverse@ =~= lft + reverse_blossom@.subrange(0, m2 + 1));
            }
            if graph.adjacent_nodes(reverse_blossom[m2], tid) {
                proof {
                    assert(scan_pick(graph, reverse_blossom@, tid, m2 + 1));
                }
                break ;
            }
            proof {
                assert forall|u: int|
                    0 <= u < m2 + 1 implies !graph.adjacent(
                    #[trigger] reverse_blossom@[u],
                    tid,
                ) by {}
            }
            m2 = m2 + 1;
        }
        let ghost rb = reverse_blossom@;
        let ghost rev0 = reverse@;
        let mut right2 = right;
        reverse.append(&mut right2);
        proof {
            let n = choose|n: int| scan_pick(graph, rb, tid, n) && rev0 == lft + rb.subrange(0, n);
            let mid = rb.subrange(0, n);
            assert(mid == rb.subrange(0, mid.len() as int));
            assert(rotation_of(rb, cyc.reverse()));
            lemma_cycle_prefix_intro(mid, rb, cyc);
            assert(reverse@ == left@ + mid + right@);
            let t = choose|t: int|
                head_rotation_pick(graph, sid, cyc, t) && fb == rotated(cyc, t);
            let q = choose|q: int|
                scan_pick(graph, fb, tid, q) && fwd0 == lft + fb.subrange(0, q);
            assert(scan_pick(graph, rotated(cyc, t), tid, q));
            let fwdspec = left@ + rotated(cyc, t).subrange(0, q) + right@;
            assert(fwdspec == gfwd);
            assert(fwdspec.len() % 2 == 1);
            let t2 = choose|t2: int|
                head_rotation_pick(graph, sid, cyc.reverse(), t2) && rb == rotated(
                    cyc.reverse(),
                    t2,
                );
            assert(scan_pick(graph, rotated(cyc.reverse(), t2), tid, n));
            assert(reverse@ == left@ + rotated(cyc.reverse(), t2).subrange(0, n) + right@);
        }
        reverse
    }
}

/// A copy of a vector of vertex ids.
pub(crate) fn copy_ids(v: &Vec<usize>) -> (r: Vec<usize>)
    ensures
        r@ == v@,
{
    let mut r: Vec<usize> = Vec::new();
    let mut i: usize = 0;
    while i < v.len()
        invariant
            i <= v@.len(),
            r@ == v@.subrange(0, i as int),
        decreases v@.len() - i,
    {
        r.push(v[i]);
        proof {
            assert(r@ =~= v@.subrange(0, i + 1));
        }
        i = i + 1;
    }
    proof {
        assert(r@ =~= v@);
    }
    r
}

/// A reversed copy of a vector of vertex ids.
pub(crate) fn reversed_ids(v: &Vec<usize>) -> (r: Vec<usize>)
    ensures
        r@ == v@.reverse(),
{
    let mut r: Vec<usize> = Vec::new();
    let mut i: usize = v.len();
    while i > 0
        invariant
            i <= v@.len(),
            r@.len() == v@.len() - i,
            forall|k: int| 0 <= k < r@.len() ==> r@[k] == v@[v@.len() - 1 - k],
        decreases i,
    {
        i = i - 1;
        r.push(v[i]);
    }
    proof {
        assert(r@ =~= v@.reverse());
    }
    r
}

/// One full rotation step: the last vertex moves to the front.
fn rotate_right_once(v: &Vec<usize>) -> (r: Vec<usize>)
    requires
        v@.len() >= 1,
    ensures
        r@ == seq![v@[v@.len() - 1]] + v@.subrange(0, v@.len() - 1),
        r@.len() == v@.len(),
{
    let mut r: Vec<usize> = Vec::new();
    r.push(v[v.len() - 1]);
    let mut i: usize = 0;
    while i < v.len() - 1
        invariant
            v@.len() >= 1,
            i <= v@.len() - 1,
            r@ == seq![v@[v@.len() - 1]] + v@.subrange(0, i as int),
        decreases v@.len() - 1 - i,
    {
        r.push(v[i]);
        proof {
            assert(r@ =~= seq![v@[v@.len() - 1]] + v@.subrange(0, i + 1));
        }
        i = i + 1;
    }
    r
}

/// How one host edge shows up in the contracted graph: unchanged when it
/// avoids the blossom, redirected to `id` when one endpoint is inside,
/// gone when both are.
pub open spec fn edge_connects(
    path: Seq<usize>,
    id: usize,
    e: (usize, usize),
    a: usize,
    b: usize,
) -> bool {
    if !path.contains(e.0) && !path.contains(e.1) {
        (a == e.0 && b == e.1) || (a == e.1 && b == e.0)
    } else if path.contains(e.0) && !path.contains(e.1) {
        (a == id && b == e.1) || (a == e.1 && b == id)
    } else if !path.contains(e.0) && path.contains(e.1) {
        (a == id && b == e.0) || (a == e.0 && b == id)
    } else {
        false
    }
}

/// One translated edge `(x, y)` was added (or found present): the
/// adjacency built so far corresponds to the processed host edges.
/// Two distinct entries of a pairing's canonical edge list share no
/// endpoint: each matched vertex belongs to exactly one listed pair.
proof fn lemma_edges_disjoint(m: Map<usize, usize>, pe: Seq<(usize, usize)>, l1: int, l2: int)
    requires
        crate::matching::pairing::sym_map(m),
        pe.no_duplicates(),
        forall|l: int|
            0 <= l < pe.len() ==> (#[trigger] pe[l]).0 < pe[l].1 && m.contains_key(pe[l].0)
                && m[pe[l].0] == pe[l].1,
        0 <= l1 < pe.len(),
        0 <= l2 < pe.len(),
        l1 != l2,
    ensures
        pe[l1].0 != pe[l2].0,
        pe[l1].0 != pe[l2].1,
        pe[l1].1 != pe[l2].0,
        pe[l1].1 != pe[l2].1,
{
    assert(m.contains_key(pe[l1].0) && m[pe[l1].0] == pe[l1].1);
    assert(m.contains_key(pe[l2].0) && m[pe[l2].0] == pe[l2].1);
    if pe[l1].0 == pe[l2].0 {
        assert(pe[l1] == pe[l2]);
        assert(false);
    }
    if pe[l1].0 == pe[l2].1 {
        assert(m[pe[l2].1] == pe[l2].0);
        assert(pe[l1].1 == pe[l2].0);
        assert(pe[l1].0 < pe[l1].1 && pe[l2].0 < pe[l2].1);
        assert(false);
    }
    if pe[l1].1 == pe[l2].0 {
        assert(m[pe[l1].1] == pe[l1].0);
        assert(pe[l2].1 == pe[l1].0);
        assert(false);
    }
    if pe[l1].1 == pe[l2].1 {
        assert(m[pe[l1].1] == pe[l1].0);
        assert(m[pe[l2].1] == pe[l2].0);
        assert(pe[l1] == pe[l2]);
        assert(false);
    }
}

proof fn lemma_connect_step(
    pc: Seq<usize>,
    id: usize,
    es: Seq<(usize, usize)>,
    k: int,
    r0: DefaultGraph,
    r1: &DefaultGraph,
    x: usize,
    y: usize,
)
    requires
        0 <= k < es.len(),
        edge_connects(pc, id, es[k], x, y),
        forall|a: usize, b: usize|
            #[trigger] r0.adjacent(a, b) <==> exists|m: int|
                0 <= m < k && edge_connects(pc, id, #[trigger] es[m], a, b),
        forall|a: usize, b: usize|
            #[trigger] r1.adjacent(a, b) <==> (r0.adjacent(a, b) || (a == x && b == y) || (a == y
                && b == x)),
    ensures
        forall|a: usize, b: usize|
            #[trigger] r1.adjacent(a, b) <==> exists|m: int|
                0 <= m < k + 1 && edge_connects(pc, id, #[trigger] es[m], a, b),
{
    assert forall|a: usize, b: usize|
        #[trigger] r1.adjacent(a, b) <==> exists|m: int|
            0 <= m < k + 1 && edge_connects(pc, id, #[trigger] es[m], a, b) by {
        if r1.adjacent(a, b) {
            if r0.adjacent(a, b) {
                let m = choose|m: int|
                    0 <= m < k && edge_connects(pc, id, #[trigger] es[m], a, b);
                assert(0 <= m < k + 1 && edge_connects(pc, id, es[m], a, b));
            } else {
                assert(edge_connects(pc, id, es[k], a, b));
            }
        } else {
            if exists|m: int| 0 <= m < k + 1 && edge_connects(pc, id, #[trigger] es[m], a, b) {
                let m = choose|m: int|
                    0 <= m < k + 1 && edge_connects(pc, id, #[trigger] es[m], a, b);
                if m < k {
                    assert(r0.adjacent(a, b));
                } else {
                    assert(edge_connects(pc, id, es[k], a, b));
                    assert((a == x && b == y) || (a == y && b == x) || (a == x && b == y));
                }
            }
        }
    }
}

} // verus!
