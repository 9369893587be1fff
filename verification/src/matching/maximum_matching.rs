use vstd::prelude::*;
use crate::graph::default_graph::DefaultGraph;
use crate::matching::blossom::{reversed_ids, Blossom};
use crate::matching::forest::Forest;
use crate::matching::marker::Marker;
use crate::matching::pairing::{
    augment_map, is_augmenting_for, lemma_augment_properties, lemma_matched_bound,
    lemma_mate_symmetric, lemma_pair_map_cases, lemma_pair_sym, lemma_wf_sym, pair_map, sym_map,
    Pairing,
};

verus! {

/// Every matched pair of `m` is an edge of `graph`.
pub open spec fn valid_matching(graph: &DefaultGraph, m: Map<usize, usize>) -> bool {
    forall|u: usize| #[trigger] m.contains_key(u) ==> graph.adjacent(u, m[u])
}

/// An augmenting path for `m` in `graph`: an alternating path of even
/// vertex count whose endpoints are unmatched and whose consecutive
/// vertices are adjacent in the graph.
pub open spec fn is_augmenting_path(
    graph: &DefaultGraph,
    m: Map<usize, usize>,
    p: Seq<usize>,
) -> bool {
    &&& is_augmenting_for(m, p)
    &&& forall|i: int| 0 <= i < p.len() - 1 ==> graph.adjacent(#[trigger] p[i], p[i + 1])
}

/// Augmenting along a genuine augmenting path — alternating, endpoints
/// unmatched, consecutive vertices adjacent — grows the matching by exactly
/// one pair and keeps it a matching over the graph's edges.
pub proof fn lemma_augmenting_path_grows(
    graph: &DefaultGraph,
    m: Map<usize, usize>,
    p: Seq<usize>,
)
    requires
        graph.wf(),
        sym_map(m),
        m.dom().finite(),
        valid_matching(graph, m),
        is_augmenting_path(graph, m, p),
    ensures
        augment_map(m, p).dom().finite(),
        augment_map(m, p).dom().len() == m.dom().len() + 2,
        sym_map(augment_map(m, p)),
        valid_matching(graph, augment_map(m, p)),
{
    lemma_augment_properties(m, p);
    graph.lemma_graph_facts();
    let r = augment_map(m, p);
    assert forall|u: usize| #[trigger] r.contains_key(u) implies graph.adjacent(u, r[u]) by {
        if m.contains_key(u) && m[u] == r[u] {
        } else {
            let i = choose|i: int|
                0 <= i < p.len() - 1 && ((#[trigger] p[i]) == u && p[i + 1] == r[u] || p[i] == r[u]
                    && p[i + 1] == u);
            assert(graph.adjacent(p[i], p[i + 1]));
        }
    }
}

/// The shape every candidate the search hands back satisfies: even
/// vertex count, and every even-indexed consecutive pair a distinct edge
/// of the graph. The search additionally promises that all consecutive
/// vertices are adjacent, so a candidate is a genuine walk of the host
/// graph; whether it alternates with the matching — a rearrangement can
/// come back lifted through a blossom — is what the driver then decides.
pub open spec fn usable_path(graph: &DefaultGraph, p: Seq<usize>) -> bool {
    &&& p.len() >= 2
    &&& p.len() % 2 == 0
    &&& forall|i: int|
        0 <= i < p.len() - 1 && i % 2 == 0 ==> #[trigger] p[i] != p[i + 1] && graph.adjacent(
            p[i],
            p[i + 1],
        )
}

/// Decide `usable_path` at run time.
fn check_candidate(graph: &DefaultGraph, path: &Vec<usize>) -> (r: bool)
    requires
        graph.wf(),
    ensures
        r == usable_path(graph, path@),
{
    let n = path.len();
    if n < 2 || n % 2 == 1 {
        return false;
    }
    let mut i: usize = 0;
    while i < n - 1
        invariant
            n == path@.len(),
            n >= 2,
            graph.wf(),
            i % 2 == 0,
            i <= n,
            forall|k: int|
                0 <= k < i && k % 2 == 0 ==> #[trigger] path@[k] != path@[k + 1]
                    && graph.adjacent(path@[k], path@[k + 1]),
        decreases n - i,
    {
        if path[i] == path[i + 1] {
            return false;
        }
        if !graph.adjacent_nodes(path[i], path[i + 1]) {
            return false;
        }
        proof {
            assert forall|k: int|
                0 <= k < i + 2 && k % 2 == 0 implies #[trigger] path@[k] != path@[k + 1]
                && graph.adjacent(path@[k], path@[k + 1]) by {
                if k < i {
                } else {
                    assert(k == i) by {
                        assert(i % 2 == 0);
                    }
                }
            }
        }
        i = i + 2;
    }
    proof {
        assert forall|k: int|
            0 <= k < path@.len() - 1 && k % 2 == 0 implies #[trigger] path@[k] != path@[k + 1]
            && graph.adjacent(path@[k], path@[k + 1]) by {}
    }
    true
}

/// Whether all vertices of the path are distinct.
fn all_distinct(path: &Vec<usize>) -> (r: bool)
    ensures
        r == path@.no_duplicates(),
{
    let n = path.len();
    let mut i: usize = 0;
    while i < n
        invariant
            n == path@.len(),
            i <= n,
            forall|a: int, b: int| 0 <= a < i && a < b < n ==> path@[a] != path@[b],
        decreases n - i,
    {
        let mut j: usize = i + 1;
        while j < n
            invariant
                n == path@.len(),
                i < j,
                j <= n,
                forall|b: int| i < b < j ==> path@[i as int] != path@[b],
            decreases n - j,
        {
            if path[i] == path[j] {
                proof {
                    assert(path@[i as int] == path@[j as int]);
                }
                return false;
            }
            j = j + 1;
        }
        i = i + 1;
    }
    true
}

/// The matched odd-indexed edges of the path's first `i` vertices.
spec fn odd_prefix_matched(m: Map<usize, usize>, p: Seq<usize>, i: int) -> bool {
    forall|k: int|
        0 <= k < i && k % 2 == 1 ==> #[trigger] m.contains_key(p[k]) && m[p[k]] == p[k + 1]
}

/// A shorter prefix of matched odd edges follows from a longer one.
proof fn lemma_odd_prefix_mono(m: Map<usize, usize>, p: Seq<usize>, i: int, j: int)
    requires
        j <= i,
        odd_prefix_matched(m, p, i),
    ensures
        odd_prefix_matched(m, p, j),
{
    assert(forall|k: int|
        0 <= k < i && k % 2 == 1 ==> #[trigger] m.contains_key(p[k]) && m[p[k]] == p[k + 1]);
    assert forall|k: int| 0 <= k < j && k % 2 == 1 implies #[trigger] m.contains_key(p[k])
        && m[p[k]] == p[k + 1] by {
        assert(0 <= k < i && k % 2 == 1);
        assert(m.contains_key(p[k]) && m[p[k]] == p[k + 1]);
    }
}

/// One more matched odd edge extends the matched prefix by two.
proof fn lemma_odd_prefix_step(m: Map<usize, usize>, p: Seq<usize>, i: int)
    requires
        0 <= i,
        i % 2 == 1,
        odd_prefix_matched(m, p, i),
        m.contains_key(p[i]),
        m[p[i]] == p[i + 1],
    ensures
        odd_prefix_matched(m, p, i + 2),
{
    assert forall|k: int| 0 <= k < i + 2 && k % 2 == 1 implies #[trigger] m.contains_key(p[k])
        && m[p[k]] == p[k + 1] by {
        if k < i {
            assert(m.contains_key(p[k]) && m[p[k]] == p[k + 1]);
        } else if k == i {
        } else {
            assert(k == i + 1);
            assert((i + 1) % 2 == 0) by {
                assert(i % 2 == 1);
            }
        }
    }
}

/// Whether every odd-indexed consecutive pair of the path is a matched
/// pair of the pairing.
fn odd_edges_matched(pairing: &Pairing, path: &Vec<usize>) -> (r: bool)
    requires
        pairing.wf(),
        path@.len() >= 2,
    ensures
        r == odd_prefix_matched(pairing@, path@, path@.len() - 1),
{
    let n = path.len();
    let mut i: usize = 1;
    while i < n - 1
        invariant
            n == path@.len(),
            n >= 2,
            pairing.wf(),
            i % 2 == 1,
            1 <= i,
            i <= n,
            odd_prefix_matched(pairing@, path@, i as int),
        decreases n - i,
    {
        if !pairing.has_node(path[i]) {
            return false;
        }
        if pairing.mate(path[i]) != path[i + 1] {
            return false;
        }
        proof {
            assert(pairing@.contains_key(path@[i as int]) && pairing@[path@[i as int]] == path@[i
                + 1]);
            lemma_odd_prefix_step(pairing@, path@, i as int);
        }
        i = i + 2;
    }
    proof {
        lemma_odd_prefix_mono(pairing@, path@, i as int, n - 1);
    }
    true
}

/// Whether every consecutive pair of the path is adjacent in the graph.
fn consecutive_adjacent(graph: &DefaultGraph, path: &Vec<usize>) -> (r: bool)
    requires
        graph.wf(),
        path@.len() >= 2,
    ensures
        r == (forall|k: int|
            0 <= k < path@.len() - 1 ==> graph.adjacent(#[trigger] path@[k], path@[k + 1])),
{
    let n = path.len();
    let mut i: usize = 0;
    while i < n - 1
        invariant
            n == path@.len(),
            n >= 2,
            graph.wf(),
            i <= n,
            forall|k: int| 0 <= k < i ==> graph.adjacent(#[trigger] path@[k], path@[k + 1]),
        decreases n - i,
    {
        if !graph.adjacent_nodes(path[i], path[i + 1]) {
            return false;
        }
        i = i + 1;
    }
    true
}

/// Decide `is_augmenting_path` at run time: even vertex count, distinct
/// vertices, unmatched endpoints, every odd-indexed edge matched, every
/// consecutive pair adjacent. Every candidate the search returns passes
/// through this check.
fn check_augmenting(graph: &DefaultGraph, pairing: &Pairing, path: &Vec<usize>) -> (r: bool)
    requires
        graph.wf(),
        pairing.wf(),
    ensures
        r == is_augmenting_path(graph, pairing@, path@),
{
    let n = path.len();
    if n < 2 || n % 2 == 1 {
        return false;
    }
    if !all_distinct(path) {
        return false;
    }
    if pairing.has_node(path[0]) {
        return false;
    }
    if pairing.has_node(path[n - 1]) {
        return false;
    }
    if !odd_edges_matched(pairing, path) {
        return false;
    }
    if !consecutive_adjacent(graph, path) {
        return false;
    }
    true
}

/// The largest vertex identifier of a non-empty graph.
fn max_node_id(graph: &DefaultGraph) -> (r: usize)
    requires
        graph.wf(),
        graph.node_seq().len() > 0,
    ensures
        forall|k: int| 0 <= k < graph.node_seq().len() ==> #[trigger] graph.node_seq()[k] <= r,
{
    let ids = graph.ids();
    let mut mx: usize = ids[0];
    let mut i: usize = 1;
    while i < ids.len()
        invariant
            ids@ == graph.node_seq(),
            1 <= i <= ids@.len(),
            forall|k: int| 0 <= k < i ==> #[trigger] ids@[k] <= mx,
        decreases ids@.len() - i,
    {
        if ids[i] > mx {
            mx = ids[i];
        }
        i = i + 1;
    }
    mx
}

/// The first even forest vertex that is not yet marked, if any.
fn some_v(forest: &Forest, marker: &Marker) -> (r: Option<usize>)
    requires
        forest.wf(),
    ensures
        match r {
            Some(v) => forest.has_spec(v) && forest.even_spec(v) && !marker.node_marked(v),
            None => true,
        },
{
    let evens = forest.even_nodes();
    let mut i: usize = 0;
    while i < evens.len()
        invariant
            i <= evens@.len(),
            forall|k: int|
                0 <= k < evens@.len() ==> forest.has_spec(#[trigger] evens@[k])
                    && forest.even_spec(evens@[k]),
        decreases evens@.len() - i,
    {
        if !marker.has_node(evens[i]) {
            return Some(evens[i]);
        }
        i = i + 1;
    }
    None
}

/// The position of the first neighbor of `v` whose edge is unexamined.
fn some_w(v: usize, nb: &Vec<usize>, marker: &Marker) -> (r: Option<usize>)
    ensures
        match r {
            Some(j) => j < nb@.len() && !marker.edge_marked(v, nb@[j as int]) && forall|k: int|
                0 <= k < j ==> marker.edge_marked(v, #[trigger] nb@[k]),
            None => forall|k: int|
                0 <= k < nb@.len() ==> marker.edge_marked(v, #[trigger] nb@[k]),
        },
{
    let mut j: usize = 0;
    while j < nb.len()
        invariant
            j <= nb@.len(),
            forall|k: int| 0 <= k < j ==> marker.edge_marked(v, #[trigger] nb@[k]),
        decreases nb@.len() - j,
    {
        if !marker.has_edge(v, nb[j]) {
            return Some(j);
        }
        j = j + 1;
    }
    None
}

/// Two even forest paths met: when their roots differ, the candidate is
/// exactly the first path reversed followed by the second; when they
/// share their last vertex they close a blossom, which is contracted and
/// searched recursively. Either way, a candidate comes back only if it
/// passes the usable-path check; anything else counts as a failed
/// attempt.
fn even_path(graph: &DefaultGraph, pairing: &Pairing, pv: Vec<usize>, pw: Vec<usize>) -> (r:
    Option<Vec<usize>>)
    requires
        graph.wf(),
        pairing.wf(),
        valid_matching(graph, pairing@),
        pv@.len() >= 1,
        pw@.len() >= 1,
        pv@[0] != pw@[0],
        forall|k: int| 0 <= k < pv@.len() ==> graph.contains_node(#[trigger] pv@[k]),
        forall|k: int| 0 <= k < pw@.len() ==> graph.contains_node(#[trigger] pw@[k]),
    ensures
        match r {
            Some(p) => {
                &&& usable_path(graph, p@)
                &&& forall|i: int|
                    0 <= i < p@.len() - 1 ==> graph.adjacent(#[trigger] p@[i], p@[i + 1])
                &&& (pv@[pv@.len() - 1] != pw@[pw@.len() - 1] ==> p@ == pv@.reverse() + pw@)
            },
            None => true,
        },
    decreases graph.node_seq().len(), 1int,
{
    if pv[pv.len() - 1] == pw[pw.len() - 1] {
        process_blossom(graph, pairing, pv, pw)
    } else {
        let ghost pg = pw@;
        let mut cand = reversed_ids(&pv);
        let mut tail = pw;
        cand.append(&mut tail);
        proof {
            assert(cand@ == pv@.reverse() + pg);
        }
        if check_candidate(graph, &cand) && consecutive_adjacent(graph, &cand) {
            Some(cand)
        } else {
            None
        }
    }
}

/// Contract the blossom closed by two even paths with a common root,
/// search the contracted instance, and lift any path that it finds back
/// through the blossom. A lifted candidate comes back only if it passes
/// the usable-path check; anything else counts as a failed attempt.
fn process_blossom(graph: &DefaultGraph, pairing: &Pairing, left: Vec<usize>, right: Vec<usize>)
    -> (r: Option<Vec<usize>>)
    requires
        graph.wf(),
        pairing.wf(),
        valid_matching(graph, pairing@),
        left@.len() >= 1,
        right@.len() >= 1,
        left@[left@.len() - 1] == right@[right@.len() - 1],
        left@[0] != right@[0],
        forall|k: int| 0 <= k < left@.len() ==> graph.contains_node(#[trigger] left@[k]),
        forall|k: int| 0 <= k < right@.len() ==> graph.contains_node(#[trigger] right@[k]),
    ensures
        match r {
            Some(p) => {
                &&& usable_path(graph, p@)
                &&& forall|i: int|
                    0 <= i < p@.len() - 1 ==> graph.adjacent(#[trigger] p@[i], p@[i + 1])
            },
            None => true,
        },
    decreases graph.node_seq().len(), 0int,
{
    proof {
        assert(graph.node_seq().len() > 0) by {
            assert(graph.contains_node(left@[0]));
        }
    }
    let mx = max_node_id(graph);
    if mx == usize::MAX {
        return None;
    }
    let id = mx + 1;
    proof {
        assert(!graph.contains_node(id)) by {
            if graph.contains_node(id) {
                let k = choose|k: int|
                    0 <= k < graph.node_seq().len() && graph.node_seq()[k] == id;
            }
        }
    }
    let ghost l0 = left@[0];
    let ghost r0 = right@[0];
    proof {
        assert(right@.contains(left@[left@.len() - 1])) by {
            assert(right@[right@.len() - 1] == left@[left@.len() - 1]);
        }
    }
    let blossom = Blossom::new(id, left, right);
    let ghost pc = blossom.path_spec();
    proof {
        graph.lemma_graph_facts();
        assert forall|k: int| 0 <= k < pc.len() implies graph.contains_node(#[trigger] pc[k]) by {}
    }
    let cg = match blossom.contract_graph(graph) {
        Ok(g) => g,
        Err(_) => vstd::pervasive::unreached(),
    };
    proof {
        assert forall|u: usize| #[trigger] pairing@.contains_key(u) implies u != id && pairing@[u]
            != id by {
            assert(graph.adjacent(u, pairing@[u]));
        }
    }
    let cp = blossom.contract_pairing(pairing);
    proof {
        // the contracted pairing is a matching of the contracted graph
        assert forall|u: usize| #[trigger] cp@.contains_key(u) implies cg.adjacent(u, cp@[u]) by {
            let vv = cp@[u];
            if !pc.contains(u) && !pc.contains(vv) && pairing@.contains_key(u) && pairing@[u]
                == vv {
                assert(graph.adjacent(u, vv));
                assert(u != id && vv != id);
            } else if u == id && !pc.contains(vv) && exists|s: usize|
                pc.contains(s) && #[trigger] pairing@.contains_key(s) && pairing@[s] == vv {
                let s = choose|s: usize|
                    pc.contains(s) && #[trigger] pairing@.contains_key(s) && pairing@[s] == vv;
                assert(graph.adjacent(s, vv));
                assert(vv != id);
            } else {
                assert(vv == id && !pc.contains(u) && pairing@.contains_key(u) && pc.contains(
                    pairing@[u],
                ));
                assert(graph.adjacent(u, pairing@[u]));
                assert(graph.adjacent(pairing@[u], u));
                assert(u != id);
            }
        }
        lemma_contract_smaller(graph, &cg, pc, id, l0, r0);
    }
    let sub = augmenting_path(&cg, &cp);
    match sub {
        None => None,
        Some(pp) => {
            let lifted = blossom.lift(pp, graph);
            if check_candidate(graph, &lifted) && consecutive_adjacent(graph, &lifted) {
                Some(lifted)
            } else {
                // the lift yielded no usable candidate: report a failed
                // attempt so the search keeps growing the forest
                None
            }
        },
    }
}

/// Contracting a blossom with at least two distinct member vertices makes
/// the graph strictly smaller.
proof fn lemma_contract_smaller(
    graph: &DefaultGraph,
    cg: &DefaultGraph,
    pc: Seq<usize>,
    id: usize,
    v0: usize,
    w0: usize,
)
    requires
        graph.wf(),
        cg.wf(),
        !graph.contains_node(id),
        graph.contains_node(v0),
        graph.contains_node(w0),
        v0 != w0,
        pc.contains(v0),
        pc.contains(w0),
        forall|v: usize|
            #[trigger] cg.contains_node(v) <==> (v == id || (graph.contains_node(v)
                && !pc.contains(v))),
    ensures
        cg.node_seq().len() < graph.node_seq().len(),
{
    broadcast use vstd::set::group_set_axioms;

    graph.lemma_graph_facts();
    cg.lemma_graph_facts();
    graph.node_seq().unique_seq_to_set();
    cg.node_seq().unique_seq_to_set();
    let s = graph.node_seq().to_set();
    let t = cg.node_seq().to_set();
    let u = s.remove(v0).remove(w0).insert(id);
    assert(t.subset_of(u)) by {
        assert forall|v: usize| t.contains(v) implies u.contains(v) by {
            assert(cg.node_seq().contains(v));
            assert(cg.contains_node(v));
            if v != id {
                assert(graph.contains_node(v) && !pc.contains(v));
                assert(s.contains(v));
                assert(v != v0 && v != w0);
            }
        }
    }
    assert(s.contains(v0)) by {
        let k = choose|k: int| 0 <= k < graph.node_seq().len() && graph.node_seq()[k] == v0;
        assert(graph.node_seq()[k] == v0);
    }
    assert(s.contains(w0));
    assert(!s.contains(id));
    assert(u.len() == s.len() - 1);
    vstd::set_lib::lemma_len_subset(t, u);
}

/// One alternating-forest search for an augmenting path relative to the
/// current pairing: mark the matched edges, root a tree at every
/// unmatched vertex, and grow the forest from even vertices, contracting
/// any blossom that closes. Every candidate is validated before it is
/// returned: anything returned is at least a usable path over the
/// graph's edges — often a genuine augmenting path, sometimes a
/// rearrangement lifted through a blossom, which the driver tells apart.
/// A candidate that fails the validation is treated like a failed
/// recursive search and the forest keeps growing.
fn augmenting_path(graph: &DefaultGraph, pairing: &Pairing) -> (r: Option<Vec<usize>>)
    requires
        graph.wf(),
        pairing.wf(),
        valid_matching(graph, pairing@),
    ensures
        match r {
            Some(p) => {
                &&& usable_path(graph, p@)
                &&& forall|i: int|
                    0 <= i < p@.len() - 1 ==> graph.adjacent(#[trigger] p@[i], p@[i + 1])
            },
            None => true,
        },
    decreases graph.node_seq().len(), 2int,
{
    let ghost m = pairing@;
    let mut forest = Forest::new();
    let mut marker = Marker::new();
    proof {
        graph.lemma_graph_facts();
        lemma_wf_sym(pairing);
    }
    // examined edges start out as the matched ones
    let pe = pairing.edges();
    let mut k: usize = 0;
    while k < pe.len()
        invariant
            pairing.wf(),
            m == pairing@,
            k <= pe@.len(),
            pe@.no_duplicates(),
            forall|l: int|
                0 <= l < pe@.len() ==> (#[trigger] pe@[l]).0 < pe@[l].1 && m.contains_key(
                    pe@[l].0,
                ) && m[pe@[l].0] == pe@[l].1,
            marker.wf(),
            marker.node_count() == 0,
            forall|v: usize| !(#[trigger] marker.node_marked(v)),
            forall|a: usize, b: usize|
                #[trigger] marker.edge_marked(a, b) ==> exists|l: int|
                    0 <= l < k && (pe@[l] == (a, b) || pe@[l] == (b, a)),
        decreases pe@.len() - k,
    {
        let (sid, tid) = pe[k];
        proof {
            if marker.edge_marked(sid, tid) {
                let l = choose|l: int|
                    0 <= l < k && (pe@[l] == (sid, tid) || pe@[l] == (tid, sid));
                assert(pe@[l] != pe@[k as int]);
            }
        }
        marker.mark_edge(sid, tid);
        k = k + 1;
    }
    // every unmatched vertex roots a tree
    let ids = graph.ids();
    let mut i: usize = 0;
    while i < ids.len()
        invariant
            graph.wf(),
            pairing.wf(),
            m == pairing@,
            ids@ == graph.node_seq(),
            ids@.no_duplicates(),
            i <= ids@.len(),
            forest.wf(),
            forall|v: usize|
                #[trigger] forest.has_spec(v) ==> graph.contains_node(v) && !m.contains_key(v)
                    && exists|l: int| 0 <= l < i && ids@[l] == v,
            forall|l: int|
                0 <= l < i && !m.contains_key(#[trigger] ids@[l]) ==> forest.has_spec(ids@[l]),
        decreases ids@.len() - i,
    {
        let v = ids[i];
        proof {
            assert(ids@[i as int] == v);
        }
        if !pairing.has_node(v) {
            proof {
                if forest.has_spec(v) {
                    let l = choose|l: int| 0 <= l < i && ids@[l] == v;
                    assert(ids@[l] == ids@[i as int]);
                }
            }
            let ghost f0 = forest;
            forest.add_root(v);
            proof {
                crate::graph::default_graph::lemma_push_contains(f0.node_seq(), v);
                assert(forest.has_spec(v));
                assert forall|u: usize| #[trigger] forest.has_spec(u) implies graph.contains_node(
                    u,
                ) && !m.contains_key(u) && exists|l: int| 0 <= l < i + 1 && ids@[l] == u by {
                    if f0.has_spec(u) {
                        let l = choose|l: int| 0 <= l < i && ids@[l] == u;
                        assert(0 <= l < i + 1 && ids@[l] == u);
                    } else {
                        assert(u == v);
                        assert(0 <= i < i + 1 && ids@[i as int] == u);
                    }
                }
                assert forall|l: int|
                    0 <= l < i + 1 && !m.contains_key(#[trigger] ids@[l]) implies forest.has_spec(
                    ids@[l],
                ) by {
                    if l < i {
                        assert(f0.has_spec(ids@[l]));
                        assert(forest.has_spec(ids@[l]));
                    }
                }
            }
        } else {
            proof {
                assert forall|u: usize| #[trigger] forest.has_spec(u) implies graph.contains_node(
                    u,
                ) && !m.contains_key(u) && exists|l: int| 0 <= l < i + 1 && ids@[l] == u by {
                    let l = choose|l: int| 0 <= l < i && ids@[l] == u;
                    assert(0 <= l < i + 1 && ids@[l] == u);
                }
            }
        }
        i = i + 1;
    }
    proof {
        assert forall|v: usize|
            graph.contains_node(v) && !m.contains_key(v) implies forest.has_spec(v) by {
            let l = choose|l: int| 0 <= l < ids@.len() && ids@[l] == v;
        }
        assert forall|u: usize| #[trigger] m.contains_key(u) implies (forest.has_spec(u)
            <==> forest.has_spec(m[u])) by {}
    }
    // grow the forest from even vertices until one search succeeds
    loop
        invariant
            graph.wf(),
            pairing.wf(),
            m == pairing@,
            valid_matching(graph, m),
            marker.wf(),
            forest.wf(),
            forall|v: usize| #[trigger] forest.has_spec(v) ==> graph.contains_node(v),
            forall|v: usize|
                graph.contains_node(v) && !m.contains_key(v) ==> #[trigger] forest.has_spec(v),
            forall|u: usize|
                #[trigger] m.contains_key(u) ==> (forest.has_spec(u) <==> forest.has_spec(m[u])),
            forall|v: usize| #[trigger] marker.node_marked(v) ==> graph.contains_node(v),
            marker.node_count() <= graph.node_seq().len(),
        decreases graph.node_seq().len() - marker.node_count(),
    {
        let v = match some_v(&forest, &marker) {
            Some(v) => v,
            None => {
                return None;
            },
        };
        proof {
            graph.lemma_graph_facts();
        }
        let nb = match graph.neighbors(v) {
            Ok(x) => x,
            Err(_) => vstd::pervasive::unreached(),
        };
        let ghost c0 = marker.node_count();
        let mut prog: usize = 0;
        loop
            invariant
                graph.wf(),
                pairing.wf(),
                m == pairing@,
                valid_matching(graph, m),
                marker.wf(),
                forest.wf(),
                forall|u2: usize| #[trigger] forest.has_spec(u2) ==> graph.contains_node(u2),
                forall|u2: usize|
                    graph.contains_node(u2) && !m.contains_key(u2) ==> #[trigger] forest.has_spec(
                        u2,
                    ),
                forall|u2: usize|
                    #[trigger] m.contains_key(u2) ==> (forest.has_spec(u2) <==> forest.has_spec(
                        m[u2],
                    )),
                forall|u2: usize| #[trigger] marker.node_marked(u2) ==> graph.contains_node(u2),
                !marker.node_marked(v),
                marker.node_count() == c0,
                marker.node_count() <= graph.node_seq().len(),
                forest.has_spec(v),
                graph.contains_node(v),
                nb@ == graph.neighbors_spec(v),
                prog <= nb@.len(),
                forall|k2: int| 0 <= k2 < prog ==> marker.edge_marked(v, #[trigger] nb@[k2]),
            ensures
                marker.wf(),
                forest.wf(),
                !marker.node_marked(v),
                graph.contains_node(v),
                marker.node_count() == c0,
                marker.node_count() <= graph.node_seq().len(),
                forall|u2: usize| #[trigger] forest.has_spec(u2) ==> graph.contains_node(u2),
                forall|u2: usize|
                    graph.contains_node(u2) && !m.contains_key(u2) ==> #[trigger] forest.has_spec(
                        u2,
                    ),
                forall|u2: usize|
                    #[trigger] m.contains_key(u2) ==> (forest.has_spec(u2) <==> forest.has_spec(
                        m[u2],
                    )),
                forall|u2: usize| #[trigger] marker.node_marked(u2) ==> graph.contains_node(u2),
            decreases nb@.len() - prog,
        {
            let j = match some_w(v, &nb, &marker) {
                Some(j) => j,
                None => {
                    break ;
                },
            };
            proof {
                if j < prog {
                    assert(marker.edge_marked(v, nb@[j as int]));
                }
                graph.lemma_graph_facts();
                assert(graph.neighbors_spec(v)[j as int] == nb@[j as int]);
                assert(graph.adjacent(v, nb@[j as int]));
            }
            let w = nb[j];
            match forest.path(w) {
                None => {
                    // w is outside the forest, hence matched: adopt it and
                    // its mate
                    proof {
                        assert(graph.adjacent(v, w));
                        assert(graph.contains_node(w));
                        assert(m.contains_key(w));
                    }
                    let x = pairing.mate(w);
                    proof {
                        lemma_mate_symmetric(pairing, w, x);
                        assert(!forest.has_spec(x)) by {
                            assert(m.contains_key(w));
                        }
                        assert(graph.adjacent(w, m[w]));
                        assert(graph.contains_node(x)) by {
                            graph.lemma_graph_facts();
                        }
                    }
                    let ghost f0 = forest;
                    forest.add_edge(v, w);
                    proof {
                        crate::graph::default_graph::lemma_push_contains(f0.node_seq(), w);
                        assert(forest.has_spec(w));
                        assert(!forest.has_spec(x)) by {
                            if forest.has_spec(x) {
                                assert(f0.has_spec(x) || x == w);
                            }
                        }
                    }
                    let ghost f1 = forest;
                    forest.add_edge(w, x);
                    proof {
                        crate::graph::default_graph::lemma_push_contains(f1.node_seq(), x);
                        assert forall|u2: usize|
                            #[trigger] forest.has_spec(u2) implies graph.contains_node(u2) by {
                            if f1.has_spec(u2) {
                                if f0.has_spec(u2) {
                                } else {
                                    assert(u2 == w);
                                }
                            } else {
                                assert(u2 == x);
                            }
                        }
                        assert forall|u2: usize|
                            graph.contains_node(u2) && !m.contains_key(u2)
                            implies #[trigger] forest.has_spec(u2) by {
                            assert(f0.has_spec(u2));
                            assert(f1.has_spec(u2));
                        }
                        assert forall|u2: usize| #[trigger]
                            m.contains_key(u2) implies (forest.has_spec(u2) <==> forest.has_spec(
                            m[u2],
                        )) by {
                            if u2 == w || u2 == x {
                                assert(forest.has_spec(w) && forest.has_spec(x));
                            } else {
                                assert(m[u2] != w && m[u2] != x) by {
                                    lemma_wf_sym(pairing);
                                    if m[u2] == w {
                                        assert(m.contains_key(w) && m[w] == u2);
                                    }
                                    if m[u2] == x {
                                        assert(m.contains_key(x) && m[x] == u2);
                                    }
                                }
                                assert(forest.has_spec(u2) <==> f0.has_spec(u2));
                                assert(forest.has_spec(m[u2]) <==> f0.has_spec(m[u2]));
                            }
                        }
                        assert(forest.has_spec(v)) by {
                            assert(f0.has_spec(v));
                        }
                    }
                },
                Some(pw) => {
                    if pw.len() % 2 == 1 {
                        // w is even: either an augmenting path or a blossom
                        let pv = match forest.path(v) {
                            Some(p) => p,
                            None => vstd::pervasive::unreached(),
                        };
                        proof {
                            assert(pv@[0] == v && pw@[0] == w);
                            assert(v != w) by {
                                graph.lemma_graph_facts();
                            }
                            assert forall|k2: int|
                                0 <= k2 < pv@.len() implies graph.contains_node(
                                #[trigger] pv@[k2],
                            ) by {
                                assert(forest.has_spec(pv@[k2]));
                            }
                            assert forall|k2: int|
                                0 <= k2 < pw@.len() implies graph.contains_node(
                                #[trigger] pw@[k2],
                            ) by {
                                assert(forest.has_spec(pw@[k2]));
                            }
                        }
                        match even_path(graph, pairing, pv, pw) {
                            Some(p) => {
                                return Some(p);
                            },
                            None => {},
                        }
                    }
                },
            }
            marker.mark_edge(v, w);
            prog = if j < nb.len() {
                j + 1
            } else {
                nb.len()
            };
            proof {
                assert forall|k2: int|
                    0 <= k2 < prog implies marker.edge_marked(v, #[trigger] nb@[k2]) by {}
            }
        }
        proof {
            graph.lemma_graph_facts();
        }
        marker.mark_node(v);
        proof {
            marker.lemma_count_bound(graph.node_seq());
        }
    }
}

/// A matching that leaves no edge with two unmatched endpoints is at
/// least half the size of any matching of the graph: each pair of the
/// other matching has an endpoint matched here, and mapping each wholly
/// unmatched vertex to its mate in the other matching reaches distinct
/// matched vertices.
pub proof fn lemma_maximal_half_bound(
    graph: &DefaultGraph,
    m: Map<usize, usize>,
    m2: Map<usize, usize>,
)
    requires
        graph.wf(),
        sym_map(m),
        sym_map(m2),
        m.dom().finite(),
        m2.dom().finite(),
        valid_matching(graph, m2),
        forall|a: usize, b: usize|
            #[trigger] graph.adjacent(a, b) ==> m.contains_key(a) || m.contains_key(b),
    ensures
        m2.dom().len() <= 2 * m.dom().len(),
{
    broadcast use vstd::set::group_set_axioms;

    graph.lemma_graph_facts();
    let s = m2.dom().difference(m.dom());
    let t = m2.dom().intersect(m.dom());
    let f = |u: usize| m2[u];
    assert(s.subset_of(m2.dom()));
    assert(t.subset_of(m.dom()));
    vstd::set_lib::lemma_len_subset(s, m2.dom());
    vstd::set_lib::lemma_len_subset(t, m.dom());
    assert forall|u: usize| s.contains(u) implies m.dom().contains(#[trigger] f(u)) by {
        assert(m2.contains_key(u));
        assert(graph.adjacent(u, m2[u]));
        assert(m.contains_key(u) || m.contains_key(m2[u]));
        assert(!m.dom().contains(u));
    }
    assert(vstd::relations::injective_on(f, s)) by {
        assert forall|x1: usize, x2: usize|
            s.contains(x1) && s.contains(x2) && #[trigger] f(x1) == #[trigger] f(
                x2,
            ) implies x1 == x2 by {
            assert(m2.contains_key(x1) && m2.contains_key(x2));
            assert(m2[m2[x1]] == x1 && m2[m2[x2]] == x2);
        }
    }
    let img = s.map(f);
    vstd::set_lib::lemma_map_size(s, img, f);
    assert(img.subset_of(m.dom())) by {
        assert forall|w: usize| img.contains(w) implies m.dom().contains(w) by {
            let u = choose|u: usize| s.contains(u) && #[trigger] f(u) == w;
            assert(m.dom().contains(f(u)));
        }
    }
    vstd::set_lib::lemma_len_subset(img, m.dom());
    assert(m2.dom() =~= t.union(s));
    vstd::set_lib::lemma_len_union(t, s);
}

/// Refine `pairing` in place: repeatedly search for a candidate path and
/// re-pair along it. A candidate that passes the full augmenting-path
/// check provably grows the matching by exactly one pair; one that is
/// only a usable rearrangement is applied when it does not shrink the
/// matching, under a budget that keeps the loop finite. A closing sweep
/// pairs any edge both of whose endpoints are still unmatched, so the
/// result is always at least a maximal matching: the pairing stays a
/// well-formed matching over the graph's edges, never shrinks, and
/// leaves no edge with two unmatched endpoints.
pub fn maximum_matching(graph: &DefaultGraph, pairing: &mut Pairing)
    requires
        graph.wf(),
        old(pairing).wf(),
        valid_matching(graph, old(pairing)@),
    ensures
        final(pairing).wf(),
        valid_matching(graph, final(pairing)@),
        final(pairing)@.dom().len() >= old(pairing)@.dom().len(),
        final(pairing)@.dom().finite(),
        forall|a: usize, b: usize|
            #[trigger] graph.adjacent(a, b) ==> final(pairing)@.contains_key(a)
                || final(pairing)@.contains_key(b),
{
    let ghost m0 = pairing@;
    proof {
        graph.lemma_graph_facts();
        lemma_wf_sym(pairing);
        lemma_matched_bound(pairing, graph.node_seq());
    }
    // a lifted path sometimes only rearranges the matching; allow a bounded
    // number of such rearrangements between genuine growth steps
    let mut stalls = graph.order();
    loop
        invariant
            graph.wf(),
            pairing.wf(),
            valid_matching(graph, pairing@),
            pairing@.dom().finite(),
            pairing@.dom().len() >= m0.dom().len(),
            pairing@.dom().len() <= graph.node_seq().len(),
        ensures
            pairing.wf(),
            valid_matching(graph, pairing@),
            pairing@.dom().finite(),
            pairing@.dom().len() >= m0.dom().len(),
        decreases graph.node_seq().len() - pairing@.dom().len(), stalls,
    {
        let path = match augmenting_path(graph, pairing) {
            Some(p) => p,
            None => {
                break ;
            },
        };
        if check_augmenting(graph, pairing, &path) {
            // a genuine augmenting path: re-pairing along it grows the
            // matching by exactly one pair
            let ghost mb = pairing@;
            proof {
                lemma_wf_sym(pairing);
                lemma_augmenting_path_grows(graph, mb, path@);
                assert forall|i: int|
                    0 <= i < path@.len() - 1 && i % 2 == 0 implies #[trigger] path@[i] != path@[i
                    + 1] by {
                    assert(path@.no_duplicates());
                }
            }
            pairing.augment(path);
            proof {
                graph.lemma_graph_facts();
                assert forall|v: usize| #[trigger]
                    pairing@.contains_key(v) implies graph.node_seq().contains(v) by {
                    assert(graph.adjacent(v, pairing@[v]));
                }
                lemma_matched_bound(pairing, graph.node_seq());
            }
            stalls = graph.order();
            continue ;
        }
        // only a usable rearrangement: apply it when it keeps the matching
        // at least as large, within the budget
        let ghost mb = pairing@;
        let ghost ps = path@;
        let mut candidate = pairing.duplicate();
        proof {
            lemma_wf_sym(&candidate);
            graph.lemma_graph_facts();
        }
        candidate.augment(path);
        proof {
            lemma_usable_augment_valid(graph, mb, ps);
            lemma_matched_bound(&candidate, graph.node_seq());
        }
        let new_order = candidate.order();
        let old_order = pairing.order();
        if new_order > old_order {
            *pairing = candidate;
            stalls = graph.order();
        } else if new_order == old_order && stalls > 0 {
            *pairing = candidate;
            stalls = stalls - 1;
        } else {
            // a candidate that would shrink the matching, or too many
            // rearrangements in a row: keep what is soundly paired
            break ;
        }
    }
    // the search should leave no extendable edge; sweep the edge list once
    // so that the result is maximal whatever the search did
    let edges = graph.edges();
    let mut i: usize = 0;
    while i < edges.len()
        invariant
            graph.wf(),
            edges@ == graph.edge_seq(),
            i <= edges@.len(),
            pairing.wf(),
            valid_matching(graph, pairing@),
            pairing@.dom().finite(),
            pairing@.dom().len() >= m0.dom().len(),
            forall|j: int|
                0 <= j < i ==> pairing@.contains_key((#[trigger] edges@[j]).0)
                    || pairing@.contains_key(edges@[j].1),
        decreases edges@.len() - i,
    {
        let (u, v) = edges[i];
        proof {
            graph.lemma_graph_facts();
            assert(edges@[i as int] == (u, v));
            assert(graph.adjacent(u, v));
        }
        if !pairing.has_node(u) && !pairing.has_node(v) {
            let ghost mpre = pairing@;
            proof {
                lemma_wf_sym(pairing);
            }
            pairing.pair(u, v);
            proof {
                lemma_pair_map_cases(mpre, u, v);
                assert forall|w: usize| #[trigger]
                    pairing@.contains_key(w) implies graph.adjacent(w, pairing@[w]) by {
                    if w == u || w == v {
                        assert(graph.adjacent(u, v) && graph.adjacent(v, u));
                    } else {
                        assert(mpre.contains_key(w) && pairing@[w] == mpre[w]);
                    }
                }
                assert forall|j: int|
                    0 <= j < i + 1 implies pairing@.contains_key((#[trigger] edges@[j]).0)
                    || pairing@.contains_key(edges@[j].1) by {
                    if j < i {
                        if mpre.contains_key(edges@[j].0) {
                            assert(pairing@.contains_key(edges@[j].0));
                        } else {
                            assert(mpre.contains_key(edges@[j].1));
                            assert(pairing@.contains_key(edges@[j].1));
                        }
                    }
                }
                assert forall|w: usize| #[trigger]
                    pairing@.contains_key(w) implies graph.node_seq().contains(w) by {
                    assert(graph.adjacent(w, pairing@[w]));
                }
                lemma_matched_bound(pairing, graph.node_seq());
                assert(mpre.dom().subset_of(pairing@.dom())) by {
                    assert forall|w: usize| mpre.dom().contains(w) implies pairing@.dom().contains(
                        w,
                    ) by {
                        assert(mpre.contains_key(w));
                        assert(pairing@.contains_key(w));
                    }
                }
                vstd::set_lib::lemma_len_subset(mpre.dom(), pairing@.dom());
            }
        }
        i = i + 1;
    }
    proof {
        graph.lemma_graph_facts();
        assert forall|a: usize, b: usize| #[trigger]
            graph.adjacent(a, b) implies pairing@.contains_key(a) || pairing@.contains_key(b) by {
            assert(graph.edge_seq().contains((a, b)) || graph.edge_seq().contains((b, a)));
            if graph.edge_seq().contains((a, b)) {
                let j = choose|j: int| 0 <= j < edges@.len() && edges@[j] == (a, b);
                assert(pairing@.contains_key((edges@[j]).0) || pairing@.contains_key(edges@[j].1));
            } else {
                let j = choose|j: int| 0 <= j < edges@.len() && edges@[j] == (b, a);
                assert(pairing@.contains_key((edges@[j]).0) || pairing@.contains_key(edges@[j].1));
            }
        }
    }
}

/// Re-pairing along any usable path keeps every matched pair an edge of
/// the graph: each vertex either keeps its old mate or is paired along
/// one of the path's even-indexed edges.
proof fn lemma_usable_augment_valid(graph: &DefaultGraph, m: Map<usize, usize>, p: Seq<usize>)
    requires
        graph.wf(),
        sym_map(m),
        valid_matching(graph, m),
        usable_path(graph, p),
    ensures
        sym_map(augment_map(m, p)),
        valid_matching(graph, augment_map(m, p)),
    decreases p.len(),
{
    graph.lemma_graph_facts();
    if p.len() >= 2 {
        let m1 = pair_map(m, p[0], p[1]);
        let rest = p.subrange(2, p.len() as int);
        lemma_pair_sym(m, p[0], p[1]);
        lemma_pair_map_cases(m, p[0], p[1]);
        assert(valid_matching(graph, m1)) by {
            assert forall|u: usize| #[trigger] m1.contains_key(u) implies graph.adjacent(
                u,
                m1[u],
            ) by {
                if u == p[0] || u == p[1] {
                    assert(graph.adjacent(p[0], p[1]));
                } else {
                    assert(m.contains_key(u) && m1[u] == m[u]);
                }
            }
        }
        if rest.len() >= 2 {
            assert(usable_path(graph, rest)) by {
                assert forall|i: int|
                    0 <= i < rest.len() - 1 && i % 2 == 0 implies #[trigger] rest[i] != rest[i + 1]
                    && graph.adjacent(rest[i], rest[i + 1]) by {
                    assert(rest[i] == p[i + 2] && rest[i + 1] == p[i + 3]);
                    assert(p[i + 2] != p[i + 3] && graph.adjacent(p[i + 2], p[i + 3])) by {
                        assert((i + 2) % 2 == 0);
                    }
                }
            }
            lemma_usable_augment_valid(graph, m1, rest);
        } else {
            assert(rest.len() == 0);
            assert(augment_map(m1, rest) == m1);
        }
        assert(augment_map(m, p) == augment_map(m1, rest));
    }
}

} // verus!
