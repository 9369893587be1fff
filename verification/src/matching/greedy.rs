use vstd::prelude::*;
use crate::graph::default_graph::DefaultGraph;
use crate::matching::maximum_matching::valid_matching;
use crate::matching::pairing::{lemma_pair_map_cases, lemma_wf_sym, Pairing};
use crate::selection::components::components;
use crate::traversal::depth_first::DepthFirst;

verus! {

/// A greedy matching over all components of the graph: walk each component
/// depth-first and pair the endpoints of every step whose two vertices are
/// both still unconsidered, then sweep the edge list once and pair any
/// edge both of whose endpoints are still unmatched. The result is a
/// maximal matching over the graph's edges: no edge has two unmatched
/// endpoints. For bipartite graphs it is often perfect, and it serves as
/// a seed for the full search.
pub fn greedy(graph: &DefaultGraph) -> (pairing: Pairing)
    requires
        graph.wf(),
    ensures
        pairing.wf(),
        valid_matching(graph, pairing@),
        forall|a: usize, b: usize|
            #[trigger] graph.adjacent(a, b) ==> pairing@.contains_key(a) || pairing@.contains_key(
                b,
            ),
{
    let mut pairing = Pairing::new();
    let mut seen: Vec<usize> = Vec::new();
    let mut comps = components(graph);
    proof {
        graph.lemma_graph_facts();
    }
    loop
        invariant
            graph.wf(),
            comps.wf(),
            comps.graph_spec() == *graph,
            comps.pos_spec() <= graph.node_seq().len(),
            pairing.wf(),
            valid_matching(graph, pairing@),
        ensures
            pairing.wf(),
            valid_matching(graph, pairing@),
        decreases graph.node_seq().len() - comps.pos_spec(),
    {
        let comp = match comps.next() {
            Some(c) => c,
            None => {
                break ;
            },
        };
        let cids = comp.ids();
        let root = cids[0];
        proof {
            assert(comp.node_seq()[0] == root);
            assert(comp.contains_node(root));
        }
        let mut t = match DepthFirst::new(&comp, root) {
            Ok(t) => t,
            Err(_) => vstd::pervasive::unreached(),
        };
        proof {
            t.lemma_visited_bound();
        }
        loop
            invariant
                graph.wf(),
                comp.wf(),
                forall|a: usize, b: usize|
                    #[trigger] comp.adjacent(a, b) ==> graph.adjacent(a, b),
                t.wf(),
                t.graph_spec() == comp,
                t.visited_count() <= comp.node_seq().len(),
                pairing.wf(),
                valid_matching(graph, pairing@),
            ensures
                pairing.wf(),
                valid_matching(graph, pairing@),
            decreases comp.node_seq().len() - t.visited_count(), t.stack_len(),
        {
            let step = match t.next() {
                Some(s) => s,
                None => {
                    break ;
                },
            };
            proof {
                t.lemma_visited_bound();
                assert(comp.adjacent(step.sid, step.tid));
                assert(graph.adjacent(step.sid, step.tid));
                graph.lemma_graph_facts();
            }
            let sid_fresh = !seen_contains(&seen, step.sid);
            if sid_fresh {
                seen.push(step.sid);
                let tid_fresh = !seen_contains(&seen, step.tid);
                if tid_fresh {
                    seen.push(step.tid);
                    let ghost m0 = pairing@;
                    proof {
                        lemma_wf_sym(&pairing);
                    }
                    pairing.pair(step.sid, step.tid);
                    proof {
                        lemma_pair_map_cases(m0, step.sid, step.tid);
                        assert forall|u: usize| #[trigger]
                            pairing@.contains_key(u) implies graph.adjacent(u, pairing@[u]) by {
                            if u == step.sid || u == step.tid {
                                assert(graph.adjacent(step.sid, step.tid));
                                assert(graph.adjacent(step.tid, step.sid));
                            } else {
                                assert(m0.contains_key(u) && pairing@[u] == m0[u]);
                            }
                        }
                    }
                }
            }
        }
    }
    // the sweep that makes the matching maximal: pair any edge whose two
    // endpoints were both left unmatched by the traversal
    let edges = graph.edges();
    let mut i: usize = 0;
    while i < edges.len()
        invariant
            graph.wf(),
            edges@ == graph.edge_seq(),
            i <= edges@.len(),
            pairing.wf(),
            valid_matching(graph, pairing@),
            forall|j: int|
                0 <= j < i ==> pairing@.contains_key((#[trigger] edges@[j]).0)
                    || pairing@.contains_key(edges@[j].1),
        decreases edges@.len() - i,
    {
        let (u, v) = edges[i];
        proof {
            graph.lemma_graph_facts();
            assert(edges@[i as int] == (u, v));
            assert(graph.adjacent(u, v));
        }
        if !pairing.has_node(u) && !pairing.has_node(v) {
            let ghost m0 = pairing@;
            proof {
                lemma_wf_sym(&pairing);
            }
            pairing.pair(u, v);
            proof {
                lemma_pair_map_cases(m0, u, v);
                assert forall|w: usize| #[trigger]
                    pairing@.contains_key(w) implies graph.adjacent(w, pairing@[w]) by {
                    if w == u || w == v {
                        assert(graph.adjacent(u, v) && graph.adjacent(v, u));
                    } else {
                        assert(m0.contains_key(w) && pairing@[w] == m0[w]);
                    }
                }
                // both endpoints were unmatched, so no earlier key was displaced
                assert forall|j: int|
                    0 <= j < i + 1 implies pairing@.contains_key((#[trigger] edges@[j]).0)
                    || pairing@.contains_key(edges@[j].1) by {
                    if j < i {
                        if m0.contains_key(edges@[j].0) {
                            assert(pairing@.contains_key(edges@[j].0));
                        } else {
                            assert(m0.contains_key(edges@[j].1));
                            assert(pairing@.contains_key(edges@[j].1));
                        }
                    }
                }
            }
        }
        i = i + 1;
    }
    proof {
        graph.lemma_graph_facts();
        assert forall|a: usize, b: usize| #[trigger]
            graph.adjacent(a, b) implies pairing@.contains_key(a) || pairing@.contains_key(b) by {
            assert(graph.edge_seq().contains((a, b)) || graph.edge_seq().contains((b, a)));
            if graph.edge_seq().contains((a, b)) {
                let j = choose|j: int| 0 <= j < edges@.len() && edges@[j] == (a, b);
                assert(pairing@.contains_key((edges@[j]).0) || pairing@.contains_key(edges@[j].1));
            } else {
                let j = choose|j: int| 0 <= j < edges@.len() && edges@[j] == (b, a);
                assert(pairing@.contains_key((edges@[j]).0) || pairing@.contains_key(edges@[j].1));
            }
        }
    }
    pairing
}

/// Whether a vertex has already been considered.
fn seen_contains(v: &Vec<usize>, x: usize) -> (r: bool)
    ensures
        r == v@.contains(x),
{
    let mut i: usize = 0;
    while i < v.len()
        invariant
            i <= v@.len(),
            forall|j: int| 0 <= j < i ==> v@[j] != x,
        decreases v@.len() - i,
    {
        if v[i] == x {
            return true;
        }
        i = i + 1;
    }
    false
}

} // verus!
