use vstd::prelude::*;
use crate::graph::default_graph::DefaultGraph;
use crate::graph::error::Error;

verus! {

/// Standalone path contraction. The blossom type carries the contraction
/// the search relies on; this free function disregards its arguments and
/// returns the empty graph, exactly as its contract states.
pub fn contract(graph: &DefaultGraph, path: &Vec<usize>) -> (r: Result<DefaultGraph, Error>)
    ensures
        match r {
            Ok(g) => g.node_seq().len() == 0 && g.edge_seq().len() == 0 && g.wf(),
            Err(_) => false,
        },
{
    let _ = graph;
    let _ = path;
    let result = DefaultGraph::new();
    Ok(result)
}

} // verus!
