use vstd::prelude::*;
use crate::graph::error::Error;
use crate::graph::graph::Graph;

verus! {

/// An undirected graph whose edges carry arbitrary weights: everything a
/// `Graph` offers, plus a weight lookup per edge.
pub trait WeightedGraph<E>: Graph {
    /// The weight stored from `source` towards `target`: `Some` for an
    /// edge, `None` for two known but unconnected vertices, and an error
    /// when a vertex is missing.
    fn weight(&self, source: usize, target: usize) -> (r: Result<Option<&E>, Error>)
        requires
            self.wf(),
        ensures
            match r {
                Ok(w) => match w {
                    Some(_) => self.contains_node(source) && self.adjacent(source, target),
                    None => self.contains_node(source) && self.contains_node(target)
                        && !self.adjacent(source, target),
                },
                Err(_) => !self.contains_node(source) || !self.contains_node(target),
            },
    ;
}

} // verus!
