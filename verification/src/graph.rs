//! Undirected graph containers and the interface they share.

pub mod array_graph;
pub mod default_graph;
pub mod error;
pub mod graph;
pub mod hash_graph;
pub mod index_graph;
pub mod stable_graph;
pub mod step;
pub mod weighted_graph;

pub use array_graph::ArrayGraph;
pub use default_graph::DefaultGraph;
pub use error::Error;
pub use graph::Graph;
pub use hash_graph::HashGraph;
pub use index_graph::IndexGraph;
pub use stable_graph::StableGraph;
pub use step::Step;
pub use weighted_graph::WeightedGraph;
