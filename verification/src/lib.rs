//! An undirected graph library centered on maximum cardinality matching
//! via Edmonds' blossom algorithm: graph containers, traversals, connected
//! components, and the matching core (greedy seeding, alternating forests,
//! blossom contraction and lifting).

pub mod graph;
pub mod matching;
pub mod selection;
pub mod traversal;
