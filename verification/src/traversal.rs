//! Edge-wise graph traversals in depth-first and breadth-first order.

pub mod breadth_first;
pub mod depth_first;
pub mod step;
pub mod to_adjacency;

pub use breadth_first::BreadthFirst;
pub use depth_first::DepthFirst;
pub use step::Step;
pub use to_adjacency::to_adjacency;
