//! Selecting parts of a graph: connected components.

pub mod components;

pub use components::components;
pub use components::Components;
