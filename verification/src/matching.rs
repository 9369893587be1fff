//! Maximum cardinality matching on undirected graphs: the pairing data
//! structure, scratch markers, alternating forests, blossoms, greedy
//! seeding, and the search driver.

pub mod blossom;
pub mod contract;
pub mod error;
pub mod forest;
pub mod greedy;
pub mod marker;
pub mod matching;
pub mod maximum_matching;
pub mod pairing;

pub use blossom::Blossom;
pub use contract::contract;
pub use error::Error;
pub use forest::Forest;
pub use greedy::greedy;
pub use marker::Marker;
pub use matching::Matching;
pub use maximum_matching::maximum_matching;
pub use pairing::Pairing;
