//! Structural core of a Barnes–Hut particle simulation: Morton keys, a
//! linear threaded quadtree over an exact integer grid, the neighbour
//! query, and the schedule of the iterative collision pass.
pub mod bound;
pub mod collision;
pub mod morton;
pub mod progress;
pub mod qtree;
