//! Verified core of a generator for skewed, clustered Euclidean benchmark
//! datasets: cluster sizing, centre layout, labelling, shuffling,
//! row flattening and exact top-k neighbour selection.

pub mod clusters;
pub mod neighbors;
pub mod plan;
pub mod rows;
pub mod sampling;
