//! Newman-Girvan modularity of a graph partition: the integer part.
//!
//! The library reads an undirected edge list, interns node names to ids,
//! checks that a node-to-community assignment partitions the nodes, and
//! tallies, per community, the intra-community edges and the degree sum that
//! the modularity formula `Q = sum_c [ L_c / m - gamma * k_c^2 / deg_sum^2 ]`
//! is made of.

pub mod text;
pub mod edges;
pub mod graph;
pub mod partition;
pub mod tally;
pub mod assignments;
pub mod laws;

