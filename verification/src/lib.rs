//! Balls-into-bins load balancing on d-regular graphs.
//!
//! The crate builds random d-regular simple graphs by the configuration
//! model with switching repair, offers several structured topologies behind
//! one graph capability contract, and replays a stream of random-edge ball
//! throws against a pluggable decision policy, tracking per-vertex loads.

pub mod algorithm;
pub mod arbitrary_graph;
pub mod deg;
pub mod full_graph;
pub mod graph;
pub mod greedy;
pub mod hyper_cube_graph;
pub mod ring_graph;
pub mod rng;
pub mod torus_graph;
