//! Verified core of a stress-majorization graph layout engine.
//!
//! The library owns the discrete half of the pipeline: the graph model, the
//! all-pairs shortest-path table computed by breadth-first search, the
//! extraction of the node pairs that the relaxation engine later works on,
//! the shuffled sweep order, and a conflict-free schedule that lets pair
//! updates run in parallel without touching a shared node. The numeric half
//! (learning rates, positions, the update rule itself) works in floating
//! point and lives with the caller; it consumes the tables produced here.

pub mod batch;
pub mod graph;
pub mod order;
pub mod pairs;
