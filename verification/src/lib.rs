//! Particle swarm optimization: swarm topologies and Pareto-front bookkeeping.
//!
//! The neighbourhood structure of a swarm (star, ring and von Neumann grid)
//! and the dominance rules of multi-objective optimization are stated and
//! proved here over integers.
pub mod multi_objective;
pub mod topology;

pub use multi_objective::{ObjectiveVec, ParetoFront};
pub use topology::{RingTopology, StarTopology, Topology, VonNeumannTopology};
