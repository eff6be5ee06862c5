//! The network: who exchanges gossip with whom, and who shares a channel
//! with whom.

pub mod graph;
pub mod ln_data;
pub mod metrics;
pub mod synthetic;

pub use graph::{NodeAlgo, NodeMeta, Topology};
