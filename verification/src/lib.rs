//! Verified core of a Lightning gossip convergence simulator.

pub mod bitset;
pub mod channels;
pub mod config;
pub mod events;
pub mod graphs;
pub mod hashing;
pub mod intmap;
pub mod keys;
pub mod latency;
pub mod message;
pub mod metrics;
pub mod metrics_aggregator;
pub mod node;
pub mod report;
pub mod reservoir;
pub mod rng;
pub mod sim;
pub mod sorting;
pub mod state;
pub mod stats_writer;
pub mod tables;
pub mod time;
pub mod topology;
