//! What a run is configured with.
//!
//! A run is fully determined by a [`SimConfig`]: all randomness is drawn
//! from `seed` through sub-seeds. Numbers that are read as floating point
//! are held by their bit patterns.

use vstd::prelude::*;

verus! {

/// Configuration of one run.
#[derive(Debug)]
pub struct SimConfig {
    pub seed: u64,
    pub topology: TopologyCfg,
    /// Required for a synthetic topology. A snapshot brings its own
    /// channels, and this is then ignored.
    pub channels: Option<ChannelsCfg>,
    pub latency: LatencyCfg,
    pub algo: AlgoCfg,
    pub event: EventCfg,
    pub run: RunCfg,
}

/// The synthetic channel set.
#[derive(Debug)]
pub struct ChannelsCfg {
    /// Number of channels. Each has two directions, owned by two distinct
    /// random nodes.
    pub count: u32,
}

/// Where the graph comes from.
#[derive(Debug)]
pub enum TopologyCfg {
    /// A random graph in which every node has `k` peers.
    KRegular { n: usize, k: usize },
    /// Nodes and channels of a snapshot; peers follow from the channels.
    FromCsv { nodes_csv: String, channels_csv: String, k: KByAlgo, enforce_hub_cap: bool },
}

/// How many peers a node of each algorithm aims for.
#[derive(Debug, Clone, Copy)]
pub struct KByAlgo {
    pub flooding: usize,
    pub cln: usize,
    pub lnd: usize,
    /// As for `cln` where it is left out.
    pub sketch: Option<usize>,
}

/// Latency of an edge.
#[derive(Debug, Clone, Copy)]
pub enum LatencyCfg {
    Constant { ms: u64 },
}

/// Algorithm of the whole population.
#[derive(Debug)]
pub enum AlgoCfg {
    Flooding {},
    Cln { stagger_ms: u64 },
    Lnd { stagger_ms: u64, trickle_ms: u64, min_batch_size: usize },
    /// A mix of algorithms, each with its share of the nodes.
    Mix { population: Vec<MixEntry> },
    Sketch {
        stagger_ms: u64,
        capacity_chan_updates: u32,
        capacity_node_anns: u32,
        capacity_chan_anns: u32,
        peer_offset_max_ms: Option<u64>,
    },
}

/// One algorithm of a mix and its share.
#[derive(Debug, Clone, Copy)]
pub struct MixEntry {
    /// Bit pattern of the share, a 64-bit float.
    pub fraction_bits: u64,
    pub algo: NodeAlgoKind,
}

/// Algorithm of one node of a mix.
#[derive(Debug, Clone, Copy, PartialEq, Eq, Structural)]
pub enum NodeAlgoKind {
    Cln { stagger_ms: u64 },
    Lnd { stagger_ms: u64, trickle_ms: u64, min_batch_size: usize },
    Sketch {
        stagger_ms: u64,
        capacity_chan_updates: u32,
        capacity_node_anns: u32,
        capacity_chan_anns: u32,
        /// Bound on a peer's offset within the stagger window; the window
        /// itself where it is left out.
        peer_offset_max_ms: Option<u64>,
    },
}

/// Which messages are originated, and when.
#[derive(Debug)]
pub enum EventCfg {
    /// One message of the node at this position in the topology.
    OneShotSingle { node: usize },
    /// One message of every node.
    OneShotAll {},
    /// Messages of random nodes at a mean rate, for the whole run.
    PoissonRandom {
        /// Bit pattern of the rate per second, a 64-bit float.
        rate_bits: u64,
        size_bytes: u16,
    },
    /// A captured trace, shaped to the topology.
    ParquetReplay { path: String },
}

/// How long a run lasts and what it is given.
#[derive(Debug, Clone, Copy)]
pub struct RunCfg {
    pub duration_seconds: u64,
    pub mailbox_capacity: usize,
    /// Simulated seconds between progress lines; 0 for none.
    pub progress_interval_seconds: u64,
    /// Worker threads; all cores where it is left out.
    pub threads: Option<usize>,
}

/// Capacity of a sketch of channel updates, where none is configured.
pub fn default_cu_capacity() -> (r: u32)
    ensures
        r == 512,
{
    512
}

/// Capacity of a sketch of node announcements, where none is configured.
pub fn default_na_capacity() -> (r: u32)
    ensures
        r == 64,
{
    64
}

/// Capacity of a sketch of channel announcements, where none is
/// configured.
pub fn default_ca_capacity() -> (r: u32)
    ensures
        r == 64,
{
    64
}

/// Size of a message, where none is configured.
pub fn default_msg_size() -> (r: u16)
    ensures
        r == 1024,
{
    1024
}

/// Capacity of a node's mailbox, where none is configured.
pub fn default_mailbox_capacity() -> (r: usize)
    ensures
        r == 1024,
{
    1024
}

/// Seconds between progress lines, where none are configured.
pub fn default_progress_interval() -> (r: u64)
    ensures
        r == 10,
{
    10
}

} // verus!
