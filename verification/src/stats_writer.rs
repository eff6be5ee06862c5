//! Output rows and files.
//!
//! Every run writes six tables that share a tag: finished messages,
//! counter snapshots, reservoir samples, sketch overflows, the run's
//! parameters, and the pubkeys of loaded nodes. Rows are buffered per
//! table and written as columns.
//!
//! Fractional values are carried as the bit patterns of IEEE 754 doubles.

use vstd::prelude::*;
use vstd::string::*;

use crate::message::{NodeId, NodeIdx, SketchKind};
use crate::metrics::{KindReservoirSamples, MsgStats, NodeCounters, OverflowEvent};

verus! {

/// Number of buffered rows at which a table is written out.
pub const FLUSH_EVERY: usize = 131_072;

/// The contents of a list of strings.
pub open spec fn texts(v: Seq<String>) -> Seq<Seq<char>> {
    v.map_values(|s: String| s@)
}

/// A row for one of the tables.
#[derive(Debug)]
pub enum WriterRow {
    MsgStats(MsgStats),
    NodeCounters(NodeCountersRow),
    NodeReservoir(NodeReservoirRow),
    OverflowEvent(OverflowEventRow),
    RunMeta(RunMetaRow),
    NodePubkey(NodePubkeyRow),
}

/// A node's counters at one flush.
#[derive(Copy, Clone, Debug, PartialEq, Eq, Structural)]
pub struct NodeCountersRow {
    pub node_idx: NodeIdx,
    pub time_ns: u64,
    pub bytes_in_sketch: u64,
    pub bytes_out_sketch: u64,
    pub bytes_in_gossip: u64,
    pub bytes_out_gossip: u64,
    pub bytes_in_inventory: u64,
    pub bytes_out_inventory: u64,
    pub duplicates: u64,
    pub duplicates_bytes: u64,
    pub sketches_sent: u64,
    pub sketches_received: u64,
    pub inventories_sent: u64,
    pub inventories_received: u64,
    pub inv_keys_sent_sum: u64,
    pub inv_keys_sent_min: u64,
    pub inv_keys_sent_max: u64,
    pub overflowed_chan_updates: u64,
    pub overflowed_node_anns: u64,
    pub overflowed_chan_anns: u64,
    pub chan_updates_intersection: u64,
    pub chan_updates_difference: u64,
    pub chan_updates_a_only: u64,
    pub chan_updates_b_only: u64,
    pub node_anns_intersection: u64,
    pub node_anns_difference: u64,
    pub node_anns_a_only: u64,
    pub node_anns_b_only: u64,
    pub chan_anns_intersection: u64,
    pub chan_anns_difference: u64,
    pub chan_anns_a_only: u64,
    pub chan_anns_b_only: u64,
}

impl NodeCountersRow {
    /// The row of a snapshot.
    pub open spec fn of_counters(node_idx: NodeIdx, time_ns: u64, c: NodeCounters) -> Self {
        NodeCountersRow {
            node_idx,
            time_ns,
            bytes_in_sketch: c.bytes_in_sketch,
            bytes_out_sketch: c.bytes_out_sketch,
            bytes_in_gossip: c.bytes_in_gossip,
            bytes_out_gossip: c.bytes_out_gossip,
            bytes_in_inventory: c.bytes_in_inventory,
            bytes_out_inventory: c.bytes_out_inventory,
            duplicates: c.duplicates,
            duplicates_bytes: c.duplicates_bytes,
            sketches_sent: c.sketches_sent,
            sketches_received: c.sketches_received,
            inventories_sent: c.inventories_sent,
            inventories_received: c.inventories_received,
            inv_keys_sent_sum: c.inv_keys_sent_sum,
            inv_keys_sent_min: c.inv_keys_sent_min,
            inv_keys_sent_max: c.inv_keys_sent_max,
            overflowed_chan_updates: c.overflowed_chan_updates,
            overflowed_node_anns: c.overflowed_node_anns,
            overflowed_chan_anns: c.overflowed_chan_anns,
            chan_updates_intersection: c.chan_updates.intersection,
            chan_updates_difference: c.chan_updates.difference,
            chan_updates_a_only: c.chan_updates.a_only,
            chan_updates_b_only: c.chan_updates.b_only,
            node_anns_intersection: c.node_anns.intersection,
            node_anns_difference: c.node_anns.difference,
            node_anns_a_only: c.node_anns.a_only,
            node_anns_b_only: c.node_anns.b_only,
            chan_anns_intersection: c.chan_anns.intersection,
            chan_anns_difference: c.chan_anns.difference,
            chan_anns_a_only: c.chan_anns.a_only,
            chan_anns_b_only: c.chan_anns.b_only,
        }
    }

    pub fn from_counters(node_idx: NodeIdx, time_ns: u64, c: &NodeCounters) -> (r: Self)
        ensures
            r == NodeCountersRow::of_counters(node_idx, time_ns, *c),
    {
        NodeCountersRow {
            node_idx,
            time_ns,
            bytes_in_sketch: c.bytes_in_sketch,
            bytes_out_sketch: c.bytes_out_sketch,
            bytes_in_gossip: c.bytes_in_gossip,
            bytes_out_gossip: c.bytes_out_gossip,
            bytes_in_inventory: c.bytes_in_inventory,
            bytes_out_inventory: c.bytes_out_inventory,
            duplicates: c.duplicates,
            duplicates_bytes: c.duplicates_bytes,
            sketches_sent: c.sketches_sent,
            sketches_received: c.sketches_received,
            inventories_sent: c.inventories_sent,
            inventories_received: c.inventories_received,
            inv_keys_sent_sum: c.inv_keys_sent_sum,
            inv_keys_sent_min: c.inv_keys_sent_min,
            inv_keys_sent_max: c.inv_keys_sent_max,
            overflowed_chan_updates: c.overflowed_chan_updates,
            overflowed_node_anns: c.overflowed_node_anns,
            overflowed_chan_anns: c.overflowed_chan_anns,
            chan_updates_intersection: c.chan_updates.intersection,
            chan_updates_difference: c.chan_updates.difference,
            chan_updates_a_only: c.chan_updates.a_only,
            chan_updates_b_only: c.chan_updates.b_only,
            node_anns_intersection: c.node_anns.intersection,
            node_anns_difference: c.node_anns.difference,
            node_anns_a_only: c.node_anns.a_only,
            node_anns_b_only: c.node_anns.b_only,
            chan_anns_intersection: c.chan_anns.intersection,
            chan_anns_difference: c.chan_anns.difference,
            chan_anns_a_only: c.chan_anns.a_only,
            chan_anns_b_only: c.chan_anns.b_only,
        }
    }
}

/// One sampled round of a node's reconciliation of one kind.
#[derive(Copy, Clone, Debug, PartialEq, Eq, Structural)]
pub struct NodeReservoirRow {
    pub node_idx: NodeIdx,
    /// `0` for channel updates, `1` for node announcements, `2` for
    /// channel announcements.
    pub kind: u8,
    pub intersection: u32,
    pub difference: u32,
    pub a_only: u32,
    pub b_only: u32,
    pub total_seen: u64,
}

/// One sketch overflow.
#[derive(Copy, Clone, Debug, PartialEq, Eq, Structural)]
pub struct OverflowEventRow {
    pub time_ns: u64,
    pub receiver_idx: NodeIdx,
    pub peer_id: NodeId,
    pub kind: u8,
    pub amount: u32,
    pub total_diff: u32,
}

impl OverflowEventRow {
    /// The row of an overflow.
    pub open spec fn of_event(e: OverflowEvent) -> Self {
        OverflowEventRow {
            time_ns: e.time_ns,
            receiver_idx: e.receiver_idx,
            peer_id: e.peer_id,
            kind: e.kind.code(),
            amount: e.amount,
            total_diff: e.difference,
        }
    }

    pub fn from_event(e: &OverflowEvent) -> (r: Self)
        ensures
            r == OverflowEventRow::of_event(*e),
    {
        OverflowEventRow {
            time_ns: e.time_ns,
            receiver_idx: e.receiver_idx,
            peer_id: e.peer_id,
            kind: e.kind.as_u8(),
            amount: e.amount,
            total_diff: e.difference,
        }
    }
}

/// The parameters of a run.
#[derive(Debug)]
pub struct RunMetaRow {
    pub seed: u64,
    pub n_nodes: u64,
    pub mean_degree_bits: u64,
    pub min_degree: u64,
    pub max_degree: u64,
    pub diameter: u64,
    pub mean_path_length_bits: u64,
    pub stagger_secs_bits: u64,
    pub capacity_chan_updates: u64,
    pub capacity_node_anns: u64,
    pub capacity_chan_anns: u64,
    pub events_chan_update: u64,
    pub events_node_ann: u64,
    pub events_chan_ann: u64,
    pub duration_seconds: u64,
    pub predicted_p50_bits: u64,
    pub predicted_p99_bits: u64,
    pub predicted_p100_bits: u64,
    pub algo: String,
    pub topology_kind: String,
    pub event_kind: String,
}

/// What [`RunMetaRow::new`] is built from.
#[derive(Debug)]
pub struct RunMetaInputs {
    pub seed: u64,
    pub n_nodes: u64,
    pub mean_degree_bits: u64,
    pub min_degree: u64,
    pub max_degree: u64,
    pub diameter: u64,
    pub mean_path_length_bits: u64,
    pub capacity_chan_updates: u64,
    pub capacity_node_anns: u64,
    pub capacity_chan_anns: u64,
    pub events_chan_update: u64,
    pub events_node_ann: u64,
    pub events_chan_ann: u64,
    pub duration_seconds: u64,
    pub algo: String,
    pub topology_kind: String,
    pub event_kind: String,
}

/// Predicted convergence times of a run that reconciles by sketches.
#[derive(Copy, Clone, Debug, PartialEq, Eq, Structural)]
pub struct SketchPredictions {
    pub stagger_secs_bits: u64,
    pub p50_secs_bits: u64,
    pub p99_secs_bits: u64,
    pub p100_secs_bits: u64,
}

impl RunMetaRow {
    /// Build the row. Without predictions the run does not reconcile,
    /// and the predicted fields are zero.
    pub fn new(inputs: RunMetaInputs, predictions: Option<SketchPredictions>) -> (r: Self)
        ensures
            r.seed == inputs.seed,
            r.n_nodes == inputs.n_nodes,
            r.mean_degree_bits == inputs.mean_degree_bits,
            r.min_degree == inputs.min_degree,
            r.max_degree == inputs.max_degree,
            r.diameter == inputs.diameter,
            r.mean_path_length_bits == inputs.mean_path_length_bits,
            r.capacity_chan_updates == inputs.capacity_chan_updates,
            r.capacity_node_anns == inputs.capacity_node_anns,
            r.capacity_chan_anns == inputs.capacity_chan_anns,
            r.events_chan_update == inputs.events_chan_update,
            r.events_node_ann == inputs.events_node_ann,
            r.events_chan_ann == inputs.events_chan_ann,
            r.duration_seconds == inputs.duration_seconds,
            r.algo == inputs.algo,
            r.topology_kind == inputs.topology_kind,
            r.event_kind == inputs.event_kind,
            match predictions {
                Some(p) => {
                    &&& r.stagger_secs_bits == p.stagger_secs_bits
                    &&& r.predicted_p50_bits == p.p50_secs_bits
                    &&& r.predicted_p99_bits == p.p99_secs_bits
                    &&& r.predicted_p100_bits == p.p100_secs_bits
                },
                None => {
                    &&& r.stagger_secs_bits == 0
                    &&& r.predicted_p50_bits == 0
                    &&& r.predicted_p99_bits == 0
                    &&& r.predicted_p100_bits == 0
                },
            },
    {
        let p = match predictions {
            Some(p) => p,
            None => SketchPredictions {
                stagger_secs_bits: 0,
                p50_secs_bits: 0,
                p99_secs_bits: 0,
                p100_secs_bits: 0,
            },
        };
        RunMetaRow {
            seed: inputs.seed,
            n_nodes: inputs.n_nodes,
            mean_degree_bits: inputs.mean_degree_bits,
            min_degree: inputs.min_degree,
            max_degree: inputs.max_degree,
            diameter: inputs.diameter,
            mean_path_length_bits: inputs.mean_path_length_bits,
            stagger_secs_bits: p.stagger_secs_bits,
            capacity_chan_updates: inputs.capacity_chan_updates,
            capacity_node_anns: inputs.capacity_node_anns,
            capacity_chan_anns: inputs.capacity_chan_anns,
            events_chan_update: inputs.events_chan_update,
            events_node_ann: inputs.events_node_ann,
            events_chan_ann: inputs.events_chan_ann,
            duration_seconds: inputs.duration_seconds,
            predicted_p50_bits: p.p50_secs_bits,
            predicted_p99_bits: p.p99_secs_bits,
            predicted_p100_bits: p.p100_secs_bits,
            algo: inputs.algo,
            topology_kind: inputs.topology_kind,
            event_kind: inputs.event_kind,
        }
    }
}

/// The pubkey behind a loaded node.
#[derive(Debug)]
pub struct NodePubkeyRow {
    pub node_idx: NodeIdx,
    pub node_id: NodeId,
    pub pubkey: String,
}

impl NodePubkeyRow {
    pub fn new(node_idx: NodeIdx, node_id: NodeId, pubkey: String) -> (r: Self)
        ensures
            r.node_idx == node_idx,
            r.node_id == node_id,
            r.pubkey == pubkey,
    {
        NodePubkeyRow { node_idx, node_id, pubkey }
    }
}

/// Counter snapshots as columns.
#[derive(Debug)]
pub struct NodeCountersColumns {
    pub node_idx: Vec<NodeIdx>,
    pub time_ns: Vec<u64>,
    pub bytes_in_sketch: Vec<u64>,
    pub bytes_out_sketch: Vec<u64>,
    pub bytes_in_gossip: Vec<u64>,
    pub bytes_out_gossip: Vec<u64>,
    pub bytes_in_inventory: Vec<u64>,
    pub bytes_out_inventory: Vec<u64>,
    pub duplicates: Vec<u64>,
    pub duplicates_bytes: Vec<u64>,
    pub sketches_sent: Vec<u64>,
    pub sketches_received: Vec<u64>,
    pub inventories_sent: Vec<u64>,
    pub inventories_received: Vec<u64>,
    pub inv_keys_sent_sum: Vec<u64>,
    pub inv_keys_sent_min: Vec<u64>,
    pub inv_keys_sent_max: Vec<u64>,
    pub overflowed_chan_updates: Vec<u64>,
    pub overflowed_node_anns: Vec<u64>,
    pub overflowed_chan_anns: Vec<u64>,
    pub chan_updates_intersection: Vec<u64>,
    pub chan_updates_difference: Vec<u64>,
    pub chan_updates_a_only: Vec<u64>,
    pub chan_updates_b_only: Vec<u64>,
    pub node_anns_intersection: Vec<u64>,
    pub node_anns_difference: Vec<u64>,
    pub node_anns_a_only: Vec<u64>,
    pub node_anns_b_only: Vec<u64>,
    pub chan_anns_intersection: Vec<u64>,
    pub chan_anns_difference: Vec<u64>,
    pub chan_anns_a_only: Vec<u64>,
    pub chan_anns_b_only: Vec<u64>,
}

impl NodeCountersRow {
    /// The rows as columns, one value per row in each.
    pub fn to_columns(rows: &[NodeCountersRow]) -> (r: NodeCountersColumns)
        ensures
            r.node_idx@ == rows@.map_values(|row: NodeCountersRow| row.node_idx),
            r.time_ns@ == rows@.map_values(|row: NodeCountersRow| row.time_ns),
            r.bytes_in_sketch@ == rows@.map_values(|row: NodeCountersRow| row.bytes_in_sketch),
            r.bytes_out_sketch@ == rows@.map_values(|row: NodeCountersRow| row.bytes_out_sketch),
            r.bytes_in_gossip@ == rows@.map_values(|row: NodeCountersRow| row.bytes_in_gossip),
            r.bytes_out_gossip@ == rows@.map_values(|row: NodeCountersRow| row.bytes_out_gossip),
            r.bytes_in_inventory@ == rows@.map_values(|row: NodeCountersRow| row.bytes_in_inventory),
            r.bytes_out_inventory@ == rows@.map_values(|row: NodeCountersRow| row.bytes_out_inventory),
            r.duplicates@ == rows@.map_values(|row: NodeCountersRow| row.duplicates),
            r.duplicates_bytes@ == rows@.map_values(|row: NodeCountersRow| row.duplicates_bytes),
            r.sketches_sent@ == rows@.map_values(|row: NodeCountersRow| row.sketches_sent),
            r.sketches_received@ == rows@.map_values(|row: NodeCountersRow| row.sketches_received),
            r.inventories_sent@ == rows@.map_values(|row: NodeCountersRow| row.inventories_sent),
            r.inventories_received@ == rows@.map_values(|row: NodeCountersRow| row.inventories_received),
            r.inv_keys_sent_sum@ == rows@.map_values(|row: NodeCountersRow| row.inv_keys_sent_sum),
            r.inv_keys_sent_min@ == rows@.map_values(|row: NodeCountersRow| row.inv_keys_sent_min),
            r.inv_keys_sent_max@ == rows@.map_values(|row: NodeCountersRow| row.inv_keys_sent_max),
            r.overflowed_chan_updates@ == rows@.map_values(|row: NodeCountersRow| row.overflowed_chan_updates),
            r.overflowed_node_anns@ == rows@.map_values(|row: NodeCountersRow| row.overflowed_node_anns),
            r.overflowed_chan_anns@ == rows@.map_values(|row: NodeCountersRow| row.overflowed_chan_anns),
            r.chan_updates_intersection@ == rows@.map_values(|row: NodeCountersRow| row.chan_updates_intersection),
            r.chan_updates_difference@ == rows@.map_values(|row: NodeCountersRow| row.chan_updates_difference),
            r.chan_updates_a_only@ == rows@.map_values(|row: NodeCountersRow| row.chan_updates_a_only),
            r.chan_updates_b_only@ == rows@.map_values(|row: NodeCountersRow| row.chan_updates_b_only),
            r.node_anns_intersection@ == rows@.map_values(|row: NodeCountersRow| row.node_anns_intersection),
            r.node_anns_difference@ == rows@.map_values(|row: NodeCountersRow| row.node_anns_difference),
            r.node_anns_a_only@ == rows@.map_values(|row: NodeCountersRow| row.node_anns_a_only),
            r.node_anns_b_only@ == rows@.map_values(|row: NodeCountersRow| row.node_anns_b_only),
            r.chan_anns_intersection@ == rows@.map_values(|row: NodeCountersRow| row.chan_anns_intersection),
            r.chan_anns_difference@ == rows@.map_values(|row: NodeCountersRow| row.chan_anns_difference),
            r.chan_anns_a_only@ == rows@.map_values(|row: NodeCountersRow| row.chan_anns_a_only),
            r.chan_anns_b_only@ == rows@.map_values(|row: NodeCountersRow| row.chan_anns_b_only),
    {
        let mut node_idx: Vec<NodeIdx> = Vec::new();
        let mut time_ns: Vec<u64> = Vec::new();
        let mut bytes_in_sketch: Vec<u64> = Vec::new();
        let mut bytes_out_sketch: Vec<u64> = Vec::new();
        let mut bytes_in_gossip: Vec<u64> = Vec::new();
        let mut bytes_out_gossip: Vec<u64> = Vec::new();
        let mut bytes_in_inventory: Vec<u64> = Vec::new();
        let mut bytes_out_inventory: Vec<u64> = Vec::new();
        let mut duplicates: Vec<u64> = Vec::new();
        let mut duplicates_bytes: Vec<u64> = Vec::new();
        let mut sketches_sent: Vec<u64> = Vec::new();
        let mut sketches_received: Vec<u64> = Vec::new();
        let mut inventories_sent: Vec<u64> = Vec::new();
        let mut inventories_received: Vec<u64> = Vec::new();
        let mut inv_keys_sent_sum: Vec<u64> = Vec::new();
        let mut inv_keys_sent_min: Vec<u64> = Vec::new();
        let mut inv_keys_sent_max: Vec<u64> = Vec::new();
        let mut overflowed_chan_updates: Vec<u64> = Vec::new();
        let mut overflowed_node_anns: Vec<u64> = Vec::new();
        let mut overflowed_chan_anns: Vec<u64> = Vec::new();
        let mut chan_updates_intersection: Vec<u64> = Vec::new();
        let mut chan_updates_difference: Vec<u64> = Vec::new();
        let mut chan_updates_a_only: Vec<u64> = Vec::new();
        let mut chan_updates_b_only: Vec<u64> = Vec::new();
        let mut node_anns_intersection: Vec<u64> = Vec::new();
        let mut node_anns_difference: Vec<u64> = Vec::new();
        let mut node_anns_a_only: Vec<u64> = Vec::new();
        let mut node_anns_b_only: Vec<u64> = Vec::new();
        let mut chan_anns_intersection: Vec<u64> = Vec::new();
        let mut chan_anns_difference: Vec<u64> = Vec::new();
        let mut chan_anns_a_only: Vec<u64> = Vec::new();
        let mut chan_anns_b_only: Vec<u64> = Vec::new();
        let n: usize = rows.len();
        for i in 0..n
            invariant
                n == rows@.len(),
                node_idx@ == rows@.take(i as int).map_values(|row: NodeCountersRow| row.node_idx),
                time_ns@ == rows@.take(i as int).map_values(|row: NodeCountersRow| row.time_ns),
                bytes_in_sketch@ == rows@.take(i as int).map_values(|row: NodeCountersRow| row.bytes_in_sketch),
                bytes_out_sketch@ == rows@.take(i as int).map_values(|row: NodeCountersRow| row.bytes_out_sketch),
                bytes_in_gossip@ == rows@.take(i as int).map_values(|row: NodeCountersRow| row.bytes_in_gossip),
                bytes_out_gossip@ == rows@.take(i as int).map_values(|row: NodeCountersRow| row.bytes_out_gossip),
                bytes_in_inventory@ == rows@.take(i as int).map_values(|row: NodeCountersRow| row.bytes_in_inventory),
                bytes_out_inventory@ == rows@.take(i as int).map_values(|row: NodeCountersRow| row.bytes_out_inventory),
                duplicates@ == rows@.take(i as int).map_values(|row: NodeCountersRow| row.duplicates),
                duplicates_bytes@ == rows@.take(i as int).map_values(|row: NodeCountersRow| row.duplicates_bytes),
                sketches_sent@ == rows@.take(i as int).map_values(|row: NodeCountersRow| row.sketches_sent),
                sketches_received@ == rows@.take(i as int).map_values(|row: NodeCountersRow| row.sketches_received),
                inventories_sent@ == rows@.take(i as int).map_values(|row: NodeCountersRow| row.inventories_sent),
                inventories_received@ == rows@.take(i as int).map_values(|row: NodeCountersRow| row.inventories_received),
                inv_keys_sent_sum@ == rows@.take(i as int).map_values(|row: NodeCountersRow| row.inv_keys_sent_sum),
                inv_keys_sent_min@ == rows@.take(i as int).map_values(|row: NodeCountersRow| row.inv_keys_sent_min),
                inv_keys_sent_max@ == rows@.take(i as int).map_values(|row: NodeCountersRow| row.inv_keys_sent_max),
                overflowed_chan_updates@ == rows@.take(i as int).map_values(|row: NodeCountersRow| row.overflowed_chan_updates),
                overflowed_node_anns@ == rows@.take(i as int).map_values(|row: NodeCountersRow| row.overflowed_node_anns),
                overflowed_chan_anns@ == rows@.take(i as int).map_values(|row: NodeCountersRow| row.overflowed_chan_anns),
                chan_updates_intersection@ == rows@.take(i as int).map_values(|row: NodeCountersRow| row.chan_updates_intersection),
                chan_updates_difference@ == rows@.take(i as int).map_values(|row: NodeCountersRow| row.chan_updates_difference),
                chan_updates_a_only@ == rows@.take(i as int).map_values(|row: NodeCountersRow| row.chan_updates_a_only),
                chan_updates_b_only@ == rows@.take(i as int).map_values(|row: NodeCountersRow| row.chan_updates_b_only),
                node_anns_intersection@ == rows@.take(i as int).map_values(|row: NodeCountersRow| row.node_anns_intersection),
                node_anns_difference@ == rows@.take(i as int).map_values(|row: NodeCountersRow| row.node_anns_difference),
                node_anns_a_only@ == rows@.take(i as int).map_values(|row: NodeCountersRow| row.node_anns_a_only),
                node_anns_b_only@ == rows@.take(i as int).map_values(|row: NodeCountersRow| row.node_anns_b_only),
                chan_anns_intersection@ == rows@.take(i as int).map_values(|row: NodeCountersRow| row.chan_anns_intersection),
                chan_anns_difference@ == rows@.take(i as int).map_values(|row: NodeCountersRow| row.chan_anns_difference),
                chan_anns_a_only@ == rows@.take(i as int).map_values(|row: NodeCountersRow| row.chan_anns_a_only),
                chan_anns_b_only@ == rows@.take(i as int).map_values(|row: NodeCountersRow| row.chan_anns_b_only),
        {
            assert(rows@.take(i + 1) =~= rows@.take(i as int).push(rows@[i as int]));
            node_idx.push(rows[i].node_idx);
            assert(node_idx@ =~= rows@.take(i + 1).map_values(|row: NodeCountersRow| row.node_idx));
            time_ns.push(rows[i].time_ns);
            assert(time_ns@ =~= rows@.take(i + 1).map_values(|row: NodeCountersRow| row.time_ns));
            bytes_in_sketch.push(rows[i].bytes_in_sketch);
            assert(bytes_in_sketch@ =~= rows@.take(i + 1).map_values(|row: NodeCountersRow| row.bytes_in_sketch));
            bytes_out_sketch.push(rows[i].bytes_out_sketch);
            assert(bytes_out_sketch@ =~= rows@.take(i + 1).map_values(|row: NodeCountersRow| row.bytes_out_sketch));
            bytes_in_gossip.push(rows[i].bytes_in_gossip);
            assert(bytes_in_gossip@ =~= rows@.take(i + 1).map_values(|row: NodeCountersRow| row.bytes_in_gossip));
            bytes_out_gossip.push(rows[i].bytes_out_gossip);
            assert(bytes_out_gossip@ =~= rows@.take(i + 1).map_values(|row: NodeCountersRow| row.bytes_out_gossip));
            bytes_in_inventory.push(rows[i].bytes_in_inventory);
            assert(bytes_in_inventory@ =~= rows@.take(i + 1).map_values(|row: NodeCountersRow| row.bytes_in_inventory));
            bytes_out_inventory.push(rows[i].bytes_out_inventory);
            assert(bytes_out_inventory@ =~= rows@.take(i + 1).map_values(|row: NodeCountersRow| row.bytes_out_inventory));
            duplicates.push(rows[i].duplicates);
            assert(duplicates@ =~= rows@.take(i + 1).map_values(|row: NodeCountersRow| row.duplicates));
            duplicates_bytes.push(rows[i].duplicates_bytes);
            assert(duplicates_bytes@ =~= rows@.take(i + 1).map_values(|row: NodeCountersRow| row.duplicates_bytes));
            sketches_sent.push(rows[i].sketches_sent);
            assert(sketches_sent@ =~= rows@.take(i + 1).map_values(|row: NodeCountersRow| row.sketches_sent));
            sketches_received.push(rows[i].sketches_received);
            assert(sketches_received@ =~= rows@.take(i + 1).map_values(|row: NodeCountersRow| row.sketches_received));
            inventories_sent.push(rows[i].inventories_sent);
            assert(inventories_sent@ =~= rows@.take(i + 1).map_values(|row: NodeCountersRow| row.inventories_sent));
            inventories_received.push(rows[i].inventories_received);
            assert(inventories_received@ =~= rows@.take(i + 1).map_values(|row: NodeCountersRow| row.inventories_received));
            inv_keys_sent_sum.push(rows[i].inv_keys_sent_sum);
            assert(inv_keys_sent_sum@ =~= rows@.take(i + 1).map_values(|row: NodeCountersRow| row.inv_keys_sent_sum));
            inv_keys_sent_min.push(rows[i].inv_keys_sent_min);
            assert(inv_keys_sent_min@ =~= rows@.take(i + 1).map_values(|row: NodeCountersRow| row.inv_keys_sent_min));
            inv_keys_sent_max.push(rows[i].inv_keys_sent_max);
            assert(inv_keys_sent_max@ =~= rows@.take(i + 1).map_values(|row: NodeCountersRow| row.inv_keys_sent_max));
            overflowed_chan_updates.push(rows[i].overflowed_chan_updates);
            assert(overflowed_chan_updates@ =~= rows@.take(i + 1).map_values(|row: NodeCountersRow| row.overflowed_chan_updates));
            overflowed_node_anns.push(rows[i].overflowed_node_anns);
            assert(overflowed_node_anns@ =~= rows@.take(i + 1).map_values(|row: NodeCountersRow| row.overflowed_node_anns));
            overflowed_chan_anns.push(rows[i].overflowed_chan_anns);
            assert(overflowed_chan_anns@ =~= rows@.take(i + 1).map_values(|row: NodeCountersRow| row.overflowed_chan_anns));
            chan_updates_intersection.push(rows[i].chan_updates_intersection);
            assert(chan_updates_intersection@ =~= rows@.take(i + 1).map_values(|row: NodeCountersRow| row.chan_updates_intersection));
            chan_updates_difference.push(rows[i].chan_updates_difference);
            assert(chan_updates_difference@ =~= rows@.take(i + 1).map_values(|row: NodeCountersRow| row.chan_updates_difference));
            chan_updates_a_only.push(rows[i].chan_updates_a_only);
            assert(chan_updates_a_only@ =~= rows@.take(i + 1).map_values(|row: NodeCountersRow| row.chan_updates_a_only));
            chan_updates_b_only.push(rows[i].chan_updates_b_only);
            assert(chan_updates_b_only@ =~= rows@.take(i + 1).map_values(|row: NodeCountersRow| row.chan_updates_b_only));
            node_anns_intersection.push(rows[i].node_anns_intersection);
            assert(node_anns_intersection@ =~= rows@.take(i + 1).map_values(|row: NodeCountersRow| row.node_anns_intersection));
            node_anns_difference.push(rows[i].node_anns_difference);
            assert(node_anns_difference@ =~= rows@.take(i + 1).map_values(|row: NodeCountersRow| row.node_anns_difference));
            node_anns_a_only.push(rows[i].node_anns_a_only);
            assert(node_anns_a_only@ =~= rows@.take(i + 1).map_values(|row: NodeCountersRow| row.node_anns_a_only));
            node_anns_b_only.push(rows[i].node_anns_b_only);
            assert(node_anns_b_only@ =~= rows@.take(i + 1).map_values(|row: NodeCountersRow| row.node_anns_b_only));
            chan_anns_intersection.push(rows[i].chan_anns_intersection);
            assert(chan_anns_intersection@ =~= rows@.take(i + 1).map_values(|row: NodeCountersRow| row.chan_anns_intersection));
            chan_anns_difference.push(rows[i].chan_anns_difference);
            assert(chan_anns_difference@ =~= rows@.take(i + 1).map_values(|row: NodeCountersRow| row.chan_anns_difference));
            chan_anns_a_only.push(rows[i].chan_anns_a_only);
            assert(chan_anns_a_only@ =~= rows@.take(i + 1).map_values(|row: NodeCountersRow| row.chan_anns_a_only));
            chan_anns_b_only.push(rows[i].chan_anns_b_only);
            assert(chan_anns_b_only@ =~= rows@.take(i + 1).map_values(|row: NodeCountersRow| row.chan_anns_b_only));
        }
        assert(rows@.take(n as int) =~= rows@);
        NodeCountersColumns {
            node_idx,
            time_ns,
            bytes_in_sketch,
            bytes_out_sketch,
            bytes_in_gossip,
            bytes_out_gossip,
            bytes_in_inventory,
            bytes_out_inventory,
            duplicates,
            duplicates_bytes,
            sketches_sent,
            sketches_received,
            inventories_sent,
            inventories_received,
            inv_keys_sent_sum,
            inv_keys_sent_min,
            inv_keys_sent_max,
            overflowed_chan_updates,
            overflowed_node_anns,
            overflowed_chan_anns,
            chan_updates_intersection,
            chan_updates_difference,
            chan_updates_a_only,
            chan_updates_b_only,
            node_anns_intersection,
            node_anns_difference,
            node_anns_a_only,
            node_anns_b_only,
            chan_anns_intersection,
            chan_anns_difference,
            chan_anns_a_only,
            chan_anns_b_only,
        }
    }
}

/// Reservoir samples as columns.
#[derive(Debug)]
pub struct NodeReservoirColumns {
    pub node_idx: Vec<NodeIdx>,
    pub kind: Vec<u8>,
    pub intersection: Vec<u32>,
    pub difference: Vec<u32>,
    pub a_only: Vec<u32>,
    pub b_only: Vec<u32>,
    pub total_seen: Vec<u64>,
}

impl NodeReservoirRow {
    /// The rows as columns, one value per row in each.
    pub fn to_columns(rows: &[NodeReservoirRow]) -> (r: NodeReservoirColumns)
        ensures
            r.node_idx@ == rows@.map_values(|row: NodeReservoirRow| row.node_idx),
            r.kind@ == rows@.map_values(|row: NodeReservoirRow| row.kind),
            r.intersection@ == rows@.map_values(|row: NodeReservoirRow| row.intersection),
            r.difference@ == rows@.map_values(|row: NodeReservoirRow| row.difference),
            r.a_only@ == rows@.map_values(|row: NodeReservoirRow| row.a_only),
            r.b_only@ == rows@.map_values(|row: NodeReservoirRow| row.b_only),
            r.total_seen@ == rows@.map_values(|row: NodeReservoirRow| row.total_seen),
    {
        let mut node_idx: Vec<NodeIdx> = Vec::new();
        let mut kind: Vec<u8> = Vec::new();
        let mut intersection: Vec<u32> = Vec::new();
        let mut difference: Vec<u32> = Vec::new();
        let mut a_only: Vec<u32> = Vec::new();
        let mut b_only: Vec<u32> = Vec::new();
        let mut total_seen: Vec<u64> = Vec::new();
        let n: usize = rows.len();
        for i in 0..n
            invariant
                n == rows@.len(),
                node_idx@ == rows@.take(i as int).map_values(|row: NodeReservoirRow| row.node_idx),
                kind@ == rows@.take(i as int).map_values(|row: NodeReservoirRow| row.kind),
                intersection@ == rows@.take(i as int).map_values(|row: NodeReservoirRow| row.intersection),
                difference@ == rows@.take(i as int).map_values(|row: NodeReservoirRow| row.difference),
                a_only@ == rows@.take(i as int).map_values(|row: NodeReservoirRow| row.a_only),
                b_only@ == rows@.take(i as int).map_values(|row: NodeReservoirRow| row.b_only),
                total_seen@ == rows@.take(i as int).map_values(|row: NodeReservoirRow| row.total_seen),
        {
            assert(rows@.take(i + 1) =~= rows@.take(i as int).push(rows@[i as int]));
            node_idx.push(rows[i].node_idx);
            assert(node_idx@ =~= rows@.take(i + 1).map_values(|row: NodeReservoirRow| row.node_idx));
            kind.push(rows[i].kind);
            assert(kind@ =~= rows@.take(i + 1).map_values(|row: NodeReservoirRow| row.kind));
            intersection.push(rows[i].intersection);
            assert(intersection@ =~= rows@.take(i + 1).map_values(|row: NodeReservoirRow| row.intersection));
            difference.push(rows[i].difference);
            assert(difference@ =~= rows@.take(i + 1).map_values(|row: NodeReservoirRow| row.difference));
            a_only.push(rows[i].a_only);
            assert(a_only@ =~= rows@.take(i + 1).map_values(|row: NodeReservoirRow| row.a_only));
            b_only.push(rows[i].b_only);
            assert(b_only@ =~= rows@.take(i + 1).map_values(|row: NodeReservoirRow| row.b_only));
            total_seen.push(rows[i].total_seen);
            assert(total_seen@ =~= rows@.take(i + 1).map_values(|row: NodeReservoirRow| row.total_seen));
        }
        assert(rows@.take(n as int) =~= rows@);
        NodeReservoirColumns {
            node_idx,
            kind,
            intersection,
            difference,
            a_only,
            b_only,
            total_seen,
        }
    }
}

/// Sketch overflows as columns.
#[derive(Debug)]
pub struct OverflowEventColumns {
    pub time_ns: Vec<u64>,
    pub receiver_idx: Vec<NodeIdx>,
    pub peer_id: Vec<NodeId>,
    pub kind: Vec<u8>,
    pub amount: Vec<u32>,
    pub total_diff: Vec<u32>,
}

impl OverflowEventRow {
    /// The rows as columns, one value per row in each.
    pub fn to_columns(rows: &[OverflowEventRow]) -> (r: OverflowEventColumns)
        ensures
            r.time_ns@ == rows@.map_values(|row: OverflowEventRow| row.time_ns),
            r.receiver_idx@ == rows@.map_values(|row: OverflowEventRow| row.receiver_idx),
            r.peer_id@ == rows@.map_values(|row: OverflowEventRow| row.peer_id),
            r.kind@ == rows@.map_values(|row: OverflowEventRow| row.kind),
            r.amount@ == rows@.map_values(|row: OverflowEventRow| row.amount),
            r.total_diff@ == rows@.map_values(|row: OverflowEventRow| row.total_diff),
    {
        let mut time_ns: Vec<u64> = Vec::new();
        let mut receiver_idx: Vec<NodeIdx> = Vec::new();
        let mut peer_id: Vec<NodeId> = Vec::new();
        let mut kind: Vec<u8> = Vec::new();
        let mut amount: Vec<u32> = Vec::new();
        let mut total_diff: Vec<u32> = Vec::new();
        let n: usize = rows.len();
        for i in 0..n
            invariant
                n == rows@.len(),
                time_ns@ == rows@.take(i as int).map_values(|row: OverflowEventRow| row.time_ns),
                receiver_idx@ == rows@.take(i as int).map_values(|row: OverflowEventRow| row.receiver_idx),
                peer_id@ == rows@.take(i as int).map_values(|row: OverflowEventRow| row.peer_id),
                kind@ == rows@.take(i as int).map_values(|row: OverflowEventRow| row.kind),
                amount@ == rows@.take(i as int).map_values(|row: OverflowEventRow| row.amount),
                total_diff@ == rows@.take(i as int).map_values(|row: OverflowEventRow| row.total_diff),
        {
            assert(rows@.take(i + 1) =~= rows@.take(i as int).push(rows@[i as int]));
            time_ns.push(rows[i].time_ns);
            assert(time_ns@ =~= rows@.take(i + 1).map_values(|row: OverflowEventRow| row.time_ns));
            receiver_idx.push(rows[i].receiver_idx);
            assert(receiver_idx@ =~= rows@.take(i + 1).map_values(|row: OverflowEventRow| row.receiver_idx));
            peer_id.push(rows[i].peer_id);
            assert(peer_id@ =~= rows@.take(i + 1).map_values(|row: OverflowEventRow| row.peer_id));
            kind.push(rows[i].kind);
            assert(kind@ =~= rows@.take(i + 1).map_values(|row: OverflowEventRow| row.kind));
            amount.push(rows[i].amount);
            assert(amount@ =~= rows@.take(i + 1).map_values(|row: OverflowEventRow| row.amount));
            total_diff.push(rows[i].total_diff);
            assert(total_diff@ =~= rows@.take(i + 1).map_values(|row: OverflowEventRow| row.total_diff));
        }
        assert(rows@.take(n as int) =~= rows@);
        OverflowEventColumns {
            time_ns,
            receiver_idx,
            peer_id,
            kind,
            amount,
            total_diff,
        }
    }
}

/// Run parameters as columns.
#[derive(Debug)]
pub struct RunMetaColumns {
    pub seed: Vec<u64>,
    pub n_nodes: Vec<u64>,
    pub mean_degree_bits: Vec<u64>,
    pub min_degree: Vec<u64>,
    pub max_degree: Vec<u64>,
    pub diameter: Vec<u64>,
    pub mean_path_length_bits: Vec<u64>,
    pub stagger_secs_bits: Vec<u64>,
    pub capacity_chan_updates: Vec<u64>,
    pub capacity_node_anns: Vec<u64>,
    pub capacity_chan_anns: Vec<u64>,
    pub events_chan_update: Vec<u64>,
    pub events_node_ann: Vec<u64>,
    pub events_chan_ann: Vec<u64>,
    pub duration_seconds: Vec<u64>,
    pub predicted_p50_bits: Vec<u64>,
    pub predicted_p99_bits: Vec<u64>,
    pub predicted_p100_bits: Vec<u64>,
    pub algo: Vec<String>,
    pub topology_kind: Vec<String>,
    pub event_kind: Vec<String>,
}

impl RunMetaRow {
    /// The rows as columns, one value per row in each.
    pub fn to_columns(rows: &[RunMetaRow]) -> (r: RunMetaColumns)
        ensures
            r.seed@ == rows@.map_values(|row: RunMetaRow| row.seed),
            r.n_nodes@ == rows@.map_values(|row: RunMetaRow| row.n_nodes),
            r.mean_degree_bits@ == rows@.map_values(|row: RunMetaRow| row.mean_degree_bits),
            r.min_degree@ == rows@.map_values(|row: RunMetaRow| row.min_degree),
            r.max_degree@ == rows@.map_values(|row: RunMetaRow| row.max_degree),
            r.diameter@ == rows@.map_values(|row: RunMetaRow| row.diameter),
            r.mean_path_length_bits@ == rows@.map_values(|row: RunMetaRow| row.mean_path_length_bits),
            r.stagger_secs_bits@ == rows@.map_values(|row: RunMetaRow| row.stagger_secs_bits),
            r.capacity_chan_updates@ == rows@.map_values(|row: RunMetaRow| row.capacity_chan_updates),
            r.capacity_node_anns@ == rows@.map_values(|row: RunMetaRow| row.capacity_node_anns),
            r.capacity_chan_anns@ == rows@.map_values(|row: RunMetaRow| row.capacity_chan_anns),
            r.events_chan_update@ == rows@.map_values(|row: RunMetaRow| row.events_chan_update),
            r.events_node_ann@ == rows@.map_values(|row: RunMetaRow| row.events_node_ann),
            r.events_chan_ann@ == rows@.map_values(|row: RunMetaRow| row.events_chan_ann),
            r.duration_seconds@ == rows@.map_values(|row: RunMetaRow| row.duration_seconds),
            r.predicted_p50_bits@ == rows@.map_values(|row: RunMetaRow| row.predicted_p50_bits),
            r.predicted_p99_bits@ == rows@.map_values(|row: RunMetaRow| row.predicted_p99_bits),
            r.predicted_p100_bits@ == rows@.map_values(|row: RunMetaRow| row.predicted_p100_bits),
            texts(r.algo@) == rows@.map_values(|row: RunMetaRow| row.algo@),
            texts(r.topology_kind@) == rows@.map_values(|row: RunMetaRow| row.topology_kind@),
            texts(r.event_kind@) == rows@.map_values(|row: RunMetaRow| row.event_kind@),
    {
        let mut seed: Vec<u64> = Vec::new();
        let mut n_nodes: Vec<u64> = Vec::new();
        let mut mean_degree_bits: Vec<u64> = Vec::new();
        let mut min_degree: Vec<u64> = Vec::new();
        let mut max_degree: Vec<u64> = Vec::new();
        let mut diameter: Vec<u64> = Vec::new();
        let mut mean_path_length_bits: Vec<u64> = Vec::new();
        let mut stagger_secs_bits: Vec<u64> = Vec::new();
        let mut capacity_chan_updates: Vec<u64> = Vec::new();
        let mut capacity_node_anns: Vec<u64> = Vec::new();
        let mut capacity_chan_anns: Vec<u64> = Vec::new();
        let mut events_chan_update: Vec<u64> = Vec::new();
        let mut events_node_ann: Vec<u64> = Vec::new();
        let mut events_chan_ann: Vec<u64> = Vec::new();
        let mut duration_seconds: Vec<u64> = Vec::new();
        let mut predicted_p50_bits: Vec<u64> = Vec::new();
        let mut predicted_p99_bits: Vec<u64> = Vec::new();
        let mut predicted_p100_bits: Vec<u64> = Vec::new();
        let mut algo: Vec<String> = Vec::new();
        let mut topology_kind: Vec<String> = Vec::new();
        let mut event_kind: Vec<String> = Vec::new();
        let n: usize = rows.len();
        for i in 0..n
            invariant
                n == rows@.len(),
                seed@ == rows@.take(i as int).map_values(|row: RunMetaRow| row.seed),
                n_nodes@ == rows@.take(i as int).map_values(|row: RunMetaRow| row.n_nodes),
                mean_degree_bits@ == rows@.take(i as int).map_values(|row: RunMetaRow| row.mean_degree_bits),
                min_degree@ == rows@.take(i as int).map_values(|row: RunMetaRow| row.min_degree),
                max_degree@ == rows@.take(i as int).map_values(|row: RunMetaRow| row.max_degree),
                diameter@ == rows@.take(i as int).map_values(|row: RunMetaRow| row.diameter),
                mean_path_length_bits@ == rows@.take(i as int).map_values(|row: RunMetaRow| row.mean_path_length_bits),
                stagger_secs_bits@ == rows@.take(i as int).map_values(|row: RunMetaRow| row.stagger_secs_bits),
                capacity_chan_updates@ == rows@.take(i as int).map_values(|row: RunMetaRow| row.capacity_chan_updates),
                capacity_node_anns@ == rows@.take(i as int).map_values(|row: RunMetaRow| row.capacity_node_anns),
                capacity_chan_anns@ == rows@.take(i as int).map_values(|row: RunMetaRow| row.capacity_chan_anns),
                events_chan_update@ == rows@.take(i as int).map_values(|row: RunMetaRow| row.events_chan_update),
                events_node_ann@ == rows@.take(i as int).map_values(|row: RunMetaRow| row.events_node_ann),
                events_chan_ann@ == rows@.take(i as int).map_values(|row: RunMetaRow| row.events_chan_ann),
                duration_seconds@ == rows@.take(i as int).map_values(|row: RunMetaRow| row.duration_seconds),
                predicted_p50_bits@ == rows@.take(i as int).map_values(|row: RunMetaRow| row.predicted_p50_bits),
                predicted_p99_bits@ == rows@.take(i as int).map_values(|row: RunMetaRow| row.predicted_p99_bits),
                predicted_p100_bits@ == rows@.take(i as int).map_values(|row: RunMetaRow| row.predicted_p100_bits),
                texts(algo@) == rows@.take(i as int).map_values(|row: RunMetaRow| row.algo@),
                texts(topology_kind@) == rows@.take(i as int).map_values(|row: RunMetaRow| row.topology_kind@),
                texts(event_kind@) == rows@.take(i as int).map_values(|row: RunMetaRow| row.event_kind@),
        {
            assert(rows@.take(i + 1) =~= rows@.take(i as int).push(rows@[i as int]));
            seed.push(rows[i].seed);
            assert(seed@ =~= rows@.take(i + 1).map_values(|row: RunMetaRow| row.seed));
            n_nodes.push(rows[i].n_nodes);
            assert(n_nodes@ =~= rows@.take(i + 1).map_values(|row: RunMetaRow| row.n_nodes));
            mean_degree_bits.push(rows[i].mean_degree_bits);
            assert(mean_degree_bits@ =~= rows@.take(i + 1).map_values(|row: RunMetaRow| row.mean_degree_bits));
            min_degree.push(rows[i].min_degree);
            assert(min_degree@ =~= rows@.take(i + 1).map_values(|row: RunMetaRow| row.min_degree));
            max_degree.push(rows[i].max_degree);
            assert(max_degree@ =~= rows@.take(i + 1).map_values(|row: RunMetaRow| row.max_degree));
            diameter.push(rows[i].diameter);
            assert(diameter@ =~= rows@.take(i + 1).map_values(|row: RunMetaRow| row.diameter));
            mean_path_length_bits.push(rows[i].mean_path_length_bits);
            assert(mean_path_length_bits@ =~= rows@.take(i + 1).map_values(|row: RunMetaRow| row.mean_path_length_bits));
            stagger_secs_bits.push(rows[i].stagger_secs_bits);
            assert(stagger_secs_bits@ =~= rows@.take(i + 1).map_values(|row: RunMetaRow| row.stagger_secs_bits));
            capacity_chan_updates.push(rows[i].capacity_chan_updates);
            assert(capacity_chan_updates@ =~= rows@.take(i + 1).map_values(|row: RunMetaRow| row.capacity_chan_updates));
            capacity_node_anns.push(rows[i].capacity_node_anns);
            assert(capacity_node_anns@ =~= rows@.take(i + 1).map_values(|row: RunMetaRow| row.capacity_node_anns));
            capacity_chan_anns.push(rows[i].capacity_chan_anns);
            assert(capacity_chan_anns@ =~= rows@.take(i + 1).map_values(|row: RunMetaRow| row.capacity_chan_anns));
            events_chan_update.push(rows[i].events_chan_update);
            assert(events_chan_update@ =~= rows@.take(i + 1).map_values(|row: RunMetaRow| row.events_chan_update));
            events_node_ann.push(rows[i].events_node_ann);
            assert(events_node_ann@ =~= rows@.take(i + 1).map_values(|row: RunMetaRow| row.events_node_ann));
            events_chan_ann.push(rows[i].events_chan_ann);
            assert(events_chan_ann@ =~= rows@.take(i + 1).map_values(|row: RunMetaRow| row.events_chan_ann));
            duration_seconds.push(rows[i].duration_seconds);
            assert(duration_seconds@ =~= rows@.take(i + 1).map_values(|row: RunMetaRow| row.duration_seconds));
            predicted_p50_bits.push(rows[i].predicted_p50_bits);
            assert(predicted_p50_bits@ =~= rows@.take(i + 1).map_values(|row: RunMetaRow| row.predicted_p50_bits));
            predicted_p99_bits.push(rows[i].predicted_p99_bits);
            assert(predicted_p99_bits@ =~= rows@.take(i + 1).map_values(|row: RunMetaRow| row.predicted_p99_bits));
            predicted_p100_bits.push(rows[i].predicted_p100_bits);
            assert(predicted_p100_bits@ =~= rows@.take(i + 1).map_values(|row: RunMetaRow| row.predicted_p100_bits));
            let ghost algo_before = algo@;
            algo.push(rows[i].algo.clone());
            assert(texts(algo@) =~= texts(algo_before).push(rows@[i as int].algo@));
            assert(texts(algo@) =~= rows@.take(i + 1).map_values(|row: RunMetaRow| row.algo@));
            let ghost topology_kind_before = topology_kind@;
            topology_kind.push(rows[i].topology_kind.clone());
            assert(texts(topology_kind@) =~= texts(topology_kind_before).push(rows@[i as int].topology_kind@));
            assert(texts(topology_kind@) =~= rows@.take(i + 1).map_values(|row: RunMetaRow| row.topology_kind@));
            let ghost event_kind_before = event_kind@;
            event_kind.push(rows[i].event_kind.clone());
            assert(texts(event_kind@) =~= texts(event_kind_before).push(rows@[i as int].event_kind@));
            assert(texts(event_kind@) =~= rows@.take(i + 1).map_values(|row: RunMetaRow| row.event_kind@));
        }
        assert(rows@.take(n as int) =~= rows@);
        RunMetaColumns {
            seed,
            n_nodes,
            mean_degree_bits,
            min_degree,
            max_degree,
            diameter,
            mean_path_length_bits,
            stagger_secs_bits,
            capacity_chan_updates,
            capacity_node_anns,
            capacity_chan_anns,
            events_chan_update,
            events_node_ann,
            events_chan_ann,
            duration_seconds,
            predicted_p50_bits,
            predicted_p99_bits,
            predicted_p100_bits,
            algo,
            topology_kind,
            event_kind,
        }
    }
}

/// Pubkeys as columns.
#[derive(Debug)]
pub struct NodePubkeyColumns {
    pub node_idx: Vec<NodeIdx>,
    pub node_id: Vec<NodeId>,
    pub pubkey: Vec<String>,
}

impl NodePubkeyRow {
    /// The rows as columns, one value per row in each.
    pub fn to_columns(rows: &[NodePubkeyRow]) -> (r: NodePubkeyColumns)
        ensures
            r.node_idx@ == rows@.map_values(|row: NodePubkeyRow| row.node_idx),
            r.node_id@ == rows@.map_values(|row: NodePubkeyRow| row.node_id),
            texts(r.pubkey@) == rows@.map_values(|row: NodePubkeyRow| row.pubkey@),
    {
        let mut node_idx: Vec<NodeIdx> = Vec::new();
        let mut node_id: Vec<NodeId> = Vec::new();
        let mut pubkey: Vec<String> = Vec::new();
        let n: usize = rows.len();
        for i in 0..n
            invariant
                n == rows@.len(),
                node_idx@ == rows@.take(i as int).map_values(|row: NodePubkeyRow| row.node_idx),
                node_id@ == rows@.take(i as int).map_values(|row: NodePubkeyRow| row.node_id),
                texts(pubkey@) == rows@.take(i as int).map_values(|row: NodePubkeyRow| row.pubkey@),
        {
            assert(rows@.take(i + 1) =~= rows@.take(i as int).push(rows@[i as int]));
            node_idx.push(rows[i].node_idx);
            assert(node_idx@ =~= rows@.take(i + 1).map_values(|row: NodePubkeyRow| row.node_idx));
            node_id.push(rows[i].node_id);
            assert(node_id@ =~= rows@.take(i + 1).map_values(|row: NodePubkeyRow| row.node_id));
            let ghost pubkey_before = pubkey@;
            pubkey.push(rows[i].pubkey.clone());
            assert(texts(pubkey@) =~= texts(pubkey_before).push(rows@[i as int].pubkey@));
            assert(texts(pubkey@) =~= rows@.take(i + 1).map_values(|row: NodePubkeyRow| row.pubkey@));
        }
        assert(rows@.take(n as int) =~= rows@);
        NodePubkeyColumns {
            node_idx,
            node_id,
            pubkey,
        }
    }
}

/// Finished messages as columns, with one column per percentile.
#[derive(Debug)]
pub struct MsgStatsColumns {
    pub msg_id: Vec<u64>,
    pub coverage: Vec<u64>,
    pub n_nodes: Vec<u64>,
    pub origin_ns: Vec<u64>,
    pub last_ns: Vec<u64>,
    pub size_bytes: Vec<u32>,
    pub percentiles: Vec<Vec<Option<u64>>>,
}

/// The time of percentile `p` in a row, if the row has one.
pub open spec fn percentile_at(row: MsgStats, p: int) -> Option<u64> {
    if p < row.percentiles@.len() {
        row.percentiles@[p]
    } else {
        None
    }
}

/// One percentile of every row.
pub(crate) fn percentile_column(rows: &[MsgStats], p: usize) -> (r: Vec<Option<u64>>)
    ensures
        r@ == rows@.map_values(|row: MsgStats| percentile_at(row, p as int)),
{
    let mut out: Vec<Option<u64>> = Vec::new();
    let n: usize = rows.len();
    for i in 0..n
        invariant
            n == rows@.len(),
            out@ == rows@.take(i as int).map_values(
                |row: MsgStats| percentile_at(row, p as int),
            ),
    {
        assert(rows@.take(i + 1) =~= rows@.take(i as int).push(rows@[i as int]));
        let v: Option<u64> = if p < rows[i].percentiles.len() {
            rows[i].percentiles[p]
        } else {
            None
        };
        out.push(v);
        assert(out@ =~= rows@.take(i + 1).map_values(
            |row: MsgStats| percentile_at(row, p as int),
        ));
    }
    assert(rows@.take(n as int) =~= rows@);
    out
}

impl MsgStats {
    /// The rows as columns, with `n_percentiles` columns of percentiles.
    pub fn to_columns(rows: &[MsgStats], n_percentiles: usize) -> (r: MsgStatsColumns)
        ensures
            r.msg_id@ == rows@.map_values(|row: MsgStats| row.id),
            r.coverage@ == rows@.map_values(|row: MsgStats| row.coverage as u64),
            r.n_nodes@ == rows@.map_values(|row: MsgStats| row.n_nodes as u64),
            r.origin_ns@ == rows@.map_values(|row: MsgStats| row.origin_ns),
            r.last_ns@ == rows@.map_values(|row: MsgStats| row.last_ns),
            r.size_bytes@ == rows@.map_values(|row: MsgStats| row.size_bytes),
            r.percentiles@.len() == n_percentiles,
            forall|p: int|
                0 <= p < n_percentiles ==> (#[trigger] r.percentiles@[p])@ == rows@.map_values(
                    |row: MsgStats| percentile_at(row, p),
                ),
    {
        let mut msg_id: Vec<u64> = Vec::new();
        let mut coverage: Vec<u64> = Vec::new();
        let mut n_nodes: Vec<u64> = Vec::new();
        let mut origin_ns: Vec<u64> = Vec::new();
        let mut last_ns: Vec<u64> = Vec::new();
        let mut size_bytes: Vec<u32> = Vec::new();
        let n: usize = rows.len();
        for i in 0..n
            invariant
                n == rows@.len(),
                msg_id@ == rows@.take(i as int).map_values(|row: MsgStats| row.id),
                coverage@ == rows@.take(i as int).map_values(|row: MsgStats| row.coverage as u64),
                n_nodes@ == rows@.take(i as int).map_values(|row: MsgStats| row.n_nodes as u64),
                origin_ns@ == rows@.take(i as int).map_values(|row: MsgStats| row.origin_ns),
                last_ns@ == rows@.take(i as int).map_values(|row: MsgStats| row.last_ns),
                size_bytes@ == rows@.take(i as int).map_values(|row: MsgStats| row.size_bytes),
        {
            assert(rows@.take(i + 1) =~= rows@.take(i as int).push(rows@[i as int]));
            msg_id.push(rows[i].id);
            coverage.push(rows[i].coverage as u64);
            n_nodes.push(rows[i].n_nodes as u64);
            origin_ns.push(rows[i].origin_ns);
            last_ns.push(rows[i].last_ns);
            size_bytes.push(rows[i].size_bytes);
            let ghost done = rows@.take(i + 1);
            assert(msg_id@ =~= done.map_values(|row: MsgStats| row.id));
            assert(coverage@ =~= done.map_values(|row: MsgStats| row.coverage as u64));
            assert(n_nodes@ =~= done.map_values(|row: MsgStats| row.n_nodes as u64));
            assert(origin_ns@ =~= done.map_values(|row: MsgStats| row.origin_ns));
            assert(last_ns@ =~= done.map_values(|row: MsgStats| row.last_ns));
            assert(size_bytes@ =~= done.map_values(|row: MsgStats| row.size_bytes));
        }
        assert(rows@.take(n as int) =~= rows@);
        let mut percentiles: Vec<Vec<Option<u64>>> = Vec::new();
        for p in 0..n_percentiles
            invariant
                percentiles@.len() == p,
                forall|q: int|
                    0 <= q < p ==> (#[trigger] percentiles@[q])@ == rows@.map_values(
                        |row: MsgStats| percentile_at(row, q),
                    ),
        {
            percentiles.push(percentile_column(rows, p));
        }
        MsgStatsColumns {
            msg_id,
            coverage,
            n_nodes,
            origin_ns,
            last_ns,
            size_bytes,
            percentiles,
        }
    }
}

// ---------------------------------------------------------------------
// Rows of the metrics events
// ---------------------------------------------------------------------

/// How many complete rounds a set of samples holds.
pub open spec fn complete_rounds(s: KindReservoirSamples) -> nat {
    let a = if s.intersection@.len() < s.difference@.len() {
        s.intersection@.len()
    } else {
        s.difference@.len()
    };
    let b = if s.a_only@.len() < s.b_only@.len() {
        s.a_only@.len()
    } else {
        s.b_only@.len()
    };
    if a < b {
        a
    } else {
        b
    }
}

/// The rows of one node's samples of one kind, one per complete round.
pub open spec fn kind_rows(idx: NodeIdx, kind: SketchKind, s: KindReservoirSamples) -> Seq<
    NodeReservoirRow,
> {
    Seq::new(
        complete_rounds(s),
        |i: int|
            NodeReservoirRow {
                node_idx: idx,
                kind: kind.code(),
                intersection: s.intersection@[i],
                difference: s.difference@[i],
                a_only: s.a_only@[i],
                b_only: s.b_only@[i],
                total_seen: s.total_seen,
            },
    )
}

/// Append the rows of one kind.
fn push_kind_rows(
    out: &mut Vec<NodeReservoirRow>,
    idx: NodeIdx,
    kind: SketchKind,
    s: &KindReservoirSamples,
)
    ensures
        final(out)@ == old(out)@ + kind_rows(idx, kind, *s),
{
    let a: usize = if s.intersection.len() < s.difference.len() {
        s.intersection.len()
    } else {
        s.difference.len()
    };
    let b: usize = if s.a_only.len() < s.b_only.len() {
        s.a_only.len()
    } else {
        s.b_only.len()
    };
    let n: usize = if a < b {
        a
    } else {
        b
    };
    let ghost rows = kind_rows(idx, kind, *s);
    for i in 0..n
        invariant
            n == complete_rounds(*s),
            rows == kind_rows(idx, kind, *s),
            out@ == old(out)@ + rows.take(i as int),
    {
        out.push(
            NodeReservoirRow {
                node_idx: idx,
                kind: kind.as_u8(),
                intersection: s.intersection[i],
                difference: s.difference[i],
                a_only: s.a_only[i],
                b_only: s.b_only[i],
                total_seen: s.total_seen,
            },
        );
        assert(out@ =~= old(out)@ + rows.take(i + 1));
    }
    assert(rows.take(n as int) =~= rows);
}

/// The rows of a node's samples at the end of a run, kind by kind.
pub fn reservoir_rows(
    idx: NodeIdx,
    chan_updates: &KindReservoirSamples,
    node_anns: &KindReservoirSamples,
    chan_anns: &KindReservoirSamples,
) -> (r: Vec<NodeReservoirRow>)
    ensures
        r@ == kind_rows(idx, SketchKind::ChanUpdates, *chan_updates) + kind_rows(
            idx,
            SketchKind::NodeAnns,
            *node_anns,
        ) + kind_rows(idx, SketchKind::ChanAnns, *chan_anns),
{
    let mut out: Vec<NodeReservoirRow> = Vec::new();
    push_kind_rows(&mut out, idx, SketchKind::ChanUpdates, chan_updates);
    push_kind_rows(&mut out, idx, SketchKind::NodeAnns, node_anns);
    push_kind_rows(&mut out, idx, SketchKind::ChanAnns, chan_anns);
    assert(out@ =~= kind_rows(idx, SketchKind::ChanUpdates, *chan_updates) + kind_rows(
        idx,
        SketchKind::NodeAnns,
        *node_anns,
    ) + kind_rows(idx, SketchKind::ChanAnns, *chan_anns));
    out
}

// ---------------------------------------------------------------------
// Buffering and files
// ---------------------------------------------------------------------

/// Rows of one table that wait to be written.
pub struct RowBuffer<R> {
    buf: Vec<R>,
}

impl<R> View for RowBuffer<R> {
    type V = Seq<R>;

    closed spec fn view(&self) -> Seq<R> {
        self.buf@
    }
}

impl<R> RowBuffer<R> {
    pub fn new() -> (r: Self)
        ensures
            r@ == Seq::<R>::empty(),
    {
        RowBuffer { buf: Vec::new() }
    }

    /// Add a row. Once [`FLUSH_EVERY`] rows wait they are handed back, in
    /// order, to be written, and the buffer starts anew.
    pub fn push(&mut self, row: R) -> (r: Option<Vec<R>>)
        ensures
            r is Some <==> old(self)@.len() + 1 >= FLUSH_EVERY,
            match r {
                Some(rows) => rows@ == old(self)@.push(row) && final(self)@ == Seq::<R>::empty(),
                None => final(self)@ == old(self)@.push(row),
            },
    {
        self.buf.push(row);
        if self.buf.len() >= FLUSH_EVERY {
            let mut taken: Vec<R> = Vec::new();
            std::mem::swap(&mut self.buf, &mut taken);
            Some(taken)
        } else {
            None
        }
    }

    /// Hand back what waits, if anything does.
    pub fn flush(&mut self) -> (r: Option<Vec<R>>)
        ensures
            r is Some <==> old(self)@.len() > 0,
            r matches Some(rows) ==> rows@ == old(self)@,
            final(self)@ == Seq::<R>::empty(),
    {
        if self.buf.is_empty() {
            assert(self.buf@ =~= Seq::<R>::empty());
            None
        } else {
            let mut taken: Vec<R> = Vec::new();
            std::mem::swap(&mut self.buf, &mut taken);
            Some(taken)
        }
    }
}

/// The files of a run.
#[derive(Debug)]
pub struct OutputPaths {
    pub tag: String,
    pub msg_stats: String,
    pub node_counters: String,
    pub node_reservoirs: String,
    pub overflow_events: String,
    pub run_meta: String,
    pub node_pubkey: String,
}

/// The name of one table's file.
pub open spec fn file_name(tag: Seq<char>, table: Seq<char>) -> Seq<char> {
    tag + "-"@ + table + ".parquet"@
}

fn table_file(tag: &str, table: &str) -> (r: String)
    ensures
        r@ == file_name(tag@, table@),
{
    let mut s = tag.to_owned();
    s.append("-");
    s.append(table);
    s.append(".parquet");
    s
}

impl OutputPaths {
    /// The files that share `tag`.
    pub fn from_tag(tag: &str) -> (r: Self)
        ensures
            r.tag@ == tag@,
            r.msg_stats@ == file_name(tag@, "msg_stats"@),
            r.node_counters@ == file_name(tag@, "node_counters"@),
            r.node_reservoirs@ == file_name(tag@, "node_reservoirs"@),
            r.overflow_events@ == file_name(tag@, "overflow_events"@),
            r.run_meta@ == file_name(tag@, "run_meta"@),
            r.node_pubkey@ == file_name(tag@, "node_pubkey"@),
    {
        OutputPaths {
            tag: tag.to_owned(),
            msg_stats: table_file(tag, "msg_stats"),
            node_counters: table_file(tag, "node_counters"),
            node_reservoirs: table_file(tag, "node_reservoirs"),
            overflow_events: table_file(tag, "overflow_events"),
            run_meta: table_file(tag, "run_meta"),
            node_pubkey: table_file(tag, "node_pubkey"),
        }
    }
}

/// The tag of a run that was not given one: topology, algorithm, event
/// source and the minute at which it started.
pub fn tag_for(topology: &str, algo: &str, event: &str, stamp: &str) -> (r: String)
    ensures
        r@ == topology@ + "-"@ + algo@ + "-"@ + event@ + "-"@ + stamp@,
{
    let mut s = topology.to_owned();
    s.append("-");
    s.append(algo);
    s.append("-");
    s.append(event);
    s.append("-");
    s.append(stamp);
    s
}

/// The six files of a tag are six different files.
pub proof fn tables_have_distinct_files(tag: Seq<char>)
    ensures
        ({
            let names = seq![
                file_name(tag, "msg_stats"@),
                file_name(tag, "node_counters"@),
                file_name(tag, "node_reservoirs"@),
                file_name(tag, "overflow_events"@),
                file_name(tag, "run_meta"@),
                file_name(tag, "node_pubkey"@),
            ];
            forall|i: int, j: int| 0 <= i < j < names.len() ==> names[i] != names[j]
        }),
{
    reveal_strlit("msg_stats");
    reveal_strlit("node_counters");
    reveal_strlit("node_reservoirs");
    reveal_strlit("overflow_events");
    reveal_strlit("run_meta");
    reveal_strlit("node_pubkey");
    reveal_strlit("-");
    reveal_strlit(".parquet");
    let n = tag.len() as int;
    let a = file_name(tag, "msg_stats"@);
    let b = file_name(tag, "node_counters"@);
    let c = file_name(tag, "node_reservoirs"@);
    let d = file_name(tag, "overflow_events"@);
    let e = file_name(tag, "run_meta"@);
    let f = file_name(tag, "node_pubkey"@);
    assert(a.len() == n + 18 && b.len() == n + 22 && c.len() == n + 24 && d.len() == n + 24
        && e.len() == n + 17 && f.len() == n + 20);
    assert(c[n + 1] == 'n' && d[n + 1] == 'o');
}

/// A row of counters holds every counter of its node, under its own name.
pub proof fn counters_keep_their_names(node_idx: NodeIdx, time_ns: u64, c: NodeCounters)
    ensures
        ({
            let row = NodeCountersRow::of_counters(node_idx, time_ns, c);
            &&& row.node_idx == node_idx
            &&& row.time_ns == time_ns
            &&& row.bytes_in_sketch == c.bytes_in_sketch
            &&& row.bytes_out_sketch == c.bytes_out_sketch
            &&& row.bytes_in_gossip == c.bytes_in_gossip
            &&& row.bytes_out_gossip == c.bytes_out_gossip
            &&& row.bytes_in_inventory == c.bytes_in_inventory
            &&& row.bytes_out_inventory == c.bytes_out_inventory
            &&& row.duplicates == c.duplicates
            &&& row.duplicates_bytes == c.duplicates_bytes
            &&& row.sketches_sent == c.sketches_sent
            &&& row.sketches_received == c.sketches_received
            &&& row.inventories_sent == c.inventories_sent
            &&& row.inventories_received == c.inventories_received
            &&& row.inv_keys_sent_sum == c.inv_keys_sent_sum
            &&& row.inv_keys_sent_min == c.inv_keys_sent_min
            &&& row.inv_keys_sent_max == c.inv_keys_sent_max
            &&& row.overflowed_chan_updates == c.overflowed_chan_updates
            &&& row.overflowed_node_anns == c.overflowed_node_anns
            &&& row.overflowed_chan_anns == c.overflowed_chan_anns
            &&& row.chan_updates_intersection == c.chan_updates.intersection
            &&& row.chan_updates_difference == c.chan_updates.difference
            &&& row.chan_updates_a_only == c.chan_updates.a_only
            &&& row.chan_updates_b_only == c.chan_updates.b_only
            &&& row.node_anns_intersection == c.node_anns.intersection
            &&& row.node_anns_difference == c.node_anns.difference
            &&& row.node_anns_a_only == c.node_anns.a_only
            &&& row.node_anns_b_only == c.node_anns.b_only
            &&& row.chan_anns_intersection == c.chan_anns.intersection
            &&& row.chan_anns_difference == c.chan_anns.difference
            &&& row.chan_anns_a_only == c.chan_anns.a_only
            &&& row.chan_anns_b_only == c.chan_anns.b_only
        }),
{
}

/// An overflow row says what happened: when, at which node, with which
/// peer, for which kind, by how much and of how much.
pub proof fn overflow_rows_keep_the_event(e: OverflowEvent)
    ensures
        ({
            let row = OverflowEventRow::of_event(e);
            &&& row.time_ns == e.time_ns
            &&& row.receiver_idx == e.receiver_idx
            &&& row.peer_id == e.peer_id
            &&& row.kind == e.kind.code()
            &&& row.amount == e.amount
            &&& row.total_diff == e.difference
        }),
{
}

/// The sampled rounds of a kind make one row each, as far as all four of
/// their figures were sampled, with the figures of the round side by
/// side.
pub proof fn sampled_rounds_make_rows(
    idx: NodeIdx,
    kind: SketchKind,
    s: KindReservoirSamples,
    i: int,
)
    ensures
        ({
            let rows = kind_rows(idx, kind, s);
            let n = rows.len();
            &&& n <= s.intersection@.len() && n <= s.difference@.len() && n <= s.a_only@.len() && n
                <= s.b_only@.len()
            &&& n == s.intersection@.len() || n == s.difference@.len() || n == s.a_only@.len() || n
                == s.b_only@.len()
            &&& 0 <= i < n ==> rows[i].node_idx == idx && rows[i].kind == kind.code()
                && rows[i].intersection == s.intersection@[i] && rows[i].difference
                == s.difference@[i] && rows[i].a_only == s.a_only@[i] && rows[i].b_only
                == s.b_only@[i] && rows[i].total_seen == s.total_seen
        }),
{
}

/// A percentile is the one at its place, or none past the last.
pub proof fn percentile_is_at_its_place(row: MsgStats, p: int)
    requires
        p >= 0,
    ensures
        p < row.percentiles@.len() ==> percentile_at(row, p) == row.percentiles@[p],
        p >= row.percentiles@.len() ==> percentile_at(row, p) is None,
{
}

} // verus!
