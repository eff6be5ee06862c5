//! Per-node metrics: the counters that every node keeps, and the samples
//! of its reconciliation rounds.
//!
//! A node owns its [`PerNodeMetrics`] and updates it in place. Each
//! periodic flush takes a snapshot of the counters
//! ([`PerNodeMetrics::snapshot_counters`]) and drains the two pending
//! buffers; at the end of a run the reservoirs are moved out once
//! ([`PerNodeMetrics::take_reservoirs`]).

use vstd::prelude::*;

use crate::message::{Gossip, MsgId, NodeId, NodeIdx, SketchKind};
use crate::reservoir;
use crate::reservoir::Reservoir;

verus! {

/// Size of the pending first-seen buffer at which a node flushes early.
pub const FIRST_SEEN_FORCE_FLUSH: usize = 2048;

/// Initial capacity of the overflow buffer: a few hundred events fit one
/// flush interval.
pub const OVERFLOW_BUFFER: usize = 256;

/// Running totals of the reconciliation of one kind.
#[derive(Copy, Clone, Debug, PartialEq, Eq, Structural)]
pub struct KindCounters {
    pub intersection: u64,
    pub difference: u64,
    pub a_only: u64,
    pub b_only: u64,
}

/// Snapshot of a node's counters at one flush.
#[derive(Copy, Clone, Debug, PartialEq, Eq, Structural)]
pub struct NodeCounters {
    pub bytes_in_sketch: u64,
    pub bytes_out_sketch: u64,
    pub bytes_in_gossip: u64,
    pub bytes_out_gossip: u64,
    pub bytes_in_inventory: u64,
    pub bytes_out_inventory: u64,
    pub duplicates: u64,
    pub duplicates_bytes: u64,
    pub sketches_sent: u64,
    pub sketches_received: u64,
    pub inventories_sent: u64,
    pub inventories_received: u64,
    pub inv_keys_sent_sum: u64,
    pub inv_keys_sent_min: u64,
    pub inv_keys_sent_max: u64,
    pub overflowed_chan_updates: u64,
    pub overflowed_node_anns: u64,
    pub overflowed_chan_anns: u64,
    pub chan_updates: KindCounters,
    pub node_anns: KindCounters,
    pub chan_anns: KindCounters,
}

/// Reservoir samples of one node and kind, moved out at the end of a run.
#[derive(Debug)]
pub struct KindReservoirSamples {
    pub intersection: Vec<u32>,
    pub difference: Vec<u32>,
    pub a_only: Vec<u32>,
    pub b_only: Vec<u32>,
    /// How many rounds the samples were drawn from.
    pub total_seen: u64,
}

/// A message with the time at which a node first saw it.
#[derive(Copy, Clone, Debug, PartialEq, Eq, Structural)]
pub struct FirstSeenEntry {
    pub gossip: Gossip,
    pub time_ns: u64,
}

/// A sketch whose difference exceeded its capacity, recorded by the
/// receiver.
#[derive(Copy, Clone, Debug, PartialEq, Eq, Structural)]
pub struct OverflowEvent {
    /// Simulated time at which the overflow was observed.
    pub time_ns: u64,
    /// Dense index of the receiver.
    pub receiver_idx: NodeIdx,
    /// The peer that sent the sketch.
    pub peer_id: NodeId,
    pub kind: SketchKind,
    /// How far the difference went over the capacity.
    pub amount: u32,
    /// The difference that triggered the overflow.
    pub difference: u32,
}

/// The low 32 bits of a count.
pub open spec fn low_bits(x: nat) -> u32 {
    (x % 0x1_0000_0000) as u32
}

pub(crate) fn low32(x: usize) -> (r: u32)
    ensures
        r == low_bits(x as nat),
{
    let wide: u64 = x as u64;
    assert(wide as u32 == wide % 0x1_0000_0000) by (bit_vector);
    #[verifier::truncate]
    (wide as u32)
}

/// Reconciliation totals of one kind, and a sample of its rounds.
#[derive(Debug)]
pub struct SketchKindStats {
    pub intersection: u64,
    pub difference: u64,
    pub a_only: u64,
    pub b_only: u64,
    pub rounds_intersection: Reservoir<u32>,
    pub rounds_difference: Reservoir<u32>,
    pub rounds_a_only: Reservoir<u32>,
    pub rounds_b_only: Reservoir<u32>,
}

impl Default for SketchKindStats {
    fn default() -> (r: Self)
        ensures
            r.wf(),
            r.counters() == no_kind_counters(),
            r.rounds_intersection@ == reservoir::unsampled::<u32>(0, 0),
            r.rounds_difference@ == reservoir::unsampled::<u32>(0, 0),
            r.rounds_a_only@ == reservoir::unsampled::<u32>(0, 0),
            r.rounds_b_only@ == reservoir::unsampled::<u32>(0, 0),
    {
        SketchKindStats {
            intersection: 0,
            difference: 0,
            a_only: 0,
            b_only: 0,
            rounds_intersection: Reservoir::new(0, 0),
            rounds_difference: Reservoir::new(0, 0),
            rounds_a_only: Reservoir::new(0, 0),
            rounds_b_only: Reservoir::new(0, 0),
        }
    }
}

/// Counters that stand at zero.
pub open spec fn no_kind_counters() -> KindCounters {
    KindCounters { intersection: 0, difference: 0, a_only: 0, b_only: 0 }
}

impl SketchKindStats {
    /// The reservoirs are well-formed and have seen equally many rounds.
    pub open spec fn wf(&self) -> bool {
        &&& self.rounds_intersection@.wf()
        &&& self.rounds_difference@.wf()
        &&& self.rounds_a_only@.wf()
        &&& self.rounds_b_only@.wf()
        &&& self.rounds_difference@.seen == self.rounds_intersection@.seen
        &&& self.rounds_a_only@.seen == self.rounds_intersection@.seen
        &&& self.rounds_b_only@.seen == self.rounds_intersection@.seen
    }

    /// The running totals.
    pub open spec fn counters(&self) -> KindCounters {
        KindCounters {
            intersection: self.intersection,
            difference: self.difference,
            a_only: self.a_only,
            b_only: self.b_only,
        }
    }

    /// The totals can grow by `n`, and one more round can be observed.
    pub open spec fn room(&self, n: nat) -> bool {
        &&& self.intersection + n <= u64::MAX
        &&& self.difference + n <= u64::MAX
        &&& self.a_only + n <= u64::MAX
        &&& self.b_only + n <= u64::MAX
        &&& self.rounds_intersection@.seen < u64::MAX
    }

    /// Empty totals, and reservoirs of the given capacity. Each reservoir
    /// has a seed of its own, derived from `seed`.
    pub fn with_reservoir_capacity(cap: u32, seed: u64) -> (r: Self)
        ensures
            r.wf(),
            r.counters() == no_kind_counters(),
            r.rounds_intersection@ == reservoir::unsampled::<u32>(cap as nat, seed ^ 0xA1),
            r.rounds_a_only@ == reservoir::unsampled::<u32>(cap as nat, seed ^ 0xA2),
            r.rounds_b_only@ == reservoir::unsampled::<u32>(cap as nat, seed ^ 0xA3),
            r.rounds_difference@ == reservoir::unsampled::<u32>(cap as nat, seed ^ 0xA4),
    {
        let cap: usize = cap as usize;
        SketchKindStats {
            intersection: 0,
            difference: 0,
            a_only: 0,
            b_only: 0,
            rounds_intersection: Reservoir::new(cap, seed ^ 0xA1),
            rounds_difference: Reservoir::new(cap, seed ^ 0xA4),
            rounds_a_only: Reservoir::new(cap, seed ^ 0xA2),
            rounds_b_only: Reservoir::new(cap, seed ^ 0xA3),
        }
    }

    /// Add the counts of one round.
    pub fn record_round(
        &mut self,
        intersection: usize,
        difference: usize,
        a_only: usize,
        b_only: usize,
    )
        requires
            old(self).wf(),
            old(self).rounds_intersection@.seen < u64::MAX,
            old(self).intersection + intersection <= u64::MAX,
            old(self).difference + difference <= u64::MAX,
            old(self).a_only + a_only <= u64::MAX,
            old(self).b_only + b_only <= u64::MAX,
        ensures
            final(self).wf(),
            final(self).intersection == old(self).intersection + intersection,
            final(self).difference == old(self).difference + difference,
            final(self).a_only == old(self).a_only + a_only,
            final(self).b_only == old(self).b_only + b_only,
            final(self).rounds_intersection@ == reservoir::observed(
                old(self).rounds_intersection@,
                low_bits(intersection as nat),
            ),
            final(self).rounds_difference@ == reservoir::observed(
                old(self).rounds_difference@,
                low_bits(difference as nat),
            ),
            final(self).rounds_a_only@ == reservoir::observed(
                old(self).rounds_a_only@,
                low_bits(a_only as nat),
            ),
            final(self).rounds_b_only@ == reservoir::observed(
                old(self).rounds_b_only@,
                low_bits(b_only as nat),
            ),
    {
        self.intersection = self.intersection + intersection as u64;
        self.difference = self.difference + difference as u64;
        self.a_only = self.a_only + a_only as u64;
        self.b_only = self.b_only + b_only as u64;
        self.rounds_intersection.observe(low32(intersection));
        self.rounds_difference.observe(low32(difference));
        self.rounds_a_only.observe(low32(a_only));
        self.rounds_b_only.observe(low32(b_only));
    }

    /// Move the samples out, leaving reservoirs of capacity 0 behind.
    pub fn take_samples(&mut self) -> (r: KindReservoirSamples)
        requires
            old(self).wf(),
        ensures
            r.intersection@ == old(self).rounds_intersection@.items,
            r.difference@ == old(self).rounds_difference@.items,
            r.a_only@ == old(self).rounds_a_only@.items,
            r.b_only@ == old(self).rounds_b_only@.items,
            r.total_seen == old(self).rounds_intersection@.seen,
            final(self).wf(),
            final(self).counters() == old(self).counters(),
            final(self).rounds_intersection@ == reservoir::unsampled::<u32>(0, 0),
            final(self).rounds_difference@ == reservoir::unsampled::<u32>(0, 0),
            final(self).rounds_a_only@ == reservoir::unsampled::<u32>(0, 0),
            final(self).rounds_b_only@ == reservoir::unsampled::<u32>(0, 0),
    {
        let total_seen: u64 = self.rounds_intersection.seen();
        let intersection: Vec<u32> = take_items(&mut self.rounds_intersection);
        let difference: Vec<u32> = take_items(&mut self.rounds_difference);
        let a_only: Vec<u32> = take_items(&mut self.rounds_a_only);
        let b_only: Vec<u32> = take_items(&mut self.rounds_b_only);
        KindReservoirSamples { intersection, difference, a_only, b_only, total_seen }
    }
}

/// Move a reservoir's samples out, leaving one of capacity 0 behind.
fn take_items(r: &mut Reservoir<u32>) -> (items: Vec<u32>)
    ensures
        items@ == old(r)@.items,
        final(r)@ == reservoir::unsampled::<u32>(0, 0),
        final(r)@.wf(),
{
    let mut taken: Reservoir<u32> = Reservoir::new(0, 0);
    std::mem::swap(r, &mut taken);
    taken.into_inner()
}

impl From<&SketchKindStats> for KindCounters {
    fn from(s: &SketchKindStats) -> (r: Self) {
        KindCounters {
            intersection: s.intersection,
            difference: s.difference,
            a_only: s.a_only,
            b_only: s.b_only,
        }
    }
}

impl vstd::std_specs::convert::FromSpecImpl<&SketchKindStats> for KindCounters {
    open spec fn obeys_from_spec() -> bool {
        true
    }

    open spec fn from_spec(s: &SketchKindStats) -> KindCounters {
        s.counters()
    }
}

/// What a node records about itself.
#[derive(Debug)]
pub struct PerNodeMetrics {
    pub bytes_in_sketch: u64,
    pub bytes_out_sketch: u64,
    pub bytes_in_gossip: u64,
    pub bytes_out_gossip: u64,
    pub bytes_in_inventory: u64,
    pub bytes_out_inventory: u64,
    pub duplicates: u64,
    pub duplicates_bytes: u64,
    pub sketches_sent: u64,
    pub sketches_received: u64,
    pub inventories_sent: u64,
    pub inventories_received: u64,
    pub inv_keys_sent_sum: u64,
    /// 0 until an inventory is sent.
    pub inv_keys_sent_min: u64,
    pub inv_keys_sent_max: u64,
    pub overflowed_chan_updates: u64,
    pub overflowed_node_anns: u64,
    pub overflowed_chan_anns: u64,
    pub chan_updates_stats: SketchKindStats,
    pub node_anns_stats: SketchKindStats,
    pub chan_anns_stats: SketchKindStats,
    /// Overflows since the last flush.
    pub overflow_events: Vec<OverflowEvent>,
    /// First sightings since the last flush.
    pub first_seen_pending: Vec<FirstSeenEntry>,
}

impl Default for PerNodeMetrics {
    fn default() -> (r: Self)
        ensures
            r.wf(),
            r.counters() == no_counters(),
            r.overflow_events@.len() == 0,
            r.first_seen_pending@.len() == 0,
            r.chan_updates_stats.rounds_intersection@ == reservoir::unsampled::<u32>(0, 0),
            r.node_anns_stats.rounds_intersection@ == reservoir::unsampled::<u32>(0, 0),
            r.chan_anns_stats.rounds_intersection@ == reservoir::unsampled::<u32>(0, 0),
    {
        PerNodeMetrics {
            bytes_in_sketch: 0,
            bytes_out_sketch: 0,
            bytes_in_gossip: 0,
            bytes_out_gossip: 0,
            bytes_in_inventory: 0,
            bytes_out_inventory: 0,
            duplicates: 0,
            duplicates_bytes: 0,
            sketches_sent: 0,
            sketches_received: 0,
            inventories_sent: 0,
            inventories_received: 0,
            inv_keys_sent_sum: 0,
            inv_keys_sent_min: 0,
            inv_keys_sent_max: 0,
            overflowed_chan_updates: 0,
            overflowed_node_anns: 0,
            overflowed_chan_anns: 0,
            chan_updates_stats: SketchKindStats::default(),
            node_anns_stats: SketchKindStats::default(),
            chan_anns_stats: SketchKindStats::default(),
            overflow_events: Vec::new(),
            first_seen_pending: Vec::new(),
        }
    }
}

/// Counters that stand at zero.
pub open spec fn no_counters() -> NodeCounters {
    NodeCounters {
        bytes_in_sketch: 0,
        bytes_out_sketch: 0,
        bytes_in_gossip: 0,
        bytes_out_gossip: 0,
        bytes_in_inventory: 0,
        bytes_out_inventory: 0,
        duplicates: 0,
        duplicates_bytes: 0,
        sketches_sent: 0,
        sketches_received: 0,
        inventories_sent: 0,
        inventories_received: 0,
        inv_keys_sent_sum: 0,
        inv_keys_sent_min: 0,
        inv_keys_sent_max: 0,
        overflowed_chan_updates: 0,
        overflowed_node_anns: 0,
        overflowed_chan_anns: 0,
        chan_updates: no_kind_counters(),
        node_anns: no_kind_counters(),
        chan_anns: no_kind_counters(),
    }
}

impl PerNodeMetrics {
    pub open spec fn wf(&self) -> bool {
        &&& self.chan_updates_stats.wf()
        &&& self.node_anns_stats.wf()
        &&& self.chan_anns_stats.wf()
    }

    /// The counters as a snapshot has them.
    pub open spec fn counters(&self) -> NodeCounters {
        NodeCounters {
            bytes_in_sketch: self.bytes_in_sketch,
            bytes_out_sketch: self.bytes_out_sketch,
            bytes_in_gossip: self.bytes_in_gossip,
            bytes_out_gossip: self.bytes_out_gossip,
            bytes_in_inventory: self.bytes_in_inventory,
            bytes_out_inventory: self.bytes_out_inventory,
            duplicates: self.duplicates,
            duplicates_bytes: self.duplicates_bytes,
            sketches_sent: self.sketches_sent,
            sketches_received: self.sketches_received,
            inventories_sent: self.inventories_sent,
            inventories_received: self.inventories_received,
            inv_keys_sent_sum: self.inv_keys_sent_sum,
            inv_keys_sent_min: self.inv_keys_sent_min,
            inv_keys_sent_max: self.inv_keys_sent_max,
            overflowed_chan_updates: self.overflowed_chan_updates,
            overflowed_node_anns: self.overflowed_node_anns,
            overflowed_chan_anns: self.overflowed_chan_anns,
            chan_updates: self.chan_updates_stats.counters(),
            node_anns: self.node_anns_stats.counters(),
            chan_anns: self.chan_anns_stats.counters(),
        }
    }

    /// The reconciliation statistics of one kind.
    pub open spec fn kind_stats(&self, kind: SketchKind) -> SketchKindStats {
        match kind {
            SketchKind::ChanUpdates => self.chan_updates_stats,
            SketchKind::NodeAnns => self.node_anns_stats,
            SketchKind::ChanAnns => self.chan_anns_stats,
        }
    }

    /// Every counter can grow by `n`, and every kind can observe one
    /// more round.
    pub open spec fn room(&self, n: nat) -> bool {
        &&& self.bytes_in_sketch + n <= u64::MAX
        &&& self.bytes_out_sketch + n <= u64::MAX
        &&& self.bytes_in_gossip + n <= u64::MAX
        &&& self.bytes_out_gossip + n <= u64::MAX
        &&& self.bytes_in_inventory + n <= u64::MAX
        &&& self.bytes_out_inventory + n <= u64::MAX
        &&& self.duplicates + n <= u64::MAX
        &&& self.duplicates_bytes + n <= u64::MAX
        &&& self.sketches_sent + n <= u64::MAX
        &&& self.sketches_received + n <= u64::MAX
        &&& self.inventories_sent + n <= u64::MAX
        &&& self.inventories_received + n <= u64::MAX
        &&& self.overflowed_chan_updates + n <= u64::MAX
        &&& self.overflowed_node_anns + n <= u64::MAX
        &&& self.overflowed_chan_anns + n <= u64::MAX
        &&& self.chan_updates_stats.room(n)
        &&& self.node_anns_stats.room(n)
        &&& self.chan_anns_stats.room(n)
    }

    /// Whether every counter can grow by `n`.
    pub fn has_room(&self, n: u64) -> (r: bool)
        ensures
            r == self.room(n as nat),
    {
        let top: u64 = u64::MAX - n;
        self.bytes_in_sketch <= top && self.bytes_out_sketch <= top && self.bytes_in_gossip <= top
            && self.bytes_out_gossip <= top && self.bytes_in_inventory <= top
            && self.bytes_out_inventory <= top && self.duplicates <= top && self.duplicates_bytes
            <= top && self.sketches_sent <= top && self.sketches_received <= top
            && self.inventories_sent <= top && self.inventories_received <= top
            && self.overflowed_chan_updates <= top && self.overflowed_node_anns <= top
            && self.overflowed_chan_anns <= top && kind_has_room(&self.chan_updates_stats, top)
            && kind_has_room(&self.node_anns_stats, top) && kind_has_room(
            &self.chan_anns_stats,
            top,
        )
    }

    /// Metrics of a node that reconciles: each kind samples its rounds
    /// with seeds of its own.
    pub fn with_sketch_reservoirs(reservoir_cap: u32, seed: u64) -> (r: Self)
        ensures
            r.wf(),
            r.counters() == no_counters(),
            r.overflow_events@.len() == 0,
            r.first_seen_pending@.len() == 0,
            forall|kind: SketchKind|
                {
                    let s = (#[trigger] r.kind_stats(kind));
                    let k = reservoir_seed(kind, seed);
                    &&& s.rounds_intersection@ == reservoir::unsampled::<u32>(
                        reservoir_cap as nat,
                        k ^ 0xA1,
                    )
                    &&& s.rounds_a_only@ == reservoir::unsampled::<u32>(
                        reservoir_cap as nat,
                        k ^ 0xA2,
                    )
                    &&& s.rounds_b_only@ == reservoir::unsampled::<u32>(
                        reservoir_cap as nat,
                        k ^ 0xA3,
                    )
                    &&& s.rounds_difference@ == reservoir::unsampled::<u32>(
                        reservoir_cap as nat,
                        k ^ 0xA4,
                    )
                },
    {
        PerNodeMetrics {
            chan_updates_stats: SketchKindStats::with_reservoir_capacity(
                reservoir_cap,
                seed ^ 0x10C0,
            ),
            node_anns_stats: SketchKindStats::with_reservoir_capacity(
                reservoir_cap,
                seed ^ 0x10C1,
            ),
            chan_anns_stats: SketchKindStats::with_reservoir_capacity(
                reservoir_cap,
                seed ^ 0x10C2,
            ),
            overflow_events: Vec::with_capacity(OVERFLOW_BUFFER),
            first_seen_pending: Vec::with_capacity(FIRST_SEEN_FORCE_FLUSH),
            ..PerNodeMetrics::default()
        }
    }

    /// The counters alone, without samples or pending buffers.
    pub fn snapshot_counters(&self) -> (r: NodeCounters)
        ensures
            r == self.counters(),
    {
        NodeCounters {
            bytes_in_sketch: self.bytes_in_sketch,
            bytes_out_sketch: self.bytes_out_sketch,
            bytes_in_gossip: self.bytes_in_gossip,
            bytes_out_gossip: self.bytes_out_gossip,
            bytes_in_inventory: self.bytes_in_inventory,
            bytes_out_inventory: self.bytes_out_inventory,
            duplicates: self.duplicates,
            duplicates_bytes: self.duplicates_bytes,
            sketches_sent: self.sketches_sent,
            sketches_received: self.sketches_received,
            inventories_sent: self.inventories_sent,
            inventories_received: self.inventories_received,
            inv_keys_sent_sum: self.inv_keys_sent_sum,
            inv_keys_sent_min: self.inv_keys_sent_min,
            inv_keys_sent_max: self.inv_keys_sent_max,
            overflowed_chan_updates: self.overflowed_chan_updates,
            overflowed_node_anns: self.overflowed_node_anns,
            overflowed_chan_anns: self.overflowed_chan_anns,
            chan_updates: KindCounters::from(&self.chan_updates_stats),
            node_anns: KindCounters::from(&self.node_anns_stats),
            chan_anns: KindCounters::from(&self.chan_anns_stats),
        }
    }

    /// Move the samples of all three kinds out, leaving the counters and
    /// the pending buffers as they are.
    pub fn take_reservoirs(&mut self) -> (r: (
        KindReservoirSamples,
        KindReservoirSamples,
        KindReservoirSamples,
    ))
        requires
            old(self).wf(),
        ensures
            final(self).wf(),
            final(self).counters() == old(self).counters(),
            final(self).overflow_events == old(self).overflow_events,
            final(self).first_seen_pending == old(self).first_seen_pending,
            samples_of(r.0, old(self).chan_updates_stats),
            samples_of(r.1, old(self).node_anns_stats),
            samples_of(r.2, old(self).chan_anns_stats),
            forall|kind: SketchKind| unsampled(#[trigger] final(self).kind_stats(kind)),
    {
        let chan_updates = self.chan_updates_stats.take_samples();
        let node_anns = self.node_anns_stats.take_samples();
        let chan_anns = self.chan_anns_stats.take_samples();
        (chan_updates, node_anns, chan_anns)
    }

    /// Drain the first sightings.
    pub fn take_first_seen(&mut self) -> (r: Vec<FirstSeenEntry>)
        ensures
            r@ == old(self).first_seen_pending@,
            final(self).first_seen_pending@.len() == 0,
            final(self).counters() == old(self).counters(),
            final(self).overflow_events == old(self).overflow_events,
            old(self).wf() ==> final(self).wf(),
            forall|kind: SketchKind| #[trigger]
                final(self).kind_stats(kind) == old(self).kind_stats(kind),
    {
        let mut taken: Vec<FirstSeenEntry> = Vec::with_capacity(FIRST_SEEN_FORCE_FLUSH);
        std::mem::swap(&mut self.first_seen_pending, &mut taken);
        taken
    }

    /// Drain the overflows.
    pub fn take_overflows(&mut self) -> (r: Vec<OverflowEvent>)
        ensures
            r@ == old(self).overflow_events@,
            final(self).overflow_events@.len() == 0,
            final(self).counters() == old(self).counters(),
            final(self).first_seen_pending == old(self).first_seen_pending,
            old(self).wf() ==> final(self).wf(),
            forall|kind: SketchKind| #[trigger]
                final(self).kind_stats(kind) == old(self).kind_stats(kind),
    {
        let mut taken: Vec<OverflowEvent> = Vec::with_capacity(OVERFLOW_BUFFER);
        std::mem::swap(&mut self.overflow_events, &mut taken);
        taken
    }
}

fn kind_has_room(s: &SketchKindStats, top: u64) -> (r: bool)
    ensures
        r == s.room((u64::MAX - top) as nat),
{
    s.intersection <= top && s.difference <= top && s.a_only <= top && s.b_only <= top
        && s.rounds_intersection.seen() < u64::MAX
}

/// The seed that one kind's reservoirs derive theirs from.
pub open spec fn reservoir_seed(kind: SketchKind, seed: u64) -> u64 {
    match kind {
        SketchKind::ChanUpdates => seed ^ 0x10C0,
        SketchKind::NodeAnns => seed ^ 0x10C1,
        SketchKind::ChanAnns => seed ^ 0x10C2,
    }
}

/// The reservoirs are empty and take no samples.
pub open spec fn unsampled(s: SketchKindStats) -> bool {
    &&& s.rounds_intersection@ == reservoir::unsampled::<u32>(0, 0)
    &&& s.rounds_difference@ == reservoir::unsampled::<u32>(0, 0)
    &&& s.rounds_a_only@ == reservoir::unsampled::<u32>(0, 0)
    &&& s.rounds_b_only@ == reservoir::unsampled::<u32>(0, 0)
}

/// The samples are those of the statistics.
pub open spec fn samples_of(r: KindReservoirSamples, s: SketchKindStats) -> bool {
    &&& r.intersection@ == s.rounds_intersection@.items
    &&& r.difference@ == s.rounds_difference@.items
    &&& r.a_only@ == s.rounds_a_only@.items
    &&& r.b_only@ == s.rounds_b_only@.items
    &&& r.total_seen == s.rounds_intersection@.seen
}

/// How one message spread.
#[derive(Debug)]
pub struct MsgStats {
    pub id: MsgId,
    /// Number of nodes that saw the message.
    pub coverage: usize,
    /// Number of nodes in the simulation.
    pub n_nodes: usize,
    pub origin_ns: u64,
    pub last_ns: u64,
    pub size_bytes: u32,
    /// For each configured percentile the time from the origin to the
    /// sighting that reached it, or `None` where coverage fell short.
    pub percentiles: Vec<Option<u64>>,
}

/// Position among `n` sorted arrival times of a percentile whose rank,
/// counted from 1 and rounded up, is `rank`: one less than the rank, kept
/// between 0 and `n - 1`.
pub fn rank_to_index(rank: i64, n: usize) -> (r: usize)
    requires
        n <= i64::MAX,
    ensures
        n == 0 ==> r == 0,
        n > 0 ==> r == (if rank < 1 {
            0
        } else if rank > n {
            n - 1
        } else {
            rank - 1
        }),
        n > 0 ==> r < n,
        1 <= rank <= n ==> r + 1 == rank,
        rank <= 1 ==> r == 0,
        n > 0 && rank >= n ==> r + 1 == n,
{
    if n == 0 || rank < 1 {
        0
    } else if rank > n as i64 {
        n - 1
    } else {
        (rank - 1) as usize
    }
}

/// What a node reports is what it has counted, each figure under its own
/// name.
pub proof fn report_keeps_what_was_counted(m: &PerNodeMetrics)
    ensures
        ({
            let c = m.counters();
            &&& c.bytes_in_sketch == m.bytes_in_sketch
            &&& c.bytes_out_sketch == m.bytes_out_sketch
            &&& c.bytes_in_gossip == m.bytes_in_gossip
            &&& c.bytes_out_gossip == m.bytes_out_gossip
            &&& c.bytes_in_inventory == m.bytes_in_inventory
            &&& c.bytes_out_inventory == m.bytes_out_inventory
            &&& c.duplicates == m.duplicates
            &&& c.duplicates_bytes == m.duplicates_bytes
            &&& c.sketches_sent == m.sketches_sent
            &&& c.sketches_received == m.sketches_received
            &&& c.inventories_sent == m.inventories_sent
            &&& c.inventories_received == m.inventories_received
            &&& c.inv_keys_sent_sum == m.inv_keys_sent_sum
            &&& c.inv_keys_sent_min == m.inv_keys_sent_min
            &&& c.inv_keys_sent_max == m.inv_keys_sent_max
            &&& c.overflowed_chan_updates == m.overflowed_chan_updates
            &&& c.overflowed_node_anns == m.overflowed_node_anns
            &&& c.overflowed_chan_anns == m.overflowed_chan_anns
            &&& c.chan_updates.intersection == m.chan_updates_stats.intersection
            &&& c.chan_updates.difference == m.chan_updates_stats.difference
            &&& c.chan_updates.a_only == m.chan_updates_stats.a_only
            &&& c.chan_updates.b_only == m.chan_updates_stats.b_only
            &&& c.node_anns.intersection == m.node_anns_stats.intersection
            &&& c.node_anns.difference == m.node_anns_stats.difference
            &&& c.node_anns.a_only == m.node_anns_stats.a_only
            &&& c.node_anns.b_only == m.node_anns_stats.b_only
            &&& c.chan_anns.intersection == m.chan_anns_stats.intersection
            &&& c.chan_anns.difference == m.chan_anns_stats.difference
            &&& c.chan_anns.a_only == m.chan_anns_stats.a_only
            &&& c.chan_anns.b_only == m.chan_anns_stats.b_only
        }),
{
}

/// Every kind has figures and a generator of its own.
pub proof fn kinds_are_sampled_apart(m: &PerNodeMetrics, seed: u64)
    ensures
        m.kind_stats(SketchKind::ChanUpdates) == m.chan_updates_stats,
        m.kind_stats(SketchKind::NodeAnns) == m.node_anns_stats,
        m.kind_stats(SketchKind::ChanAnns) == m.chan_anns_stats,
        reservoir_seed(SketchKind::ChanUpdates, seed) ^ seed == 0x10C0,
        reservoir_seed(SketchKind::NodeAnns, seed) ^ seed == 0x10C1,
        reservoir_seed(SketchKind::ChanAnns, seed) ^ seed == 0x10C2,
{
    assert((seed ^ 0x10C0) ^ seed == 0x10C0 && (seed ^ 0x10C1) ^ seed == 0x10C1 && (seed ^ 0x10C2)
        ^ seed == 0x10C2) by (bit_vector);
}

/// Numbers below 2^32 are sampled as they are, larger ones by their low
/// bits.
pub proof fn small_numbers_are_sampled_exactly(x: nat)
    ensures
        x <= u32::MAX ==> low_bits(x) == x,
        (x - low_bits(x)) % 0x1_0000_0000 == 0,
{
}

/// Samples that are taken out are those that were drawn, each figure its
/// own, with the number of rounds seen.
pub proof fn samples_are_those_drawn(r: KindReservoirSamples, s: SketchKindStats)
    requires
        samples_of(r, s),
        s.wf(),
    ensures
        r.intersection@ == s.rounds_intersection@.items,
        r.difference@ == s.rounds_difference@.items,
        r.a_only@ == s.rounds_a_only@.items,
        r.b_only@ == s.rounds_b_only@.items,
        r.total_seen == s.rounds_intersection@.seen,
        r.total_seen == s.rounds_difference@.seen,
{
}

} // verus!
