//! Set-reconciliation node.
//!
//! The node never forwards a gossip when it arrives. Instead it sends to
//! each peer, once per `stagger` interval at an offset of its own, one
//! [`Sketch`] per kind. The receiver of a sketch compares the two states.
//! If the difference fits the sketch's capacity it replies with what is
//! strictly newer on its own side; if not, it records the overflow and
//! stays silent. With full reconciliation it also asks for what is newer
//! on the sender's side, by an inventory of keys.

use vstd::prelude::*;

use crate::keys;
use crate::message;
use crate::message::{
    Gossip, GossipBatch, GossipKind, InventoryMsg, MsgId, NodeId, NodeIdx, Sketch, SketchKind,
    WireMessage,
};
use crate::metrics;
use crate::metrics::{KindReservoirSamples, OverflowEvent, PerNodeMetrics, SketchKindStats};
use crate::node;
use crate::node::{FlushSummary, PeerTable, Timer, TimerAction};
use crate::reservoir;
use crate::state;
use crate::state::{DiffResult, NodeState, WhichSide};
use crate::time;
use crate::time::SimDuration;

verus! {

/// Bytes that a sketch needs per element of its capacity.
pub const SKETCH_CELL_BYTES: u64 = 8;

/// Delay between the arrival of a sketch or inventory and the answer.
pub const REPLY_DELAY_MS: u64 = 1;

/// A node that reconciles with its peers by sketches.
pub struct SketchNode {
    pub id: NodeId,
    pub idx: NodeIdx,
    pub peers: PeerTable,
    pub stagger: SimDuration,
    /// Offset of each peer's first reconciliation.
    pub per_peer_offsets: Vec<SimDuration>,
    pub cap_chan_updates: u32,
    pub cap_node_anns: u32,
    pub cap_chan_anns: u32,
    /// Whether originated gossips are also sent to every peer at once.
    pub flood_on_originate: bool,
    /// Whether a sketch is answered with an inventory as well.
    pub full_reconciliation: bool,
    pub next_sketch_id: u32,
    pub run_duration: SimDuration,
    pub flush_interval: SimDuration,
    pub flush_phase: SimDuration,
    pub metrics: PerNodeMetrics,
}

/// What remains to be done with a message that has arrived.
#[derive(Debug)]
pub enum FollowUp {
    Nothing,
    /// Answer the sketch after [`REPLY_DELAY_MS`].
    AnswerSketch(Sketch),
    /// Answer the inventory after [`REPLY_DELAY_MS`].
    AnswerInventory,
}

/// What came of the arrival of a message.
#[derive(Debug)]
pub struct Received {
    /// How many gossips were taken up.
    pub fresh_count: usize,
    /// Whether the metrics should be flushed early.
    pub early_flush: bool,
    pub follow_up: FollowUp,
}

/// The answer to a sketch.
#[derive(Debug)]
pub struct SketchReply {
    /// Port of the peer to answer, if it is one.
    pub to: Option<usize>,
    /// What the peer is missing.
    pub batch: Option<GossipBatch>,
    /// What this node is missing.
    pub inventory: Option<InventoryMsg>,
}

/// The samples of a node at the end of a run, kind by kind.
pub type Reservoirs = (KindReservoirSamples, KindReservoirSamples, KindReservoirSamples);

impl SketchNode {
    /// The capacity of the sketches of one kind.
    pub open spec fn capacity(&self, kind: SketchKind) -> u32 {
        match kind {
            SketchKind::ChanUpdates => self.cap_chan_updates,
            SketchKind::NodeAnns => self.cap_node_anns,
            SketchKind::ChanAnns => self.cap_chan_anns,
        }
    }

    pub open spec fn wf(&self) -> bool {
        &&& self.peers.wf()
        &&& self.metrics.wf()
    }

    /// Everything but the metrics is unchanged.
    pub open spec fn same_but_metrics(&self, other: &SketchNode) -> bool {
        *self == (SketchNode { metrics: self.metrics, ..*other })
    }

    pub fn new(
        id: NodeId,
        idx: NodeIdx,
        stagger: SimDuration,
        cap_chan_updates: u32,
        cap_node_anns: u32,
        cap_chan_anns: u32,
        flood_on_originate: bool,
        full_reconciliation: bool,
        reservoir_cap: u32,
        reservoir_seed: u64,
        run_duration: SimDuration,
        flush_interval: SimDuration,
        flush_phase: SimDuration,
    ) -> (r: Self)
        ensures
            r.wf(),
            r.id == id,
            r.idx == idx,
            r.peers@.len() == 0,
            r.stagger == stagger,
            r.per_peer_offsets@.len() == 0,
            r.cap_chan_updates == cap_chan_updates,
            r.cap_node_anns == cap_node_anns,
            r.cap_chan_anns == cap_chan_anns,
            r.flood_on_originate == flood_on_originate,
            r.full_reconciliation == full_reconciliation,
            r.next_sketch_id == 0,
            r.run_duration == run_duration,
            r.flush_interval == flush_interval,
            r.flush_phase == flush_phase,
            r.metrics.counters() == metrics::no_counters(),
            r.metrics.overflow_events@.len() == 0,
            r.metrics.first_seen_pending@.len() == 0,
            forall|kind: SketchKind|
                (#[trigger] r.metrics.kind_stats(kind)).rounds_intersection@
                    == reservoir::unsampled::<u32>(
                    reservoir_cap as nat,
                    metrics::reservoir_seed(kind, reservoir_seed) ^ 0xA1,
                ),
    {
        SketchNode {
            id,
            idx,
            peers: PeerTable::new(),
            stagger,
            per_peer_offsets: Vec::new(),
            cap_chan_updates,
            cap_node_anns,
            cap_chan_anns,
            flood_on_originate,
            full_reconciliation,
            next_sketch_id: 0,
            run_duration,
            flush_interval,
            flush_phase,
            metrics: PerNodeMetrics::with_sketch_reservoirs(reservoir_cap, reservoir_seed),
        }
    }

    /// Add the peer behind the next port.
    pub fn add_peer(&mut self, peer_id: NodeId)
        requires
            old(self).wf(),
        ensures
            final(self).wf(),
            final(self).peers@ == old(self).peers@.push(peer_id),
            *final(self) == (SketchNode { peers: final(self).peers, ..*old(self) }),
    {
        self.peers.push(peer_id);
    }

    /// Set the offsets of the peers' first reconciliations, one per
    /// peer.
    pub fn set_per_peer_offsets(&mut self, offsets: Vec<SimDuration>)
        requires
            offsets@.len() == old(self).peers@.len(),
        ensures
            final(self).per_peer_offsets == offsets,
            *final(self) == (SketchNode { per_peer_offsets: offsets, ..*old(self) }),
    {
        self.per_peer_offsets = offsets;
    }

    /// The interval within which offsets are sampled.
    pub fn stagger_for_offset_sample(&self) -> (r: SimDuration)
        ensures
            r == self.stagger,
    {
        self.stagger
    }

    /// The reconciliation timers, one per peer at its offset.
    pub open spec fn peer_timers(&self) -> Seq<Timer> {
        Seq::new(
            self.per_peer_offsets@.len(),
            |i: int|
                Timer {
                    first: self.per_peer_offsets@[i],
                    every: Some(self.stagger),
                    action: TimerAction::TickPeer(i as usize),
                },
        )
    }

    /// The timers to arm at the start of a run.
    pub fn arm_per_peer_tickers(&self) -> (r: Vec<Timer>)
        ensures
            r@ == self.peer_timers() + node::flush_timers(
                self.flush_phase,
                self.flush_interval,
                self.run_duration,
            ),
    {
        let mut out: Vec<Timer> = Vec::new();
        let n: usize = self.per_peer_offsets.len();
        let ghost timers = self.peer_timers();
        for i in 0..n
            invariant
                n == self.per_peer_offsets@.len(),
                timers == self.peer_timers(),
                out@ == timers.take(i as int),
        {
            out.push(
                Timer {
                    first: self.per_peer_offsets[i],
                    every: Some(self.stagger),
                    action: TimerAction::TickPeer(i),
                },
            );
            assert(out@ =~= timers.take(i + 1));
        }
        assert(timers.take(n as int) =~= timers);
        node::push_flush_timers(
            &mut out,
            self.flush_phase,
            self.flush_interval,
            self.run_duration,
        );
        out
    }

    /// Flush the metrics; at the end of the run also move the samples
    /// out.
    pub fn flush_summary(&mut self, now: SimDuration) -> (r: (FlushSummary, Option<Reservoirs>))
        requires
            old(self).wf(),
        ensures
            final(self).wf(),
            final(self).same_but_metrics(old(self)),
            r.0.idx == old(self).idx,
            r.0.time_ns == time::low_nanos(now),
            r.0.first_seen@ == old(self).metrics.first_seen_pending@,
            r.0.counters == old(self).metrics.counters(),
            r.0.overflows@ == old(self).metrics.overflow_events@,
            final(self).metrics.first_seen_pending@.len() == 0,
            final(self).metrics.overflow_events@.len() == 0,
            final(self).metrics.counters() == old(self).metrics.counters(),
            r.1 is Some <==> time::low_nanos(now) >= time::low_nanos(old(self).run_duration),
            match r.1 {
                Some(s) => {
                    &&& metrics::samples_of(s.0, old(self).metrics.chan_updates_stats)
                    &&& metrics::samples_of(s.1, old(self).metrics.node_anns_stats)
                    &&& metrics::samples_of(s.2, old(self).metrics.chan_anns_stats)
                    &&& forall|kind: SketchKind| metrics::unsampled(
                        #[trigger] final(self).metrics.kind_stats(kind),
                    )
                },
                None => forall|kind: SketchKind| #[trigger]
                    final(self).metrics.kind_stats(kind) == old(self).metrics.kind_stats(kind),
            },
    {
        let time_ns: u64 = time::ns_since_epoch(now);
        let ghost m0 = self.metrics;
        let summary = node::flush_metrics(&mut self.metrics, self.idx, time_ns);
        proof {
            assert(self.metrics.kind_stats(SketchKind::ChanUpdates) == m0.kind_stats(
                SketchKind::ChanUpdates,
            ));
            assert(self.metrics.kind_stats(SketchKind::NodeAnns) == m0.kind_stats(
                SketchKind::NodeAnns,
            ));
            assert(self.metrics.kind_stats(SketchKind::ChanAnns) == m0.kind_stats(
                SketchKind::ChanAnns,
            ));
        }
        let samples = if time_ns >= time::ns_since_epoch(self.run_duration) {
            Some(self.metrics.take_reservoirs())
        } else {
            None
        };
        (summary, samples)
    }

    /// A message arrived. Gossips are absorbed; a sketch or an inventory
    /// is answered later. Nothing is forwarded.
    pub fn recv(&mut self, state: &mut NodeState, wire: &WireMessage, now: SimDuration) -> (r:
        Received)
        requires
            old(self).wf(),
            old(state).wf(),
            node::receivable(*old(state), *wire),
            old(self).metrics.room(wire.bytes() + wire.gossips().len() + 1),
        ensures
            final(self).wf(),
            final(self).same_but_metrics(old(self)),
            node::state_received(*old(state), *final(state), *wire),
            r.fresh_count == node::fresh_of(*old(state), *wire, node::updates_first()).len(),
            r.early_flush == (r.fresh_count > 0
                && final(self).metrics.first_seen_pending@.len()
                >= metrics::FIRST_SEEN_FORCE_FLUSH),
            match *wire {
                WireMessage::Sketch(s) => r.follow_up == FollowUp::AnswerSketch(s),
                WireMessage::Inventory(_) => r.follow_up is AnswerInventory,
                _ => r.follow_up is Nothing,
            },
            final(self).metrics.first_seen_pending@ == old(self).metrics.first_seen_pending@
                + node::sightings(
                node::fresh_of(*old(state), *wire, node::updates_first()),
                time::low_nanos(now),
            ),
            final(self).metrics == (PerNodeMetrics {
                bytes_in_gossip: (old(self).metrics.bytes_in_gossip + (if wire is Single
                    || wire is Batch {
                    wire.bytes()
                } else {
                    0
                })) as u64,
                bytes_in_sketch: (old(self).metrics.bytes_in_sketch + (if wire is Sketch {
                    wire.bytes()
                } else {
                    0
                })) as u64,
                bytes_in_inventory: (old(self).metrics.bytes_in_inventory
                    + (if wire is Inventory {
                    wire.bytes()
                } else {
                    0
                })) as u64,
                inventories_received: (old(self).metrics.inventories_received
                    + (if wire is Inventory {
                    1int
                } else {
                    0
                })) as u64,
                duplicates: (old(self).metrics.duplicates + node::duplicates_of(
                    *old(state),
                    *wire,
                )) as u64,
                duplicates_bytes: (old(self).metrics.duplicates_bytes
                    + node::duplicate_bytes_of(*old(state), *wire)) as u64,
                first_seen_pending: final(self).metrics.first_seen_pending,
                ..old(self).metrics
            }),
    {
        let wire_size: u64 = wire.wire_size();
        let now_ns: u64 = time::ns_since_epoch(now);
        proof {
            node::lemma_gossip_bytes(*wire);
        }
        let follow_up = match wire {
            WireMessage::Single(_) => {
                self.metrics.bytes_in_gossip = self.metrics.bytes_in_gossip + wire_size;
                FollowUp::Nothing
            },
            WireMessage::Batch(_) => {
                self.metrics.bytes_in_gossip = self.metrics.bytes_in_gossip + wire_size;
                FollowUp::Nothing
            },
            WireMessage::Sketch(s) => {
                self.metrics.bytes_in_sketch = self.metrics.bytes_in_sketch + wire_size;
                FollowUp::AnswerSketch(*s)
            },
            WireMessage::Inventory(_) => {
                self.metrics.bytes_in_inventory = self.metrics.bytes_in_inventory + wire_size;
                self.metrics.inventories_received = self.metrics.inventories_received + 1;
                FollowUp::AnswerInventory
            },
        };
        let fresh: Vec<Gossip> = node::absorb_wire(state, wire, false, true, &mut self.metrics);
        node::record_first_seen(&mut self.metrics, fresh.as_slice(), now_ns);
        let fresh_count: usize = fresh.len();
        let early_flush: bool = fresh_count > 0 && node::wants_early_flush(&self.metrics);
        Received { fresh_count, early_flush, follow_up }
    }

    /// Stamp and store an originated message. Returns what is to be sent
    /// to every peer at once, where the node floods what it originates;
    /// `first_seen` says whether the message was stored at all.
    pub fn originate(&mut self, state: &mut NodeState, msg: Gossip, now: SimDuration) -> (r: (
        bool,
        Option<WireMessage>,
    ))
        requires
            old(self).wf(),
            old(state).wf(),
            msg.kind == GossipKind::NodeAnnouncement || msg.is_keyed(),
            old(state).universe(SketchKind::of_gossip(msg.kind)).contains(
                state::origin_key(msg, old(self).id),
            ),
        ensures
            final(self).wf(),
            final(self).same_but_metrics(old(self)),
            r.0 == !(msg.kind == GossipKind::ChannelAnnouncement && old(state).held(
                SketchKind::ChanAnns,
            ).contains_key(msg.scid->0)),
            r.0 ==> state::state_with(
                *old(state),
                *final(state),
                SketchKind::of_gossip(msg.kind),
                state::origin_key(msg, old(self).id),
                if msg.kind == GossipKind::ChannelAnnouncement {
                    0
                } else {
                    state::stamp_of(now)
                },
            ),
            !r.0 ==> final(state).wf() && forall|k: SketchKind| #[trigger]
                final(state).held(k) == old(state).held(k),
            final(state).idx == old(state).idx,
            final(state).shares_keys(old(state)),
            r.1 == (if r.0 && old(self).flood_on_originate && old(self).peers@.len() > 0 {
                Some(WireMessage::Single(state::stamped(msg, old(self).id, now)))
            } else {
                None
            }),
            final(self).metrics.first_seen_pending@ == old(self).metrics.first_seen_pending@ + (
            if r.0 {
                node::sightings(
                    seq![state::stamped(msg, old(self).id, now)],
                    time::low_nanos(now),
                )
            } else {
                Seq::empty()
            }),
            final(self).metrics == (PerNodeMetrics {
                bytes_out_gossip: if r.1 is Some {
                    flooded_bytes(
                        old(self).metrics.bytes_out_gossip,
                        msg.size_bytes,
                        old(self).peers@.len(),
                    )
                } else {
                    old(self).metrics.bytes_out_gossip
                },
                first_seen_pending: final(self).metrics.first_seen_pending,
                ..old(self).metrics
            }),
    {
        let mut msg: Gossip = msg;
        if !state::originate_stamp(state, self.id, &mut msg, now) {
            assert(self.metrics.first_seen_pending@ =~= old(
                self,
            ).metrics.first_seen_pending@ + Seq::empty());
            return (false, None);
        }
        let mut one: Vec<Gossip> = Vec::new();
        one.push(msg);
        assert(one@ =~= seq![msg]);
        node::record_first_seen(&mut self.metrics, one.as_slice(), time::ns_since_epoch(now));
        let n_peers: usize = self.peers.len();
        if self.flood_on_originate && n_peers > 0 {
            let per_peer: u64 = msg.size_bytes as u64;
            let bytes: u64 = match per_peer.checked_mul(n_peers as u64) {
                Some(b) => b,
                None => u64::MAX,
            };
            self.metrics.bytes_out_gossip = self.metrics.bytes_out_gossip.saturating_add(bytes);
            (true, Some(WireMessage::Single(msg)))
        } else {
            (true, None)
        }
    }
}

/// A counter of bytes after `size` bytes went to each of `peers` peers,
/// held at its maximum.
pub open spec fn flooded_bytes(count: u64, size: u16, peers: nat) -> u64 {
    let sum = count + (if size * peers > u64::MAX {
        u64::MAX as int
    } else {
        size * peers
    });
    if sum > u64::MAX {
        u64::MAX
    } else {
        sum as u64
    }
}

/// The wire size of a sketch, in the 16 bits that it is given.
pub open spec fn sketch_bytes(capacity: u32) -> u16 {
    ((capacity * SKETCH_CELL_BYTES) % 0x1_0000) as u16
}

fn sketch_size(capacity: u32) -> (r: u16)
    ensures
        r == sketch_bytes(capacity),
{
    let bytes: u64 = capacity as u64 * SKETCH_CELL_BYTES;
    assert(bytes as u16 == bytes % 0x1_0000) by (bit_vector);
    #[verifier::truncate]
    (bytes as u16)
}

/// What a node tells a peer that sent it a sketch: the messages strictly
/// newer at the node.
pub open spec fn reply_to(own: NodeState, peer: NodeState, kind: SketchKind) -> Seq<Gossip> {
    own.gossips_at(kind, state::newer_order(own.idx < peer.idx, own.slots(kind), peer.slots(kind)))
}

/// The messages strictly newer at the peer.
pub open spec fn newer_at_peer(own: NodeState, peer: NodeState, kind: SketchKind) -> Seq<Gossip> {
    peer.gossips_at(
        kind,
        state::newer_order(peer.idx <= own.idx, peer.slots(kind), own.slots(kind)),
    )
}

/// The keys that a node asks a peer for.
pub open spec fn wanted_from(own: NodeState, peer: NodeState, kind: SketchKind) -> Seq<u64> {
    newer_at_peer(own, peer, kind).map_values(|g: Gossip| g.key())
}

/// The difference exceeds what the sketch can resolve.
pub open spec fn overflows(own: NodeState, peer: NodeState, sketch: Sketch) -> bool {
    state::diff_size(peer.slots(sketch.kind), own.slots(sketch.kind)) > sketch.capacity
}

/// `new_stats` is `old_stats` with the counts of one more round.
pub open spec fn round_added(
    old_stats: SketchKindStats,
    new_stats: SketchKindStats,
    own: NodeState,
    peer: NodeState,
    kind: SketchKind,
) -> bool {
    let sp = peer.slots(kind);
    let so = own.slots(kind);
    let same = state::same_in(sp, so).len();
    let diff = state::diff_size(sp, so);
    let a_only = state::only_in(sp, so).len();
    let b_only = state::only_in(so, sp).len();
    &&& new_stats.wf()
    &&& new_stats.intersection == old_stats.intersection + same
    &&& new_stats.difference == old_stats.difference + diff
    &&& new_stats.a_only == old_stats.a_only + a_only
    &&& new_stats.b_only == old_stats.b_only + b_only
    &&& new_stats.rounds_intersection@ == reservoir::observed(
        old_stats.rounds_intersection@,
        metrics::low_bits(same),
    )
    &&& new_stats.rounds_difference@ == reservoir::observed(
        old_stats.rounds_difference@,
        metrics::low_bits(diff),
    )
    &&& new_stats.rounds_a_only@ == reservoir::observed(
        old_stats.rounds_a_only@,
        metrics::low_bits(a_only),
    )
    &&& new_stats.rounds_b_only@ == reservoir::observed(
        old_stats.rounds_b_only@,
        metrics::low_bits(b_only),
    )
}

/// The most that one sketch can add to any counter.
pub open spec fn sketch_cost(own: NodeState, peer: NodeState, kind: SketchKind) -> nat {
    message::total_size(reply_to(own, peer, kind)) + 8 * newer_at_peer(own, peer, kind).len() + 2
        * own.keys(kind).len() + 1
}

/// The smaller of the counts of keys that inventories were sent with, 0
/// standing for none so far.
pub open spec fn smaller_count(min: u64, n: nat) -> u64 {
    if min == 0 || n < min {
        n as u64
    } else {
        min
    }
}

/// Counters after an inventory of `n` keys was sent.
pub open spec fn inventory_sent(m: PerNodeMetrics, n: nat) -> PerNodeMetrics {
    PerNodeMetrics {
        bytes_out_inventory: (m.bytes_out_inventory + n * message::INVENTORY_KEY_BYTES) as u64,
        inventories_sent: (m.inventories_sent + 1) as u64,
        inv_keys_sent_sum: if m.inv_keys_sent_sum + n > u64::MAX {
            u64::MAX
        } else {
            (m.inv_keys_sent_sum + n) as u64
        },
        inv_keys_sent_min: smaller_count(m.inv_keys_sent_min, n),
        inv_keys_sent_max: if n > m.inv_keys_sent_max {
            n as u64
        } else {
            m.inv_keys_sent_max
        },
        ..m
    }
}

/// Counters after an overflow of one kind was recorded.
pub open spec fn overflow_recorded(m: PerNodeMetrics, kind: SketchKind) -> PerNodeMetrics {
    match kind {
        SketchKind::ChanUpdates => PerNodeMetrics {
            overflowed_chan_updates: (m.overflowed_chan_updates + 1) as u64,
            ..m
        },
        SketchKind::NodeAnns => PerNodeMetrics {
            overflowed_node_anns: (m.overflowed_node_anns + 1) as u64,
            ..m
        },
        SketchKind::ChanAnns => PerNodeMetrics {
            overflowed_chan_anns: (m.overflowed_chan_anns + 1) as u64,
            ..m
        },
    }
}

/// Counters after a sketch of one kind was received, with the kind's
/// statistics as given.
pub open spec fn sketch_counted(
    m: PerNodeMetrics,
    kind: SketchKind,
    stats: SketchKindStats,
) -> PerNodeMetrics {
    let counted = PerNodeMetrics { sketches_received: (m.sketches_received + 1) as u64, ..m };
    match kind {
        SketchKind::ChanUpdates => PerNodeMetrics { chan_updates_stats: stats, ..counted },
        SketchKind::NodeAnns => PerNodeMetrics { node_anns_stats: stats, ..counted },
        SketchKind::ChanAnns => PerNodeMetrics { chan_anns_stats: stats, ..counted },
    }
}

/// Counts a sketch that was received, and records what the two sides
/// differ by.
fn count_round(
    m: &mut PerNodeMetrics,
    own: &NodeState,
    peer: &NodeState,
    kind: SketchKind,
    diff: &DiffResult,
)
    requires
        old(m).wf(),
        old(m).room(2 * own.keys(kind).len() + 1),
        own.slots(kind).len() == own.keys(kind).len(),
        peer.slots(kind).len() == own.keys(kind).len(),
        diff.a_only_count == state::only_in(peer.slots(kind), own.slots(kind)).len(),
        diff.b_only_count == state::only_in(own.slots(kind), peer.slots(kind)).len(),
        diff.intersection == state::same_in(peer.slots(kind), own.slots(kind)).len(),
        diff.difference == state::diff_size(peer.slots(kind), own.slots(kind)),
    ensures
        final(m).wf(),
        *final(m) == sketch_counted(*old(m), kind, final(m).kind_stats(kind)),
        round_added(old(m).kind_stats(kind), final(m).kind_stats(kind), *own, *peer, kind),
{
    proof {
        state::lemma_slot_counts(peer.slots(kind), own.slots(kind));
    }
    m.sketches_received = m.sketches_received + 1;
    let (same, apart): (usize, usize) = (diff.intersection, diff.difference);
    let (a_only, b_only): (usize, usize) = (diff.a_only_count, diff.b_only_count);
    match kind {
        SketchKind::ChanUpdates => m.chan_updates_stats.record_round(same, apart, a_only, b_only),
        SketchKind::NodeAnns => m.node_anns_stats.record_round(same, apart, a_only, b_only),
        SketchKind::ChanAnns => m.chan_anns_stats.record_round(same, apart, a_only, b_only),
    }
}

/// Records that a difference exceeded what a sketch can resolve.
fn count_overflow(m: &mut PerNodeMetrics, event: OverflowEvent)
    requires
        old(m).wf(),
        old(m).overflowed_chan_updates < u64::MAX,
        old(m).overflowed_node_anns < u64::MAX,
        old(m).overflowed_chan_anns < u64::MAX,
    ensures
        final(m).wf(),
        final(m).overflow_events@ == old(m).overflow_events@.push(event),
        *final(m) == (PerNodeMetrics {
            overflow_events: final(m).overflow_events,
            ..overflow_recorded(*old(m), event.kind)
        }),
{
    match event.kind {
        SketchKind::ChanUpdates => {
            m.overflowed_chan_updates = m.overflowed_chan_updates + 1;
        },
        SketchKind::NodeAnns => {
            m.overflowed_node_anns = m.overflowed_node_anns + 1;
        },
        SketchKind::ChanAnns => {
            m.overflowed_chan_anns = m.overflowed_chan_anns + 1;
        },
    }
    m.overflow_events.push(event);
}

/// Counts an inventory that is sent.
fn count_inventory(m: &mut PerNodeMetrics, inv: &InventoryMsg)
    requires
        old(m).wf(),
        old(m).bytes_out_inventory + inv.size_bytes <= u64::MAX,
        old(m).inventories_sent < u64::MAX,
        inv.size_bytes == inv.keys@.len() * message::INVENTORY_KEY_BYTES,
    ensures
        final(m).wf(),
        *final(m) == inventory_sent(*old(m), inv.keys@.len()),
{
    let n: u64 = inv.keys.len() as u64;
    m.bytes_out_inventory = m.bytes_out_inventory + inv.size_bytes;
    m.inventories_sent = m.inventories_sent + 1;
    m.inv_keys_sent_sum = m.inv_keys_sent_sum.saturating_add(n);
    if m.inv_keys_sent_min == 0 || n < m.inv_keys_sent_min {
        m.inv_keys_sent_min = n;
    }
    if n > m.inv_keys_sent_max {
        m.inv_keys_sent_max = n;
    }
}

/// The messages handed back by a difference are of the kind compared,
/// keyed, and bounded in number by the keys.
proof fn lemma_newer_messages(
    a: &NodeState,
    b: &NodeState,
    kind: SketchKind,
    walked_first: bool,
)
    requires
        a.wf(),
        b.wf(),
        a.shares_keys(b),
    ensures
        ({
            let msgs = a.gossips_at(
                kind,
                state::newer_order(walked_first, a.slots(kind), b.slots(kind)),
            );
            &&& forall|i: int|
                0 <= i < msgs.len() ==> (#[trigger] msgs[i]).kind == kind.gossip_kind()
                    && msgs[i].is_keyed()
            &&& msgs.len() <= a.keys(kind).len()
        }),
{
    let at = state::newer_order(walked_first, a.slots(kind), b.slots(kind));
    state::newer_messages_are_exact(a, b, kind, walked_first);
    a.lemma_held(kind);
    b.lemma_held(kind);
    let msgs = a.gossips_at(kind, at);
    assert forall|i: int| 0 <= i < msgs.len() implies (#[trigger] msgs[i]).kind
        == kind.gossip_kind() && msgs[i].is_keyed() by {
        let k = a.keys(kind)[at[i]];
        let ts = a.held(kind)[k];
        state::synthesised_matches_entry(kind, k, ts, a.size(kind, at[i], ts));
    }
    state::lemma_newer_order_len(a.slots(kind), b.slots(kind), walked_first);
}

impl SketchNode {
    /// The three sketches that the node sends when its `sent`-th to
    /// `sent + 2`-th sketches are due.
    pub open spec fn sketches_from(&self, sent: u32) -> Seq<Sketch> {
        Seq::new(
            3,
            |i: int|
                {
                    let kind = if i == 0 {
                        SketchKind::ChanUpdates
                    } else if i == 1 {
                        SketchKind::NodeAnns
                    } else {
                        SketchKind::ChanAnns
                    };
                    Sketch {
                        id: (sent + 1 + i) as u64,
                        from: self.id,
                        kind,
                        capacity: self.capacity(kind),
                        size_bytes: sketch_bytes(self.capacity(kind)),
                    }
                },
        )
    }

    /// The sketches, one per kind, to send to the peer whose timer fired.
    pub fn tick_for_peer(&mut self) -> (r: Vec<Sketch>)
        requires
            old(self).wf(),
            old(self).next_sketch_id + 3 <= u32::MAX,
            old(self).metrics.room(3 * 0xffff),
        ensures
            final(self).wf(),
            r@ == old(self).sketches_from(old(self).next_sketch_id),
            *final(self) == (SketchNode {
                next_sketch_id: (old(self).next_sketch_id + 3) as u32,
                metrics: final(self).metrics,
                ..*old(self)
            }),
            final(self).metrics == (PerNodeMetrics {
                sketches_sent: (old(self).metrics.sketches_sent + 3) as u64,
                bytes_out_sketch: (old(self).metrics.bytes_out_sketch + sketch_bytes(
                    old(self).cap_chan_updates,
                ) + sketch_bytes(old(self).cap_node_anns) + sketch_bytes(
                    old(self).cap_chan_anns,
                )) as u64,
                ..old(self).metrics
            }),
    {
        let mut out: Vec<Sketch> = Vec::new();
        let first = self.next_sketch(SketchKind::ChanUpdates, self.cap_chan_updates);
        out.push(first);
        let second = self.next_sketch(SketchKind::NodeAnns, self.cap_node_anns);
        out.push(second);
        let third = self.next_sketch(SketchKind::ChanAnns, self.cap_chan_anns);
        out.push(third);
        assert(out@ =~= old(self).sketches_from(old(self).next_sketch_id));
        out
    }

    /// Make and count one sketch.
    fn next_sketch(&mut self, kind: SketchKind, capacity: u32) -> (r: Sketch)
        requires
            old(self).next_sketch_id < u32::MAX,
            old(self).metrics.sketches_sent < u64::MAX,
            old(self).metrics.bytes_out_sketch + 0xffff <= u64::MAX,
        ensures
            r == (Sketch {
                id: (old(self).next_sketch_id + 1) as u64,
                from: old(self).id,
                kind,
                capacity,
                size_bytes: sketch_bytes(capacity),
            }),
            *final(self) == (SketchNode {
                next_sketch_id: (old(self).next_sketch_id + 1) as u32,
                metrics: PerNodeMetrics {
                    sketches_sent: (old(self).metrics.sketches_sent + 1) as u64,
                    bytes_out_sketch: (old(self).metrics.bytes_out_sketch + sketch_bytes(
                        capacity,
                    )) as u64,
                    ..old(self).metrics
                },
                ..*old(self)
            }),
    {
        self.next_sketch_id = self.next_sketch_id + 1;
        let size_bytes: u16 = sketch_size(capacity);
        self.metrics.sketches_sent = self.metrics.sketches_sent + 1;
        self.metrics.bytes_out_sketch = self.metrics.bytes_out_sketch + size_bytes as u64;
        Sketch { id: self.next_sketch_id as MsgId, from: self.id, kind, capacity, size_bytes }
    }

    /// The port of a peer.
    pub fn peer_local(&self, peer: NodeId) -> (r: Option<usize>)
        requires
            self.wf(),
        ensures
            match r {
                Some(i) => node::last_position(self.peers@, peer) == Some(i as int),
                None => node::last_position(self.peers@, peer) is None,
            },
    {
        self.peers.find(peer)
    }

    /// Answer a sketch, given the state of the peer that sent it. A
    /// sketch from a node that is no peer goes unanswered and uncounted.
    /// Otherwise the round is recorded; on overflow nothing is sent, and
    /// within capacity the peer gets what is strictly newer here and,
    /// with full reconciliation, is asked for what is newer there.
    #[verifier::spinoff_prover]
    pub fn handle_sketch(
        &mut self,
        own: &NodeState,
        peer: &NodeState,
        sketch: Sketch,
        now: SimDuration,
    ) -> (r: SketchReply)
        requires
            old(self).wf(),
            own.wf(),
            peer.wf(),
            peer.shares_keys(own),
            2 * own.keys(sketch.kind).len() <= usize::MAX,
            old(self).metrics.room(sketch_cost(*own, *peer, sketch.kind)),
        ensures
            final(self).wf(),
            final(self).same_but_metrics(old(self)),
            match r.to {
                Some(i) => node::last_position(old(self).peers@, sketch.from) == Some(i as int),
                None => node::last_position(old(self).peers@, sketch.from) is None,
            },
            r.to is None ==> r.batch is None && r.inventory is None && final(self).metrics == old(
                self,
            ).metrics,
            r.to is Some ==> round_added(
                old(self).metrics.kind_stats(sketch.kind),
                final(self).metrics.kind_stats(sketch.kind),
                *own,
                *peer,
                sketch.kind,
            ),
            r.to is Some && overflows(*own, *peer, sketch) ==> {
                let diff = state::diff_size(peer.slots(sketch.kind), own.slots(sketch.kind));
                &&& r.batch is None
                &&& r.inventory is None
                &&& final(self).metrics.overflow_events@ == old(
                    self,
                ).metrics.overflow_events@.push(
                    OverflowEvent {
                        time_ns: time::low_nanos(now),
                        receiver_idx: old(self).idx,
                        peer_id: sketch.from,
                        kind: sketch.kind,
                        amount: metrics::low_bits((diff - sketch.capacity) as nat),
                        difference: metrics::low_bits(diff),
                    },
                )
                &&& final(self).metrics == (PerNodeMetrics {
                    overflow_events: final(self).metrics.overflow_events,
                    ..overflow_recorded(
                        sketch_counted(
                            old(self).metrics,
                            sketch.kind,
                            final(self).metrics.kind_stats(sketch.kind),
                        ),
                        sketch.kind,
                    )
                })
            },
            r.to is Some && !overflows(*own, *peer, sketch) ==> {
                let reply = reply_to(*own, *peer, sketch.kind);
                let wanted = wanted_from(*own, *peer, sketch.kind);
                let asks = old(self).full_reconciliation && wanted.len() > 0;
                let counted = PerNodeMetrics {
                    bytes_out_gossip: (old(self).metrics.bytes_out_gossip + message::total_size(
                        reply,
                    )) as u64,
                    ..sketch_counted(
                        old(self).metrics,
                        sketch.kind,
                        final(self).metrics.kind_stats(sketch.kind),
                    )
                };
                &&& match r.batch {
                    Some(b) => reply.len() > 0 && b.slot(sketch.kind.gossip_kind()) == reply
                        && b.gossips() == reply && b.partitioned(),
                    None => reply.len() == 0,
                }
                &&& match r.inventory {
                    Some(inv) => asks && inv.from == old(self).id && inv.kind
                        == sketch.kind.gossip_kind() && inv.keys@ == wanted && inv.size_bytes
                        == wanted.len() * message::INVENTORY_KEY_BYTES,
                    None => !asks,
                }
                &&& final(self).metrics == if asks {
                    inventory_sent(counted, wanted.len())
                } else {
                    counted
                }
            },
    {
        let kind = sketch.kind;
        let to: Option<usize> = self.peers.find(sketch.from);
        if to.is_none() {
            return SketchReply { to, batch: None, inventory: None };
        }
        let which = if self.full_reconciliation {
            WhichSide::Both
        } else {
            WhichSide::B
        };
        proof {
            own.lemma_held(kind);
            peer.lemma_held(kind);
            lemma_newer_messages(own, peer, kind, own.idx < peer.idx);
            lemma_newer_messages(peer, own, kind, peer.idx <= own.idx);
            state::lemma_slot_counts(peer.slots(kind), own.slots(kind));
        }
        let diff = state::compute_diff(peer, own, kind, which);
        let difference: usize = diff.difference;
        let capacity: u64 = sketch.capacity as u64;
        let overflow: bool = difference as u64 > capacity;
        count_round(&mut self.metrics, own, peer, kind, &diff);
        if overflow {
            let over: usize = difference - capacity as usize;
            let event = OverflowEvent {
                time_ns: time::ns_since_epoch(now),
                receiver_idx: self.idx,
                peer_id: sketch.from,
                kind,
                amount: metrics::low32(over),
                difference: metrics::low32(difference),
            };
            count_overflow(&mut self.metrics, event);
            return SketchReply { to, batch: None, inventory: None };
        }
        let batch = if diff.b_newer.is_empty() {
            assert(message::total_size(reply_to(*own, *peer, kind)) == 0);
            None
        } else {
            let bytes: u64 = message::sum_sizes(diff.b_newer.as_slice());
            self.metrics.bytes_out_gossip = self.metrics.bytes_out_gossip + bytes;
            Some(GossipBatch::from_mixed_for_kind(diff.b_newer, kind.to_gossip()))
        };
        let inventory = if self.full_reconciliation && !diff.a_newer.is_empty() {
            let wanted: Vec<u64> = state_keys(diff.a_newer.as_slice());
            let inv = InventoryMsg::new(self.id, kind.to_gossip(), wanted);
            count_inventory(&mut self.metrics, &inv);
            Some(inv)
        } else {
            None
        };
        SketchReply { to, batch, inventory }
    }
}

/// The keys of a list of messages.
fn state_keys(gs: &[Gossip]) -> (r: Vec<u64>)
    requires
        forall|i: int| 0 <= i < gs@.len() ==> (#[trigger] gs@[i]).is_keyed(),
    ensures
        r@ == gs@.map_values(|g: Gossip| g.key()),
{
    let mut out: Vec<u64> = Vec::new();
    let n: usize = gs.len();
    for i in 0..n
        invariant
            n == gs@.len(),
            forall|j: int| 0 <= j < gs@.len() ==> (#[trigger] gs@[j]).is_keyed(),
            out@ == gs@.take(i as int).map_values(|g: Gossip| g.key()),
    {
        assert(gs@.take(i + 1) =~= gs@.take(i as int).push(gs@[i as int]));
        assert(gs@[i as int].is_keyed());
        out.push(gs[i].state_key());
        assert(out@ =~= gs@.take(i + 1).map_values(|g: Gossip| g.key()));
    }
    assert(gs@.take(n as int) =~= gs@);
    out
}

/// The message that a node makes from its entry under `key`.
pub open spec fn entry_message(own: NodeState, kind: SketchKind, key: u64) -> Gossip {
    let ts = own.held(kind)[key];
    state::synthesised(kind, key, ts, own.size(kind, own.position(kind, key), ts))
}

/// The messages behind those of the keys that are held, in order.
pub open spec fn entry_messages(own: NodeState, kind: SketchKind, keys: Seq<u64>) -> Seq<Gossip>
    decreases keys.len(),
{
    if keys.len() == 0 {
        Seq::empty()
    } else if own.held(kind).contains_key(keys.last()) {
        entry_messages(own, kind, keys.drop_last()).push(entry_message(own, kind, keys.last()))
    } else {
        entry_messages(own, kind, keys.drop_last())
    }
}

/// The message behind one key, if it is held.
fn lookup(own: &NodeState, kind: SketchKind, key: u64) -> (r: Option<Gossip>)
    requires
        own.wf(),
        own.universe(kind).contains(key),
    ensures
        r == (if own.held(kind).contains_key(key) {
            Some(entry_message(*own, kind, key))
        } else {
            None
        }),
{
    match kind {
        SketchKind::ChanUpdates => match own.chan_updates.get(key) {
            Some((ts, size)) => {
                let (scid, direction) = keys::unpack_cu_key(key);
                Some(state::synth_chan_update(scid, direction, ts, size))
            },
            None => None,
        },
        SketchKind::NodeAnns => match own.node_anns.get(key) {
            Some((ts, size)) => Some(state::synth_node_ann(key, ts, size)),
            None => None,
        },
        SketchKind::ChanAnns => match own.chan_anns.get(key) {
            Some(size) => Some(state::synth_chan_ann(key, size)),
            None => None,
        },
    }
}

impl SketchNode {
    /// Answer an inventory with the messages behind the keys that are
    /// held; keys that are not held are passed over. An inventory from a
    /// node that is no peer goes unanswered.
    pub fn handle_inventory(&mut self, own: &NodeState, inv: &InventoryMsg) -> (r: (
        Option<usize>,
        Option<GossipBatch>,
    ))
        requires
            old(self).wf(),
            own.wf(),
            forall|i: int|
                0 <= i < inv.keys@.len() ==> own.universe(
                    SketchKind::of_gossip(inv.kind),
                ).contains(#[trigger] inv.keys@[i]),
            old(self).metrics.bytes_out_gossip + message::total_size(
                entry_messages(*own, SketchKind::of_gossip(inv.kind), inv.keys@),
            ) <= u64::MAX,
        ensures
            final(self).wf(),
            final(self).same_but_metrics(old(self)),
            match r.0 {
                Some(i) => node::last_position(old(self).peers@, inv.from) == Some(i as int),
                None => node::last_position(old(self).peers@, inv.from) is None,
            },
            ({
                let answer = if r.0 is Some {
                    entry_messages(*own, SketchKind::of_gossip(inv.kind), inv.keys@)
                } else {
                    Seq::empty()
                };
                &&& match r.1 {
                    Some(b) => answer.len() > 0 && b.slot(inv.kind) == answer && b.gossips()
                        == answer && b.partitioned(),
                    None => answer.len() == 0,
                }
                &&& final(self).metrics == (PerNodeMetrics {
                    bytes_out_gossip: (old(self).metrics.bytes_out_gossip + message::total_size(
                        answer,
                    )) as u64,
                    ..old(self).metrics
                })
            }),
    {
        let to: Option<usize> = self.peers.find(inv.from);
        if to.is_none() {
            return (None, None);
        }
        let kind = SketchKind::from_gossip(inv.kind);
        let mut gossips: Vec<Gossip> = Vec::new();
        let n: usize = inv.keys.len();
        assert(inv.keys@.take(0) =~= Seq::<u64>::empty());
        for i in 0..n
            invariant
                n == inv.keys@.len(),
                own.wf(),
                kind == SketchKind::of_gossip(inv.kind),
                forall|j: int|
                    0 <= j < inv.keys@.len() ==> own.universe(kind).contains(
                        #[trigger] inv.keys@[j],
                    ),
                gossips@ == entry_messages(*own, kind, inv.keys@.take(i as int)),
                forall|j: int|
                    0 <= j < gossips@.len() ==> (#[trigger] gossips@[j]).kind == inv.kind,
        {
            assert(inv.keys@.take(i + 1).drop_last() =~= inv.keys@.take(i as int));
            let key: u64 = inv.keys[i];
            match lookup(own, kind, key) {
                Some(g) => {
                    proof {
                        let ts = own.held(kind)[key];
                        state::synthesised_matches_entry(
                            kind,
                            key,
                            ts,
                            own.size(kind, own.position(kind, key), ts),
                        );
                    }
                    gossips.push(g);
                },
                None => {},
            }
        }
        assert(inv.keys@.take(n as int) =~= inv.keys@);
        if gossips.is_empty() {
            return (to, None);
        }
        let bytes: u64 = message::sum_sizes(gossips.as_slice());
        self.metrics.bytes_out_gossip = self.metrics.bytes_out_gossip + bytes;
        (to, Some(GossipBatch::from_mixed_for_kind(gossips, inv.kind)))
    }
}

// ---------------------------------------------------------------------
// Laws
// ---------------------------------------------------------------------

/// What a node sends in answer to a sketch brings the peer up to date:
/// once the peer has taken it in, it holds for every key the newer of
/// what the two held.
pub proof fn sketch_reply_brings_peer_up_to_date(
    own: &NodeState,
    peer: &NodeState,
    kind: SketchKind,
)
    requires
        own.wf(),
        peer.wf(),
        own.shares_keys(peer),
    ensures
        node::absorbed(kind, peer.held(kind), reply_to(*own, *peer, kind)).held == node::merged(
            own.held(kind),
            peer.held(kind),
        ),
{
    node::reply_brings_peer_up_to_date(own, peer, kind, own.idx < peer.idx);
}

/// The answer to an inventory is what it asked for: a peer that still
/// holds what it held when its sketch was compared answers with exactly
/// the messages that were newer there, and taking them in brings the
/// asking node up to date.
pub proof fn inventory_answer_is_what_was_newer(
    own: &NodeState,
    peer: &NodeState,
    kind: SketchKind,
)
    requires
        own.wf(),
        peer.wf(),
        own.shares_keys(peer),
    ensures
        entry_messages(*peer, kind, wanted_from(*own, *peer, kind)) == newer_at_peer(
            *own,
            *peer,
            kind,
        ),
        node::absorbed(
            kind,
            own.held(kind),
            entry_messages(*peer, kind, wanted_from(*own, *peer, kind)),
        ).held == node::merged(peer.held(kind), own.held(kind)),
{
    let first = peer.idx <= own.idx;
    let at = state::newer_order(first, peer.slots(kind), own.slots(kind));
    let msgs = newer_at_peer(*own, *peer, kind);
    state::newer_messages_are_exact(peer, own, kind, first);
    peer.lemma_held(kind);
    let wanted = wanted_from(*own, *peer, kind);
    assert forall|j: int| 0 <= j < msgs.len() implies {
        &&& peer.held(kind).contains_key(#[trigger] wanted[j])
        &&& msgs[j] == entry_message(*peer, kind, wanted[j])
    } by {
        let k = peer.keys(kind)[at[j]];
        let ts = peer.held(kind)[k];
        assert(peer.held(kind).contains_key(k));
        assert(peer.universe(kind).contains(k));
        state::synthesised_matches_entry(kind, k, ts, peer.size(kind, at[j], ts));
        assert(wanted[j] == k);
        lemma_newer_position(peer, own, kind, first, j);
    }
    lemma_entry_messages(*peer, kind, wanted, msgs, msgs.len() as int);
    assert(wanted.take(msgs.len() as int) =~= wanted);
    assert(msgs.take(msgs.len() as int) =~= msgs);
    node::reply_brings_peer_up_to_date(peer, own, kind, first);
}

/// The slot of a message handed back is the one its key is found at.
proof fn lemma_newer_position(
    a: &NodeState,
    b: &NodeState,
    kind: SketchKind,
    walked_first: bool,
    j: int,
)
    requires
        a.wf(),
        b.wf(),
        a.shares_keys(b),
        0 <= j < state::newer_order(walked_first, a.slots(kind), b.slots(kind)).len(),
    ensures
        ({
            let at = state::newer_order(walked_first, a.slots(kind), b.slots(kind));
            a.position(kind, a.keys(kind)[at[j]]) == at[j]
        }),
{
    let at = state::newer_order(walked_first, a.slots(kind), b.slots(kind));
    a.lemma_held(kind);
    b.lemma_held(kind);
    state::lemma_newer_order_filled(a.slots(kind), b.slots(kind), walked_first, j);
    assert(a.slots(kind)[at[j]] is Some);
}

proof fn lemma_entry_messages(
    own: NodeState,
    kind: SketchKind,
    keys: Seq<u64>,
    msgs: Seq<Gossip>,
    n: int,
)
    requires
        0 <= n <= keys.len(),
        keys.len() == msgs.len(),
        forall|j: int|
            0 <= j < keys.len() ==> own.held(kind).contains_key(#[trigger] keys[j]) && msgs[j]
                == entry_message(own, kind, keys[j]),
    ensures
        entry_messages(own, kind, keys.take(n)) == msgs.take(n),
    decreases n,
{
    if n > 0 {
        lemma_entry_messages(own, kind, keys, msgs, n - 1);
        assert(keys.take(n).drop_last() =~= keys.take(n - 1));
        assert(own.held(kind).contains_key(keys[n - 1]));
        assert(msgs.take(n) =~= msgs.take(n - 1).push(msgs[n - 1]));
    } else {
        assert(keys.take(0) =~= Seq::<u64>::empty());
        assert(msgs.take(0) =~= Seq::<Gossip>::empty());
    }
}

/// A sketch costs eight bytes for every element that it can tell apart,
/// as far as sixteen bits count.
pub proof fn sketch_costs_its_capacity(capacity: u32)
    ensures
        8 * capacity <= 0xffff ==> sketch_bytes(capacity) == 8 * capacity,
        (8 * capacity - sketch_bytes(capacity)) % 0x1_0000 == 0,
{
}

/// A tick sends one sketch of each kind, updates first and channel
/// announcements last, numbered on from the last one sent, each with the
/// capacity that the node has for its kind.
pub proof fn tick_sends_one_sketch_of_each_kind(node: &SketchNode, sent: u32)
    requires
        sent + 3 <= u32::MAX,
    ensures
        ({
            let out = node.sketches_from(sent);
            &&& out.len() == 3
            &&& forall|i: int|
                0 <= i < 3 ==> (#[trigger] out[i]).id == sent + 1 + i && out[i].from == node.id
                    && out[i].size_bytes == sketch_bytes(out[i].capacity)
            &&& out[0].kind == SketchKind::ChanUpdates && out[0].capacity == node.cap_chan_updates
            &&& out[1].kind == SketchKind::NodeAnns && out[1].capacity == node.cap_node_anns
            &&& out[2].kind == SketchKind::ChanAnns && out[2].capacity == node.cap_chan_anns
        }),
{
}

/// Each peer is ticked from its own offset on, once per stagger.
pub proof fn peers_tick_from_their_offsets(node: &SketchNode)
    ensures
        node.peer_timers().len() == node.per_peer_offsets@.len(),
        forall|i: int|
            0 <= i < node.per_peer_offsets@.len() ==> {
                &&& (#[trigger] node.peer_timers()[i]).first == node.per_peer_offsets@[i]
                &&& node.peer_timers()[i].every == Some(node.stagger)
                &&& node.peer_timers()[i].action matches TimerAction::TickPeer(p) && (i <= usize::MAX
                    ==> p == i)
            },
{
}

/// A flooded message is paid for once per peer, and the count stops at
/// its limit.
pub proof fn flooding_is_paid_per_peer(count: u64, size: u16, peers: nat)
    ensures
        count + size * peers <= u64::MAX ==> flooded_bytes(count, size, peers) == count + size
            * peers,
        count + size * peers > u64::MAX ==> flooded_bytes(count, size, peers) == u64::MAX,
{
    assert(size * peers >= 0) by (nonlinear_arith)
        requires
            size >= 0,
            peers >= 0,
    ;
}

/// The keys that a node asks for are those, each once, of which the peer
/// holds something newer, or something where the node has nothing.
pub proof fn node_asks_for_what_is_newer_at_the_peer(
    own: &NodeState,
    peer: &NodeState,
    kind: SketchKind,
)
    requires
        own.wf(),
        peer.wf(),
        peer.shares_keys(own),
    ensures
        wanted_from(*own, *peer, kind).no_duplicates(),
        forall|k: u64| #[trigger]
            wanted_from(*own, *peer, kind).contains(k) <==> peer.held(kind).contains_key(k) && (
            !own.held(kind).contains_key(k) || peer.held(kind)[k] > own.held(kind)[k]),
{
    let first = peer.idx <= own.idx;
    let at = state::newer_order(first, peer.slots(kind), own.slots(kind));
    let wanted = wanted_from(*own, *peer, kind);
    let ahead = |k: u64|
        peer.held(kind).contains_key(k) && (!own.held(kind).contains_key(k) || peer.held(kind)[k]
            > own.held(kind)[k]);
    state::newer_messages_are_exact(peer, own, kind, first);
    peer.lemma_held(kind);
    assert forall|j: int| 0 <= j < wanted.len() implies #[trigger] wanted[j] == peer.keys(
        kind,
    )[at[j]] && ahead(wanted[j]) && peer.position(kind, wanted[j]) == at[j] by {
        let k = peer.keys(kind)[at[j]];
        let ts = peer.held(kind)[k];
        state::synthesised_matches_entry(kind, k, ts, peer.size(kind, at[j], ts));
        lemma_newer_position(peer, own, kind, first, j);
    }
    assert forall|k: u64| #[trigger] wanted.contains(k) <==> ahead(k) by {
        if wanted.contains(k) {
            let j = wanted.index_of(k);
            assert(ahead(wanted[j]));
        }
        if ahead(k) {
            let i = peer.position(kind, k);
            assert(at.contains(i));
            let j = at.index_of(i);
            assert(peer.universe(kind).contains(k));
            assert(wanted[j] == k);
        }
    }
    assert forall|i: int, j: int| 0 <= i < wanted.len() && 0 <= j < wanted.len() && i != j implies
        wanted[i] != wanted[j] by {
        assert(at[i] != at[j]);
        assert(peer.position(kind, wanted[i]) == at[i]);
        assert(peer.position(kind, wanted[j]) == at[j]);
    }
}

/// A round is counted by keys: those that both hold alike, those that
/// only the peer holds, those that only the node holds, and as their
/// difference the keys of either alone and twice those held apart. The
/// sketch overflows where its capacity is below this difference. Each
/// figure of the round is sampled once.
pub proof fn round_counts_keys(
    own: &NodeState,
    peer: &NodeState,
    sketch: Sketch,
    old_stats: SketchKindStats,
    new_stats: SketchKindStats,
)
    requires
        own.wf(),
        peer.wf(),
        peer.shares_keys(own),
        round_added(old_stats, new_stats, *own, *peer, sketch.kind),
    ensures
        ({
            let hp = peer.held(sketch.kind);
            let ho = own.held(sketch.kind);
            let at_peer = Set::new(|k: u64| hp.contains_key(k) && !ho.contains_key(k)).len();
            let at_own = Set::new(|k: u64| ho.contains_key(k) && !hp.contains_key(k)).len();
            let alike = Set::new(
                |k: u64| hp.contains_key(k) && ho.contains_key(k) && hp[k] == ho[k],
            ).len();
            let apart = Set::new(
                |k: u64| hp.contains_key(k) && ho.contains_key(k) && hp[k] != ho[k],
            ).len();
            let difference = at_peer + at_own + 2 * apart;
            &&& new_stats.intersection == old_stats.intersection + alike
            &&& new_stats.a_only == old_stats.a_only + at_peer
            &&& new_stats.b_only == old_stats.b_only + at_own
            &&& new_stats.difference == old_stats.difference + difference
            &&& new_stats.rounds_intersection@ == reservoir::observed(
                old_stats.rounds_intersection@,
                metrics::low_bits(alike),
            )
            &&& new_stats.rounds_difference@ == reservoir::observed(
                old_stats.rounds_difference@,
                metrics::low_bits(difference),
            )
            &&& new_stats.rounds_a_only@ == reservoir::observed(
                old_stats.rounds_a_only@,
                metrics::low_bits(at_peer),
            )
            &&& new_stats.rounds_b_only@ == reservoir::observed(
                old_stats.rounds_b_only@,
                metrics::low_bits(at_own),
            )
            &&& overflows(*own, *peer, sketch) <==> difference > sketch.capacity
        }),
{
    state::diff_counts_keys(peer, own, sketch.kind);
}

/// An inventory is counted: eight bytes for each of its keys, one more
/// sent, its keys added up as far as the sum counts, and the smallest and
/// the largest number of keys so far. Nothing else changes.
pub proof fn inventory_is_counted(m: PerNodeMetrics, n: nat)
    requires
        m.bytes_out_inventory + 8 * n <= u64::MAX,
        m.inventories_sent < u64::MAX,
        n <= u64::MAX,
    ensures
        ({
            let out = inventory_sent(m, n);
            &&& out.bytes_out_inventory == m.bytes_out_inventory + 8 * n
            &&& out.inventories_sent == m.inventories_sent + 1
            &&& m.inv_keys_sent_sum + n <= u64::MAX ==> out.inv_keys_sent_sum
                == m.inv_keys_sent_sum + n
            &&& m.inv_keys_sent_sum + n > u64::MAX ==> out.inv_keys_sent_sum == u64::MAX
            &&& out.inv_keys_sent_max >= n && out.inv_keys_sent_max >= m.inv_keys_sent_max
            &&& out.inv_keys_sent_max == n || out.inv_keys_sent_max == m.inv_keys_sent_max
            &&& out.inv_keys_sent_min <= n
            &&& m.inv_keys_sent_min == 0 ==> out.inv_keys_sent_min == n
            &&& m.inv_keys_sent_min > 0 ==> out.inv_keys_sent_min <= m.inv_keys_sent_min && (
            out.inv_keys_sent_min == n || out.inv_keys_sent_min == m.inv_keys_sent_min)
            &&& out == (PerNodeMetrics {
                bytes_out_inventory: out.bytes_out_inventory,
                inventories_sent: out.inventories_sent,
                inv_keys_sent_sum: out.inv_keys_sent_sum,
                inv_keys_sent_min: out.inv_keys_sent_min,
                inv_keys_sent_max: out.inv_keys_sent_max,
                ..m
            })
        }),
{
}

/// An overflow is counted once, under its own kind.
pub proof fn overflow_is_counted_by_kind(m: PerNodeMetrics, kind: SketchKind)
    requires
        m.overflowed_chan_updates < u64::MAX,
        m.overflowed_node_anns < u64::MAX,
        m.overflowed_chan_anns < u64::MAX,
    ensures
        ({
            let out = overflow_recorded(m, kind);
            &&& out.overflowed_chan_updates + out.overflowed_node_anns + out.overflowed_chan_anns
                == m.overflowed_chan_updates + m.overflowed_node_anns + m.overflowed_chan_anns + 1
            &&& kind == SketchKind::ChanUpdates ==> out.overflowed_chan_updates
                == m.overflowed_chan_updates + 1
            &&& kind == SketchKind::NodeAnns ==> out.overflowed_node_anns == m.overflowed_node_anns
                + 1
            &&& kind == SketchKind::ChanAnns ==> out.overflowed_chan_anns == m.overflowed_chan_anns
                + 1
            &&& out.overflowed_chan_updates >= m.overflowed_chan_updates
            &&& out.overflowed_node_anns >= m.overflowed_node_anns
            &&& out.overflowed_chan_anns >= m.overflowed_chan_anns
            &&& out == (PerNodeMetrics {
                overflowed_chan_updates: out.overflowed_chan_updates,
                overflowed_node_anns: out.overflowed_node_anns,
                overflowed_chan_anns: out.overflowed_chan_anns,
                ..m
            })
        }),
{
}

/// A sketch is counted once, and its round goes to the figures of its
/// own kind and of no other.
pub proof fn sketch_is_counted_by_kind(
    m: PerNodeMetrics,
    kind: SketchKind,
    other: SketchKind,
    stats: SketchKindStats,
)
    requires
        m.sketches_received < u64::MAX,
    ensures
        ({
            let out = sketch_counted(m, kind, stats);
            &&& out.sketches_received == m.sketches_received + 1
            &&& out.kind_stats(kind) == stats
            &&& other != kind ==> out.kind_stats(other) == m.kind_stats(other)
            &&& out == (PerNodeMetrics {
                sketches_received: out.sketches_received,
                chan_updates_stats: out.chan_updates_stats,
                node_anns_stats: out.node_anns_stats,
                chan_anns_stats: out.chan_anns_stats,
                ..m
            })
        }),
{
}

/// An inventory is answered key by key, in order: with the message held
/// under the key, at the version held, or with nothing where none is.
pub proof fn inventory_is_answered_key_by_key(
    own: NodeState,
    kind: SketchKind,
    a: Seq<u64>,
    b: Seq<u64>,
)
    ensures
        entry_messages(own, kind, a + b) == entry_messages(own, kind, a) + entry_messages(
            own,
            kind,
            b,
        ),
        a.len() == 0 ==> entry_messages(own, kind, a).len() == 0,
        a.len() == 1 && !own.held(kind).contains_key(a[0]) ==> entry_messages(own, kind, a).len()
            == 0,
        a.len() == 1 && own.held(kind).contains_key(a[0]) ==> {
            let out = entry_messages(own, kind, a);
            let ts = own.held(kind)[a[0]];
            &&& out.len() == 1
            &&& out[0].key() == a[0]
            &&& out[0].kind == kind.gossip_kind()
            &&& kind != SketchKind::ChanAnns ==> out[0].timestamp == ts
            &&& out[0].size_bytes == own.size(kind, own.position(kind, a[0]), ts)
            &&& out[0].has_derived_id()
        },
    decreases b.len(),
{
    if b.len() == 0 {
        assert(a + b =~= a);
        assert(entry_messages(own, kind, a) + entry_messages(own, kind, b) =~= entry_messages(
            own,
            kind,
            a,
        ));
    } else {
        inventory_is_answered_key_by_key(own, kind, a, b.drop_last());
        assert((a + b).drop_last() =~= a + b.drop_last());
        assert(entry_messages(own, kind, a + b) =~= entry_messages(own, kind, a) + entry_messages(
            own,
            kind,
            b,
        ));
    }
    if a.len() == 1 {
        reveal_with_fuel(entry_messages, 2);
        let ts = own.held(kind)[a[0]];
        state::synthesised_matches_entry(
            kind,
            a[0],
            ts,
            own.size(kind, own.position(kind, a[0]), ts),
        );
    }
}

/// Messages are listed by their place among the keys where the lister is
/// the node with the lower index, and otherwise those held in an older
/// version by the other before those that the other has not.
pub proof fn reply_order_follows_the_indices(own: NodeState, peer: NodeState, kind: SketchKind)
    ensures
        ({
            let so = own.slots(kind);
            let sp = peer.slots(kind);
            &&& own.idx < peer.idx ==> reply_to(own, peer, kind) == own.gossips_at(
                kind,
                state::ahead_in(so, sp),
            )
            &&& own.idx >= peer.idx ==> reply_to(own, peer, kind) == own.gossips_at(
                kind,
                state::newer_in(so, sp) + state::only_in(so, sp),
            )
            &&& peer.idx <= own.idx ==> newer_at_peer(own, peer, kind) == peer.gossips_at(
                kind,
                state::ahead_in(sp, so),
            )
            &&& peer.idx > own.idx ==> newer_at_peer(own, peer, kind) == peer.gossips_at(
                kind,
                state::newer_in(sp, so) + state::only_in(sp, so),
            )
        }),
{
}

} // verus!
