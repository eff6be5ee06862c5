//! Stagger node in the style of Core Lightning.
//!
//! Arrivals that are taken up wait in a queue. A tick every `stagger`
//! drains the queue into one batch that goes to every peer. What the node
//! originates itself does not wait: it is broadcast at once. The first
//! tick comes at an offset of the node's own, so that ticks do not line
//! up across the network.

use vstd::prelude::*;

use crate::message;
use crate::message::{Gossip, GossipBatch, GossipKind, NodeId, NodeIdx, SketchKind, WireMessage};
use crate::metrics;
use crate::metrics::PerNodeMetrics;
use crate::node;
use crate::node::{Arrival, FlushSummary, PeerTable, Timer, TimerAction};
use crate::state;
use crate::state::NodeState;
use crate::time;
use crate::time::SimDuration;

verus! {

/// A node that broadcasts what is pending once per stagger interval.
pub struct ClnNode {
    pub id: NodeId,
    pub idx: NodeIdx,
    pub peers: PeerTable,
    /// Period between ticks.
    pub stagger: SimDuration,
    /// Time of the first tick.
    pub first_tick: SimDuration,
    pub run_duration: SimDuration,
    pub flush_interval: SimDuration,
    pub flush_phase: SimDuration,
    pub metrics: PerNodeMetrics,
    /// Gossips that wait for the next tick.
    pub pending: Vec<Gossip>,
}

impl ClnNode {
    pub open spec fn wf(&self) -> bool {
        &&& self.peers.wf()
        &&& self.metrics.wf()
    }

    pub fn new(
        id: NodeId,
        idx: NodeIdx,
        stagger: SimDuration,
        first_tick: SimDuration,
        run_duration: SimDuration,
        flush_interval: SimDuration,
        flush_phase: SimDuration,
    ) -> (r: Self)
        ensures
            r.wf(),
            r.id == id,
            r.idx == idx,
            r.peers@.len() == 0,
            r.stagger == stagger,
            r.first_tick == first_tick,
            r.run_duration == run_duration,
            r.flush_interval == flush_interval,
            r.flush_phase == flush_phase,
            r.pending@.len() == 0,
            r.metrics.counters() == metrics::no_counters(),
            r.metrics.overflow_events@.len() == 0,
            r.metrics.first_seen_pending@.len() == 0,
    {
        ClnNode {
            id,
            idx,
            peers: PeerTable::new(),
            stagger,
            first_tick,
            run_duration,
            flush_interval,
            flush_phase,
            metrics: PerNodeMetrics::default(),
            pending: Vec::new(),
        }
    }

    /// Add the peer behind the next port.
    pub fn add_peer(&mut self, peer_id: NodeId)
        requires
            old(self).wf(),
        ensures
            final(self).wf(),
            final(self).peers@ == old(self).peers@.push(peer_id),
            *final(self) == (ClnNode { peers: final(self).peers, ..*old(self) }),
    {
        self.peers.push(peer_id);
    }

    /// The timers to arm at the start of a run.
    pub fn arm_ticks(&self) -> (r: Vec<Timer>)
        ensures
            r@ == seq![
                Timer {
                    first: self.first_tick,
                    every: Some(self.stagger),
                    action: TimerAction::Tick,
                },
            ] + node::flush_timers(self.flush_phase, self.flush_interval, self.run_duration),
    {
        let mut out: Vec<Timer> = Vec::new();
        out.push(
            Timer { first: self.first_tick, every: Some(self.stagger), action: TimerAction::Tick },
        );
        node::push_flush_timers(
            &mut out,
            self.flush_phase,
            self.flush_interval,
            self.run_duration,
        );
        assert(out@ =~= seq![
            Timer { first: self.first_tick, every: Some(self.stagger), action: TimerAction::Tick },
        ] + node::flush_timers(self.flush_phase, self.flush_interval, self.run_duration));
        out
    }

    /// Flush the metrics.
    pub fn flush_summary(&mut self, now: SimDuration) -> (r: FlushSummary)
        requires
            old(self).wf(),
        ensures
            final(self).wf(),
            *final(self) == (ClnNode { metrics: final(self).metrics, ..*old(self) }),
            r.idx == old(self).idx,
            r.time_ns == time::low_nanos(now),
            r.first_seen@ == old(self).metrics.first_seen_pending@,
            r.counters == old(self).metrics.counters(),
            r.overflows@ == old(self).metrics.overflow_events@,
            final(self).metrics.first_seen_pending@.len() == 0,
            final(self).metrics.overflow_events@.len() == 0,
            final(self).metrics.counters() == old(self).metrics.counters(),
    {
        node::flush_metrics(&mut self.metrics, self.idx, time::ns_since_epoch(now))
    }

    /// A message arrived. What is taken up of it waits for the next tick,
    /// channel announcements first. Sketches and inventories are counted
    /// and ignored.
    pub fn recv(&mut self, state: &mut NodeState, wire: &WireMessage, now: SimDuration) -> (r:
        Arrival)
        requires
            old(self).wf(),
            old(state).wf(),
            node::receivable(*old(state), *wire),
            old(self).metrics.room(wire.bytes() + wire.gossips().len()),
        ensures
            final(self).wf(),
            node::state_received(*old(state), *final(state), *wire),
            ({
                let fresh = node::fresh_of(*old(state), *wire, node::announcements_first());
                &&& r.fresh_count == fresh.len()
                &&& final(self).pending@ == old(self).pending@ + fresh
                &&& final(self).metrics.first_seen_pending@ == old(
                    self,
                ).metrics.first_seen_pending@ + node::sightings(fresh, time::low_nanos(now))
            }),
            r.early_flush == (r.fresh_count > 0
                && final(self).metrics.first_seen_pending@.len()
                >= metrics::FIRST_SEEN_FORCE_FLUSH),
            *final(self) == (ClnNode {
                metrics: final(self).metrics,
                pending: final(self).pending,
                ..*old(self)
            }),
            final(self).metrics == (PerNodeMetrics {
                bytes_in_gossip: (old(self).metrics.bytes_in_gossip + wire.bytes()) as u64,
                duplicates: (old(self).metrics.duplicates + node::duplicates_of(
                    *old(state),
                    *wire,
                )) as u64,
                duplicates_bytes: (old(self).metrics.duplicates_bytes
                    + node::duplicate_bytes_of(*old(state), *wire)) as u64,
                first_seen_pending: final(self).metrics.first_seen_pending,
                ..old(self).metrics
            }),
    {
        proof {
            node::lemma_gossip_bytes(*wire);
        }
        self.metrics.bytes_in_gossip = self.metrics.bytes_in_gossip + wire.wire_size();
        let fresh: Vec<Gossip> = node::absorb_wire(state, wire, true, true, &mut self.metrics);
        node::record_first_seen(
            &mut self.metrics,
            fresh.as_slice(),
            time::ns_since_epoch(now),
        );
        node::enqueue(&mut self.pending, fresh.as_slice());
        let fresh_count: usize = fresh.len();
        let early_flush: bool = fresh_count > 0 && node::wants_early_flush(&self.metrics);
        Arrival { fresh_count, early_flush }
    }

    /// Stamp and store an originated message. Returns the message to
    /// broadcast at once, or `None` where it was announced before.
    pub fn originate(&mut self, state: &mut NodeState, msg: Gossip, now: SimDuration) -> (r:
        Option<Gossip>)
        requires
            old(self).wf(),
            old(state).wf(),
            msg.kind == GossipKind::NodeAnnouncement || msg.is_keyed(),
            old(state).universe(SketchKind::of_gossip(msg.kind)).contains(
                state::origin_key(msg, old(self).id),
            ),
            old(self).metrics.bytes_out_gossip + msg.size_bytes * old(self).peers@.len()
                <= u64::MAX,
        ensures
            final(self).wf(),
            r == (if msg.kind == GossipKind::ChannelAnnouncement && old(state).held(
                SketchKind::ChanAnns,
            ).contains_key(msg.scid->0) {
                None
            } else {
                Some(state::stamped(msg, old(self).id, now))
            }),
            r is Some ==> state::state_with(
                *old(state),
                *final(state),
                SketchKind::of_gossip(msg.kind),
                state::origin_key(msg, old(self).id),
                if msg.kind == GossipKind::ChannelAnnouncement {
                    0
                } else {
                    state::stamp_of(now)
                },
            ),
            final(state).wf(),
            final(state).idx == old(state).idx,
            final(state).shares_keys(old(state)),
            r is None ==> forall|k: SketchKind| #[trigger]
                final(state).held(k) == old(state).held(k),
            r is None ==> *final(self) == *old(self),
            r is Some ==> final(self).metrics.first_seen_pending@ == old(
                self,
            ).metrics.first_seen_pending@ + node::sightings(seq![r->0], time::low_nanos(now)),
            r is Some ==> *final(self) == (ClnNode {
                metrics: PerNodeMetrics {
                    bytes_out_gossip: (old(self).metrics.bytes_out_gossip + msg.size_bytes * old(
                        self,
                    ).peers@.len()) as u64,
                    first_seen_pending: final(self).metrics.first_seen_pending,
                    ..old(self).metrics
                },
                ..*old(self)
            }),
    {
        let mut msg: Gossip = msg;
        if !state::originate_stamp(state, self.id, &mut msg, now) {
            return None;
        }
        let mut one: Vec<Gossip> = Vec::new();
        one.push(msg);
        assert(one@ =~= seq![msg]);
        node::record_first_seen(&mut self.metrics, one.as_slice(), time::ns_since_epoch(now));
        node::count_broadcast(&mut self.metrics, msg.size_bytes as u64, self.peers.len());
        Some(msg)
    }

    /// Drain what is pending into one batch for every peer; `None` where
    /// nothing is pending.
    pub fn tick(&mut self) -> (r: Option<GossipBatch>)
        requires
            old(self).wf(),
            message::total_size(old(self).pending@) <= u64::MAX,
            old(self).metrics.bytes_out_gossip + message::total_size(old(self).pending@) * old(
                self,
            ).peers@.len() <= u64::MAX,
        ensures
            final(self).wf(),
            r is Some <==> old(self).pending@.len() > 0,
            r matches Some(b) ==> b.partitioned() && forall|kind: GossipKind| #[trigger]
                b.slot(kind) == message::of_kind(old(self).pending@, kind),
            final(self).pending@.len() == 0,
            final(self).metrics == (PerNodeMetrics {
                bytes_out_gossip: (old(self).metrics.bytes_out_gossip + message::total_size(
                    old(self).pending@,
                ) * old(self).peers@.len()) as u64,
                ..old(self).metrics
            }),
            *final(self) == (ClnNode {
                metrics: final(self).metrics,
                pending: final(self).pending,
                ..*old(self)
            }),
    {
        if self.pending.is_empty() {
            assert(message::total_size(self.pending@) == 0);
            assert(0 * self.peers@.len() == 0) by (nonlinear_arith);
            return None;
        }
        let mut drained: Vec<Gossip> = Vec::new();
        std::mem::swap(&mut self.pending, &mut drained);
        let bytes_per_peer: u64 = message::sum_sizes(drained.as_slice());
        node::count_broadcast(&mut self.metrics, bytes_per_peer, self.peers.len());
        Some(GossipBatch::from_mixed(drained))
    }
}

} // verus!
