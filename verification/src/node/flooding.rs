//! Flooding node: every arrival that is taken up is forwarded to all
//! peers after a delay that stands for the wire's latency. On a connected
//! graph a message reaches everyone within the diameter times that delay.

use vstd::prelude::*;

use crate::message::{Gossip, GossipKind, NodeId, NodeIdx, SketchKind, WireMessage};
use crate::metrics;
use crate::metrics::PerNodeMetrics;
use crate::node;
use crate::node::{FlushSummary, PeerTable, Timer, TimerAction};
use crate::state;
use crate::state::NodeState;
use crate::time;
use crate::time::SimDuration;

verus! {

/// A node that forwards what it takes up.
pub struct FloodingNode {
    pub id: NodeId,
    pub idx: NodeIdx,
    pub peers: PeerTable,
    /// Time between the arrival of a gossip and its forwarding.
    pub forward_delay: SimDuration,
    pub run_duration: SimDuration,
    pub metrics: PerNodeMetrics,
}

impl FloodingNode {
    pub open spec fn wf(&self) -> bool {
        &&& self.peers.wf()
        &&& self.metrics.wf()
    }

    pub fn new(
        id: NodeId,
        idx: NodeIdx,
        forward_delay: SimDuration,
        run_duration: SimDuration,
    ) -> (r: Self)
        ensures
            r.wf(),
            r.id == id,
            r.idx == idx,
            r.peers@.len() == 0,
            r.forward_delay == forward_delay,
            r.run_duration == run_duration,
            r.metrics.counters() == metrics::no_counters(),
            r.metrics.overflow_events@.len() == 0,
            r.metrics.first_seen_pending@.len() == 0,
    {
        FloodingNode {
            id,
            idx,
            peers: PeerTable::new(),
            forward_delay,
            run_duration,
            metrics: PerNodeMetrics::default(),
        }
    }

    /// Add the peer behind the next port.
    pub fn add_peer(&mut self, peer_id: NodeId)
        requires
            old(self).wf(),
        ensures
            final(self).wf(),
            final(self).peers@ == old(self).peers@.push(peer_id),
            *final(self) == (FloodingNode { peers: final(self).peers, ..*old(self) }),
    {
        self.peers.push(peer_id);
    }

    /// The timer to arm at the start of a run: one flush at its end.
    pub fn arm_flush(&self) -> (r: Vec<Timer>)
        ensures
            r@ == seq![
                Timer { first: self.run_duration, every: None, action: TimerAction::Flush },
            ],
    {
        let mut out: Vec<Timer> = Vec::new();
        out.push(Timer { first: self.run_duration, every: None, action: TimerAction::Flush });
        assert(out@ =~= seq![
            Timer { first: self.run_duration, every: None, action: TimerAction::Flush },
        ]);
        out
    }

    /// Flush the metrics.
    pub fn flush_summary(&mut self, now: SimDuration) -> (r: FlushSummary)
        requires
            old(self).wf(),
        ensures
            final(self).wf(),
            *final(self) == (FloodingNode { metrics: final(self).metrics, ..*old(self) }),
            r.idx == old(self).idx,
            r.time_ns == time::low_nanos(now),
            r.first_seen@ == old(self).metrics.first_seen_pending@,
            r.counters == old(self).metrics.counters(),
            r.overflows@ == old(self).metrics.overflow_events@,
            final(self).metrics.first_seen_pending@.len() == 0,
            final(self).metrics.overflow_events@.len() == 0,
            final(self).metrics.counters() == old(self).metrics.counters(),
    {
        node::flush_metrics(&mut self.metrics, self.idx, time::ns_since_epoch(now))
    }

    /// A message arrived. Returns the gossips that were taken up, each of
    /// which is to be forwarded after the delay. The others are counted as
    /// duplicates, without their bytes. Sketches and inventories are
    /// counted and ignored.
    pub fn recv(&mut self, state: &mut NodeState, wire: &WireMessage, now: SimDuration) -> (r: Vec<
        Gossip,
    >)
        requires
            old(self).wf(),
            old(state).wf(),
            node::receivable(*old(state), *wire),
            old(self).metrics.room(wire.bytes() + wire.gossips().len()),
        ensures
            final(self).wf(),
            node::state_received(*old(state), *final(state), *wire),
            r@ == node::fresh_of(*old(state), *wire, node::updates_first()),
            final(self).metrics.first_seen_pending@ == old(self).metrics.first_seen_pending@
                + node::sightings(r@, time::low_nanos(now)),
            *final(self) == (FloodingNode {
                metrics: PerNodeMetrics {
                    bytes_in_gossip: (old(self).metrics.bytes_in_gossip + wire.bytes()) as u64,
                    duplicates: (old(self).metrics.duplicates + node::duplicates_of(
                        *old(state),
                        *wire,
                    )) as u64,
                    first_seen_pending: final(self).metrics.first_seen_pending,
                    ..old(self).metrics
                },
                ..*old(self)
            }),
    {
        proof {
            node::lemma_gossip_bytes(*wire);
        }
        self.metrics.bytes_in_gossip = self.metrics.bytes_in_gossip + wire.wire_size();
        let fresh: Vec<Gossip> = node::absorb_wire(state, wire, false, false, &mut self.metrics);
        node::record_first_seen(
            &mut self.metrics,
            fresh.as_slice(),
            time::ns_since_epoch(now),
        );
        fresh
    }

    /// Stamp and store an originated message. Returns the message to
    /// broadcast at once, or `None` where it was announced before.
    pub fn originate(&mut self, state: &mut NodeState, msg: Gossip, now: SimDuration) -> (r:
        Option<Gossip>)
        requires
            old(self).wf(),
            old(state).wf(),
            msg.kind == GossipKind::NodeAnnouncement || msg.is_keyed(),
            old(state).universe(SketchKind::of_gossip(msg.kind)).contains(
                state::origin_key(msg, old(self).id),
            ),
            old(self).metrics.bytes_out_gossip + msg.size_bytes * old(self).peers@.len()
                <= u64::MAX,
        ensures
            final(self).wf(),
            r == (if msg.kind == GossipKind::ChannelAnnouncement && old(state).held(
                SketchKind::ChanAnns,
            ).contains_key(msg.scid->0) {
                None
            } else {
                Some(state::stamped(msg, old(self).id, now))
            }),
            r is Some ==> state::state_with(
                *old(state),
                *final(state),
                SketchKind::of_gossip(msg.kind),
                state::origin_key(msg, old(self).id),
                if msg.kind == GossipKind::ChannelAnnouncement {
                    0
                } else {
                    state::stamp_of(now)
                },
            ),
            final(state).wf(),
            final(state).idx == old(state).idx,
            final(state).shares_keys(old(state)),
            r is None ==> forall|k: SketchKind| #[trigger]
                final(state).held(k) == old(state).held(k),
            r is None ==> *final(self) == *old(self),
            r is Some ==> final(self).metrics.first_seen_pending@ == old(
                self,
            ).metrics.first_seen_pending@ + node::sightings(seq![r->0], time::low_nanos(now)),
            r is Some ==> *final(self) == (FloodingNode {
                metrics: PerNodeMetrics {
                    bytes_out_gossip: (old(self).metrics.bytes_out_gossip + msg.size_bytes * old(
                        self,
                    ).peers@.len()) as u64,
                    first_seen_pending: final(self).metrics.first_seen_pending,
                    ..old(self).metrics
                },
                ..*old(self)
            }),
    {
        let mut msg: Gossip = msg;
        if !state::originate_stamp(state, self.id, &mut msg, now) {
            return None;
        }
        let mut one: Vec<Gossip> = Vec::new();
        one.push(msg);
        assert(one@ =~= seq![msg]);
        node::record_first_seen(&mut self.metrics, one.as_slice(), time::ns_since_epoch(now));
        node::count_broadcast(&mut self.metrics, msg.size_bytes as u64, self.peers.len());
        Some(msg)
    }

    /// Count a gossip as sent to every peer, when its delay has passed.
    pub fn do_send(&mut self, msg: &Gossip)
        requires
            old(self).metrics.bytes_out_gossip + msg.size_bytes * old(self).peers@.len()
                <= u64::MAX,
        ensures
            *final(self) == (FloodingNode {
                metrics: PerNodeMetrics {
                    bytes_out_gossip: (old(self).metrics.bytes_out_gossip + msg.size_bytes * old(
                        self,
                    ).peers@.len()) as u64,
                    ..old(self).metrics
                },
                ..*old(self)
            }),
    {
        node::count_broadcast(&mut self.metrics, msg.size_bytes as u64, self.peers.len());
    }
}

} // verus!
