//! Node algorithms.
//!
//! Each algorithm is a state machine: a handler takes what happened (a
//! message arrived, a message is originated, a tick fired), updates the
//! node's dedup state and metrics, and returns what is to be sent or
//! scheduled. The simulation runner owns the ports and the event queue,
//! performs what is returned and hands back what happens next.
//!
//! All algorithms deduplicate alike (BOLT 7): a timestamped message is
//! taken up when it is newer than what is stored under its key, a channel
//! announcement when it is the first of its channel.

use std::collections::HashMap;

use vstd::prelude::*;

use crate::keys;
use crate::message;
use crate::message::{Gossip, GossipKind, NodeId, NodeIdx, SketchKind, WireMessage};
use crate::metrics::{
    FirstSeenEntry, NodeCounters, OverflowEvent, PerNodeMetrics, FIRST_SEEN_FORCE_FLUSH,
};
use crate::state;
use crate::state::NodeState;
use crate::time::SimDuration;

pub mod cln;
pub mod flooding;
pub mod lnd;
pub mod sketch;

verus! {

/// The peers of a node, in the order of its ports.
pub struct PeerTable {
    ids: Vec<NodeId>,
    local: HashMap<NodeId, usize>,
}

/// The last position at which `id` is listed.
pub open spec fn last_position(ids: Seq<NodeId>, id: NodeId) -> Option<int>
    decreases ids.len(),
{
    if ids.len() == 0 {
        None
    } else if ids.last() == id {
        Some(ids.len() - 1)
    } else {
        last_position(ids.drop_last(), id)
    }
}

impl View for PeerTable {
    type V = Seq<NodeId>;

    /// The peer behind each port.
    closed spec fn view(&self) -> Seq<NodeId> {
        self.ids@
    }
}

impl PeerTable {
    /// The lookup table finds the last port of each peer.
    pub closed spec fn wf(&self) -> bool {
        forall|id: NodeId|
            match last_position(self.ids@, id) {
                Some(i) => #[trigger] self.local@.contains_key(id) && self.local@[id] == i,
                None => !self.local@.contains_key(id),
            }
    }

    pub fn new() -> (r: Self)
        ensures
            r.wf(),
            r@ == Seq::<NodeId>::empty(),
    {
        PeerTable { ids: Vec::new(), local: HashMap::new() }
    }

    /// Add the peer behind the next port.
    pub fn push(&mut self, id: NodeId)
        requires
            old(self).wf(),
        ensures
            final(self).wf(),
            final(self)@ == old(self)@.push(id),
    {
        broadcast use vstd::std_specs::hash::group_hash_axioms;

        let local: usize = self.ids.len();
        self.ids.push(id);
        self.local.insert(id, local);
        proof {
            assert(self.ids@.drop_last() =~= old(self).ids@);
            assert forall|k: NodeId|
                match last_position(self.ids@, k) {
                    Some(i) => #[trigger] self.local@.contains_key(k) && self.local@[k] == i,
                    None => !self.local@.contains_key(k),
                } by {
                assert(old(self).local@.contains_key(k) == old(self).local@.contains_key(k));
            }
        }
    }

    /// The port of a peer.
    pub fn find(&self, id: NodeId) -> (r: Option<usize>)
        requires
            self.wf(),
        ensures
            match r {
                Some(i) => last_position(self@, id) == Some(i as int),
                None => last_position(self@, id) is None,
            },
    {
        broadcast use vstd::std_specs::hash::group_hash_axioms;

        assert(self.local@.contains_key(id) == self.local@.contains_key(id));
        match self.local.get(&id) {
            Some(i) => Some(*i),
            None => None,
        }
    }

    /// Number of ports.
    pub fn len(&self) -> (r: usize)
        ensures
            r == self@.len(),
    {
        self.ids.len()
    }
}

/// A peer that is listed is found at its port.
pub proof fn lemma_last_position(ids: Seq<NodeId>, id: NodeId)
    ensures
        last_position(ids, id) is Some <==> ids.contains(id),
        last_position(ids, id) matches Some(i) ==> 0 <= i < ids.len() && ids[i] == id,
    decreases ids.len(),
{
    if ids.len() > 0 {
        lemma_last_position(ids.drop_last(), id);
        if ids.drop_last().contains(id) {
            let p = ids.drop_last().index_of(id);
            assert(ids[p] == id);
        }
        if ids.contains(id) && ids.last() != id {
            let p = ids.index_of(id);
            assert(ids.drop_last()[p] == id);
        }
    }
}

/// What a timer does when it fires.
#[derive(Copy, Clone, Debug, PartialEq, Eq, Structural)]
pub enum TimerAction {
    /// Broadcast what is pending.
    Tick,
    /// Reconcile with the peer behind one port.
    TickPeer(usize),
    /// Flush the metrics.
    Flush,
}

/// A timer that a node arms at the start of a run.
#[derive(Copy, Clone, Debug, PartialEq, Eq, Structural)]
pub struct Timer {
    pub first: SimDuration,
    /// `None` for a timer that fires once.
    pub every: Option<SimDuration>,
    pub action: TimerAction,
}

/// The flush timers: periodic ones unless the interval is zero, and one
/// at the end of the run.
pub open spec fn flush_timers(
    phase: SimDuration,
    interval: SimDuration,
    run_duration: SimDuration,
) -> Seq<Timer> {
    let last = Timer { first: run_duration, every: None, action: TimerAction::Flush };
    if interval.total_nanos() > 0 {
        seq![Timer { first: phase, every: Some(interval), action: TimerAction::Flush }, last]
    } else {
        seq![last]
    }
}

pub(crate) fn push_flush_timers(
    out: &mut Vec<Timer>,
    phase: SimDuration,
    interval: SimDuration,
    run_duration: SimDuration,
)
    ensures
        final(out)@ == old(out)@ + flush_timers(phase, interval, run_duration),
{
    if interval.as_nanos() > 0 {
        out.push(Timer { first: phase, every: Some(interval), action: TimerAction::Flush });
    }
    out.push(Timer { first: run_duration, every: None, action: TimerAction::Flush });
    assert(out@ =~= old(out)@ + flush_timers(phase, interval, run_duration));
}

/// What a node hands to the aggregator when it flushes.
#[derive(Debug)]
pub struct FlushSummary {
    pub idx: NodeIdx,
    pub time_ns: u64,
    pub first_seen: Vec<FirstSeenEntry>,
    pub counters: NodeCounters,
    pub overflows: Vec<OverflowEvent>,
}

/// Drain the pending buffers and take a snapshot of the counters.
pub(crate) fn flush_metrics(metrics: &mut PerNodeMetrics, idx: NodeIdx, time_ns: u64) -> (r:
    FlushSummary)
    ensures
        r.idx == idx,
        r.time_ns == time_ns,
        r.first_seen@ == old(metrics).first_seen_pending@,
        r.counters == old(metrics).counters(),
        r.overflows@ == old(metrics).overflow_events@,
        final(metrics).first_seen_pending@.len() == 0,
        final(metrics).overflow_events@.len() == 0,
        final(metrics).counters() == old(metrics).counters(),
        old(metrics).wf() ==> final(metrics).wf(),
        forall|kind: SketchKind| #[trigger]
            final(metrics).kind_stats(kind) == old(metrics).kind_stats(kind),
{
    let first_seen = metrics.take_first_seen();
    let counters = metrics.snapshot_counters();
    let overflows = metrics.take_overflows();
    FlushSummary { idx, time_ns, first_seen, counters, overflows }
}

/// What came of the arrival of a message at a node that forwards.
#[derive(Debug)]
pub struct Arrival {
    /// How many gossips were taken up.
    pub fresh_count: usize,
    /// Whether the metrics should be flushed early.
    pub early_flush: bool,
}

/// The message names what a container of this kind is keyed by.
pub open spec fn keyed_for(kind: SketchKind, g: Gossip) -> bool {
    match kind {
        SketchKind::ChanUpdates => g.scid is Some,
        SketchKind::NodeAnns => g.origin is Some,
        SketchKind::ChanAnns => g.scid is Some,
    }
}

/// The key of a message in a container of this kind.
pub open spec fn key_for(kind: SketchKind, g: Gossip) -> u64 {
    match kind {
        SketchKind::ChanUpdates => keys::cu_key(g.scid->0, g.direction),
        SketchKind::NodeAnns => g.origin->0,
        SketchKind::ChanAnns => g.scid->0,
    }
}

/// The timestamp stored for a message, 0 for channel announcements.
pub open spec fn stored_ts(kind: SketchKind, g: Gossip) -> u32 {
    match kind {
        SketchKind::ChanAnns => 0,
        _ => g.timestamp,
    }
}

/// The message is taken up: its key is not held, or at an earlier
/// timestamp.
pub open spec fn is_fresh(kind: SketchKind, held: Map<u64, u32>, g: Gossip) -> bool {
    !held.contains_key(key_for(kind, g)) || stored_ts(kind, g) > held[key_for(kind, g)]
}

/// What comes of a list of arrivals: what is then held, which messages
/// were taken up, and how many were not, with their bytes.
#[verifier::ext_equal]
pub struct Absorbed {
    pub held: Map<u64, u32>,
    pub fresh: Seq<Gossip>,
    pub duplicates: nat,
    pub duplicate_bytes: nat,
}

/// The arrivals taken one by one.
pub open spec fn absorbed(kind: SketchKind, held: Map<u64, u32>, gs: Seq<Gossip>) -> Absorbed
    decreases gs.len(),
{
    if gs.len() == 0 {
        Absorbed { held, fresh: Seq::empty(), duplicates: 0, duplicate_bytes: 0 }
    } else {
        let before = absorbed(kind, held, gs.drop_last());
        let g = gs.last();
        if is_fresh(kind, before.held, g) {
            Absorbed {
                held: before.held.insert(key_for(kind, g), stored_ts(kind, g)),
                fresh: before.fresh.push(g),
                ..before
            }
        } else {
            Absorbed {
                duplicates: before.duplicates + 1,
                duplicate_bytes: before.duplicate_bytes + g.size_bytes as nat,
                ..before
            }
        }
    }
}

/// Duplicates are some of the arrivals.
pub proof fn lemma_absorbed_bound(kind: SketchKind, held: Map<u64, u32>, gs: Seq<Gossip>)
    ensures
        absorbed(kind, held, gs).duplicates + absorbed(kind, held, gs).fresh.len() == gs.len(),
        absorbed(kind, held, gs).duplicate_bytes <= message::total_size(gs),
    decreases gs.len(),
{
    if gs.len() > 0 {
        lemma_absorbed_bound(kind, held, gs.drop_last());
    }
}

/// Every arrival can be stored by `state`.
pub open spec fn storable(kind: SketchKind, state: NodeState, gs: Seq<Gossip>) -> bool {
    forall|i: int|
        0 <= i < gs.len() ==> keyed_for(kind, #[trigger] gs[i]) && state.universe(kind).contains(
            key_for(kind, gs[i]),
        )
}

/// `new_state` is `old_state` with other contents of one kind.
pub open spec fn kind_replaced(
    old_state: NodeState,
    new_state: NodeState,
    kind: SketchKind,
    held: Map<u64, u32>,
) -> bool {
    &&& new_state.wf()
    &&& new_state.idx == old_state.idx
    &&& new_state.shares_keys(&old_state)
    &&& new_state.held(kind) == held
    &&& forall|k: SketchKind|
        k != kind ==> #[trigger] new_state.held(k) == old_state.held(k)
}

/// Store one message if it is fresh, and say whether it was.
fn take_up(state: &mut NodeState, kind: SketchKind, g: &Gossip) -> (r: bool)
    requires
        old(state).wf(),
        keyed_for(kind, *g),
        old(state).universe(kind).contains(key_for(kind, *g)),
    ensures
        r == is_fresh(kind, old(state).held(kind), *g),
        kind_replaced(
            *old(state),
            *final(state),
            kind,
            if r {
                old(state).held(kind).insert(key_for(kind, *g), stored_ts(kind, *g))
            } else {
                old(state).held(kind)
            },
        ),
{
    let fresh: bool = match kind {
        SketchKind::ChanUpdates => {
            let key: u64 = keys::pack_cu_key(g.scid.unwrap(), g.direction);
            let supersedes: bool = match state.chan_updates.get_ts(key) {
                Some(stored) => g.timestamp > stored,
                None => true,
            };
            if supersedes {
                state.chan_updates.insert(key, g.timestamp);
            }
            supersedes
        },
        SketchKind::NodeAnns => {
            let key: u64 = g.origin.unwrap();
            let supersedes: bool = match state.node_anns.get_ts(key) {
                Some(stored) => g.timestamp > stored,
                None => true,
            };
            if supersedes {
                state.node_anns.insert(key, g.timestamp);
            }
            supersedes
        },
        SketchKind::ChanAnns => {
            let key: u64 = g.scid.unwrap();
            let newly = state.chan_anns.insert_present(key);
            proof {
                if newly {
                    assert(state.held(kind) =~= old(state).held(kind).insert(key, 0));
                } else {
                    assert(state.held(kind) =~= old(state).held(kind));
                }
            }
            newly
        },
    };
    proof {
        assert forall|k: SketchKind| k != kind implies #[trigger] state.held(k) == old(state).held(
            k,
        ) by {
            assert(state.held(k) =~= old(state).held(k));
        }
    }
    fresh
}

/// The bytes of duplicates as a node counts them: some do not.
pub open spec fn weighed(weigh: bool, bytes: nat) -> nat {
    if weigh {
        bytes
    } else {
        0
    }
}

/// Run a list of arrivals of one kind through the dedup state. Returns
/// the messages that were taken up, in order, and counts the others as
/// duplicates, with their bytes where `weigh` is set.
pub fn absorb(
    state: &mut NodeState,
    kind: SketchKind,
    gs: &[Gossip],
    weigh: bool,
    metrics: &mut PerNodeMetrics,
) -> (r: Vec<Gossip>)
    requires
        old(state).wf(),
        storable(kind, *old(state), gs@),
        old(metrics).duplicates + gs@.len() <= u64::MAX,
        old(metrics).duplicates_bytes + message::total_size(gs@) <= u64::MAX,
    ensures
        kind_replaced(
            *old(state),
            *final(state),
            kind,
            absorbed(kind, old(state).held(kind), gs@).held,
        ),
        r@ == absorbed(kind, old(state).held(kind), gs@).fresh,
        *final(metrics) == (PerNodeMetrics {
            duplicates: (old(metrics).duplicates + absorbed(
                kind,
                old(state).held(kind),
                gs@,
            ).duplicates) as u64,
            duplicates_bytes: (old(metrics).duplicates_bytes + weighed(
                weigh,
                absorbed(kind, old(state).held(kind), gs@).duplicate_bytes,
            )) as u64,
            ..*old(metrics)
        }),
{
    let mut fresh: Vec<Gossip> = Vec::new();
    let n: usize = gs.len();
    let ghost held0 = state.held(kind);
    let ghost m0 = *metrics;
    assert(gs@.take(0) =~= Seq::<Gossip>::empty());
    for i in 0..n
        invariant
            n == gs@.len(),
            held0 == old(state).held(kind),
            m0 == *old(metrics),
            storable(kind, *old(state), gs@),
            m0.duplicates + gs@.len() <= u64::MAX,
            m0.duplicates_bytes + message::total_size(gs@) <= u64::MAX,
            kind_replaced(
                *old(state),
                *state,
                kind,
                absorbed(kind, held0, gs@.take(i as int)).held,
            ),
            fresh@ == absorbed(kind, held0, gs@.take(i as int)).fresh,
            metrics.duplicates == m0.duplicates + absorbed(
                kind,
                held0,
                gs@.take(i as int),
            ).duplicates,
            metrics.duplicates_bytes == m0.duplicates_bytes + weighed(
                weigh,
                absorbed(kind, held0, gs@.take(i as int)).duplicate_bytes,
            ),
            *metrics == (PerNodeMetrics {
                duplicates: metrics.duplicates,
                duplicates_bytes: metrics.duplicates_bytes,
                ..m0
            }),
    {
        let g: Gossip = gs[i];
        proof {
            assert(gs@.take(i + 1).drop_last() =~= gs@.take(i as int));
            lemma_absorbed_bound(kind, held0, gs@.take(i as int));
            lemma_absorbed_bound(kind, held0, gs@.take(i + 1));
            message::lemma_total_size_prefix(gs@, i + 1);
            assert(keyed_for(kind, gs@[i as int]));
        }
        if take_up(state, kind, &g) {
            fresh.push(g);
        } else {
            metrics.duplicates = metrics.duplicates + 1;
            if weigh {
                metrics.duplicates_bytes = metrics.duplicates_bytes + g.size_bytes as u64;
            }
        }
    }
    assert(gs@.take(n as int) =~= gs@);
    fresh
}

/// The gossips of one kind that a message carries.
pub open spec fn carried(wire: WireMessage, kind: SketchKind) -> Seq<Gossip> {
    match wire {
        WireMessage::Single(g) => if SketchKind::of_gossip(g.kind) == kind {
            seq![g]
        } else {
            Seq::empty()
        },
        WireMessage::Batch(b) => b.slot(kind.gossip_kind()),
        WireMessage::Sketch(_) => Seq::empty(),
        WireMessage::Inventory(_) => Seq::empty(),
    }
}

/// What comes of the gossips of one kind when a message arrives.
pub open spec fn arrival(state: NodeState, wire: WireMessage, kind: SketchKind) -> Absorbed {
    absorbed(kind, state.held(kind), carried(wire, kind))
}

/// The gossips that are taken up when a message arrives, in the order in
/// which the kinds are taken.
pub open spec fn fresh_of(state: NodeState, wire: WireMessage, order: Seq<SketchKind>) -> Seq<
    Gossip,
>
    decreases order.len(),
{
    if order.len() == 0 {
        Seq::empty()
    } else {
        fresh_of(state, wire, order.drop_last()) + arrival(state, wire, order.last()).fresh
    }
}

/// Channel updates before node and channel announcements.
pub open spec fn updates_first() -> Seq<SketchKind> {
    seq![SketchKind::ChanUpdates, SketchKind::NodeAnns, SketchKind::ChanAnns]
}

/// Channel announcements before channel updates and node announcements.
pub open spec fn announcements_first() -> Seq<SketchKind> {
    seq![SketchKind::ChanAnns, SketchKind::ChanUpdates, SketchKind::NodeAnns]
}

/// How many gossips of a message are duplicates.
pub open spec fn duplicates_of(state: NodeState, wire: WireMessage) -> nat {
    arrival(state, wire, SketchKind::ChanUpdates).duplicates + arrival(
        state,
        wire,
        SketchKind::NodeAnns,
    ).duplicates + arrival(state, wire, SketchKind::ChanAnns).duplicates
}

/// The bytes of a message's duplicate gossips.
pub open spec fn duplicate_bytes_of(state: NodeState, wire: WireMessage) -> nat {
    arrival(state, wire, SketchKind::ChanUpdates).duplicate_bytes + arrival(
        state,
        wire,
        SketchKind::NodeAnns,
    ).duplicate_bytes + arrival(state, wire, SketchKind::ChanAnns).duplicate_bytes
}

/// Every gossip of the message can be stored by `state`.
pub open spec fn receivable(state: NodeState, wire: WireMessage) -> bool {
    forall|kind: SketchKind| #[trigger] storable(kind, state, carried(wire, kind))
}

/// Whether every gossip of a list can be stored.
fn can_store(state: &NodeState, kind: SketchKind, gs: &[Gossip]) -> (r: bool)
    ensures
        r == storable(kind, *state, gs@),
{
    for i in 0..gs.len()
        invariant
            storable(kind, *state, gs@.take(i as int)),
    {
        let g: Gossip = gs[i];
        let key: Option<u64> = match kind {
            SketchKind::ChanUpdates => match g.scid {
                Some(scid) => Some(keys::pack_cu_key(scid, g.direction)),
                None => None,
            },
            SketchKind::NodeAnns => g.origin,
            SketchKind::ChanAnns => g.scid,
        };
        let known: bool = match key {
            Some(k) => state.knows(kind, k),
            None => false,
        };
        assert(known == (keyed_for(kind, gs@[i as int]) && state.universe(kind).contains(
            key_for(kind, gs@[i as int]),
        )));
        if !known {
            return false;
        }
        assert(gs@.take(i + 1) =~= gs@.take(i as int).push(g));
    }
    assert(gs@.take(gs@.len() as int) =~= gs@);
    true
}

/// Whether a node can store everything that a message carries: see
/// [`receivable`].
pub fn can_receive(state: &NodeState, wire: &WireMessage) -> (r: bool)
    ensures
        r == receivable(*state, *wire),
{
    let r: bool = match wire {
        WireMessage::Single(g) => {
            let one: Vec<Gossip> = vec![*g];
            assert(one@ =~= seq![*g]);
            can_store(state, SketchKind::from_gossip(g.kind), one.as_slice())
        },
        WireMessage::Batch(b) => can_store(
            state,
            SketchKind::ChanUpdates,
            b.chan_updates.as_slice(),
        ) && can_store(state, SketchKind::NodeAnns, b.node_anns.as_slice()) && can_store(
            state,
            SketchKind::ChanAnns,
            b.chan_anns.as_slice(),
        ),
        WireMessage::Sketch(_) => true,
        WireMessage::Inventory(_) => true,
    };
    proof {
        let u = storable(
            SketchKind::ChanUpdates,
            *state,
            carried(*wire, SketchKind::ChanUpdates),
        );
        let n = storable(SketchKind::NodeAnns, *state, carried(*wire, SketchKind::NodeAnns));
        let c = storable(SketchKind::ChanAnns, *state, carried(*wire, SketchKind::ChanAnns));
        assert(r == (u && n && c));
    }
    r
}

/// Whether a node with the given id can store a message that it
/// originates.
pub fn can_originate(state: &NodeState, id: NodeId, msg: &Gossip) -> (r: bool)
    ensures
        r == ((msg.kind == GossipKind::NodeAnnouncement || msg.is_keyed()) && state.universe(
            SketchKind::of_gossip(msg.kind),
        ).contains(state::origin_key(*msg, id))),
{
    match msg.kind {
        GossipKind::NodeAnnouncement => state.knows(SketchKind::NodeAnns, id),
        GossipKind::ChannelUpdate => match msg.scid {
            Some(scid) => state.knows(
                SketchKind::ChanUpdates,
                keys::pack_cu_key(scid, msg.direction),
            ),
            None => false,
        },
        GossipKind::ChannelAnnouncement => match msg.scid {
            Some(scid) => state.knows(SketchKind::ChanAnns, scid),
            None => false,
        },
    }
}

/// `new_state` is what `old_state` becomes when a message arrives.
pub open spec fn state_received(
    old_state: NodeState,
    new_state: NodeState,
    wire: WireMessage,
) -> bool {
    &&& new_state.wf()
    &&& new_state.idx == old_state.idx
    &&& new_state.shares_keys(&old_state)
    &&& forall|kind: SketchKind| #[trigger]
        new_state.held(kind) == arrival(old_state, wire, kind).held
}

/// Split of a message's gossips by kind, in number and size.
proof fn lemma_carried_totals(wire: WireMessage)
    ensures
        carried(wire, SketchKind::ChanUpdates).len() + carried(wire, SketchKind::NodeAnns).len()
            + carried(wire, SketchKind::ChanAnns).len() == wire.gossips().len(),
        message::total_size(carried(wire, SketchKind::ChanUpdates)) + message::total_size(
            carried(wire, SketchKind::NodeAnns),
        ) + message::total_size(carried(wire, SketchKind::ChanAnns)) == message::total_size(
            wire.gossips(),
        ),
{
    match wire {
        WireMessage::Single(g) => {
            assert(seq![g].drop_last() =~= Seq::<Gossip>::empty());
        },
        WireMessage::Batch(b) => {
            message::lemma_total_size_add(b.chan_updates@ + b.node_anns@, b.chan_anns@);
            message::lemma_total_size_add(b.chan_updates@, b.node_anns@);
        },
        WireMessage::Sketch(_) => {},
        WireMessage::Inventory(_) => {},
    }
}

/// Run the gossips of a message through the dedup state, kind by kind.
/// Returns those that were taken up.
pub(crate) fn absorb_wire(
    state: &mut NodeState,
    wire: &WireMessage,
    anns_first: bool,
    weigh: bool,
    metrics: &mut PerNodeMetrics,
) -> (r: Vec<Gossip>)
    requires
        old(state).wf(),
        receivable(*old(state), *wire),
        old(metrics).duplicates + wire.gossips().len() <= u64::MAX,
        old(metrics).duplicates_bytes + message::total_size(wire.gossips()) <= u64::MAX,
    ensures
        state_received(*old(state), *final(state), *wire),
        r@ == fresh_of(
            *old(state),
            *wire,
            if anns_first {
                announcements_first()
            } else {
                updates_first()
            },
        ),
        *final(metrics) == (PerNodeMetrics {
            duplicates: (old(metrics).duplicates + duplicates_of(*old(state), *wire)) as u64,
            duplicates_bytes: (old(metrics).duplicates_bytes + weighed(
                weigh,
                duplicate_bytes_of(*old(state), *wire),
            )) as u64,
            ..*old(metrics)
        }),
{
    let ghost s0 = *state;
    let ghost cu = carried(*wire, SketchKind::ChanUpdates);
    let ghost na = carried(*wire, SketchKind::NodeAnns);
    let ghost ca = carried(*wire, SketchKind::ChanAnns);
    proof {
        lemma_carried_totals(*wire);
        lemma_absorbed_bound(SketchKind::ChanUpdates, s0.held(SketchKind::ChanUpdates), cu);
        lemma_absorbed_bound(SketchKind::NodeAnns, s0.held(SketchKind::NodeAnns), na);
        lemma_absorbed_bound(SketchKind::ChanAnns, s0.held(SketchKind::ChanAnns), ca);
        lemma_fresh_orders(s0, *wire);
        assert(storable(SketchKind::ChanUpdates, s0, cu));
        assert(storable(SketchKind::NodeAnns, s0, na));
        assert(storable(SketchKind::ChanAnns, s0, ca));
    }
    match wire {
        WireMessage::Single(g) => {
            let mut one: Vec<Gossip> = Vec::new();
            one.push(*g);
            let kind = SketchKind::from_gossip(g.kind);
            assert(one@ =~= carried(*wire, kind));
            let fresh = absorb(state, kind, one.as_slice(), weigh, metrics);
            proof {
                assert forall|k: SketchKind| #[trigger] state.held(k) == arrival(
                    s0,
                    *wire,
                    k,
                ).held by {}
                assert(fresh@ =~= arrival(s0, *wire, SketchKind::ChanUpdates).fresh + arrival(
                    s0,
                    *wire,
                    SketchKind::NodeAnns,
                ).fresh + arrival(s0, *wire, SketchKind::ChanAnns).fresh);
                assert(fresh@ =~= arrival(s0, *wire, SketchKind::ChanAnns).fresh + arrival(
                    s0,
                    *wire,
                    SketchKind::ChanUpdates,
                ).fresh + arrival(s0, *wire, SketchKind::NodeAnns).fresh);
            }
            fresh
        },
        WireMessage::Batch(b) => {
            let mut fresh: Vec<Gossip> = Vec::new();
            if anns_first {
                let mut f = absorb(
                    state,
                    SketchKind::ChanAnns,
                    b.chan_anns.as_slice(),
                    weigh,
                    metrics,
                );
                fresh.append(&mut f);
            }
            let mut f_cu = absorb(
                state,
                SketchKind::ChanUpdates,
                b.chan_updates.as_slice(),
                weigh,
                metrics,
            );
            fresh.append(&mut f_cu);
            let mut f_na = absorb(
                state,
                SketchKind::NodeAnns,
                b.node_anns.as_slice(),
                weigh,
                metrics,
            );
            fresh.append(&mut f_na);
            if !anns_first {
                let mut f = absorb(
                    state,
                    SketchKind::ChanAnns,
                    b.chan_anns.as_slice(),
                    weigh,
                    metrics,
                );
                fresh.append(&mut f);
            }
            proof {
                assert forall|k: SketchKind| #[trigger] state.held(k) == arrival(
                    s0,
                    *wire,
                    k,
                ).held by {}
                assert(fresh@ =~= if anns_first {
                    arrival(s0, *wire, SketchKind::ChanAnns).fresh + arrival(
                        s0,
                        *wire,
                        SketchKind::ChanUpdates,
                    ).fresh + arrival(s0, *wire, SketchKind::NodeAnns).fresh
                } else {
                    arrival(s0, *wire, SketchKind::ChanUpdates).fresh + arrival(
                        s0,
                        *wire,
                        SketchKind::NodeAnns,
                    ).fresh + arrival(s0, *wire, SketchKind::ChanAnns).fresh
                });
            }
            fresh
        },
        WireMessage::Sketch(_) => {
            proof {
                assert forall|k: SketchKind| #[trigger] state.held(k) == arrival(
                    s0,
                    *wire,
                    k,
                ).held by {}
            }
            Vec::new()
        },
        WireMessage::Inventory(_) => {
            proof {
                assert forall|k: SketchKind| #[trigger] state.held(k) == arrival(
                    s0,
                    *wire,
                    k,
                ).held by {}
            }
            Vec::new()
        },
    }
}

proof fn lemma_fresh_orders(s: NodeState, wire: WireMessage)
    ensures
        fresh_of(s, wire, updates_first()) == arrival(s, wire, SketchKind::ChanUpdates).fresh
            + arrival(s, wire, SketchKind::NodeAnns).fresh + arrival(
            s,
            wire,
            SketchKind::ChanAnns,
        ).fresh,
        fresh_of(s, wire, announcements_first()) == arrival(s, wire, SketchKind::ChanAnns).fresh
            + arrival(s, wire, SketchKind::ChanUpdates).fresh + arrival(
            s,
            wire,
            SketchKind::NodeAnns,
        ).fresh,
{
    let u = updates_first();
    let a = announcements_first();
    reveal_with_fuel(fresh_of, 4);
    assert(u.drop_last() =~= seq![SketchKind::ChanUpdates, SketchKind::NodeAnns]);
    assert(u.drop_last().drop_last() =~= seq![SketchKind::ChanUpdates]);
    assert(u.drop_last().drop_last().drop_last() =~= Seq::<SketchKind>::empty());
    assert(a.drop_last() =~= seq![SketchKind::ChanAnns, SketchKind::ChanUpdates]);
    assert(a.drop_last().drop_last() =~= seq![SketchKind::ChanAnns]);
    assert(a.drop_last().drop_last().drop_last() =~= Seq::<SketchKind>::empty());
    assert(fresh_of(s, wire, u) =~= arrival(s, wire, SketchKind::ChanUpdates).fresh + arrival(
        s,
        wire,
        SketchKind::NodeAnns,
    ).fresh + arrival(s, wire, SketchKind::ChanAnns).fresh);
    assert(fresh_of(s, wire, a) =~= arrival(s, wire, SketchKind::ChanAnns).fresh + arrival(
        s,
        wire,
        SketchKind::ChanUpdates,
    ).fresh + arrival(s, wire, SketchKind::NodeAnns).fresh);
}

/// The first sightings of a list of messages at one time.
pub open spec fn sightings(gs: Seq<Gossip>, now_ns: u64) -> Seq<FirstSeenEntry> {
    gs.map_values(|g: Gossip| FirstSeenEntry { gossip: g, time_ns: now_ns })
}

/// Buffer the first sightings of messages that were taken up.
pub fn record_first_seen(metrics: &mut PerNodeMetrics, gs: &[Gossip], now_ns: u64)
    ensures
        final(metrics).first_seen_pending@ == old(metrics).first_seen_pending@ + sightings(
            gs@,
            now_ns,
        ),
        *final(metrics) == (PerNodeMetrics {
            first_seen_pending: final(metrics).first_seen_pending,
            ..*old(metrics)
        }),
{
    let n: usize = gs.len();
    for i in 0..n
        invariant
            n == gs@.len(),
            metrics.first_seen_pending@ == old(metrics).first_seen_pending@ + sightings(
                gs@.take(i as int),
                now_ns,
            ),
            *metrics == (PerNodeMetrics {
                first_seen_pending: metrics.first_seen_pending,
                ..*old(metrics)
            }),
    {
        assert(gs@.take(i + 1) =~= gs@.take(i as int).push(gs@[i as int]));
        metrics.first_seen_pending.push(FirstSeenEntry { gossip: gs[i], time_ns: now_ns });
        assert(metrics.first_seen_pending@ =~= old(metrics).first_seen_pending@ + sightings(
            gs@.take(i + 1),
            now_ns,
        ));
    }
    assert(gs@.take(n as int) =~= gs@);
}

/// The gossips of a message account for its bytes.
pub(crate) proof fn lemma_gossip_bytes(wire: WireMessage)
    ensures
        wire is Single || wire is Batch ==> message::total_size(wire.gossips()) == wire.bytes(),
        wire is Sketch || wire is Inventory ==> message::total_size(wire.gossips()) == 0,
{
    reveal_with_fuel(message::total_size, 2);
    if let WireMessage::Single(g) = wire {
        assert(seq![g].drop_last() =~= Seq::<Gossip>::empty());
    }
}

/// Count `bytes` sent to each of `n_peers` peers.
pub(crate) fn count_broadcast(metrics: &mut PerNodeMetrics, bytes: u64, n_peers: usize)
    requires
        old(metrics).bytes_out_gossip + bytes * n_peers <= u64::MAX,
    ensures
        *final(metrics) == (PerNodeMetrics {
            bytes_out_gossip: (old(metrics).bytes_out_gossip + bytes * n_peers) as u64,
            ..*old(metrics)
        }),
{
    assert(bytes * n_peers <= u64::MAX);
    metrics.bytes_out_gossip = metrics.bytes_out_gossip + bytes * n_peers as u64;
}

/// Append gossips to a queue.
pub(crate) fn enqueue(queue: &mut Vec<Gossip>, gs: &[Gossip])
    ensures
        final(queue)@ == old(queue)@ + gs@,
{
    let n: usize = gs.len();
    for i in 0..n
        invariant
            n == gs@.len(),
            queue@ == old(queue)@ + gs@.take(i as int),
    {
        queue.push(gs[i]);
        assert(queue@ =~= old(queue)@ + gs@.take(i + 1));
    }
    assert(gs@.take(n as int) =~= gs@);
}

/// Whether the buffer of first sightings is full enough to flush early.
pub fn wants_early_flush(metrics: &PerNodeMetrics) -> (r: bool)
    ensures
        r == (metrics.first_seen_pending@.len() >= FIRST_SEEN_FORCE_FLUSH),
{
    metrics.first_seen_pending.len() >= FIRST_SEEN_FORCE_FLUSH
}

// ---------------------------------------------------------------------
// Laws
// ---------------------------------------------------------------------

/// What is held after a list of arrivals: nothing is forgotten or goes
/// back in time, every arrival is held at its timestamp or a later one,
/// and what is held was held before or has arrived.
pub proof fn absorbed_state(kind: SketchKind, held: Map<u64, u32>, gs: Seq<Gossip>)
    ensures
        ({
            let after = absorbed(kind, held, gs).held;
            &&& forall|k: u64| #[trigger]
                held.contains_key(k) ==> after.contains_key(k) && after[k] >= held[k]
            &&& forall|i: int|
                0 <= i < gs.len() ==> after.contains_key(key_for(kind, #[trigger] gs[i]))
                    && after[key_for(kind, gs[i])] >= stored_ts(kind, gs[i])
            &&& forall|k: u64| #[trigger]
                after.contains_key(k) ==> (held.contains_key(k) && after[k] == held[k]) || exists|
                    i: int,
                |
                    0 <= i < gs.len() && key_for(kind, #[trigger] gs[i]) == k && stored_ts(
                        kind,
                        gs[i],
                    ) == after[k]
        }),
    decreases gs.len(),
{
    if gs.len() > 0 {
        let init = gs.drop_last();
        let g = gs.last();
        absorbed_state(kind, held, init);
        let before = absorbed(kind, held, init).held;
        let after = absorbed(kind, held, gs).held;
        assert forall|i: int| 0 <= i < gs.len() implies after.contains_key(
            key_for(kind, #[trigger] gs[i]),
        ) && after[key_for(kind, gs[i])] >= stored_ts(kind, gs[i]) by {
            if i < init.len() {
                assert(init[i] == gs[i]);
            }
        }
        assert forall|k: u64| #[trigger] after.contains_key(k) implies (held.contains_key(k)
            && after[k] == held[k]) || exists|i: int|
            0 <= i < gs.len() && key_for(kind, #[trigger] gs[i]) == k && stored_ts(kind, gs[i])
                == after[k] by {
            if is_fresh(kind, before, g) && k == key_for(kind, g) {
                assert(gs[gs.len() - 1] == g);
            } else {
                assert(before.contains_key(k));
                if !(held.contains_key(k) && before[k] == held[k]) {
                    let i = choose|i: int|
                        0 <= i < init.len() && key_for(kind, #[trigger] init[i]) == k && stored_ts(
                            kind,
                            init[i],
                        ) == before[k];
                    assert(gs[i] == init[i]);
                }
            }
        }
    }
}

/// What is held in the end does not depend on the order, or the number,
/// of arrivals of the same messages.
pub proof fn arrival_order_is_irrelevant(
    kind: SketchKind,
    held: Map<u64, u32>,
    gs: Seq<Gossip>,
    hs: Seq<Gossip>,
)
    requires
        gs.to_set() == hs.to_set(),
    ensures
        absorbed(kind, held, gs).held == absorbed(kind, held, hs).held,
{
    absorbed_state(kind, held, gs);
    absorbed_state(kind, held, hs);
    let x = absorbed(kind, held, gs).held;
    let y = absorbed(kind, held, hs).held;
    lemma_dominates(kind, held, gs, hs);
    lemma_dominates(kind, held, hs, gs);
    assert(x =~= y);
}

proof fn lemma_dominates(
    kind: SketchKind,
    held: Map<u64, u32>,
    gs: Seq<Gossip>,
    hs: Seq<Gossip>,
)
    requires
        gs.to_set() == hs.to_set(),
    ensures
        forall|k: u64| #[trigger]
            absorbed(kind, held, gs).held.contains_key(k) ==> absorbed(
                kind,
                held,
                hs,
            ).held.contains_key(k) && absorbed(kind, held, hs).held[k] >= absorbed(
                kind,
                held,
                gs,
            ).held[k],
{
    absorbed_state(kind, held, gs);
    absorbed_state(kind, held, hs);
    let x = absorbed(kind, held, gs).held;
    let y = absorbed(kind, held, hs).held;
    assert forall|k: u64| #[trigger] x.contains_key(k) implies y.contains_key(k) && y[k]
        >= x[k] by {
        if !(held.contains_key(k) && x[k] == held[k]) {
            let i = choose|i: int|
                0 <= i < gs.len() && key_for(kind, #[trigger] gs[i]) == k && stored_ts(kind, gs[i])
                    == x[k];
            assert(gs.to_set().contains(gs[i]));
            assert(hs.contains(gs[i]));
            let j = hs.index_of(gs[i]);
            assert(hs[j] == gs[i]);
        }
    }
}

/// Messages that have arrived are not taken up again: absorbing the same
/// list a second time finds only duplicates and changes nothing.
pub proof fn second_arrival_is_duplicate(kind: SketchKind, held: Map<u64, u32>, gs: Seq<Gossip>)
    ensures
        ({
            let after = absorbed(kind, held, gs).held;
            &&& absorbed(kind, after, gs).held == after
            &&& absorbed(kind, after, gs).fresh.len() == 0
            &&& absorbed(kind, after, gs).duplicates == gs.len()
        }),
{
    absorbed_state(kind, held, gs);
    lemma_stale_list(kind, absorbed(kind, held, gs).held, gs);
    lemma_absorbed_bound(kind, absorbed(kind, held, gs).held, gs);
}

proof fn lemma_stale_list(kind: SketchKind, held: Map<u64, u32>, gs: Seq<Gossip>)
    requires
        forall|i: int|
            0 <= i < gs.len() ==> held.contains_key(key_for(kind, #[trigger] gs[i]))
                && held[key_for(kind, gs[i])] >= stored_ts(kind, gs[i]),
    ensures
        absorbed(kind, held, gs).held == held,
        absorbed(kind, held, gs).fresh.len() == 0,
    decreases gs.len(),
{
    if gs.len() > 0 {
        assert forall|i: int| 0 <= i < gs.drop_last().len() implies held.contains_key(
            key_for(kind, #[trigger] gs.drop_last()[i]),
        ) && held[key_for(kind, gs.drop_last()[i])] >= stored_ts(kind, gs.drop_last()[i]) by {
            assert(gs.drop_last()[i] == gs[i]);
        }
        lemma_stale_list(kind, held, gs.drop_last());
        assert(gs[gs.len() - 1] == gs.last());
    }
}

/// The newer of two states, key by key.
pub open spec fn merged(a: Map<u64, u32>, b: Map<u64, u32>) -> Map<u64, u32> {
    Map::new(
        |k: u64| a.contains_key(k) || b.contains_key(k),
        |k: u64|
            if a.contains_key(k) && (!b.contains_key(k) || a[k] > b[k]) {
                a[k]
            } else {
                b[k]
            },
    )
}

/// One reconciliation brings the receiver of the reply up to date: once
/// `b` has taken in the messages that are newer on `a`'s side, it holds
/// for every key the newer of what the two held.
pub proof fn reply_brings_peer_up_to_date(
    a: &NodeState,
    b: &NodeState,
    kind: SketchKind,
    walked_first: bool,
)
    requires
        a.wf(),
        b.wf(),
        a.shares_keys(b),
    ensures
        absorbed(
            kind,
            b.held(kind),
            a.gossips_at(
                kind,
                state::newer_order(walked_first, a.slots(kind), b.slots(kind)),
            ),
        ).held == merged(a.held(kind), b.held(kind)),
{
    let ha = a.held(kind);
    let hb = b.held(kind);
    let at = state::newer_order(walked_first, a.slots(kind), b.slots(kind));
    let msgs = a.gossips_at(kind, at);
    let after = absorbed(kind, hb, msgs).held;
    let ahead = |k: u64| ha.contains_key(k) && (!hb.contains_key(k) || ha[k] > hb[k]);
    a.lemma_held(kind);
    state::newer_messages_are_exact(a, b, kind, walked_first);
    absorbed_state(kind, hb, msgs);
    assert forall|j: int| 0 <= j < msgs.len() implies {
        &&& key_for(kind, #[trigger] msgs[j]) == a.keys(kind)[at[j]]
        &&& ahead(a.keys(kind)[at[j]])
        &&& stored_ts(kind, msgs[j]) == ha[a.keys(kind)[at[j]]]
    } by {
        let k = a.keys(kind)[at[j]];
        assert(ahead(k));
        state::synthesised_matches_entry(kind, k, ha[k], a.size(kind, at[j], ha[k]));
    }
    assert forall|k: u64| #[trigger] merged(ha, hb).contains_key(k) implies after.contains_key(k)
        && after[k] == merged(ha, hb)[k] by {
        if ahead(k) {
            let i = a.position(kind, k);
            assert(at.contains(i));
            let j = at.index_of(i);
            assert(a.universe(kind).contains(k));
            assert(a.keys(kind)[at[j]] == k);
            assert(key_for(kind, msgs[j]) == k);
            assert(after[k] >= ha[k]);
            if !(hb.contains_key(k) && after[k] == hb[k]) {
                let m = choose|m: int|
                    0 <= m < msgs.len() && key_for(kind, #[trigger] msgs[m]) == k && stored_ts(
                        kind,
                        msgs[m],
                    ) == after[k];
                assert(a.keys(kind)[at[m]] == k);
            }
        } else {
            assert(hb.contains_key(k));
            if after[k] != hb[k] {
                let m = choose|m: int|
                    0 <= m < msgs.len() && key_for(kind, #[trigger] msgs[m]) == k && stored_ts(
                        kind,
                        msgs[m],
                    ) == after[k];
                assert(ahead(a.keys(kind)[at[m]]));
            }
        }
    }
    assert forall|k: u64| #[trigger] after.contains_key(k) implies merged(ha, hb).contains_key(
        k,
    ) by {
        if !hb.contains_key(k) {
            let m = choose|m: int|
                0 <= m < msgs.len() && key_for(kind, #[trigger] msgs[m]) == k && stored_ts(
                    kind,
                    msgs[m],
                ) == after[k];
            assert(ahead(a.keys(kind)[at[m]]));
        }
    }
    assert(after =~= merged(ha, hb));
}

/// Merging does not depend on the side, so two nodes that have each taken
/// in what is newer at the other hold the same.
pub proof fn both_replies_make_peers_equal(a: &NodeState, b: &NodeState, kind: SketchKind)
    requires
        a.wf(),
        b.wf(),
        a.shares_keys(b),
    ensures
        absorbed(
            kind,
            b.held(kind),
            a.gossips_at(
                kind,
                state::newer_order(a.idx <= b.idx, a.slots(kind), b.slots(kind)),
            ),
        ).held == absorbed(
            kind,
            a.held(kind),
            b.gossips_at(
                kind,
                state::newer_order(b.idx < a.idx, b.slots(kind), a.slots(kind)),
            ),
        ).held,
{
    reply_brings_peer_up_to_date(a, b, kind, a.idx <= b.idx);
    reply_brings_peer_up_to_date(b, a, kind, b.idx < a.idx);
    assert(merged(a.held(kind), b.held(kind)) =~= merged(b.held(kind), a.held(kind)));
}

/// What a message is stored under: a channel update under its channel and
/// side, a node announcement under its node, a channel announcement under
/// its channel. Two messages are stored in one place only where they are
/// about the same thing. A channel announcement has no version.
pub proof fn messages_are_stored_by_subject(a: Gossip, b: Gossip)
    requires
        a.scid matches Some(s) ==> s < 0x8000_0000_0000_0000,
        b.scid matches Some(s) ==> s < 0x8000_0000_0000_0000,
        a.direction <= 1,
        b.direction <= 1,
    ensures
        a.scid matches Some(s) ==> key_for(SketchKind::ChanUpdates, a) == 2 * s + a.direction,
        a.scid matches Some(s) ==> key_for(SketchKind::ChanAnns, a) == s,
        a.origin matches Some(v) ==> key_for(SketchKind::NodeAnns, a) == v,
        a.scid is Some && b.scid is Some ==> (key_for(SketchKind::ChanUpdates, a) == key_for(
            SketchKind::ChanUpdates,
            b,
        ) <==> a.scid == b.scid && a.direction == b.direction),
        stored_ts(SketchKind::ChanUpdates, a) == a.timestamp,
        stored_ts(SketchKind::NodeAnns, a) == a.timestamp,
        stored_ts(SketchKind::ChanAnns, a) == 0,
        keyed_for(SketchKind::ChanUpdates, a) <==> a.scid is Some,
        keyed_for(SketchKind::ChanAnns, a) <==> a.scid is Some,
        keyed_for(SketchKind::NodeAnns, a) <==> a.origin is Some,
{
}

/// Whether the message at `i` is news: it is newer than what was held of
/// its subject, and than every earlier arrival on the same subject.
pub open spec fn is_news(kind: SketchKind, held: Map<u64, u32>, gs: Seq<Gossip>, i: int) -> bool {
    let key = key_for(kind, gs[i]);
    &&& held.contains_key(key) ==> held[key] < stored_ts(kind, gs[i])
    &&& forall|j: int|
        0 <= j < i && key_for(kind, #[trigger] gs[j]) == key ==> stored_ts(kind, gs[j])
            < stored_ts(kind, gs[i])
}

/// The messages of `gs` at the given positions.
pub open spec fn at_positions(gs: Seq<Gossip>, at: Seq<int>) -> Seq<Gossip> {
    Seq::new(at.len(), |j: int| gs[at[j]])
}

/// Whether `at` lists exactly the positions below `n` that satisfy `p`,
/// in their order.
pub open spec fn lists_positions(at: Seq<int>, n: nat, p: spec_fn(int) -> bool) -> bool {
    &&& forall|j: int| 0 <= j < at.len() ==> 0 <= #[trigger] at[j] < n && p(at[j])
    &&& forall|j: int, m: int| 0 <= j < m < at.len() ==> #[trigger] at[j] < #[trigger] at[m]
    &&& forall|i: int| 0 <= i < n && p(i) ==> #[trigger] at.contains(i)
}

proof fn lemma_lists_push(at: Seq<int>, n: nat, p: spec_fn(int) -> bool)
    requires
        lists_positions(at, n, p),
    ensures
        p(n as int) ==> lists_positions(at.push(n as int), n + 1, p),
        !p(n as int) ==> lists_positions(at, n + 1, p),
{
    let next = at.push(n as int);
    if p(n as int) {
        assert forall|i: int| 0 <= i < n + 1 && p(i) implies #[trigger] next.contains(i) by {
            if i < n {
                assert(at.contains(i));
                let j = at.index_of(i);
                assert(next[j] == i);
            } else {
                assert(next[at.len() as int] == i);
            }
        }
    }
}

/// The messages taken up are the arrivals that are news, each unchanged
/// and in the order of arrival. All others are duplicates, counted one by
/// one and with all their bytes, and nothing is lost in between.
pub proof fn fresh_are_the_news_among_the_arrivals(
    kind: SketchKind,
    held: Map<u64, u32>,
    gs: Seq<Gossip>,
) -> (r: (Seq<int>, Seq<int>))
    ensures
        ({
            let (news, stale) = r;
            let out = absorbed(kind, held, gs);
            &&& lists_positions(news, gs.len(), |i: int| is_news(kind, held, gs, i))
            &&& lists_positions(stale, gs.len(), |i: int| !is_news(kind, held, gs, i))
            &&& out.fresh == at_positions(gs, news)
            &&& out.duplicates == stale.len()
            &&& out.duplicate_bytes == message::total_size(at_positions(gs, stale))
            &&& gs.to_multiset() == out.fresh.to_multiset().add(
                at_positions(gs, stale).to_multiset(),
            )
        }),
    decreases gs.len(),
{
    broadcast use vstd::seq_lib::group_to_multiset_ensures;

    let p = |i: int| is_news(kind, held, gs, i);
    let q = |i: int| !is_news(kind, held, gs, i);
    if gs.len() == 0 {
        let none = Seq::<int>::empty();
        assert(at_positions(gs, none) =~= gs);
        assert(absorbed(kind, held, gs).fresh =~= gs);
        assert(gs.to_multiset() =~= gs.to_multiset().add(gs.to_multiset()));
        (none, none)
    } else {
        let init = gs.drop_last();
        let g = gs.last();
        let last = init.len() as int;
        let (news, stale) = fresh_are_the_news_among_the_arrivals(kind, held, init);
        let before = absorbed(kind, held, init);
        let pi = |i: int| is_news(kind, held, init, i);
        let qi = |i: int| !is_news(kind, held, init, i);
        assert forall|i: int| 0 <= i < last implies is_news(kind, held, gs, i) == is_news(
            kind,
            held,
            init,
            i,
        ) by {
            assert(forall|j: int| 0 <= j <= i ==> gs[j] == #[trigger] init[j]);
            assert(forall|j: int| 0 <= j <= i ==> #[trigger] gs[j] == init[j]);
        }
        assert(lists_positions(news, init.len(), p)) by {
            assert forall|i: int| 0 <= i < init.len() && p(i) implies #[trigger] news.contains(
                i,
            ) by {
                assert(pi(i));
            }
            assert forall|j: int| 0 <= j < news.len() implies 0 <= #[trigger] news[j] < init.len()
                && p(news[j]) by {
                assert(pi(news[j]));
            }
        }
        assert(lists_positions(stale, init.len(), q)) by {
            assert forall|i: int| 0 <= i < init.len() && q(i) implies #[trigger] stale.contains(
                i,
            ) by {
                assert(qi(i));
            }
            assert forall|j: int| 0 <= j < stale.len() implies 0 <= #[trigger] stale[j]
                < init.len() && q(stale[j]) by {
                assert(qi(stale[j]));
            }
        }
        absorbed_state(kind, held, init);
        assert(is_fresh(kind, before.held, g) == is_news(kind, held, gs, last)) by {
            let key = key_for(kind, g);
            assert(gs[last] == g);
            assert(forall|j: int| 0 <= j < last ==> #[trigger] gs[j] == init[j]);
            if is_fresh(kind, before.held, g) {
                assert forall|j: int|
                    0 <= j < last && key_for(kind, #[trigger] gs[j]) == key implies stored_ts(
                    kind,
                    gs[j],
                ) < stored_ts(kind, gs[last]) by {
                    assert(init[j] == gs[j]);
                }
            } else if is_news(kind, held, gs, last) {
                assert(before.held.contains_key(key));
                if !(held.contains_key(key) && before.held[key] == held[key]) {
                    let i = choose|i: int|
                        0 <= i < init.len() && key_for(kind, #[trigger] init[i]) == key
                            && stored_ts(kind, init[i]) == before.held[key];
                    assert(gs[i] == init[i]);
                }
            }
        }
        lemma_lists_push(news, init.len(), p);
        lemma_lists_push(stale, init.len(), q);
        assert(at_positions(gs, news) =~= at_positions(init, news));
        assert(at_positions(gs, stale) =~= at_positions(init, stale));
        assert(gs =~= init.push(g));
        assert(gs.to_multiset() =~= init.to_multiset().insert(g));
        if p(last) {
            let more = news.push(last);
            assert(at_positions(gs, more) =~= at_positions(gs, news).push(g));
            assert(gs.to_multiset() =~= absorbed(kind, held, gs).fresh.to_multiset().add(
                at_positions(gs, stale).to_multiset(),
            ));
            (more, stale)
        } else {
            let more = stale.push(last);
            assert(at_positions(gs, more) =~= at_positions(gs, stale).push(g));
            assert(at_positions(gs, more).drop_last() =~= at_positions(gs, stale));
            assert(gs.to_multiset() =~= absorbed(kind, held, gs).fresh.to_multiset().add(
                at_positions(gs, more).to_multiset(),
            ));
            (news, more)
        }
    }
}

/// A peer is found at the last of the ports that lead to it.
pub proof fn peer_is_found_at_its_last_port(ids: Seq<NodeId>, id: NodeId, i: int)
    requires
        0 <= i < ids.len(),
        ids[i] == id,
        forall|j: int| i < j < ids.len() ==> #[trigger] ids[j] != id,
    ensures
        last_position(ids, id) == Some(i),
    decreases ids.len(),
{
    if i < ids.len() - 1 {
        let init = ids.drop_last();
        assert(ids[ids.len() - 1] != id);
        assert forall|j: int| i < j < init.len() implies #[trigger] init[j] != id by {
            assert(init[j] == ids[j]);
        }
        peer_is_found_at_its_last_port(init, id, i);
    }
}

/// What is taken up of a wire message of each kind is looked for among
/// the messages of that kind that it carries, in their order.
pub proof fn wire_is_absorbed_kind_by_kind(state: NodeState, wire: WireMessage, kind: SketchKind)
    requires
        wire matches WireMessage::Batch(b) ==> b.partitioned(),
    ensures
        carried(wire, kind) == message::of_kind(wire.gossips(), kind.gossip_kind()),
        arrival(state, wire, kind) == absorbed(
            kind,
            state.held(kind),
            message::of_kind(wire.gossips(), kind.gossip_kind()),
        ),
{
    let k = kind.gossip_kind();
    match wire {
        WireMessage::Single(g) => {
            message::kinds_are_picked_in_order(seq![g], Seq::empty(), k);
            assert(carried(wire, kind) =~= message::of_kind(wire.gossips(), k));
        },
        WireMessage::Batch(b) => {
            message::kinds_are_picked_in_order(b.chan_updates@ + b.node_anns@, b.chan_anns@, k);
            message::kinds_are_picked_in_order(b.chan_updates@, b.node_anns@, k);
            lemma_all_of_kind(b.slot(GossipKind::ChannelUpdate), GossipKind::ChannelUpdate, k);
            lemma_all_of_kind(b.slot(GossipKind::NodeAnnouncement), GossipKind::NodeAnnouncement, k);
            lemma_all_of_kind(
                b.slot(GossipKind::ChannelAnnouncement),
                GossipKind::ChannelAnnouncement,
                k,
            );
            assert(carried(wire, kind) =~= message::of_kind(wire.gossips(), k));
        },
        WireMessage::Sketch(_) => {
            message::kinds_are_picked_in_order(Seq::empty(), Seq::empty(), k);
            assert(carried(wire, kind) =~= message::of_kind(wire.gossips(), k));
        },
        WireMessage::Inventory(_) => {
            message::kinds_are_picked_in_order(Seq::empty(), Seq::empty(), k);
            assert(carried(wire, kind) =~= message::of_kind(wire.gossips(), k));
        },
    }
}

proof fn lemma_all_of_kind(gs: Seq<Gossip>, kind: GossipKind, k: GossipKind)
    requires
        forall|i: int| 0 <= i < gs.len() ==> (#[trigger] gs[i]).kind == kind,
    ensures
        k == kind ==> message::of_kind(gs, k) == gs,
        k != kind ==> message::of_kind(gs, k).len() == 0,
    decreases gs.len(),
{
    reveal(Seq::filter);
    if gs.len() > 0 {
        lemma_all_of_kind(gs.drop_last(), kind, k);
        assert(gs[gs.len() - 1] == gs.last());
        if k == kind {
            assert(message::of_kind(gs, k) =~= gs);
        }
    } else {
        assert(message::of_kind(gs, k) =~= gs);
    }
}

/// Of what a wire message carries every message is either taken up or
/// counted as a duplicate, by number and by bytes. Updates are passed on
/// before node announcements and these before channel announcements; or
/// the channel announcements come first. Where duplicates are not
/// weighed their bytes are left out.
pub proof fn arrivals_are_taken_up_or_counted(state: NodeState, wire: WireMessage)
    ensures
        ({
            let cu = arrival(state, wire, SketchKind::ChanUpdates).fresh;
            let na = arrival(state, wire, SketchKind::NodeAnns).fresh;
            let ca = arrival(state, wire, SketchKind::ChanAnns).fresh;
            &&& fresh_of(state, wire, updates_first()) == cu + na + ca
            &&& fresh_of(state, wire, announcements_first()) == ca + cu + na
            &&& duplicates_of(state, wire) + cu.len() + na.len() + ca.len() == wire.gossips().len()
            &&& duplicate_bytes_of(state, wire) + message::total_size(cu + na + ca)
                == message::total_size(wire.gossips())
            &&& weighed(true, duplicate_bytes_of(state, wire)) + message::total_size(cu + na + ca)
                == message::total_size(wire.gossips())
            &&& weighed(false, duplicate_bytes_of(state, wire)) == 0
        }),
{
    let cu = arrival(state, wire, SketchKind::ChanUpdates).fresh;
    let na = arrival(state, wire, SketchKind::NodeAnns).fresh;
    let ca = arrival(state, wire, SketchKind::ChanAnns).fresh;
    lemma_fresh_orders(state, wire);
    lemma_carried_totals(wire);
    lemma_split(
        SketchKind::ChanUpdates,
        state.held(SketchKind::ChanUpdates),
        carried(wire, SketchKind::ChanUpdates),
    );
    lemma_split(
        SketchKind::NodeAnns,
        state.held(SketchKind::NodeAnns),
        carried(wire, SketchKind::NodeAnns),
    );
    lemma_split(
        SketchKind::ChanAnns,
        state.held(SketchKind::ChanAnns),
        carried(wire, SketchKind::ChanAnns),
    );
    message::lemma_total_size_add(cu + na, ca);
    message::lemma_total_size_add(cu, na);
}

proof fn lemma_split(kind: SketchKind, held: Map<u64, u32>, gs: Seq<Gossip>)
    ensures
        absorbed(kind, held, gs).duplicates + absorbed(kind, held, gs).fresh.len() == gs.len(),
        absorbed(kind, held, gs).duplicate_bytes + message::total_size(
            absorbed(kind, held, gs).fresh,
        ) == message::total_size(gs),
    decreases gs.len(),
{
    if gs.len() > 0 {
        let before = absorbed(kind, held, gs.drop_last()).fresh;
        lemma_split(kind, held, gs.drop_last());
        assert(before.push(gs.last()).drop_last() =~= before);
    }
}

/// Every message taken up is seen once, as it is, at the time given, in
/// the order in which it was taken up.
pub proof fn sightings_are_of_what_was_taken_up(gs: Seq<Gossip>, now_ns: u64)
    ensures
        sightings(gs, now_ns).len() == gs.len(),
        forall|i: int|
            0 <= i < gs.len() ==> (#[trigger] sightings(gs, now_ns)[i]).gossip == gs[i]
                && sightings(gs, now_ns)[i].time_ns == now_ns,
{
}

/// A node flushes once at the end of the run, and, where an interval is
/// set, from its phase on once per interval.
pub proof fn node_flushes_at_the_end(
    phase: SimDuration,
    interval: SimDuration,
    run_duration: SimDuration,
)
    ensures
        ({
            let timers = flush_timers(phase, interval, run_duration);
            &&& timers.last() == (Timer {
                first: run_duration,
                every: None,
                action: TimerAction::Flush,
            })
            &&& timers.len() == if interval.secs == 0 && interval.nanos == 0 {
                1nat
            } else {
                2nat
            }
            &&& timers.len() == 2 ==> timers[0] == (Timer {
                first: phase,
                every: Some(interval),
                action: TimerAction::Flush,
            })
        }),
{
}

/// A message that is received changes what is held of its own subject
/// and nothing else: the node, its keys and what it holds of any other
/// subject stay.
pub proof fn arrival_touches_its_own_subject(
    old_state: NodeState,
    new_state: NodeState,
    g: Gossip,
    kind: SketchKind,
    key: u64,
)
    requires
        state_received(old_state, new_state, WireMessage::Single(g)),
    ensures
        new_state.wf(),
        new_state.idx == old_state.idx,
        new_state.shares_keys(&old_state),
        kind != SketchKind::of_gossip(g.kind) || key != key_for(kind, g) ==> (
        new_state.held(kind).contains_key(key) <==> old_state.held(kind).contains_key(key)) && (
        old_state.held(kind).contains_key(key) ==> new_state.held(kind)[key] == old_state.held(
            kind,
        )[key]),
        kind == SketchKind::of_gossip(g.kind) ==> ({
            let own = key_for(kind, g);
            &&& new_state.held(kind).contains_key(own)
            &&& new_state.held(kind)[own] == if old_state.held(kind).contains_key(own)
                && old_state.held(kind)[own] > stored_ts(kind, g) {
                old_state.held(kind)[own]
            } else {
                stored_ts(kind, g)
            }
        }),
{
    let wire = WireMessage::Single(g);
    assert(new_state.held(kind) == arrival(old_state, wire, kind).held);
    reveal_with_fuel(absorbed, 2);
    if kind == SketchKind::of_gossip(g.kind) {
        assert(carried(wire, kind).drop_last() =~= Seq::<Gossip>::empty());
        assert(carried(wire, kind).last() == g);
    }
}

/// Taking in one kind leaves the others as they were.
pub proof fn other_kinds_are_left_alone(
    old_state: NodeState,
    new_state: NodeState,
    kind: SketchKind,
    held: Map<u64, u32>,
    other: SketchKind,
)
    requires
        kind_replaced(old_state, new_state, kind, held),
    ensures
        new_state.held(kind) == held,
        other != kind ==> new_state.held(other) == old_state.held(other),
        new_state.idx == old_state.idx,
        new_state.shares_keys(&old_state),
        new_state.wf(),
{
}

} // verus!
