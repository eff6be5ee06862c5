//! Schedules without chance: one message of every node, or of one node.

use vstd::prelude::*;

use super::EventSchedule;
use crate::channels;
use crate::channels::ChannelRegistry;
use crate::keys::ScheduledEvent;
use crate::message::{Direction, Gossip, GossipKind, NodeId, Scid};
use crate::time::SimDuration;

verus! {

/// Every node emits one message at `at`, on the first channel side that
/// it owns. Nodes without a channel are skipped.
pub struct OneShotAll {
    pub at: SimDuration,
    pub size_bytes: u16,
}

/// The node at position `node` emits one message at `at`, on the first
/// channel side that it owns; none where there is no such node or it owns
/// no channel.
pub struct OneShotSingle {
    pub node: usize,
    pub at: SimDuration,
    pub size_bytes: u16,
}

/// An update of a channel side, not yet stamped by its originator.
pub open spec fn unstamped_update(
    id: u64,
    side: (Scid, Direction),
    size_bytes: u16,
) -> Gossip {
    Gossip {
        id,
        origin: None,
        kind: GossipKind::ChannelUpdate,
        size_bytes,
        scid: Some(side.0),
        direction: side.1,
        timestamp: 0,
    }
}

/// The first side that a node owns.
pub open spec fn first_side(registry: &ChannelRegistry, node: NodeId) -> Option<(Scid, Direction)> {
    let owned = channels::owned_in(registry.rows@, node);
    if owned.len() > 0 {
        Some(owned[0])
    } else {
        None
    }
}

/// One event for each of the nodes that own a side, numbered in turn.
pub open spec fn one_each(
    s: OneShotAll,
    nodes: Seq<NodeId>,
    registry: &ChannelRegistry,
) -> Seq<ScheduledEvent>
    decreases nodes.len(),
{
    if nodes.len() == 0 {
        Seq::empty()
    } else {
        let before = one_each(s, nodes.drop_last(), registry);
        match first_side(registry, nodes.last()) {
            Some(side) => before.push(
                (s.at, nodes.last(), unstamped_update(before.len() as u64, side, s.size_bytes)),
            ),
            None => before,
        }
    }
}

/// Makes an update of a channel side.
fn make_update(id: u64, side: (Scid, Direction), size_bytes: u16) -> (r: Gossip)
    ensures
        r == unstamped_update(id, side, size_bytes),
{
    Gossip {
        id,
        origin: None,
        kind: GossipKind::ChannelUpdate,
        size_bytes,
        scid: Some(side.0),
        direction: side.1,
        timestamp: 0,
    }
}

impl EventSchedule for OneShotAll {
    fn build(&self, nodes: &[NodeId], max_duration: SimDuration, registry: &ChannelRegistry) -> (r:
        Vec<ScheduledEvent>)
        ensures
            r@ == one_each(*self, nodes@, registry),
    {
        let _ = max_duration;
        let mut out: Vec<ScheduledEvent> = Vec::new();
        assert(nodes@.take(0) =~= Seq::<NodeId>::empty());
        for i in 0..nodes.len()
            invariant
                registry.wf(),
                out@ == one_each(*self, nodes@.take(i as int), registry),
                out@.len() <= i,
        {
            let node: NodeId = nodes[i];
            proof {
                assert(nodes@.take(i + 1).drop_last() =~= nodes@.take(i as int));
                assert(nodes@.take(i + 1).last() == node);
            }
            let owned: Vec<(Scid, Direction)> = registry.channels_for(node);
            if owned.len() > 0 {
                let id: u64 = out.len() as u64;
                out.push((self.at, node, make_update(id, owned[0], self.size_bytes)));
            }
        }
        assert(nodes@.take(nodes@.len() as int) =~= nodes@);
        out
    }
}

impl EventSchedule for OneShotSingle {
    fn build(&self, nodes: &[NodeId], max_duration: SimDuration, registry: &ChannelRegistry) -> (r:
        Vec<ScheduledEvent>)
        ensures
            r@ == if self.node < nodes@.len() && first_side(registry, nodes@[self.node as int]) is Some {
                seq![
                    (
                        self.at,
                        nodes@[self.node as int],
                        unstamped_update(
                            0,
                            first_side(registry, nodes@[self.node as int])->0,
                            self.size_bytes,
                        ),
                    ),
                ]
            } else {
                Seq::<ScheduledEvent>::empty()
            },
    {
        let _ = max_duration;
        let mut out: Vec<ScheduledEvent> = Vec::new();
        if self.node < nodes.len() {
            let node: NodeId = nodes[self.node];
            let owned: Vec<(Scid, Direction)> = registry.channels_for(node);
            if owned.len() > 0 {
                out.push((self.at, node, make_update(0, owned[0], self.size_bytes)));
            }
        }
        out
    }
}

/// Every node that owns a side of a channel sends one update, of the
/// first side that the registry lists for it; a node that owns none sends
/// nothing. The updates are sent at the same time, one node after
/// another, numbered from zero.
pub proof fn each_owner_sends_one_update(
    s: OneShotAll,
    nodes: Seq<NodeId>,
    registry: &ChannelRegistry,
    v: NodeId,
)
    requires
        nodes.len() <= u64::MAX,
    ensures
        ({
            let before = one_each(s, nodes, registry);
            let now = one_each(s, nodes.push(v), registry);
            let owned = channels::owned_in(registry.rows@, v);
            &&& nodes.len() == 0 ==> before.len() == 0
            &&& before.len() <= nodes.len()
            &&& owned.len() == 0 ==> now == before
            &&& owned.len() > 0 ==> now.len() == before.len() + 1 && now.drop_last() == before
            &&& owned.len() > 0 ==> {
                let (when, sender, g) = now.last();
                &&& when == s.at
                &&& sender == v
                &&& g.id == before.len()
                &&& g.kind == GossipKind::ChannelUpdate
                &&& g.scid == Some(owned[0].0)
                &&& g.direction == owned[0].1
                &&& g.size_bytes == s.size_bytes
                &&& g.origin is None && g.timestamp == 0
            }
        }),
    decreases nodes.len(),
{
    assert(nodes.push(v).drop_last() =~= nodes);
    if nodes.len() > 0 {
        each_owner_sends_one_update(s, nodes.drop_last(), registry, nodes.last());
        assert(nodes.drop_last().push(nodes.last()) =~= nodes);
    }
    let before = one_each(s, nodes, registry);
    let now = one_each(s, nodes.push(v), registry);
    if channels::owned_in(registry.rows@, v).len() > 0 {
        assert(now.drop_last() =~= before);
    }
}

} // verus!
