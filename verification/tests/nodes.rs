use lnconv_core::keys::{pack_cu_key, KeyRegistry, ScheduledEvent};
use lnconv_core::message::{
    Gossip, GossipBatch, GossipKind, InventoryMsg, NodeId, Sketch, SketchKind, WireMessage,
};
use lnconv_core::node::cln::ClnNode;
use lnconv_core::node::flooding::FloodingNode;
use lnconv_core::node::lnd::LndNode;
use lnconv_core::node::sketch::{FollowUp, SketchNode};
use lnconv_core::node::{can_originate, can_receive, Timer, TimerAction};
use lnconv_core::state::NodeState;
use lnconv_core::time::SimDuration;
use std::sync::Arc;

fn secs(s: u64) -> SimDuration {
    SimDuration::from_secs(s)
}

fn id_of(g: &Gossip) -> u64 {
    Gossip::derive_id(g.origin, g.kind, g.scid, g.direction, g.timestamp)
}

/// An update of direction 0 of a channel, as it travels.
fn update(scid: u64, ts: u32) -> Gossip {
    let mut g = Gossip {
        id: 0,
        origin: None,
        kind: GossipKind::ChannelUpdate,
        size_bytes: 130,
        scid: Some(scid),
        direction: 0,
        timestamp: ts,
    };
    g.id = id_of(&g);
    g
}

fn announcement(origin: NodeId, ts: u32) -> Gossip {
    let mut g = Gossip {
        id: 0,
        origin: Some(origin),
        kind: GossipKind::NodeAnnouncement,
        size_bytes: 140,
        scid: None,
        direction: 0,
        timestamp: ts,
    };
    g.id = id_of(&g);
    g
}

fn channel_announcement(scid: u64) -> Gossip {
    let mut g = Gossip {
        id: 0,
        origin: None,
        kind: GossipKind::ChannelAnnouncement,
        size_bytes: 430,
        scid: Some(scid),
        direction: 0,
        timestamp: 0,
    };
    g.id = id_of(&g);
    g
}

/// Every key that the tests use, with the sizes of the messages above.
fn schedule() -> Vec<ScheduledEvent> {
    let mut out: Vec<ScheduledEvent> = Vec::new();
    for scid in 0..50u64 {
        out.push((secs(0), 1, update(scid, 0)));
        out.push((secs(0), 1, channel_announcement(scid)));
    }
    for node in 0..10u64 {
        out.push((secs(0), node, announcement(node, 0)));
    }
    out
}

fn state(idx: u32) -> NodeState {
    NodeState::new(&KeyRegistry::build(&schedule()), idx)
}

fn cln() -> ClnNode {
    let mut n = ClnNode::new(1, 0, secs(60), secs(7), secs(600), secs(30), secs(3));
    n.add_peer(2);
    n.add_peer(3);
    n
}

#[test]
fn cln_waits_for_its_tick() {
    let mut n = cln();
    let mut st = state(0);
    let a = n.recv(&mut st, &WireMessage::Single(update(5, 10)), secs(1));
    assert_eq!((a.fresh_count, a.early_flush), (1, false));
    let again = n.recv(&mut st, &WireMessage::Single(update(5, 10)), secs(2));
    assert_eq!(again.fresh_count, 0);
    assert_eq!((n.metrics.duplicates, n.metrics.duplicates_bytes), (1, 130));
    assert_eq!(n.metrics.bytes_in_gossip, 260);
    let older = n.recv(&mut st, &WireMessage::Single(update(5, 9)), secs(3));
    assert_eq!(older.fresh_count, 0);
    let batch = n.tick().expect("something is pending");
    assert_eq!(batch.len(), 1);
    assert_eq!(batch.chan_updates[0].id, update(5, 10).id);
    assert_eq!(n.metrics.bytes_out_gossip, 260);
    assert!(n.tick().is_none());
}

#[test]
fn cln_sends_what_it_originates_at_once() {
    let mut n = cln();
    let mut st = state(0);
    let sent = n.originate(&mut st, channel_announcement(4), secs(1)).expect("new");
    assert_eq!(sent.scid, Some(4));
    assert_eq!(n.metrics.bytes_out_gossip, 860);
    assert!(n.originate(&mut st, channel_announcement(4), secs(2)).is_none());
    let mut raw = announcement(9, 0);
    raw.origin = None;
    let sent = n.originate(&mut st, raw, secs(11)).expect("stamped");
    assert_eq!((sent.origin, sent.timestamp), (Some(1), 11));
    assert_eq!(sent.id, id_of(&sent));
}

#[test]
fn timers_cover_ticks_and_flushes() {
    assert_eq!(
        cln().arm_ticks(),
        vec![
            Timer { first: secs(7), every: Some(secs(60)), action: TimerAction::Tick },
            Timer { first: secs(3), every: Some(secs(30)), action: TimerAction::Flush },
            Timer { first: secs(600), every: None, action: TimerAction::Flush },
        ]
    );
    let quiet = ClnNode::new(1, 0, secs(60), secs(7), secs(600), secs(0), secs(3));
    assert_eq!(quiet.arm_ticks().len(), 2);
    let flooding = FloodingNode::new(1, 0, secs(0), secs(600));
    assert_eq!(
        flooding.arm_flush(),
        vec![Timer { first: secs(600), every: None, action: TimerAction::Flush }]
    );
}

#[test]
fn flushes_drain_the_sightings() {
    let mut n = cln();
    let mut st = state(0);
    n.recv(&mut st, &WireMessage::Single(update(5, 10)), secs(1));
    let s = n.flush_summary(secs(4));
    assert_eq!((s.idx, s.time_ns), (0, 4_000_000_000));
    assert_eq!(s.first_seen.len(), 1);
    assert_eq!(s.first_seen[0].time_ns, 1_000_000_000);
    assert_eq!(s.counters.bytes_in_gossip, 130);
    assert!(n.flush_summary(secs(5)).first_seen.is_empty());
}

#[test]
fn flooding_forwards_what_is_new() {
    let mut n = FloodingNode::new(1, 0, SimDuration::from_millis(1), secs(600));
    n.add_peer(2);
    n.add_peer(3);
    n.add_peer(4);
    let mut st = state(0);
    let fresh = n.recv(&mut st, &WireMessage::Single(update(5, 10)), secs(1));
    assert_eq!(fresh.len(), 1);
    n.do_send(&fresh[0]);
    assert_eq!(n.metrics.bytes_out_gossip, 390);
    assert!(n.recv(&mut st, &WireMessage::Single(update(5, 10)), secs(1)).is_empty());
    let batch = GossipBatch::from_mixed(vec![channel_announcement(1), update(6, 1), announcement(2, 3)]);
    let fresh = n.recv(&mut st, &WireMessage::Batch(Arc::new(batch)), secs(2));
    assert_eq!(fresh.len(), 3);
    assert!(n.originate(&mut st, update(7, 0), secs(3)).is_some());
    assert_eq!(n.metrics.bytes_out_gossip, 780);
}

fn lnd() -> LndNode {
    let mut n =
        LndNode::new(1, 0, secs(90), secs(7), secs(5), 10, secs(600), secs(30), secs(3));
    n.add_peer(2);
    n
}

#[test]
fn lnd_trickles_its_queue() {
    let mut n = lnd();
    let mut st = state(0);
    let all: Vec<Gossip> = (0..25u64).map(|s| update(s, 10)).collect();
    let batch = GossipBatch::from_mixed(all);
    n.recv(&mut st, &WireMessage::Batch(Arc::new(batch)), secs(1));
    assert!(n.originate(&mut st, update(30, 0), secs(2)));
    let chunks = n.tick();
    let sizes: Vec<usize> = chunks.iter().map(|c| c.batch.len()).collect();
    assert_eq!(sizes, vec![10, 10, 6]);
    let offsets: Vec<u64> = chunks.iter().map(|c| c.offset.as_secs()).collect();
    assert_eq!(offsets, vec![0, 5, 10]);
    let mut ids: Vec<u64> = chunks
        .iter()
        .flat_map(|c| c.batch.chan_updates.iter().map(|g| g.scid.unwrap_or(99)))
        .collect();
    ids.sort();
    let want: Vec<u64> = (0..25).chain([30]).collect();
    assert_eq!(ids, want);
    n.count_sent(&chunks[2].batch);
    assert_eq!(n.metrics.bytes_out_gossip, 6 * 130);
    assert!(n.tick().is_empty());
}

fn sketch_node(id: NodeId, idx: u32, peer: NodeId, full: bool) -> SketchNode {
    let mut n = SketchNode::new(
        id, idx, secs(60), 16, 8, 8, false, full, 32, 7, secs(600), secs(30), secs(3),
    );
    n.add_peer(peer);
    n
}

#[test]
fn sketches_go_out_for_every_kind() {
    let mut n = sketch_node(1, 0, 2, false);
    let out = n.tick_for_peer();
    let kinds: Vec<SketchKind> = out.iter().map(|s| s.kind).collect();
    assert_eq!(kinds, vec![SketchKind::ChanUpdates, SketchKind::NodeAnns, SketchKind::ChanAnns]);
    let caps: Vec<u32> = out.iter().map(|s| s.capacity).collect();
    assert_eq!(caps, vec![16, 8, 8]);
    assert!(out.iter().all(|s| s.from == 1));
    let next = n.tick_for_peer();
    assert!(next.iter().all(|s| out.iter().all(|o| o.id != s.id)));
    assert_eq!(n.metrics.sketches_sent, 6);
    n.set_per_peer_offsets(vec![secs(5)]);
    assert_eq!(
        n.arm_per_peer_tickers()[0],
        Timer { first: secs(5), every: Some(secs(60)), action: TimerAction::TickPeer(0) }
    );
    assert_eq!(n.stagger_for_offset_sample(), secs(60));
    assert_eq!((n.peer_local(2), n.peer_local(9)), (Some(0), None));
}

fn sketch_from(n: &mut SketchNode, kind: SketchKind) -> Sketch {
    let mut all = n.tick_for_peer();
    let at = all.iter().position(|s| s.kind == kind).expect("one sketch per kind");
    all.swap_remove(at)
}

/// One round of full reconciliation leaves both nodes with the newest of
/// everything.
#[test]
fn reconciled_nodes_hold_the_same() {
    let mut a = sketch_node(1, 0, 2, true);
    let mut b = sketch_node(2, 1, 1, true);
    let mut sa = state(0);
    let mut sb = state(1);
    sa.chan_updates.insert(pack_cu_key(1, 0), 10);
    sa.chan_updates.insert(pack_cu_key(2, 0), 30);
    sb.chan_updates.insert(pack_cu_key(2, 0), 20);
    sb.chan_updates.insert(pack_cu_key(3, 0), 40);
    let sketch = sketch_from(&mut a, SketchKind::ChanUpdates);
    let r = b.recv(&mut sb, &WireMessage::Sketch(sketch), secs(1));
    let sketch = match r.follow_up {
        FollowUp::AnswerSketch(s) => s,
        other => panic!("unexpected {other:?}"),
    };
    let reply = b.handle_sketch(&sb, &sa, sketch, secs(1));
    assert_eq!(reply.to, Some(0));
    let batch = reply.batch.expect("one update is newer there");
    assert_eq!(batch.len(), 1);
    assert_eq!(batch.chan_updates[0].scid, Some(3));
    let inv = reply.inventory.expect("two updates are newer here");
    assert_eq!(inv.keys.len(), 2);
    let got = a.recv(&mut sa, &WireMessage::Batch(Arc::new(batch)), secs(2));
    assert_eq!(got.fresh_count, 1);
    let (to, answer) = a.handle_inventory(&sa, &inv);
    assert_eq!(to, Some(0));
    let answer = answer.expect("both are held");
    assert_eq!(answer.len(), 2);
    let got = b.recv(&mut sb, &WireMessage::Batch(Arc::new(answer)), secs(3));
    assert_eq!(got.fresh_count, 2);
    for (scid, ts) in [(1u64, 10u32), (2, 30), (3, 40)] {
        assert_eq!(sa.chan_updates.get_ts(pack_cu_key(scid, 0)), Some(ts));
        assert_eq!(sb.chan_updates.get_ts(pack_cu_key(scid, 0)), Some(ts));
    }
    assert_eq!(b.metrics.chan_updates_stats.a_only, 1);
    assert_eq!(b.metrics.chan_updates_stats.b_only, 1);
}

#[test]
fn overflowing_sketches_go_unanswered() {
    let mut a = sketch_node(1, 0, 2, true);
    let mut b = sketch_node(2, 1, 1, true);
    let sa = state(0);
    let mut sb = state(1);
    for scid in 0..20u64 {
        sb.chan_updates.insert(pack_cu_key(scid, 0), 5);
    }
    let sketch = sketch_from(&mut a, SketchKind::ChanUpdates);
    let reply = b.handle_sketch(&sb, &sa, sketch, secs(1));
    assert_eq!(reply.to, Some(0));
    assert!(reply.batch.is_none() && reply.inventory.is_none());
    assert_eq!(b.metrics.overflowed_chan_updates, 1);
    let (summary, dump) = b.flush_summary(secs(2));
    assert_eq!(summary.overflows.len(), 1);
    let o = &summary.overflows[0];
    assert_eq!((o.peer_id, o.difference, o.amount), (1, 20, 4));
    assert!(dump.is_none());
    let (_, dump) = b.flush_summary(secs(600));
    let (cu, _, _) = dump.expect("the run is over");
    assert_eq!(cu.difference, vec![20]);
    // The samples are gone, and no more are taken.
    let (_, dump) = b.flush_summary(secs(601));
    let (cu, _, _) = dump.expect("the run is over");
    assert!(cu.difference.is_empty());
    assert_eq!(cu.total_seen, 0);
}

#[test]
fn strangers_are_not_answered() {
    let mut a = sketch_node(9, 0, 2, true);
    let mut b = sketch_node(2, 1, 1, true);
    let sa = state(0);
    let mut sb = state(1);
    sb.chan_updates.insert(pack_cu_key(3, 0), 5);
    let sketch = sketch_from(&mut a, SketchKind::ChanUpdates);
    let reply = b.handle_sketch(&sb, &sa, sketch, secs(1));
    assert_eq!(reply.to, None);
    assert!(reply.batch.is_none() && reply.inventory.is_none());
    let inv = InventoryMsg::new(9, GossipKind::ChannelUpdate, vec![pack_cu_key(3, 0)]);
    let (to, answer) = b.handle_inventory(&sb, &inv);
    assert!(to.is_none() && answer.is_none());
}

#[test]
fn sketch_nodes_may_flood_what_they_originate() {
    let mut st = state(0);
    let mut quiet = sketch_node(1, 0, 2, false);
    let (fresh, wire) = quiet.originate(&mut st, update(8, 0), secs(9));
    assert!(fresh && wire.is_none());
    let mut st = state(0);
    let mut loud = SketchNode::new(
        1, 0, secs(60), 16, 8, 8, true, false, 32, 7, secs(600), secs(30), secs(3),
    );
    loud.add_peer(2);
    let (fresh, wire) = loud.originate(&mut st, channel_announcement(8), secs(9));
    assert!(fresh && matches!(wire, Some(WireMessage::Single(_))));
    let (fresh, wire) = loud.originate(&mut st, channel_announcement(8), secs(10));
    assert!(!fresh && wire.is_none());
}

/// An update whose channel the registry lacks cannot be stored.
fn strange_update() -> Gossip {
    update(50, 10)
}

#[test]
fn only_known_keys_can_be_received() {
    let st = state(0);
    assert!(can_receive(&st, &WireMessage::Single(update(49, 10))));
    assert!(!can_receive(&st, &WireMessage::Single(strange_update())));
    let good = GossipBatch::from_mixed(vec![update(1, 10), announcement(9, 3)]);
    assert!(can_receive(&st, &WireMessage::Batch(Arc::new(good))));
    let bad = GossipBatch::from_mixed(vec![update(1, 10), announcement(10, 3)]);
    assert!(!can_receive(&st, &WireMessage::Batch(Arc::new(bad))));
}

#[test]
fn only_known_keys_can_be_originated() {
    let st = state(0);
    assert!(can_originate(&st, 1, &update(49, 10)));
    assert!(!can_originate(&st, 1, &strange_update()));
    assert!(can_originate(&st, 1, &channel_announcement(3)));
    // The key of a node announcement is the id of the node that sends it.
    assert!(can_originate(&st, 9, &announcement(77, 10)));
    assert!(!can_originate(&st, 10, &announcement(1, 10)));
    let mut no_scid = update(4, 10);
    no_scid.scid = None;
    assert!(!can_originate(&st, 1, &no_scid));
}

/// Flooding and trickling nodes count duplicates, but not their bytes.
#[test]
fn duplicate_bytes_are_left_out_where_nodes_do_not_weigh() {
    let mut st = state(0);
    let mut n = FloodingNode::new(1, 0, SimDuration::from_millis(1), secs(600));
    n.recv(&mut st, &WireMessage::Single(update(5, 10)), secs(1));
    n.recv(&mut st, &WireMessage::Single(update(5, 10)), secs(2));
    assert_eq!((n.metrics.duplicates, n.metrics.duplicates_bytes), (1, 0));
    let mut st = state(0);
    let mut n = lnd();
    n.recv(&mut st, &WireMessage::Single(update(5, 10)), secs(1));
    n.recv(&mut st, &WireMessage::Single(update(5, 10)), secs(2));
    assert_eq!((n.metrics.duplicates, n.metrics.duplicates_bytes), (1, 0));
    let mut st = state(0);
    let mut n = sketch_node(1, 0, 2, false);
    n.recv(&mut st, &WireMessage::Single(update(5, 10)), secs(1));
    n.recv(&mut st, &WireMessage::Single(update(5, 10)), secs(2));
    assert_eq!((n.metrics.duplicates, n.metrics.duplicates_bytes), (1, 130));
}
