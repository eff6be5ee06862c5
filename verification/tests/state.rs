use lnconv_core::keys::{pack_cu_key, unpack_cu_key, KeyRegistry, ScheduledEvent};
use lnconv_core::message::{
    Direction, Gossip, GossipKind, NodeId, NodeIdx, Scid, SketchKind,
};
use lnconv_core::state::{
    build_registry, compute_diff, originate_stamp, NodeState, WhichSide,
};
use lnconv_core::time::SimDuration;

fn test_keys() -> KeyRegistry {
    let mut cu: Vec<u64> = Vec::new();
    for scid in 0..=400u64 {
        cu.push(pack_cu_key(scid, 0));
        cu.push(pack_cu_key(scid, 1));
    }
    let mut na: Vec<u64> = (0..=400u64).collect();
    na.extend([555u64, 666, 777]);
    let ca: Vec<u64> = (0..=400u64).collect();
    KeyRegistry::from_keys(cu, na, ca)
}

fn st(idx: NodeIdx) -> NodeState {
    NodeState::new(&test_keys(), idx)
}

fn write_cu(s: &mut NodeState, scid: Scid, dir: Direction, ts: u32, _size: u16) {
    s.chan_updates.insert(pack_cu_key(scid, dir), ts);
}

fn write_na(s: &mut NodeState, origin: NodeId, ts: u32, _size: u16) {
    s.node_anns.insert(origin, ts);
}

fn write_ca(s: &mut NodeState, scid: Scid, _size: u16) {
    s.chan_anns.insert_present(scid);
}

#[test]
fn pack_unpack_roundtrip() {
    let cases = [
        (0u64, 0u8),
        (0u64, 1),
        (1, 0),
        (1, 1),
        (0x7FFF_FFFF_FFFF_FFFF, 0),
        (0x7FFF_FFFF_FFFF_FFFF, 1),
        (12345, 0),
        (12345, 1),
    ];
    for (scid, dir) in cases {
        let p = pack_cu_key(scid, dir);
        assert_eq!(unpack_cu_key(p), (scid, dir));
    }
}

#[test]
fn diff_chan_updates_keys_overlap() {
    let mut a = st(0);
    let mut b = st(1);
    write_cu(&mut a, 100, 0, 10, 64);
    write_cu(&mut a, 100, 1, 20, 64);
    write_cu(&mut b, 100, 0, 10, 64);
    write_cu(&mut b, 200, 0, 30, 64);
    let d = compute_diff(&a, &b, SketchKind::ChanUpdates, WhichSide::Both);
    assert_eq!(d.intersection, 1);
    assert_eq!(d.a_only_count, 1);
    assert_eq!(d.b_only_count, 1);
    assert_eq!(d.a_newer.len(), 1);
    assert_eq!(d.b_newer.len(), 1);
    assert_eq!(d.a_newer[0].scid, Some(100));
    assert_eq!(d.a_newer[0].direction, 1);
    assert_eq!(d.b_newer[0].scid, Some(200));
}

#[test]
fn diff_chan_updates_handles_timestamp_diff() {
    let mut a = st(0);
    let mut b = st(1);
    write_cu(&mut a, 100, 0, 10, 64);
    write_cu(&mut b, 100, 0, 11, 64);
    let d = compute_diff(&a, &b, SketchKind::ChanUpdates, WhichSide::Both);
    assert_eq!(d.intersection, 0);
    // Same key, different timestamp: two sketch elements, and no key that
    // only one side holds.
    assert_eq!(d.a_only_count, 0);
    assert_eq!(d.b_only_count, 0);
    assert_eq!(d.difference, 2);
    assert!(d.a_newer.is_empty());
    assert_eq!(d.b_newer.len(), 1);
    assert_eq!(d.b_newer[0].timestamp, 11);
}

#[test]
fn diff_chan_updates_capacity_counts_stale() {
    let mut a = st(0);
    let mut b = st(1);
    write_cu(&mut a, 100, 0, 10, 64);
    write_cu(&mut b, 100, 0, 15, 64);
    let d = compute_diff(&a, &b, SketchKind::ChanUpdates, WhichSide::Both);
    assert_eq!(d.difference, 2);
    assert_eq!(d.a_only_count, 0);
    assert_eq!(d.b_only_count, 0);
    assert_eq!(d.b_newer.len(), 1);
}

#[test]
fn diff_node_anns_basic() {
    let mut a = st(0);
    let mut b = st(1);
    write_na(&mut a, 555, 100, 200);
    write_na(&mut a, 666, 100, 200);
    write_na(&mut b, 555, 100, 200);
    write_na(&mut b, 777, 100, 200);
    let d = compute_diff(&a, &b, SketchKind::NodeAnns, WhichSide::Both);
    assert_eq!(d.intersection, 1);
    assert_eq!(d.a_newer.len(), 1);
    assert_eq!(d.a_newer[0].origin, Some(666));
    assert_eq!(d.b_newer.len(), 1);
    assert_eq!(d.b_newer[0].origin, Some(777));
}

#[test]
fn diff_node_anns_handles_timestamp_diff() {
    let mut a = st(0);
    let mut b = st(1);
    write_na(&mut a, 555, 100, 200);
    write_na(&mut b, 555, 200, 200);
    let d = compute_diff(&a, &b, SketchKind::NodeAnns, WhichSide::Both);
    assert_eq!(d.a_only_count, 0);
    assert_eq!(d.b_only_count, 0);
    assert_eq!(d.difference, 2);
    assert!(d.a_newer.is_empty());
    assert_eq!(d.b_newer.len(), 1);
    assert_eq!(d.b_newer[0].timestamp, 200);
}

#[test]
fn diff_chan_anns_basic() {
    let mut a = st(0);
    let mut b = st(1);
    write_ca(&mut a, 100, 64);
    write_ca(&mut a, 200, 64);
    write_ca(&mut b, 100, 64);
    write_ca(&mut b, 300, 64);
    let d = compute_diff(&a, &b, SketchKind::ChanAnns, WhichSide::Both);
    assert_eq!(d.intersection, 1);
    assert_eq!(d.a_newer.len(), 1);
    assert_eq!(d.a_newer[0].scid, Some(200));
    assert_eq!(d.b_newer.len(), 1);
    assert_eq!(d.b_newer[0].scid, Some(300));
}

#[test]
fn synth_msg_id_matches_derive() {
    let mut a = st(0);
    let b = st(1);
    write_cu(&mut a, 100, 0, 50, 64);
    let d = compute_diff(&a, &b, SketchKind::ChanUpdates, WhichSide::Both);
    assert_eq!(d.a_newer.len(), 1);
    let expected = Gossip::derive_id(None, GossipKind::ChannelUpdate, Some(100), 0, 50);
    assert_eq!(d.a_newer[0].id, expected);
}

#[test]
fn which_side_b_yields_empty_a_newer() {
    let mut a = st(0);
    let mut b = st(1);
    write_cu(&mut a, 100, 0, 10, 64);
    write_cu(&mut a, 200, 0, 20, 64);
    write_cu(&mut b, 300, 0, 30, 64);
    let d = compute_diff(&a, &b, SketchKind::ChanUpdates, WhichSide::B);
    assert!(d.a_newer.is_empty());
    assert_eq!(d.b_newer.len(), 1);
    assert_eq!(d.a_only_count, 2);
    assert_eq!(d.b_only_count, 1);
}

#[test]
fn which_side_a_yields_empty_b_newer() {
    let mut a = st(0);
    let mut b = st(1);
    write_cu(&mut a, 100, 0, 10, 64);
    write_cu(&mut b, 200, 0, 30, 64);
    let d = compute_diff(&a, &b, SketchKind::ChanUpdates, WhichSide::A);
    assert!(d.b_newer.is_empty());
    assert_eq!(d.a_newer.len(), 1);
}

#[test]
fn which_side_b_is_correct_under_swap() {
    let mut a = st(5);
    let b = st(0);
    write_cu(&mut a, 100, 0, 99, 64);
    let d = compute_diff(&a, &b, SketchKind::ChanUpdates, WhichSide::B);
    assert!(d.a_newer.is_empty());
    assert!(d.b_newer.is_empty());
    assert_eq!(d.a_only_count, 1);
    assert_eq!(d.b_only_count, 0);
}

/// 3 shared entries, one that only `a` has and one that only `b` has.
fn diff_pair_chan_updates() -> (NodeState, NodeState) {
    let mut a = st(0);
    let mut b = st(1);
    for k in 0..3u64 {
        let ts = (k + 1) as u32;
        write_cu(&mut a, k, 0, ts, 64);
        write_cu(&mut b, k, 0, ts, 64);
    }
    write_cu(&mut a, 100, 0, 50, 64);
    write_cu(&mut b, 200, 0, 60, 64);
    (a, b)
}

#[test]
fn diff_chan_updates_which_both_full() {
    let (a, b) = diff_pair_chan_updates();
    let d = compute_diff(&a, &b, SketchKind::ChanUpdates, WhichSide::Both);
    assert_eq!(d.intersection, 3);
    assert_eq!(d.a_only_count, 1);
    assert_eq!(d.b_only_count, 1);
    assert_eq!(d.a_newer.len(), 1);
    assert_eq!(d.b_newer.len(), 1);
    assert_eq!(d.a_newer[0].scid, Some(100));
    assert_eq!(d.b_newer[0].scid, Some(200));
}

#[test]
fn diff_chan_updates_which_a_full() {
    let (a, b) = diff_pair_chan_updates();
    let d = compute_diff(&a, &b, SketchKind::ChanUpdates, WhichSide::A);
    assert_eq!(d.intersection, 3);
    assert_eq!(d.a_only_count, 1);
    assert_eq!(d.b_only_count, 1);
    assert_eq!(d.a_newer.len(), 1, "a_newer materialised");
    assert!(d.b_newer.is_empty(), "b_newer suppressed");
    assert_eq!(d.a_newer[0].scid, Some(100));
}

/// 3 shared origins, one that only `a` has and one that only `b` has.
fn diff_pair_node_anns() -> (NodeState, NodeState) {
    let mut a = st(0);
    let mut b = st(1);
    for origin in 0..3u64 {
        let ts = (origin + 1) as u32;
        write_na(&mut a, origin, ts, 64);
        write_na(&mut b, origin, ts, 64);
    }
    write_na(&mut a, 100, 50, 64);
    write_na(&mut b, 200, 60, 64);
    (a, b)
}

#[test]
fn diff_node_anns_which_both_full() {
    let (a, b) = diff_pair_node_anns();
    let d = compute_diff(&a, &b, SketchKind::NodeAnns, WhichSide::Both);
    assert_eq!(d.intersection, 3);
    assert_eq!(d.a_only_count, 1);
    assert_eq!(d.b_only_count, 1);
    assert_eq!(d.a_newer.len(), 1);
    assert_eq!(d.b_newer.len(), 1);
    assert_eq!(d.a_newer[0].origin, Some(100));
    assert_eq!(d.b_newer[0].origin, Some(200));
}

#[test]
fn diff_node_anns_which_a_full() {
    let (a, b) = diff_pair_node_anns();
    let d = compute_diff(&a, &b, SketchKind::NodeAnns, WhichSide::A);
    assert_eq!(d.intersection, 3);
    assert_eq!(d.a_only_count, 1);
    assert_eq!(d.b_only_count, 1);
    assert_eq!(d.a_newer.len(), 1);
    assert!(d.b_newer.is_empty());
    assert_eq!(d.a_newer[0].origin, Some(100));
}

/// 3 shared channels, one that only `a` has and one that only `b` has.
fn diff_pair_chan_anns() -> (NodeState, NodeState) {
    let mut a = st(0);
    let mut b = st(1);
    for scid in 0..3u64 {
        write_ca(&mut a, scid, 64);
        write_ca(&mut b, scid, 64);
    }
    write_ca(&mut a, 100, 64);
    write_ca(&mut b, 200, 64);
    (a, b)
}

#[test]
fn diff_chan_anns_which_both_full() {
    let (a, b) = diff_pair_chan_anns();
    let d = compute_diff(&a, &b, SketchKind::ChanAnns, WhichSide::Both);
    assert_eq!(d.intersection, 3);
    assert_eq!(d.a_only_count, 1);
    assert_eq!(d.b_only_count, 1);
    assert_eq!(d.a_newer.len(), 1);
    assert_eq!(d.b_newer.len(), 1);
    assert_eq!(d.a_newer[0].scid, Some(100));
    assert_eq!(d.b_newer[0].scid, Some(200));
}

#[test]
fn diff_chan_anns_which_a_full() {
    let (a, b) = diff_pair_chan_anns();
    let d = compute_diff(&a, &b, SketchKind::ChanAnns, WhichSide::A);
    assert_eq!(d.intersection, 3);
    assert_eq!(d.a_only_count, 1);
    assert_eq!(d.b_only_count, 1);
    assert_eq!(d.a_newer.len(), 1);
    assert!(d.b_newer.is_empty());
    assert_eq!(d.a_newer[0].scid, Some(100));
}

fn update(scid: Scid, direction: Direction, size_bytes: u16) -> Gossip {
    Gossip {
        id: 0,
        origin: None,
        kind: GossipKind::ChannelUpdate,
        size_bytes,
        scid: Some(scid),
        direction,
        timestamp: 0,
    }
}

/// The registry of a schedule knows the size of every scheduled version.
#[test]
fn scheduled_sizes_are_recovered() {
    let events: Vec<ScheduledEvent> = vec![
        (SimDuration::from_secs(5), 1, update(9, 0, 100)),
        (SimDuration::from_secs(8), 1, update(9, 0, 120)),
        (SimDuration::from_secs(8), 2, update(9, 1, 140)),
    ];
    let keys = KeyRegistry::build(&events);
    let mut a = NodeState::new(&keys, 0);
    let b = NodeState::new(&keys, 1);
    a.chan_updates.insert(pack_cu_key(9, 0), 8);
    a.chan_updates.insert(pack_cu_key(9, 1), 8);
    let d = compute_diff(&a, &b, SketchKind::ChanUpdates, WhichSide::A);
    let mut sizes: Vec<u16> = d.a_newer.iter().map(|g| g.size_bytes).collect();
    sizes.sort();
    assert_eq!(sizes, vec![120, 140]);
    assert_eq!(a.chan_updates.get(pack_cu_key(9, 0)), Some((8, 120)));
    assert_eq!(a.chan_updates.get_ts(pack_cu_key(9, 1)), Some(8));
    assert!(a.chan_updates.contains(pack_cu_key(9, 1)));
    assert!(!b.chan_updates.contains(pack_cu_key(9, 1)));
}

/// What an originator stamps is what its peers recover from the key.
#[test]
fn originated_message_is_recovered_by_a_peer() {
    let events: Vec<ScheduledEvent> = vec![(SimDuration::from_secs(5), 1, update(9, 0, 100))];
    let keys = KeyRegistry::build(&events);
    let mut states = build_registry(&keys, 2);
    assert_eq!(states.len(), 2);
    let mut b = states.pop().unwrap();
    let mut a = states.pop().unwrap();
    assert_eq!((a.idx, b.idx), (0, 1));
    let mut msg = update(9, 0, 100);
    originate_stamp(&mut a, 1, &mut msg, SimDuration::from_secs(5));
    assert_eq!(msg.timestamp, 5);
    assert_eq!(
        msg.id,
        Gossip::derive_id(None, GossipKind::ChannelUpdate, Some(9), 0, 5)
    );
    let d = compute_diff(&a, &b, SketchKind::ChanUpdates, WhichSide::A);
    assert_eq!(d.a_newer, vec![msg]);
    b.chan_updates.insert(pack_cu_key(9, 0), 5);
    let d = compute_diff(&a, &b, SketchKind::ChanUpdates, WhichSide::Both);
    assert_eq!(d.difference, 0);
    assert_eq!(d.intersection, 1);
}

#[test]
fn announcements_are_stored_once() {
    let mut a = st(0);
    assert!(a.chan_anns.insert_present(7));
    assert!(!a.chan_anns.insert_present(7));
    assert!(a.chan_anns.contains(7));
    assert_eq!(a.chan_anns.get(7), Some(0));
    assert_eq!(a.chan_anns.get(8), None);
}

#[test]
fn a_state_knows_the_keys_of_its_registry() {
    let s = st(0);
    assert!(s.knows(SketchKind::ChanUpdates, pack_cu_key(400, 1)));
    assert!(!s.knows(SketchKind::ChanUpdates, pack_cu_key(401, 0)));
    assert!(s.knows(SketchKind::NodeAnns, 777));
    assert!(!s.knows(SketchKind::NodeAnns, 778));
    assert!(s.knows(SketchKind::ChanAnns, 0));
    assert!(!s.knows(SketchKind::ChanAnns, 555));
    assert_eq!(s.key_count(SketchKind::ChanUpdates), 802);
    assert_eq!(s.key_count(SketchKind::NodeAnns), 404);
    assert_eq!(s.key_count(SketchKind::ChanAnns), 401);
}
