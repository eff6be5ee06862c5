use lnconv_core::channels::ChannelRegistry;
use lnconv_core::events::parquet_replay::{
    emit_tuples, to_decimal, BucketClass, DirectionRotor, HomeEntity, LogicalEvent, LogicalKind,
    ParquetReplay, TraceLoader, TraceRow, WINDOW_SECS,
};
use lnconv_core::events::ranking::top_sources;
use lnconv_core::events::reshape::reshape;
use lnconv_core::events::windows::{Capacity, WindowBits};
use lnconv_core::message::{GossipKind, NodeId, Scid};
use lnconv_core::time::SimDuration;
use lnconv_core::topology::ln_data::{hash_pubkey, hash_scid_string};
use lnconv_core::topology::{NodeAlgo, Topology};
use rand::SeedableRng;
use rand_chacha::ChaCha8Rng;
use std::collections::HashSet;

#[test]
fn direction_rotor_alternates_per_scid() {
    let mut r = DirectionRotor::default();
    let s1: Scid = 0xAAAA;
    let s2: Scid = 0xBBBB;
    assert_eq!(r.next(s1), 0);
    assert_eq!(r.next(s1), 1);
    assert_eq!(r.next(s2), 0);
    assert_eq!(r.next(s1), 0);
    assert_eq!(r.next(s2), 1);
    assert_eq!(r.next(s1), 1);
}

fn ev_node_ann(delay_secs: u64, home: HomeEntity, was_orphan: bool) -> LogicalEvent {
    LogicalEvent {
        delay: SimDuration::from_secs(delay_secs),
        home,
        kind: LogicalKind::NodeAnnouncement,
        size_bytes: 100,
        orig_id: "test_pk".into(),
        was_orphan,
        was_deferred: false,
        was_reassigned: false,
    }
}

fn empty_registry() -> (Topology, ChannelRegistry) {
    let mut topo = Topology::empty(0, NodeAlgo::Flooding);
    let reg = ChannelRegistry::from_iter(&mut topo, Vec::new());
    (topo, reg)
}

#[test]
fn orphan_node_ann_gets_reassigned_to_known_node() {
    let known: NodeId = 42;
    let snapshot = vec![known];
    let (_topo, reg) = empty_registry();
    let events = vec![ev_node_ann(0, HomeEntity::Unknown, true)];
    let (out, stats) =
        reshape(events, &reg, &snapshot, 6, SimDuration::from_secs(6 as u64 * 600), 0xC0DE);
    assert_eq!(out.len(), 1, "orphan should be placed, not dropped");
    match out[0].home {
        HomeEntity::Node(n) => assert_eq!(n, known),
        _ => panic!("expected Node home, got {:?}", out[0].home),
    }
    assert!(out[0].was_reassigned, "orphan must be flagged reassigned");
    assert_eq!(stats.orphan_by_kind[0], 1);
    assert_eq!(stats.reassigned_by_kind[0], 1);
    assert_eq!(stats.dropped_by_kind[0], 0);
}

#[test]
fn second_node_ann_same_window_is_deferred() {
    let n: NodeId = 7;
    let snapshot = vec![n];
    let (_topo, reg) = empty_registry();
    let events = vec![
        ev_node_ann(10, HomeEntity::Node(n), false),
        ev_node_ann(50, HomeEntity::Node(n), false),
    ];
    let (out, stats) =
        reshape(events, &reg, &snapshot, 6, SimDuration::from_secs(6 as u64 * 600), 0xC0DE);
    assert_eq!(out.len(), 2);
    for e in &out {
        assert!(matches!(e.home, HomeEntity::Node(x) if x == n));
    }
    let w0 = (out[0].delay.as_secs() / WINDOW_SECS) as usize;
    let w1 = (out[1].delay.as_secs() / WINDOW_SECS) as usize;
    assert_ne!(w0, w1, "second event must move to a different window");
    assert_eq!(stats.deferred_by_kind[0], 1);
    assert_eq!(stats.reassigned_by_kind[0], 0);
}

#[test]
fn saturated_home_reassigns_to_other_entity() {
    let a: NodeId = 1;
    let b: NodeId = 2;
    let snapshot = vec![a, b];
    let (_topo, reg) = empty_registry();
    let events = vec![
        ev_node_ann(0, HomeEntity::Node(a), false),
        ev_node_ann(0, HomeEntity::Node(a), false),
    ];
    let (out, stats) =
        reshape(events, &reg, &snapshot, 1, SimDuration::from_secs(1 as u64 * 600), 0xC0DE);
    assert_eq!(out.len(), 2);
    assert!(matches!(out[0].home, HomeEntity::Node(x) if x == a));
    assert!(matches!(out[1].home, HomeEntity::Node(x) if x == b));
    assert_eq!(stats.reassigned_by_kind[0], 1);
    assert_eq!(stats.dropped_by_kind[0], 0);
}

#[test]
fn fully_saturated_class_drops_events() {
    let n: NodeId = 9;
    let snapshot = vec![n];
    let (_topo, reg) = empty_registry();
    let events = vec![
        ev_node_ann(0, HomeEntity::Node(n), false),
        ev_node_ann(0, HomeEntity::Node(n), false),
    ];
    let (out, stats) =
        reshape(events, &reg, &snapshot, 1, SimDuration::from_secs(1 as u64 * 600), 0xC0DE);
    assert_eq!(out.len(), 1, "second event must be dropped");
    assert_eq!(stats.dropped_by_kind[0], 1);
    assert_eq!(stats.total_by_kind[0], 1);
}

#[test]
fn reshape_is_deterministic_at_fixed_seed() {
    let snapshot: Vec<NodeId> = (1..=8u64).collect();
    let (_topo, reg) = empty_registry();
    let events = || {
        vec![
            ev_node_ann(0, HomeEntity::Unknown, true),
            ev_node_ann(700, HomeEntity::Node(1), false),
            ev_node_ann(700, HomeEntity::Node(1), false),
            ev_node_ann(1300, HomeEntity::Unknown, true),
        ]
    };
    let (out_a, _) = reshape(events(), &reg, &snapshot, 4, SimDuration::from_secs(2400), 0xC0DE);
    let (out_b, _) =
        reshape(events(), &reg, &snapshot, 4, SimDuration::from_secs(4 as u64 * 600), 0xC0DE);
    assert_eq!(out_a.len(), out_b.len());
    for (a, b) in out_a.iter().zip(out_b.iter()) {
        let home_a = match a.home {
            HomeEntity::Node(x) => x,
            HomeEntity::Channel(x) => x,
            HomeEntity::Unknown => panic!("unresolved orphan"),
        };
        let home_b = match b.home {
            HomeEntity::Node(x) => x,
            HomeEntity::Channel(x) => x,
            HomeEntity::Unknown => panic!("unresolved orphan"),
        };
        assert_eq!(home_a, home_b);
        assert_eq!(a.delay, b.delay);
    }
}

#[test]
fn window_bits_packs_and_finds_free_slots() {
    let mut wb = WindowBits::new(6);
    assert!(!wb.get(0));
    wb.set(0);
    assert!(wb.get(0));
    assert_eq!(wb.count, 1);
    wb.set(0);
    assert_eq!(wb.count, 1);

    let mut rng = ChaCha8Rng::seed_from_u64(1);
    let free = wb.random_free(&mut rng).unwrap();
    assert!((1..6).contains(&free));
}

#[test]
fn capacity_evicts_on_saturation() {
    let mut cap = Capacity::new(vec![1u64, 2u64], 2);
    assert_eq!(cap.has_free.len(), 2);
    let mut rng = ChaCha8Rng::seed_from_u64(0);
    cap.try_place(1, 0, &mut rng).unwrap();
    cap.try_place(1, 1, &mut rng).unwrap();
    assert_eq!(cap.has_free.len(), 1, "saturated entity must be evicted");
    assert!(cap.try_place(1, 0, &mut rng).is_none());
}

#[test]
fn many_windows_fill_up() {
    let mut wb = WindowBits::new(130);
    let mut rng = ChaCha8Rng::seed_from_u64(4);
    for i in 0..130usize {
        assert_eq!(wb.count as usize, i);
        assert!(!wb.is_full());
        let free = wb.random_free(&mut rng).unwrap();
        assert!(!wb.get(free));
        wb.set(free);
    }
    assert!(wb.is_full());
    assert_eq!(wb.random_free(&mut rng), None);
}

#[test]
fn saturated_classes_offer_no_entity() {
    let mut cap = Capacity::new(vec![5u64], 1);
    let mut rng = ChaCha8Rng::seed_from_u64(0);
    assert_eq!(cap.random_entity(&mut rng), Some(5));
    assert_eq!(cap.try_place(5, 0, &mut rng), Some((0, false)));
    assert_eq!(cap.random_entity(&mut rng), None);
}

#[test]
fn kinds_have_places_and_classes() {
    let up = LogicalKind::ChannelUpdate { direction: 1 };
    assert_eq!(LogicalKind::NodeAnnouncement.kind_idx(), 0);
    assert_eq!(LogicalKind::ChannelAnnouncement.kind_idx(), 1);
    assert_eq!(up.kind_idx(), 2);
    assert_eq!(up.bucket_class(), BucketClass::ChanUpd1);
    assert_eq!(LogicalKind::ChannelUpdate { direction: 0 }.bucket_class(), BucketClass::ChanUpd0);
    assert_eq!(LogicalKind::ChannelAnnouncement.bucket_class(), BucketClass::ChanAnn);
}

#[test]
fn numbers_are_written_in_decimal() {
    assert_eq!(to_decimal(0), "0");
    assert_eq!(to_decimal(7), "7");
    assert_eq!(to_decimal(1012232394786537478), "1012232394786537478");
    assert_eq!(to_decimal(u64::MAX), "18446744073709551615");
}

const SEED: u64 = 5;

/// Three nodes and the two channels between them.
fn small_network() -> (Vec<NodeId>, ChannelRegistry) {
    let ids: Vec<NodeId> = ["pa", "pb", "pc"].iter().map(|p| hash_pubkey(SEED, p)).collect();
    let mut topo = Topology::with_capacity(3);
    for id in &ids {
        topo.add_node(*id, NodeAlgo::Flooding);
    }
    let rows = vec![
        (hash_scid_string(SEED, "11"), ids[0], ids[1]),
        (hash_scid_string(SEED, "12"), ids[1], ids[2]),
    ];
    let reg = ChannelRegistry::from_iter(&mut topo, rows);
    (ids, reg)
}

fn row(us: i64, kind: i16, size: i32, node: Option<&str>, scid: Option<u64>) -> TraceRow {
    TraceRow {
        first_seen_us: Some(us),
        kind: Some(kind),
        size: Some(size),
        orig_node: node.map(|n| n.to_string()),
        scid,
    }
}

fn sample_rows() -> Vec<TraceRow> {
    vec![
        row(1_000_000, 2, 140, Some("pa"), None),
        row(2_000_000, 3, 70_000, None, Some(11)),
        row(3_000_000, 3, 130, None, Some(11)),
        row(4_000_000, 1, 430, None, Some(12)),
        row(5_000_000, 2, 140, Some("nobody"), None),
        row(6_000_000, 3, 130, None, None),
        row(6_000_000, 2, 130, None, None),
        row(6_000_000, 9, 130, None, None),
    ]
}

#[test]
fn trace_rows_become_events() {
    let (ids, reg) = small_network();
    let mut loader = TraceLoader::new(SEED, &ids, SimDuration::from_secs(3600));
    assert!(!loader.take_batch(&sample_rows(), &reg));
    let (events, stats) = loader.finish();
    assert_eq!(stats.total_rows, 8);
    assert_eq!(stats.clamped_size, 1);
    assert_eq!(stats.bad_scid_at_load, 1);
    assert_eq!(stats.bad_pk_at_load, 1);
    assert_eq!(stats.unknown_type, 1);
    assert_eq!(events.len(), 5);
    assert_eq!(events[0].delay, SimDuration::zero());
    assert_eq!(events[0].home, HomeEntity::Node(ids[0]));
    assert_eq!(events[0].orig_id, "pa");
    let s11 = hash_scid_string(SEED, "11");
    assert_eq!(events[1].delay, SimDuration::from_secs(1));
    assert_eq!(events[1].home, HomeEntity::Channel(s11));
    assert_eq!(events[1].size_bytes, u16::MAX);
    assert_eq!(events[1].orig_id, "11");
    assert_eq!(events[1].kind, LogicalKind::ChannelUpdate { direction: 0 });
    assert_eq!(events[2].kind, LogicalKind::ChannelUpdate { direction: 1 });
    assert_eq!(events[3].kind, LogicalKind::ChannelAnnouncement);
    assert_eq!(events[4].home, HomeEntity::Unknown);
    assert!(events[4].was_orphan);
}

#[test]
fn loading_stops_at_the_end_of_the_run() {
    let (ids, reg) = small_network();
    let replay = ParquetReplay { seed: SEED, snapshot_nodes: ids };
    let batches = vec![sample_rows(), vec![row(1_500_000, 2, 1, Some("pb"), None)]];
    let (events, _) = replay.load_logical(&batches, SimDuration::from_secs(2), &reg);
    assert_eq!(events.len(), 3);
}

#[test]
fn announcements_are_injected_at_both_owners() {
    let (ids, reg) = small_network();
    let mut loader = TraceLoader::new(SEED, &ids, SimDuration::from_secs(3600));
    loader.take_batch(&sample_rows(), &reg);
    let (mut events, _) = loader.finish();
    events.truncate(4);
    let out = emit_tuples(&events, &reg);
    assert_eq!(out.len(), 5);
    assert_eq!((out[0].1, out[0].2.kind), (ids[0], GossipKind::NodeAnnouncement));
    assert_eq!(out[0].2.origin, Some(ids[0]));
    assert_eq!((out[1].1, out[1].2.direction), (ids[0], 0));
    assert_eq!((out[2].1, out[2].2.direction), (ids[1], 1));
    assert_eq!((out[3].1, out[4].1), (ids[1], ids[2]));
    assert_eq!(out[3].2.kind, GossipKind::ChannelAnnouncement);
    assert_eq!(out[3].0, out[4].0);
}

#[test]
fn traces_are_replayed_inside_the_run() {
    let (ids, reg) = small_network();
    let known: HashSet<NodeId> = ids.iter().copied().collect();
    let replay = ParquetReplay { seed: SEED, snapshot_nodes: ids };
    let batches = vec![sample_rows(), sample_rows()];
    let max = SimDuration::from_secs(1800);
    let a = replay.schedule(&batches, max, &reg);
    let b = replay.schedule(&batches, max, &reg);
    assert_eq!(a.load.total_rows, 16);
    assert_eq!(a.schedule.len(), b.schedule.len());
    for (x, y) in a.schedule.iter().zip(b.schedule.iter()) {
        assert_eq!((x.0, x.1), (y.0, y.1));
        assert!(known.contains(&x.1));
        assert!(x.0.as_secs() <= 1800);
    }
    let kept: usize = a.reshape.total_by_kind.iter().sum();
    let dropped: usize = a.reshape.dropped_by_kind.iter().sum();
    assert_eq!(kept + dropped, 10);
    assert_eq!(a.reshape.orphan_by_kind[0], 2);
}

#[test]
fn busiest_sources_come_first() {
    let ids: Vec<String> =
        ["b", "a", "c", "b", "a", "b", "d"].iter().map(|s| s.to_string()).collect();
    let top = top_sources(&ids, 3);
    assert_eq!(
        top,
        vec![("b".to_string(), 3), ("a".to_string(), 2), ("c".to_string(), 1)]
    );
    assert!(top_sources(&Vec::new(), 3).is_empty());
}

/// Events are dropped only from a full class, and marked by what became
/// of them.
#[test]
fn kept_events_are_marked_and_dropped_ones_find_no_room() {
    let snapshot: Vec<NodeId> = vec![1, 2];
    let (_topo, reg) = empty_registry();
    let mut events = Vec::new();
    for _ in 0..7 {
        events.push(ev_node_ann(650, HomeEntity::Node(1), false));
    }
    let (out, stats) = reshape(events, &reg, &snapshot, 3, SimDuration::from_secs(1800), 5);
    assert_eq!(out.len(), 6);
    assert_eq!(stats.dropped_by_kind[0], 1);
    for e in &out {
        assert_eq!(e.was_reassigned, e.home != HomeEntity::Node(1));
        let moved = e.delay.as_secs() / WINDOW_SECS != 1;
        assert_eq!(e.was_deferred, !e.was_reassigned && moved);
    }
    let taken: HashSet<(bool, u64)> = out
        .iter()
        .map(|e| (e.home == HomeEntity::Node(1), e.delay.as_secs() / WINDOW_SECS))
        .collect();
    assert_eq!(taken.len(), 6);
}
