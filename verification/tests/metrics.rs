use lnconv_core::message::{Gossip, GossipKind, NodeIdx, SketchKind};
use lnconv_core::metrics::{
    rank_to_index, FirstSeenEntry, KindReservoirSamples, OverflowEvent, PerNodeMetrics,
};
use lnconv_core::metrics_aggregator::{AggregatorState, MetricsEvent};
use lnconv_core::stats_writer::WriterRow;

fn dummy_gossip(id: u64, ts: u32) -> Gossip {
    Gossip {
        id,
        origin: None,
        kind: GossipKind::ChannelUpdate,
        size_bytes: 100,
        scid: Some(1),
        direction: 0,
        timestamp: ts,
    }
}

/// A snapshot copies the counters and leaves the reservoirs alone.
#[test]
fn snapshot_counters_copies_fields() {
    let mut m = PerNodeMetrics::with_sketch_reservoirs(8, 42);
    m.bytes_in_gossip = 100;
    m.bytes_out_sketch = 200;
    m.sketches_sent = 7;
    m.chan_updates_stats.intersection = 11;
    m.chan_updates_stats.a_only = 3;
    m.chan_updates_stats.b_only = 5;
    m.overflowed_chan_updates = 1;
    m.chan_updates_stats.rounds_intersection.observe(99);
    let c = m.snapshot_counters();
    assert_eq!(c.bytes_in_gossip, 100);
    assert_eq!(c.bytes_out_sketch, 200);
    assert_eq!(c.sketches_sent, 7);
    assert_eq!(c.chan_updates.intersection, 11);
    assert_eq!(c.chan_updates.a_only, 3);
    assert_eq!(c.chan_updates.b_only, 5);
    assert_eq!(c.overflowed_chan_updates, 1);
    assert_eq!(m.chan_updates_stats.rounds_intersection.samples(), &[99]);
}

/// The reservoirs are moved out at the end of a run.
#[test]
fn take_reservoirs_moves_buffers() {
    let mut m = PerNodeMetrics::with_sketch_reservoirs(8, 42);
    for i in 0..5u32 {
        m.chan_updates_stats.rounds_intersection.observe(i);
        m.chan_updates_stats.rounds_a_only.observe(i + 10);
        m.chan_updates_stats.rounds_b_only.observe(i + 20);
    }
    let (cu, _na, _ca) = m.take_reservoirs();
    assert_eq!(cu.intersection, vec![0, 1, 2, 3, 4]);
    assert_eq!(cu.a_only, vec![10, 11, 12, 13, 14]);
    assert_eq!(cu.b_only, vec![20, 21, 22, 23, 24]);
    assert_eq!(cu.total_seen, 5);
    assert_eq!(m.chan_updates_stats.rounds_intersection.samples(), &[] as &[u32]);
    assert_eq!(m.chan_updates_stats.rounds_intersection.capacity(), 0);
}

#[test]
fn ranks_are_clamped() {
    assert_eq!(rank_to_index(0, 10), 0);
    assert_eq!(rank_to_index(1, 10), 0);
    assert_eq!(rank_to_index(10, 10), 9);
    assert_eq!(rank_to_index(11, 10), 9);
    assert_eq!(rank_to_index(5, 0), 0);
}

/// Repeated batches for one node and message count once.
#[test]
fn repeated_batches_count_once() {
    let mut state = AggregatorState::new(4, vec![3]);
    for _ in 0..16 {
        let entry = FirstSeenEntry { gossip: dummy_gossip(7, 100), time_ns: 50_000 };
        state.handle_first_seen_batch(0, vec![entry]);
    }
    assert_eq!(state.finalized_count(), 0);
    state.finalize_remaining();
    assert_eq!(state.finished().len(), 1);
    assert_eq!(state.finished()[0].coverage, 1);
    assert_eq!(state.finished()[0].percentiles, vec![None]);
}

/// A message that reaches every node finishes once, with the time of the
/// last sighting as its full percentile.
#[test]
fn complete_message_finishes_once() {
    let n_nodes: usize = 32;
    let mut state = AggregatorState::new(n_nodes, vec![0, 15, 31]);
    let mut rows = Vec::new();
    for i in 0..n_nodes {
        let entry = FirstSeenEntry {
            gossip: dummy_gossip(11, 200),
            time_ns: i as u64 * 1_000,
        };
        let (new_rows, over) = state.handle_event(MetricsEvent::FirstSeenBatch {
            idx: i as NodeIdx,
            entries: vec![entry],
        });
        assert!(!over);
        rows.extend(new_rows);
    }
    let (late, over) = state.handle_event(MetricsEvent::FinalizeAndShutdown);
    assert!(over);
    assert!(late.is_empty());
    assert_eq!(rows.len(), 1);
    match &rows[0] {
        WriterRow::MsgStats(s) => {
            assert_eq!(s.id, 11);
            assert_eq!(s.coverage, n_nodes);
            assert_eq!(s.last_ns, 31_000);
            assert_eq!(s.percentiles, vec![Some(0), Some(15_000), Some(31_000)]);
        }
        other => panic!("unexpected row {other:?}"),
    }
}

/// A newer version of a channel side ends the older one.
#[test]
fn newer_version_supersedes() {
    let mut state = AggregatorState::new(3, vec![2]);
    state.handle_one_first_seen(0, dummy_gossip(1, 100), 10);
    state.handle_one_first_seen(0, dummy_gossip(2, 200), 20);
    assert_eq!(state.superseded_count(), 1);
    assert_eq!(state.finished().len(), 1);
    assert_eq!(state.finished()[0].id, 1);
    // The old version is not taken up again.
    state.handle_one_first_seen(1, dummy_gossip(1, 100), 30);
    state.finalize_remaining();
    assert_eq!(state.finished().len(), 2);
}

#[test]
fn counter_flush_becomes_rows() {
    let mut state = AggregatorState::new(2, vec![1]);
    let mut m = PerNodeMetrics::with_sketch_reservoirs(4, 1);
    m.bytes_in_gossip = 5;
    let overflow = OverflowEvent {
        time_ns: 9,
        receiver_idx: 1,
        peer_id: 77,
        kind: SketchKind::ChanAnns,
        amount: 3,
        difference: 11,
    };
    let (rows, over) = state.handle_event(MetricsEvent::NodeCountersDelta {
        idx: 1,
        time_ns: 10,
        counters: m.snapshot_counters(),
        drained_overflow: vec![overflow],
    });
    assert!(!over);
    assert_eq!(rows.len(), 2);
    match (&rows[0], &rows[1]) {
        (WriterRow::OverflowEvent(o), WriterRow::NodeCounters(c)) => {
            assert_eq!((o.peer_id, o.kind, o.amount, o.total_diff), (77, 2, 3, 11));
            assert_eq!((c.node_idx, c.time_ns, c.bytes_in_gossip), (1, 10, 5));
        }
        other => panic!("unexpected rows {other:?}"),
    }
}

#[test]
fn reservoir_dump_becomes_rows() {
    let mut state = AggregatorState::new(2, vec![1]);
    let samples = |n: u32| KindReservoirSamples {
        intersection: (0..n).collect(),
        difference: (10..10 + n).collect(),
        a_only: (20..20 + n).collect(),
        b_only: (30..30 + n).collect(),
        total_seen: 99,
    };
    let (rows, _) = state.handle_event(MetricsEvent::NodeReservoirDump {
        idx: 0,
        chan_updates: samples(2),
        node_anns: samples(0),
        chan_anns: samples(1),
    });
    assert_eq!(rows.len(), 3);
    match &rows[2] {
        WriterRow::NodeReservoir(r) => {
            assert_eq!((r.kind, r.intersection, r.difference, r.a_only, r.b_only), (2, 0, 10, 20, 30));
            assert_eq!(r.total_seen, 99);
        }
        other => panic!("unexpected row {other:?}"),
    }
}
