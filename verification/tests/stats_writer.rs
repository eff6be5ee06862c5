use lnconv_core::metrics::MsgStats;
use lnconv_core::stats_writer::{
    tag_for, NodePubkeyRow, OutputPaths, RowBuffer, RunMetaInputs, RunMetaRow, SketchPredictions,
};

#[test]
fn output_paths_share_tag() {
    let paths = OutputPaths::from_tag("foo-bar-baz-2026-05-12");
    assert_eq!(paths.msg_stats, "foo-bar-baz-2026-05-12-msg_stats.parquet");
    assert_eq!(
        paths.node_counters,
        "foo-bar-baz-2026-05-12-node_counters.parquet"
    );
    assert_eq!(
        paths.overflow_events,
        "foo-bar-baz-2026-05-12-overflow_events.parquet"
    );
}

#[test]
fn tags_name_the_run() {
    assert_eq!(
        tag_for("k_regular", "cln", "one_shot_all", "2026-05-12"),
        "k_regular-cln-one_shot_all-2026-05-12"
    );
}

#[test]
fn message_rows_become_columns() {
    let row = |id: u64| MsgStats {
        id,
        coverage: 2,
        n_nodes: 4,
        origin_ns: 5,
        last_ns: 9,
        size_bytes: 100,
        percentiles: vec![Some(1), None],
    };
    let cols = MsgStats::to_columns(&[row(7), row(8)], 2);
    assert_eq!(cols.msg_id, vec![7, 8]);
    assert_eq!(cols.coverage, vec![2, 2]);
    assert_eq!(cols.percentiles, vec![vec![Some(1), Some(1)], vec![None, None]]);
}

#[test]
fn pubkey_rows_become_columns() {
    let rows = vec![
        NodePubkeyRow::new(0, 11, "02aa".to_string()),
        NodePubkeyRow::new(1, 22, "03bb".to_string()),
    ];
    let cols = NodePubkeyRow::to_columns(&rows);
    assert_eq!(cols.node_idx, vec![0, 1]);
    assert_eq!(cols.node_id, vec![11, 22]);
    assert_eq!(cols.pubkey, vec!["02aa".to_string(), "03bb".to_string()]);
}

#[test]
fn run_rows_carry_predictions() {
    let inputs = |seed: u64| RunMetaInputs {
        seed,
        n_nodes: 10,
        mean_degree_bits: 4.0f64.to_bits(),
        min_degree: 4,
        max_degree: 4,
        diameter: 3,
        mean_path_length_bits: 2.5f64.to_bits(),
        capacity_chan_updates: 512,
        capacity_node_anns: 64,
        capacity_chan_anns: 64,
        events_chan_update: 1,
        events_node_ann: 2,
        events_chan_ann: 3,
        duration_seconds: 60,
        algo: "sketch".to_string(),
        topology_kind: "k_regular".to_string(),
        event_kind: "poisson_random".to_string(),
    };
    let with = RunMetaRow::new(
        inputs(1),
        Some(SketchPredictions {
            stagger_secs_bits: 60.0f64.to_bits(),
            p50_secs_bits: 1.0f64.to_bits(),
            p99_secs_bits: 2.0f64.to_bits(),
            p100_secs_bits: 3.0f64.to_bits(),
        }),
    );
    assert_eq!(f64::from_bits(with.stagger_secs_bits), 60.0);
    assert_eq!(f64::from_bits(with.predicted_p99_bits), 2.0);
    let without = RunMetaRow::new(inputs(2), None);
    assert_eq!(f64::from_bits(without.stagger_secs_bits), 0.0);
    assert_eq!(f64::from_bits(without.predicted_p100_bits), 0.0);
    let cols = RunMetaRow::to_columns(&[with, without]);
    assert_eq!(cols.seed, vec![1, 2]);
    assert_eq!(cols.algo, vec!["sketch".to_string(), "sketch".to_string()]);
}

#[test]
fn buffers_flush_what_was_pushed() {
    let mut b = RowBuffer::<u32>::new();
    assert!(b.push(1).is_none());
    assert!(b.push(2).is_none());
    assert_eq!(b.flush(), Some(vec![1, 2]));
    assert_eq!(b.flush(), None);
}

#[test]
fn full_buffers_flush_themselves() {
    let mut b = RowBuffer::<u8>::new();
    let mut flushed = 0;
    for i in 0..131_072u32 {
        if let Some(rows) = b.push((i % 7) as u8) {
            flushed = rows.len();
        }
    }
    assert_eq!(flushed, 131_072);
    assert_eq!(b.flush(), None);
}
