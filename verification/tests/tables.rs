use arrow_array::cast::AsArray;
use arrow_array::types::{Float64Type, UInt32Type, UInt64Type, UInt8Type};
use arrow_array::{Array, RecordBatch};
use lnconv_core::metrics::{MsgStats, PerNodeMetrics};
use lnconv_core::stats_writer::{
    NodeCountersRow, NodePubkeyRow, NodeReservoirRow, OverflowEventRow, RunMetaInputs, RunMetaRow,
};
use lnconv_core::tables::{msg_to_batch, WriteRow};

fn names(b: &RecordBatch) -> Vec<String> {
    b.schema().fields().iter().map(|f| f.name().clone()).collect()
}

fn longs(b: &RecordBatch, name: &str) -> Vec<u64> {
    let column = b.column_by_name(name).expect("column");
    column.as_primitive::<UInt64Type>().values().to_vec()
}

#[test]
fn counters_are_tabled() {
    let mut m = PerNodeMetrics::with_sketch_reservoirs(4, 1);
    m.bytes_in_gossip = 7;
    m.chan_anns_stats.b_only = 9;
    let row = NodeCountersRow::from_counters(3, 50, &m.snapshot_counters());
    let other = NodeCountersRow { node_idx: 4, time_ns: 60, ..row };
    let b = NodeCountersRow::to_batch(&[row, other]).record;
    assert_eq!((b.num_columns(), b.num_rows()), (32, 2));
    assert_eq!(names(&b)[..3], ["node_idx", "time_ns", "bytes_in_sketch"]);
    let idx = b.column_by_name("node_idx").expect("column");
    assert_eq!(idx.as_primitive::<UInt32Type>().values().to_vec(), vec![3, 4]);
    assert_eq!(longs(&b, "time_ns"), vec![50, 60]);
    assert_eq!(longs(&b, "bytes_in_gossip"), vec![7, 7]);
    assert_eq!(longs(&b, "chan_anns_b_only"), vec![9, 9]);
    assert!(b.schema().fields().iter().all(|f| !f.is_nullable()));
}

#[test]
fn samples_and_overflows_are_tabled() {
    let r = NodeReservoirRow {
        node_idx: 1,
        kind: 2,
        intersection: 3,
        difference: 4,
        a_only: 5,
        b_only: 6,
        total_seen: 7,
    };
    let b = NodeReservoirRow::to_batch(&[r]).record;
    assert_eq!(
        names(&b),
        ["node_idx", "kind", "intersection", "difference", "a_only", "b_only", "total_seen"]
    );
    let kind = b.column_by_name("kind").expect("column");
    assert_eq!(kind.as_primitive::<UInt8Type>().values().to_vec(), vec![2]);
    assert_eq!(longs(&b, "total_seen"), vec![7]);
    let o = OverflowEventRow {
        time_ns: 1,
        receiver_idx: 2,
        peer_id: 3,
        kind: 1,
        amount: 5,
        total_diff: 6,
    };
    let b = OverflowEventRow::to_batch(&[o]).record;
    assert_eq!(names(&b), ["time_ns", "receiver_idx", "peer_id", "kind", "amount", "total_diff"]);
    assert_eq!(longs(&b, "peer_id"), vec![3]);
}

#[test]
fn empty_tables_have_columns() {
    let b = OverflowEventRow::to_batch(&[]).record;
    assert_eq!((b.num_columns(), b.num_rows()), (6, 0));
}

#[test]
fn runs_are_tabled() {
    let row = RunMetaRow::new(
        RunMetaInputs {
            seed: 5,
            n_nodes: 10,
            mean_degree_bits: 4.5f64.to_bits(),
            min_degree: 4,
            max_degree: 5,
            diameter: 3,
            mean_path_length_bits: 2.25f64.to_bits(),
            capacity_chan_updates: 1,
            capacity_node_anns: 2,
            capacity_chan_anns: 3,
            events_chan_update: 4,
            events_node_ann: 5,
            events_chan_ann: 6,
            duration_seconds: 60,
            algo: "cln".to_string(),
            topology_kind: "k_regular".to_string(),
            event_kind: "one_shot_all".to_string(),
        },
        None,
    );
    let b = RunMetaRow::to_batch(&[row]).record;
    assert_eq!((b.num_columns(), b.num_rows()), (21, 1));
    let degree = b.column_by_name("mean_degree").expect("column");
    assert_eq!(degree.as_primitive::<Float64Type>().value(0), 4.5);
    let algo = b.column_by_name("algo").expect("column");
    assert_eq!(algo.as_string::<i32>().value(0), "cln");
    assert_eq!(longs(&b, "events_chan_ann"), vec![6]);
}

#[test]
fn pubkeys_are_tabled() {
    let rows = [
        NodePubkeyRow::new(0, 11, "02aa".to_string()),
        NodePubkeyRow::new(1, 22, "03bb".to_string()),
    ];
    let b = NodePubkeyRow::to_batch(&rows).record;
    let keys = b.column_by_name("pubkey").expect("column");
    assert_eq!(keys.as_string::<i32>().value(1), "03bb");
}

#[test]
fn missing_percentiles_are_null() {
    let row = MsgStats {
        id: 7,
        coverage: 2,
        n_nodes: 4,
        origin_ns: 5,
        last_ns: 9,
        size_bytes: 100,
        percentiles: vec![Some(3), None],
    };
    let cols = vec!["p50_ns".to_string(), "p100_ns".to_string()];
    let b = msg_to_batch(&cols, &[row]).record;
    assert_eq!(
        names(&b),
        ["msg_id", "coverage", "n_nodes", "origin_ns", "last_ns", "size_bytes", "p50_ns", "p100_ns"]
    );
    assert_eq!(longs(&b, "p50_ns"), vec![3]);
    assert!(b.column_by_name("p100_ns").expect("column").is_null(0));
    assert!(b.schema().field_with_name("p50_ns").expect("field").is_nullable());
}
