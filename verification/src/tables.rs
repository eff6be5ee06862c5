//! Output tables as Arrow record batches.

use std::sync::Arc;

use arrow_array::types::{ArrowPrimitiveType, Float64Type};
use arrow_array::{
    ArrayRef, Float64Array, RecordBatch, StringArray, UInt32Array, UInt64Array, UInt8Array,
};
use vstd::prelude::*;

use crate::metrics::MsgStats;
use crate::stats_writer;
use crate::stats_writer::{
    NodeCountersRow, NodePubkeyRow, NodeReservoirRow, OverflowEventRow, RunMetaRow,
};

verus! {

// ---------------------------------------------------------------------
// Arrow
// ---------------------------------------------------------------------

/// `arrow_array::RecordBatch`, a table of columns of equal length.
#[verifier::external_body]
pub struct Batch {
    pub record: RecordBatch,
}

/// `arrow_array::ArrayRef`, the cells of one column.
#[verifier::external_body]
pub struct ArrowArray {
    array: ArrayRef,
}

/// What the cells of a column hold, by row. Floating-point numbers are
/// given by their bit patterns.
pub enum Cells {
    Bytes(Seq<u8>),
    Words(Seq<u32>),
    Longs(Seq<u64>),
    /// Numbers, some of them missing.
    Spans(Seq<Option<u64>>),
    Floats(Seq<u64>),
    Texts(Seq<Seq<char>>),
}

impl Cells {
    /// Number of cells.
    pub open spec fn len(self) -> nat {
        match self {
            Cells::Bytes(v) => v.len(),
            Cells::Words(v) => v.len(),
            Cells::Longs(v) => v.len(),
            Cells::Spans(v) => v.len(),
            Cells::Floats(v) => v.len(),
            Cells::Texts(v) => v.len(),
        }
    }
}

/// A column of a table.
#[verifier::ext_equal]
pub struct Column {
    pub name: Seq<char>,
    /// Cells may be missing.
    pub nullable: bool,
    pub cells: Cells,
}

/// What an Arrow array holds.
pub uninterp spec fn cells(a: ArrowArray) -> Cells;

/// The columns of a record batch, in order.
pub uninterp spec fn table(b: Batch) -> Seq<Column>;

/// The views of texts.
pub open spec fn views(texts: Seq<String>) -> Seq<Seq<char>> {
    texts.map_values(|s: String| s@)
}

/// Number of characters of all texts.
pub open spec fn total_chars(texts: Seq<Seq<char>>) -> nat
    decreases texts.len(),
{
    if texts.len() == 0 {
        0
    } else {
        total_chars(texts.drop_last()) + texts.last().len()
    }
}

/// The texts fit one array, whose offsets have 31 bits: a character takes
/// up to four bytes.
pub open spec fn texts_fit(texts: Seq<Seq<char>>) -> bool {
    4 * total_chars(texts) <= 0x7fff_ffff
}

/// `UInt8Array::from`: an array of the given bytes.
#[verifier::external_body]
fn byte_array(v: Vec<u8>) -> (r: ArrowArray)
    ensures
        cells(r) == Cells::Bytes(v@),
{
    ArrowArray { array: Arc::new(UInt8Array::from(v)) }
}

/// `UInt32Array::from`: an array of the given numbers.
#[verifier::external_body]
fn word_array(v: Vec<u32>) -> (r: ArrowArray)
    ensures
        cells(r) == Cells::Words(v@),
{
    ArrowArray { array: Arc::new(UInt32Array::from(v)) }
}

/// `UInt64Array::from`: an array of the given numbers.
#[verifier::external_body]
fn long_array(v: Vec<u64>) -> (r: ArrowArray)
    ensures
        cells(r) == Cells::Longs(v@),
{
    ArrowArray { array: Arc::new(UInt64Array::from(v)) }
}

/// `UInt64Array::from` of optional numbers: an array of them in which
/// those that are `None` are null.
#[verifier::external_body]
fn span_array(v: Vec<Option<u64>>) -> (r: ArrowArray)
    ensures
        cells(r) == Cells::Spans(v@),
{
    ArrowArray { array: Arc::new(UInt64Array::from(v)) }
}

/// `Float64Array::from_iter_values`: an array of the floating-point
/// numbers with the given bit patterns.
#[verifier::external_body]
fn float_array(v: Vec<u64>) -> (r: ArrowArray)
    ensures
        cells(r) == Cells::Floats(v@),
{
    let numbers = v.into_iter().map(<Float64Type as ArrowPrimitiveType>::Native::from_bits);
    ArrowArray { array: Arc::new(Float64Array::from_iter_values(numbers)) }
}

/// `StringArray::from`: an array of the given texts. Their bytes have to
/// be countable in 31 bits.
#[verifier::external_body]
fn text_array(v: Vec<String>) -> (r: ArrowArray)
    requires
        texts_fit(views(v@)),
    ensures
        cells(r) == Cells::Texts(views(v@)),
{
    ArrowArray { array: Arc::new(StringArray::from(v)) }
}

/// A named array.
pub struct NamedArray {
    pub name: String,
    pub nullable: bool,
    pub array: ArrowArray,
}

impl View for NamedArray {
    type V = Column;

    open spec fn view(&self) -> Column {
        Column { name: self.name@, nullable: self.nullable, cells: cells(self.array) }
    }
}

/// The columns of named arrays.
pub open spec fn columns_of(arrays: Seq<NamedArray>) -> Seq<Column> {
    arrays.map_values(|a: NamedArray| a@)
}

/// There are columns, all of one length, and those with missing cells say
/// so.
pub open spec fn is_table(columns: Seq<Column>) -> bool {
    &&& columns.len() > 0
    &&& forall|i: int|
        0 <= i < columns.len() ==> (#[trigger] columns[i]).cells.len() == columns[0].cells.len()
            && (columns[i].cells is Spans ==> columns[i].nullable)
}

/// `RecordBatch::try_from_iter_with_nullable`: a batch of the given
/// columns in their order. It succeeds where there are columns, their
/// lengths agree and only nullable ones hold nulls.
#[verifier::external_body]
fn batch_of(arrays: Vec<NamedArray>) -> (r: Batch)
    requires
        is_table(columns_of(arrays@)),
    ensures
        table(r) == columns_of(arrays@),
{
    let columns = arrays.into_iter().map(|a| (a.name, a.array.array, a.nullable));
    Batch { record: RecordBatch::try_from_iter_with_nullable(columns).unwrap() }
}

// ---------------------------------------------------------------------
// Columns
// ---------------------------------------------------------------------

/// A column of bytes.
pub open spec fn bytes(name: &str, v: Seq<u8>) -> Column {
    Column { name: name@, nullable: false, cells: Cells::Bytes(v) }
}

/// A column of 32-bit numbers.
pub open spec fn words(name: &str, v: Seq<u32>) -> Column {
    Column { name: name@, nullable: false, cells: Cells::Words(v) }
}

/// A column of 64-bit numbers.
pub open spec fn longs(name: &str, v: Seq<u64>) -> Column {
    Column { name: name@, nullable: false, cells: Cells::Longs(v) }
}

/// A column of floating-point numbers.
pub open spec fn floats(name: &str, v: Seq<u64>) -> Column {
    Column { name: name@, nullable: false, cells: Cells::Floats(v) }
}

/// A column of texts.
pub open spec fn texts(name: &str, v: Seq<Seq<char>>) -> Column {
    Column { name: name@, nullable: false, cells: Cells::Texts(v) }
}

fn named(name: &str, array: ArrowArray) -> (r: NamedArray)
    ensures
        r@ == (Column { name: name@, nullable: false, cells: cells(array) }),
{
    NamedArray { name: name.to_owned(), nullable: false, array }
}

/// Rows of an output table.
pub trait WriteRow: Sized {
    /// The columns of a list of rows, one cell per row in each.
    spec fn columns(rows: Seq<Self>) -> Seq<Column>;

    /// The texts of the rows fit their columns.
    spec fn fits(rows: Seq<Self>) -> bool;

    /// The rows as a record batch.
    fn to_batch(rows: &[Self]) -> (r: Batch)
        requires
            Self::fits(rows@),
        ensures
            table(r) == Self::columns(rows@),
    ;
}

impl WriteRow for NodeCountersRow {
    open spec fn columns(rows: Seq<Self>) -> Seq<Column> {
        seq![
            words("node_idx", rows.map_values(|row: NodeCountersRow| row.node_idx)),
            longs("time_ns", rows.map_values(|row: NodeCountersRow| row.time_ns)),
            longs("bytes_in_sketch", rows.map_values(|row: NodeCountersRow| row.bytes_in_sketch)),
            longs("bytes_out_sketch", rows.map_values(|row: NodeCountersRow| row.bytes_out_sketch)),
            longs("bytes_in_gossip", rows.map_values(|row: NodeCountersRow| row.bytes_in_gossip)),
            longs("bytes_out_gossip", rows.map_values(|row: NodeCountersRow| row.bytes_out_gossip)),
            longs("bytes_in_inventory", rows.map_values(|row: NodeCountersRow| row.bytes_in_inventory)),
            longs("bytes_out_inventory", rows.map_values(|row: NodeCountersRow| row.bytes_out_inventory)),
            longs("duplicates", rows.map_values(|row: NodeCountersRow| row.duplicates)),
            longs("duplicates_bytes", rows.map_values(|row: NodeCountersRow| row.duplicates_bytes)),
            longs("sketches_sent", rows.map_values(|row: NodeCountersRow| row.sketches_sent)),
            longs("sketches_received", rows.map_values(|row: NodeCountersRow| row.sketches_received)),
            longs("inventories_sent", rows.map_values(|row: NodeCountersRow| row.inventories_sent)),
            longs("inventories_received", rows.map_values(|row: NodeCountersRow| row.inventories_received)),
            longs("inv_keys_sent_sum", rows.map_values(|row: NodeCountersRow| row.inv_keys_sent_sum)),
            longs("inv_keys_sent_min", rows.map_values(|row: NodeCountersRow| row.inv_keys_sent_min)),
            longs("inv_keys_sent_max", rows.map_values(|row: NodeCountersRow| row.inv_keys_sent_max)),
            longs("overflowed_chan_updates", rows.map_values(|row: NodeCountersRow| row.overflowed_chan_updates)),
            longs("overflowed_node_anns", rows.map_values(|row: NodeCountersRow| row.overflowed_node_anns)),
            longs("overflowed_chan_anns", rows.map_values(|row: NodeCountersRow| row.overflowed_chan_anns)),
            longs("chan_updates_intersection", rows.map_values(|row: NodeCountersRow| row.chan_updates_intersection)),
            longs("chan_updates_difference", rows.map_values(|row: NodeCountersRow| row.chan_updates_difference)),
            longs("chan_updates_a_only", rows.map_values(|row: NodeCountersRow| row.chan_updates_a_only)),
            longs("chan_updates_b_only", rows.map_values(|row: NodeCountersRow| row.chan_updates_b_only)),
            longs("node_anns_intersection", rows.map_values(|row: NodeCountersRow| row.node_anns_intersection)),
            longs("node_anns_difference", rows.map_values(|row: NodeCountersRow| row.node_anns_difference)),
            longs("node_anns_a_only", rows.map_values(|row: NodeCountersRow| row.node_anns_a_only)),
            longs("node_anns_b_only", rows.map_values(|row: NodeCountersRow| row.node_anns_b_only)),
            longs("chan_anns_intersection", rows.map_values(|row: NodeCountersRow| row.chan_anns_intersection)),
            longs("chan_anns_difference", rows.map_values(|row: NodeCountersRow| row.chan_anns_difference)),
            longs("chan_anns_a_only", rows.map_values(|row: NodeCountersRow| row.chan_anns_a_only)),
            longs("chan_anns_b_only", rows.map_values(|row: NodeCountersRow| row.chan_anns_b_only)),
        ]
    }

    open spec fn fits(rows: Seq<Self>) -> bool {
        true
    }

    fn to_batch(rows: &[Self]) -> (r: Batch) {
        let c = NodeCountersRow::to_columns(rows);
        let mut arrays: Vec<NamedArray> = Vec::new();
        arrays.push(named("node_idx", word_array(c.node_idx)));
        arrays.push(named("time_ns", long_array(c.time_ns)));
        arrays.push(named("bytes_in_sketch", long_array(c.bytes_in_sketch)));
        arrays.push(named("bytes_out_sketch", long_array(c.bytes_out_sketch)));
        arrays.push(named("bytes_in_gossip", long_array(c.bytes_in_gossip)));
        arrays.push(named("bytes_out_gossip", long_array(c.bytes_out_gossip)));
        arrays.push(named("bytes_in_inventory", long_array(c.bytes_in_inventory)));
        arrays.push(named("bytes_out_inventory", long_array(c.bytes_out_inventory)));
        arrays.push(named("duplicates", long_array(c.duplicates)));
        arrays.push(named("duplicates_bytes", long_array(c.duplicates_bytes)));
        arrays.push(named("sketches_sent", long_array(c.sketches_sent)));
        arrays.push(named("sketches_received", long_array(c.sketches_received)));
        arrays.push(named("inventories_sent", long_array(c.inventories_sent)));
        arrays.push(named("inventories_received", long_array(c.inventories_received)));
        arrays.push(named("inv_keys_sent_sum", long_array(c.inv_keys_sent_sum)));
        arrays.push(named("inv_keys_sent_min", long_array(c.inv_keys_sent_min)));
        arrays.push(named("inv_keys_sent_max", long_array(c.inv_keys_sent_max)));
        arrays.push(named("overflowed_chan_updates", long_array(c.overflowed_chan_updates)));
        arrays.push(named("overflowed_node_anns", long_array(c.overflowed_node_anns)));
        arrays.push(named("overflowed_chan_anns", long_array(c.overflowed_chan_anns)));
        arrays.push(named("chan_updates_intersection", long_array(c.chan_updates_intersection)));
        arrays.push(named("chan_updates_difference", long_array(c.chan_updates_difference)));
        arrays.push(named("chan_updates_a_only", long_array(c.chan_updates_a_only)));
        arrays.push(named("chan_updates_b_only", long_array(c.chan_updates_b_only)));
        arrays.push(named("node_anns_intersection", long_array(c.node_anns_intersection)));
        arrays.push(named("node_anns_difference", long_array(c.node_anns_difference)));
        arrays.push(named("node_anns_a_only", long_array(c.node_anns_a_only)));
        arrays.push(named("node_anns_b_only", long_array(c.node_anns_b_only)));
        arrays.push(named("chan_anns_intersection", long_array(c.chan_anns_intersection)));
        arrays.push(named("chan_anns_difference", long_array(c.chan_anns_difference)));
        arrays.push(named("chan_anns_a_only", long_array(c.chan_anns_a_only)));
        arrays.push(named("chan_anns_b_only", long_array(c.chan_anns_b_only)));
        assert(columns_of(arrays@) =~= Self::columns(rows@));
        batch_of(arrays)
    }
}

impl WriteRow for NodeReservoirRow {
    open spec fn columns(rows: Seq<Self>) -> Seq<Column> {
        seq![
            words("node_idx", rows.map_values(|row: NodeReservoirRow| row.node_idx)),
            bytes("kind", rows.map_values(|row: NodeReservoirRow| row.kind)),
            words("intersection", rows.map_values(|row: NodeReservoirRow| row.intersection)),
            words("difference", rows.map_values(|row: NodeReservoirRow| row.difference)),
            words("a_only", rows.map_values(|row: NodeReservoirRow| row.a_only)),
            words("b_only", rows.map_values(|row: NodeReservoirRow| row.b_only)),
            longs("total_seen", rows.map_values(|row: NodeReservoirRow| row.total_seen)),
        ]
    }

    open spec fn fits(rows: Seq<Self>) -> bool {
        true
    }

    fn to_batch(rows: &[Self]) -> (r: Batch) {
        let c = NodeReservoirRow::to_columns(rows);
        let mut arrays: Vec<NamedArray> = Vec::new();
        arrays.push(named("node_idx", word_array(c.node_idx)));
        arrays.push(named("kind", byte_array(c.kind)));
        arrays.push(named("intersection", word_array(c.intersection)));
        arrays.push(named("difference", word_array(c.difference)));
        arrays.push(named("a_only", word_array(c.a_only)));
        arrays.push(named("b_only", word_array(c.b_only)));
        arrays.push(named("total_seen", long_array(c.total_seen)));
        assert(columns_of(arrays@) =~= Self::columns(rows@));
        batch_of(arrays)
    }
}

impl WriteRow for OverflowEventRow {
    open spec fn columns(rows: Seq<Self>) -> Seq<Column> {
        seq![
            longs("time_ns", rows.map_values(|row: OverflowEventRow| row.time_ns)),
            words("receiver_idx", rows.map_values(|row: OverflowEventRow| row.receiver_idx)),
            longs("peer_id", rows.map_values(|row: OverflowEventRow| row.peer_id)),
            bytes("kind", rows.map_values(|row: OverflowEventRow| row.kind)),
            words("amount", rows.map_values(|row: OverflowEventRow| row.amount)),
            words("total_diff", rows.map_values(|row: OverflowEventRow| row.total_diff)),
        ]
    }

    open spec fn fits(rows: Seq<Self>) -> bool {
        true
    }

    fn to_batch(rows: &[Self]) -> (r: Batch) {
        let c = OverflowEventRow::to_columns(rows);
        let mut arrays: Vec<NamedArray> = Vec::new();
        arrays.push(named("time_ns", long_array(c.time_ns)));
        arrays.push(named("receiver_idx", word_array(c.receiver_idx)));
        arrays.push(named("peer_id", long_array(c.peer_id)));
        arrays.push(named("kind", byte_array(c.kind)));
        arrays.push(named("amount", word_array(c.amount)));
        arrays.push(named("total_diff", word_array(c.total_diff)));
        assert(columns_of(arrays@) =~= Self::columns(rows@));
        batch_of(arrays)
    }
}

impl WriteRow for RunMetaRow {
    open spec fn columns(rows: Seq<Self>) -> Seq<Column> {
        seq![
            longs("seed", rows.map_values(|row: RunMetaRow| row.seed)),
            longs("n_nodes", rows.map_values(|row: RunMetaRow| row.n_nodes)),
            floats("mean_degree", rows.map_values(|row: RunMetaRow| row.mean_degree_bits)),
            longs("min_degree", rows.map_values(|row: RunMetaRow| row.min_degree)),
            longs("max_degree", rows.map_values(|row: RunMetaRow| row.max_degree)),
            longs("diameter", rows.map_values(|row: RunMetaRow| row.diameter)),
            floats("mean_path_length", rows.map_values(|row: RunMetaRow| row.mean_path_length_bits)),
            floats("stagger_secs", rows.map_values(|row: RunMetaRow| row.stagger_secs_bits)),
            longs("capacity_chan_updates", rows.map_values(|row: RunMetaRow| row.capacity_chan_updates)),
            longs("capacity_node_anns", rows.map_values(|row: RunMetaRow| row.capacity_node_anns)),
            longs("capacity_chan_anns", rows.map_values(|row: RunMetaRow| row.capacity_chan_anns)),
            longs("events_chan_update", rows.map_values(|row: RunMetaRow| row.events_chan_update)),
            longs("events_node_ann", rows.map_values(|row: RunMetaRow| row.events_node_ann)),
            longs("events_chan_ann", rows.map_values(|row: RunMetaRow| row.events_chan_ann)),
            longs("duration_seconds", rows.map_values(|row: RunMetaRow| row.duration_seconds)),
            floats("predicted_p50_secs", rows.map_values(|row: RunMetaRow| row.predicted_p50_bits)),
            floats("predicted_p99_secs", rows.map_values(|row: RunMetaRow| row.predicted_p99_bits)),
            floats("predicted_p100_secs", rows.map_values(|row: RunMetaRow| row.predicted_p100_bits)),
            texts("algo", rows.map_values(|row: RunMetaRow| row.algo@)),
            texts("topology_kind", rows.map_values(|row: RunMetaRow| row.topology_kind@)),
            texts("event_kind", rows.map_values(|row: RunMetaRow| row.event_kind@)),
        ]
    }

    open spec fn fits(rows: Seq<Self>) -> bool {
        &&& texts_fit(rows.map_values(|row: RunMetaRow| row.algo@))
        &&& texts_fit(rows.map_values(|row: RunMetaRow| row.topology_kind@))
        &&& texts_fit(rows.map_values(|row: RunMetaRow| row.event_kind@))
    }

    fn to_batch(rows: &[Self]) -> (r: Batch) {
        let c = RunMetaRow::to_columns(rows);
        assert(views(c.algo@) =~= rows@.map_values(|row: RunMetaRow| row.algo@));
        assert(views(c.topology_kind@) =~= rows@.map_values(|row: RunMetaRow| row.topology_kind@));
        assert(views(c.event_kind@) =~= rows@.map_values(|row: RunMetaRow| row.event_kind@));
        let mut arrays: Vec<NamedArray> = Vec::new();
        arrays.push(named("seed", long_array(c.seed)));
        arrays.push(named("n_nodes", long_array(c.n_nodes)));
        arrays.push(named("mean_degree", float_array(c.mean_degree_bits)));
        arrays.push(named("min_degree", long_array(c.min_degree)));
        arrays.push(named("max_degree", long_array(c.max_degree)));
        arrays.push(named("diameter", long_array(c.diameter)));
        arrays.push(named("mean_path_length", float_array(c.mean_path_length_bits)));
        arrays.push(named("stagger_secs", float_array(c.stagger_secs_bits)));
        arrays.push(named("capacity_chan_updates", long_array(c.capacity_chan_updates)));
        arrays.push(named("capacity_node_anns", long_array(c.capacity_node_anns)));
        arrays.push(named("capacity_chan_anns", long_array(c.capacity_chan_anns)));
        arrays.push(named("events_chan_update", long_array(c.events_chan_update)));
        arrays.push(named("events_node_ann", long_array(c.events_node_ann)));
        arrays.push(named("events_chan_ann", long_array(c.events_chan_ann)));
        arrays.push(named("duration_seconds", long_array(c.duration_seconds)));
        arrays.push(named("predicted_p50_secs", float_array(c.predicted_p50_bits)));
        arrays.push(named("predicted_p99_secs", float_array(c.predicted_p99_bits)));
        arrays.push(named("predicted_p100_secs", float_array(c.predicted_p100_bits)));
        arrays.push(named("algo", text_array(c.algo)));
        arrays.push(named("topology_kind", text_array(c.topology_kind)));
        arrays.push(named("event_kind", text_array(c.event_kind)));
        assert(columns_of(arrays@) =~= Self::columns(rows@));
        batch_of(arrays)
    }
}

impl WriteRow for NodePubkeyRow {
    open spec fn columns(rows: Seq<Self>) -> Seq<Column> {
        seq![
            words("node_idx", rows.map_values(|row: NodePubkeyRow| row.node_idx)),
            longs("node_id", rows.map_values(|row: NodePubkeyRow| row.node_id)),
            texts("pubkey", rows.map_values(|row: NodePubkeyRow| row.pubkey@)),
        ]
    }

    open spec fn fits(rows: Seq<Self>) -> bool {
        &&& texts_fit(rows.map_values(|row: NodePubkeyRow| row.pubkey@))
    }

    fn to_batch(rows: &[Self]) -> (r: Batch) {
        let c = NodePubkeyRow::to_columns(rows);
        assert(views(c.pubkey@) =~= rows@.map_values(|row: NodePubkeyRow| row.pubkey@));
        let mut arrays: Vec<NamedArray> = Vec::new();
        arrays.push(named("node_idx", word_array(c.node_idx)));
        arrays.push(named("node_id", long_array(c.node_id)));
        arrays.push(named("pubkey", text_array(c.pubkey)));
        assert(columns_of(arrays@) =~= Self::columns(rows@));
        batch_of(arrays)
    }
}

/// The columns of finished messages: the named percentiles come last.
pub open spec fn message_columns(names: Seq<String>, rows: Seq<MsgStats>) -> Seq<Column> {
    seq![
        longs("msg_id", rows.map_values(|row: MsgStats| row.id)),
        longs("coverage", rows.map_values(|row: MsgStats| row.coverage as u64)),
        longs("n_nodes", rows.map_values(|row: MsgStats| row.n_nodes as u64)),
        longs("origin_ns", rows.map_values(|row: MsgStats| row.origin_ns)),
        longs("last_ns", rows.map_values(|row: MsgStats| row.last_ns)),
        words("size_bytes", rows.map_values(|row: MsgStats| row.size_bytes)),
    ] + Seq::new(names.len(), |p: int| percentile_named(names[p]@, rows, p))
}

/// The column of one percentile.
pub open spec fn percentile_named(name: Seq<char>, rows: Seq<MsgStats>, p: int) -> Column {
    Column {
        name,
        nullable: true,
        cells: Cells::Spans(
            rows.map_values(|row: MsgStats| stats_writer::percentile_at(row, p)),
        ),
    }
}

/// Finished messages as a record batch, with a column for each of the
/// named percentiles.
pub fn msg_to_batch(names: &Vec<String>, rows: &[MsgStats]) -> (r: Batch)
    ensures
        table(r) == message_columns(names@, rows@),
{
    let c = MsgStats::to_columns(rows, 0);
    let mut arrays: Vec<NamedArray> = Vec::new();
    arrays.push(named("msg_id", long_array(c.msg_id)));
    arrays.push(named("coverage", long_array(c.coverage)));
    arrays.push(named("n_nodes", long_array(c.n_nodes)));
    arrays.push(named("origin_ns", long_array(c.origin_ns)));
    arrays.push(named("last_ns", long_array(c.last_ns)));
    arrays.push(named("size_bytes", word_array(c.size_bytes)));
    let ghost want = message_columns(names@, rows@);
    assert(columns_of(arrays@) =~= want.take(6));
    for p in 0..names.len()
        invariant
            want == message_columns(names@, rows@),
            columns_of(arrays@) == want.take(6 + p),
    {
        let array = span_array(stats_writer::percentile_column(rows, p));
        let ghost before = arrays@;
        arrays.push(NamedArray { name: names[p].clone(), nullable: true, array });
        proof {
            assert(arrays@[before.len() as int]@ == want[6 + p]);
            assert(columns_of(arrays@) =~= columns_of(before).push(want[6 + p]));
            assert(want.take(6 + p + 1) =~= want.take(6 + p).push(want[6 + p]));
        }
    }
    assert(want.take(6 + names@.len() as int) =~= want);
    batch_of(arrays)
}

/// The table of counters has one cell per row in every column, and the cell of
/// a row in a column is the value of that name.
pub proof fn counter_columns_read_back(rows: Seq<NodeCountersRow>, i: int)
    requires
        0 <= i < rows.len(),
    ensures
        ({
            let cols = <NodeCountersRow as WriteRow>::columns(rows);
            &&& cols.len() == 32
            &&& cols[0].name == "node_idx"@ && !cols[0].nullable && (cols[0].cells matches Cells::Words(v) && v.len()
                == rows.len() && v[i] == rows[i].node_idx)
            &&& cols[1].name == "time_ns"@ && !cols[1].nullable && (cols[1].cells matches Cells::Longs(v) && v.len()
                == rows.len() && v[i] == rows[i].time_ns)
            &&& cols[2].name == "bytes_in_sketch"@ && !cols[2].nullable && (cols[2].cells matches Cells::Longs(v) && v.len()
                == rows.len() && v[i] == rows[i].bytes_in_sketch)
            &&& cols[3].name == "bytes_out_sketch"@ && !cols[3].nullable && (cols[3].cells matches Cells::Longs(v) && v.len()
                == rows.len() && v[i] == rows[i].bytes_out_sketch)
            &&& cols[4].name == "bytes_in_gossip"@ && !cols[4].nullable && (cols[4].cells matches Cells::Longs(v) && v.len()
                == rows.len() && v[i] == rows[i].bytes_in_gossip)
            &&& cols[5].name == "bytes_out_gossip"@ && !cols[5].nullable && (cols[5].cells matches Cells::Longs(v) && v.len()
                == rows.len() && v[i] == rows[i].bytes_out_gossip)
            &&& cols[6].name == "bytes_in_inventory"@ && !cols[6].nullable && (cols[6].cells matches Cells::Longs(v) && v.len()
                == rows.len() && v[i] == rows[i].bytes_in_inventory)
            &&& cols[7].name == "bytes_out_inventory"@ && !cols[7].nullable && (cols[7].cells matches Cells::Longs(v) && v.len()
                == rows.len() && v[i] == rows[i].bytes_out_inventory)
            &&& cols[8].name == "duplicates"@ && !cols[8].nullable && (cols[8].cells matches Cells::Longs(v) && v.len()
                == rows.len() && v[i] == rows[i].duplicates)
            &&& cols[9].name == "duplicates_bytes"@ && !cols[9].nullable && (cols[9].cells matches Cells::Longs(v) && v.len()
                == rows.len() && v[i] == rows[i].duplicates_bytes)
            &&& cols[10].name == "sketches_sent"@ && !cols[10].nullable && (cols[10].cells matches Cells::Longs(v) && v.len()
                == rows.len() && v[i] == rows[i].sketches_sent)
            &&& cols[11].name == "sketches_received"@ && !cols[11].nullable && (cols[11].cells matches Cells::Longs(v) && v.len()
                == rows.len() && v[i] == rows[i].sketches_received)
            &&& cols[12].name == "inventories_sent"@ && !cols[12].nullable && (cols[12].cells matches Cells::Longs(v) && v.len()
                == rows.len() && v[i] == rows[i].inventories_sent)
            &&& cols[13].name == "inventories_received"@ && !cols[13].nullable && (cols[13].cells matches Cells::Longs(v) && v.len()
                == rows.len() && v[i] == rows[i].inventories_received)
            &&& cols[14].name == "inv_keys_sent_sum"@ && !cols[14].nullable && (cols[14].cells matches Cells::Longs(v) && v.len()
                == rows.len() && v[i] == rows[i].inv_keys_sent_sum)
            &&& cols[15].name == "inv_keys_sent_min"@ && !cols[15].nullable && (cols[15].cells matches Cells::Longs(v) && v.len()
                == rows.len() && v[i] == rows[i].inv_keys_sent_min)
            &&& cols[16].name == "inv_keys_sent_max"@ && !cols[16].nullable && (cols[16].cells matches Cells::Longs(v) && v.len()
                == rows.len() && v[i] == rows[i].inv_keys_sent_max)
            &&& cols[17].name == "overflowed_chan_updates"@ && !cols[17].nullable && (cols[17].cells matches Cells::Longs(v) && v.len()
                == rows.len() && v[i] == rows[i].overflowed_chan_updates)
            &&& cols[18].name == "overflowed_node_anns"@ && !cols[18].nullable && (cols[18].cells matches Cells::Longs(v) && v.len()
                == rows.len() && v[i] == rows[i].overflowed_node_anns)
            &&& cols[19].name == "overflowed_chan_anns"@ && !cols[19].nullable && (cols[19].cells matches Cells::Longs(v) && v.len()
                == rows.len() && v[i] == rows[i].overflowed_chan_anns)
            &&& cols[20].name == "chan_updates_intersection"@ && !cols[20].nullable && (cols[20].cells matches Cells::Longs(v) && v.len()
                == rows.len() && v[i] == rows[i].chan_updates_intersection)
            &&& cols[21].name == "chan_updates_difference"@ && !cols[21].nullable && (cols[21].cells matches Cells::Longs(v) && v.len()
                == rows.len() && v[i] == rows[i].chan_updates_difference)
            &&& cols[22].name == "chan_updates_a_only"@ && !cols[22].nullable && (cols[22].cells matches Cells::Longs(v) && v.len()
                == rows.len() && v[i] == rows[i].chan_updates_a_only)
            &&& cols[23].name == "chan_updates_b_only"@ && !cols[23].nullable && (cols[23].cells matches Cells::Longs(v) && v.len()
                == rows.len() && v[i] == rows[i].chan_updates_b_only)
            &&& cols[24].name == "node_anns_intersection"@ && !cols[24].nullable && (cols[24].cells matches Cells::Longs(v) && v.len()
                == rows.len() && v[i] == rows[i].node_anns_intersection)
            &&& cols[25].name == "node_anns_difference"@ && !cols[25].nullable && (cols[25].cells matches Cells::Longs(v) && v.len()
                == rows.len() && v[i] == rows[i].node_anns_difference)
            &&& cols[26].name == "node_anns_a_only"@ && !cols[26].nullable && (cols[26].cells matches Cells::Longs(v) && v.len()
                == rows.len() && v[i] == rows[i].node_anns_a_only)
            &&& cols[27].name == "node_anns_b_only"@ && !cols[27].nullable && (cols[27].cells matches Cells::Longs(v) && v.len()
                == rows.len() && v[i] == rows[i].node_anns_b_only)
            &&& cols[28].name == "chan_anns_intersection"@ && !cols[28].nullable && (cols[28].cells matches Cells::Longs(v) && v.len()
                == rows.len() && v[i] == rows[i].chan_anns_intersection)
            &&& cols[29].name == "chan_anns_difference"@ && !cols[29].nullable && (cols[29].cells matches Cells::Longs(v) && v.len()
                == rows.len() && v[i] == rows[i].chan_anns_difference)
            &&& cols[30].name == "chan_anns_a_only"@ && !cols[30].nullable && (cols[30].cells matches Cells::Longs(v) && v.len()
                == rows.len() && v[i] == rows[i].chan_anns_a_only)
            &&& cols[31].name == "chan_anns_b_only"@ && !cols[31].nullable && (cols[31].cells matches Cells::Longs(v) && v.len()
                == rows.len() && v[i] == rows[i].chan_anns_b_only)
        }),
{
}

/// The table of sampled rounds has one cell per row in every column, and the cell of
/// a row in a column is the value of that name.
pub proof fn reservoir_columns_read_back(rows: Seq<NodeReservoirRow>, i: int)
    requires
        0 <= i < rows.len(),
    ensures
        ({
            let cols = <NodeReservoirRow as WriteRow>::columns(rows);
            &&& cols.len() == 7
            &&& cols[0].name == "node_idx"@ && !cols[0].nullable && (cols[0].cells matches Cells::Words(v) && v.len()
                == rows.len() && v[i] == rows[i].node_idx)
            &&& cols[1].name == "kind"@ && !cols[1].nullable && (cols[1].cells matches Cells::Bytes(v) && v.len()
                == rows.len() && v[i] == rows[i].kind)
            &&& cols[2].name == "intersection"@ && !cols[2].nullable && (cols[2].cells matches Cells::Words(v) && v.len()
                == rows.len() && v[i] == rows[i].intersection)
            &&& cols[3].name == "difference"@ && !cols[3].nullable && (cols[3].cells matches Cells::Words(v) && v.len()
                == rows.len() && v[i] == rows[i].difference)
            &&& cols[4].name == "a_only"@ && !cols[4].nullable && (cols[4].cells matches Cells::Words(v) && v.len()
                == rows.len() && v[i] == rows[i].a_only)
            &&& cols[5].name == "b_only"@ && !cols[5].nullable && (cols[5].cells matches Cells::Words(v) && v.len()
                == rows.len() && v[i] == rows[i].b_only)
            &&& cols[6].name == "total_seen"@ && !cols[6].nullable && (cols[6].cells matches Cells::Longs(v) && v.len()
                == rows.len() && v[i] == rows[i].total_seen)
        }),
{
}

/// The table of overflows has one cell per row in every column, and the cell of
/// a row in a column is the value of that name.
pub proof fn overflow_columns_read_back(rows: Seq<OverflowEventRow>, i: int)
    requires
        0 <= i < rows.len(),
    ensures
        ({
            let cols = <OverflowEventRow as WriteRow>::columns(rows);
            &&& cols.len() == 6
            &&& cols[0].name == "time_ns"@ && !cols[0].nullable && (cols[0].cells matches Cells::Longs(v) && v.len()
                == rows.len() && v[i] == rows[i].time_ns)
            &&& cols[1].name == "receiver_idx"@ && !cols[1].nullable && (cols[1].cells matches Cells::Words(v) && v.len()
                == rows.len() && v[i] == rows[i].receiver_idx)
            &&& cols[2].name == "peer_id"@ && !cols[2].nullable && (cols[2].cells matches Cells::Longs(v) && v.len()
                == rows.len() && v[i] == rows[i].peer_id)
            &&& cols[3].name == "kind"@ && !cols[3].nullable && (cols[3].cells matches Cells::Bytes(v) && v.len()
                == rows.len() && v[i] == rows[i].kind)
            &&& cols[4].name == "amount"@ && !cols[4].nullable && (cols[4].cells matches Cells::Words(v) && v.len()
                == rows.len() && v[i] == rows[i].amount)
            &&& cols[5].name == "total_diff"@ && !cols[5].nullable && (cols[5].cells matches Cells::Words(v) && v.len()
                == rows.len() && v[i] == rows[i].total_diff)
        }),
{
}

/// The table of runs has one cell per row in every column, and the cell of
/// a row in a column is the value of that name.
pub proof fn run_columns_read_back(rows: Seq<RunMetaRow>, i: int)
    requires
        0 <= i < rows.len(),
    ensures
        ({
            let cols = <RunMetaRow as WriteRow>::columns(rows);
            &&& cols.len() == 21
            &&& cols[0].name == "seed"@ && !cols[0].nullable && (cols[0].cells matches Cells::Longs(v) && v.len()
                == rows.len() && v[i] == rows[i].seed)
            &&& cols[1].name == "n_nodes"@ && !cols[1].nullable && (cols[1].cells matches Cells::Longs(v) && v.len()
                == rows.len() && v[i] == rows[i].n_nodes)
            &&& cols[2].name == "mean_degree"@ && !cols[2].nullable && (cols[2].cells matches Cells::Floats(v) && v.len()
                == rows.len() && v[i] == rows[i].mean_degree_bits)
            &&& cols[3].name == "min_degree"@ && !cols[3].nullable && (cols[3].cells matches Cells::Longs(v) && v.len()
                == rows.len() && v[i] == rows[i].min_degree)
            &&& cols[4].name == "max_degree"@ && !cols[4].nullable && (cols[4].cells matches Cells::Longs(v) && v.len()
                == rows.len() && v[i] == rows[i].max_degree)
            &&& cols[5].name == "diameter"@ && !cols[5].nullable && (cols[5].cells matches Cells::Longs(v) && v.len()
                == rows.len() && v[i] == rows[i].diameter)
            &&& cols[6].name == "mean_path_length"@ && !cols[6].nullable && (cols[6].cells matches Cells::Floats(v) && v.len()
                == rows.len() && v[i] == rows[i].mean_path_length_bits)
            &&& cols[7].name == "stagger_secs"@ && !cols[7].nullable && (cols[7].cells matches Cells::Floats(v) && v.len()
                == rows.len() && v[i] == rows[i].stagger_secs_bits)
            &&& cols[8].name == "capacity_chan_updates"@ && !cols[8].nullable && (cols[8].cells matches Cells::Longs(v) && v.len()
                == rows.len() && v[i] == rows[i].capacity_chan_updates)
            &&& cols[9].name == "capacity_node_anns"@ && !cols[9].nullable && (cols[9].cells matches Cells::Longs(v) && v.len()
                == rows.len() && v[i] == rows[i].capacity_node_anns)
            &&& cols[10].name == "capacity_chan_anns"@ && !cols[10].nullable && (cols[10].cells matches Cells::Longs(v) && v.len()
                == rows.len() && v[i] == rows[i].capacity_chan_anns)
            &&& cols[11].name == "events_chan_update"@ && !cols[11].nullable && (cols[11].cells matches Cells::Longs(v) && v.len()
                == rows.len() && v[i] == rows[i].events_chan_update)
            &&& cols[12].name == "events_node_ann"@ && !cols[12].nullable && (cols[12].cells matches Cells::Longs(v) && v.len()
                == rows.len() && v[i] == rows[i].events_node_ann)
            &&& cols[13].name == "events_chan_ann"@ && !cols[13].nullable && (cols[13].cells matches Cells::Longs(v) && v.len()
                == rows.len() && v[i] == rows[i].events_chan_ann)
            &&& cols[14].name == "duration_seconds"@ && !cols[14].nullable && (cols[14].cells matches Cells::Longs(v) && v.len()
                == rows.len() && v[i] == rows[i].duration_seconds)
            &&& cols[15].name == "predicted_p50_secs"@ && !cols[15].nullable && (cols[15].cells matches Cells::Floats(v) && v.len()
                == rows.len() && v[i] == rows[i].predicted_p50_bits)
            &&& cols[16].name == "predicted_p99_secs"@ && !cols[16].nullable && (cols[16].cells matches Cells::Floats(v) && v.len()
                == rows.len() && v[i] == rows[i].predicted_p99_bits)
            &&& cols[17].name == "predicted_p100_secs"@ && !cols[17].nullable && (cols[17].cells matches Cells::Floats(v) && v.len()
                == rows.len() && v[i] == rows[i].predicted_p100_bits)
            &&& cols[18].name == "algo"@ && !cols[18].nullable && (cols[18].cells matches Cells::Texts(v) && v.len()
                == rows.len() && v[i] == rows[i].algo@)
            &&& cols[19].name == "topology_kind"@ && !cols[19].nullable && (cols[19].cells matches Cells::Texts(v) && v.len()
                == rows.len() && v[i] == rows[i].topology_kind@)
            &&& cols[20].name == "event_kind"@ && !cols[20].nullable && (cols[20].cells matches Cells::Texts(v) && v.len()
                == rows.len() && v[i] == rows[i].event_kind@)
        }),
{
}

/// The table of node keys has one cell per row in every column, and the cell of
/// a row in a column is the value of that name.
pub proof fn pubkey_columns_read_back(rows: Seq<NodePubkeyRow>, i: int)
    requires
        0 <= i < rows.len(),
    ensures
        ({
            let cols = <NodePubkeyRow as WriteRow>::columns(rows);
            &&& cols.len() == 3
            &&& cols[0].name == "node_idx"@ && !cols[0].nullable && (cols[0].cells matches Cells::Words(v) && v.len()
                == rows.len() && v[i] == rows[i].node_idx)
            &&& cols[1].name == "node_id"@ && !cols[1].nullable && (cols[1].cells matches Cells::Longs(v) && v.len()
                == rows.len() && v[i] == rows[i].node_id)
            &&& cols[2].name == "pubkey"@ && !cols[2].nullable && (cols[2].cells matches Cells::Texts(v) && v.len()
                == rows.len() && v[i] == rows[i].pubkey@)
        }),
{
}

/// The table of messages has a column for each figure of a message and,
/// behind them, one for each percentile, in order; a percentile that was
/// not reached is left empty.
pub proof fn message_columns_read_back(names: Seq<String>, rows: Seq<MsgStats>, i: int, p: int)
    requires
        0 <= i < rows.len(),
        0 <= p < names.len(),
    ensures
        ({
            let cols = message_columns(names, rows);
            &&& cols.len() == 6 + names.len()
            &&& cols[0].name == "msg_id"@ && (cols[0].cells matches Cells::Longs(v) && v[i]
                == rows[i].id)
            &&& cols[1].name == "coverage"@ && (cols[1].cells matches Cells::Longs(v) && v[i]
                == rows[i].coverage as u64)
            &&& cols[2].name == "n_nodes"@ && (cols[2].cells matches Cells::Longs(v) && v[i]
                == rows[i].n_nodes as u64)
            &&& cols[3].name == "origin_ns"@ && (cols[3].cells matches Cells::Longs(v) && v[i]
                == rows[i].origin_ns)
            &&& cols[4].name == "last_ns"@ && (cols[4].cells matches Cells::Longs(v) && v[i]
                == rows[i].last_ns)
            &&& cols[5].name == "size_bytes"@ && (cols[5].cells matches Cells::Words(v) && v[i]
                == rows[i].size_bytes)
            &&& cols[6 + p].name == names[p]@ && cols[6 + p].nullable && (
            cols[6 + p].cells matches Cells::Spans(v) && v.len() == rows.len() && (p
                < rows[i].percentiles@.len() ==> v[i] == rows[i].percentiles@[p]) && (p
                >= rows[i].percentiles@.len() ==> v[i] is None))
        }),
{
}

} // verus!
