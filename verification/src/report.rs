//! Figures of the end-of-run report.

use vstd::prelude::*;

use crate::message::SketchKind;

verus! {

/// The kind that a byte in an output table stands for. Unknown bytes
/// count as channel updates.
pub open spec fn kind_of(k: u8) -> SketchKind {
    if k == 1 {
        SketchKind::NodeAnns
    } else if k == 2 {
        SketchKind::ChanAnns
    } else {
        SketchKind::ChanUpdates
    }
}

/// See [`kind_of`].
pub fn sketch_kind_from_u8(k: u8) -> (r: SketchKind)
    ensures
        r == kind_of(k),
{
    match k {
        0 => SketchKind::ChanUpdates,
        1 => SketchKind::NodeAnns,
        2 => SketchKind::ChanAnns,
        _ => SketchKind::ChanUpdates,
    }
}

/// Mean per node, rounded down; of no nodes as of one.
pub fn per_node_mean(total: u64, nodes: u64) -> (r: u64)
    ensures
        r == total / (if nodes > 0 {
            nodes
        } else {
            1
        }),
        nodes > 0 ==> r * nodes <= total < (r + 1) * nodes,
        nodes == 0 ==> r == total,
{
    let n: u64 = if nodes > 0 {
        nodes
    } else {
        1
    };
    proof {
        lemma_mean(total, n);
    }
    total / n
}

/// A mean rounded down is the greatest that the total allows each.
proof fn lemma_mean(total: u64, n: u64)
    requires
        n > 0,
    ensures
        (total / n) * n <= total < (total / n + 1) * n,
{
    vstd::arithmetic::div_mod::lemma_fundamental_div_mod(total as int, n as int);
    let q = (total / n) as int;
    let m = (total % n) as int;
    assert(q * n <= total < (q + 1) * n) by (nonlinear_arith)
        requires
            total == n * q + m,
            0 <= m < n,
    ;
}

/// Sums over all nodes of what the sketch protocol did.
#[derive(Debug, Clone, Copy, PartialEq, Eq, Structural)]
pub struct SketchTotals {
    pub sent: u64,
    pub received: u64,
    pub inv_sent: u64,
    pub inv_received: u64,
    pub overflowed_chan_updates: u64,
    pub overflowed_node_anns: u64,
    pub overflowed_chan_anns: u64,
    pub inv_keys_total: u64,
    pub n_nodes: u64,
}

/// What the report says of the sketch protocol.
#[derive(Debug, Clone, Copy, PartialEq, Eq, Structural)]
pub struct SketchSummary {
    pub total_overflows: u128,
    pub sent_mean: u64,
    pub received_mean: u64,
    /// Inventories were exchanged.
    pub has_inventories: bool,
    pub inv_sent_mean: u64,
    pub inv_received_mean: u64,
    /// Mean number of keys of an inventory, where one was sent.
    pub keys_per_inventory: Option<u64>,
}

/// Sums up the sketch protocol, `None` where it was not in use.
pub fn summarise_sketches(t: &SketchTotals) -> (r: Option<SketchSummary>)
    ensures
        r is None <==> t.sent == 0 && t.received == 0,
        r matches Some(s) ==> {
            let n = if t.n_nodes > 0 {
                t.n_nodes
            } else {
                1
            };
            &&& s.total_overflows == t.overflowed_chan_updates + t.overflowed_node_anns
                + t.overflowed_chan_anns
            &&& s.sent_mean == t.sent / n
            &&& s.received_mean == t.received / n
            &&& s.has_inventories == (t.inv_sent > 0 || t.inv_received > 0)
            &&& s.inv_sent_mean == t.inv_sent / n
            &&& s.inv_received_mean == t.inv_received / n
            &&& s.keys_per_inventory == if t.inv_sent > 0 {
                Some(t.inv_keys_total / t.inv_sent)
            } else {
                None
            }
            &&& s.sent_mean * n <= t.sent < (s.sent_mean + 1) * n
            &&& s.received_mean * n <= t.received < (s.received_mean + 1) * n
            &&& s.inv_sent_mean * n <= t.inv_sent < (s.inv_sent_mean + 1) * n
            &&& s.inv_received_mean * n <= t.inv_received < (s.inv_received_mean + 1) * n
            &&& s.keys_per_inventory matches Some(k) ==> k * t.inv_sent <= t.inv_keys_total < (k
                + 1) * t.inv_sent
        },
{
    if t.sent == 0 && t.received == 0 {
        return None;
    }
    proof {
        if t.inv_sent > 0 {
            lemma_mean(t.inv_keys_total, t.inv_sent);
        }
    }
    Some(
        SketchSummary {
            total_overflows: t.overflowed_chan_updates as u128 + t.overflowed_node_anns as u128
                + t.overflowed_chan_anns as u128,
            sent_mean: per_node_mean(t.sent, t.n_nodes),
            received_mean: per_node_mean(t.received, t.n_nodes),
            has_inventories: t.inv_sent > 0 || t.inv_received > 0,
            inv_sent_mean: per_node_mean(t.inv_sent, t.n_nodes),
            inv_received_mean: per_node_mean(t.inv_received, t.n_nodes),
            keys_per_inventory: if t.inv_sent > 0 {
                Some(t.inv_keys_total / t.inv_sent)
            } else {
                None
            },
        },
    )
}

/// The byte that stands for a kind leads back to it.
pub proof fn kind_bytes_round_trip(kind: SketchKind)
    ensures
        kind_of(kind.code()) == kind,
{
}

/// A byte that stands for no kind is read as that of channel updates.
pub proof fn unknown_kind_bytes_are_updates(k: u8)
    ensures
        k == SketchKind::NodeAnns.code() ==> kind_of(k) == SketchKind::NodeAnns,
        k == SketchKind::ChanAnns.code() ==> kind_of(k) == SketchKind::ChanAnns,
        k != SketchKind::NodeAnns.code() && k != SketchKind::ChanAnns.code() ==> kind_of(k)
            == SketchKind::ChanUpdates,
{
}

} // verus!
