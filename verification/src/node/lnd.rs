//! Stagger node in the style of LND.
//!
//! As in [`super::cln`], arrivals wait for a tick. Two things differ.
//! What is pending at a tick goes out in chunks: the first at once, each
//! later one `trickle` after the one before, with chunks just large
//! enough that all of them fit the stagger window. And what the node
//! originates waits as well, but at the front of the queue, so that it
//! goes out in the first chunk.

use vstd::prelude::*;

use crate::message;
use crate::message::{Gossip, GossipBatch, GossipKind, NodeId, NodeIdx, SketchKind, WireMessage};
use crate::metrics;
use crate::metrics::PerNodeMetrics;
use crate::node;
use crate::node::{Arrival, FlushSummary, PeerTable, Timer, TimerAction};
use crate::state;
use crate::state::NodeState;
use crate::time;
use crate::time::SimDuration;

verus! {

/// A node that trickles out what is pending once per stagger interval.
pub struct LndNode {
    pub id: NodeId,
    pub idx: NodeIdx,
    pub peers: PeerTable,
    /// Period between ticks.
    pub stagger: SimDuration,
    /// Time of the first tick.
    pub first_tick: SimDuration,
    /// Time between the chunks of one tick.
    pub trickle: SimDuration,
    /// Least number of gossips in a chunk but the last.
    pub min_batch_size: usize,
    pub run_duration: SimDuration,
    pub flush_interval: SimDuration,
    pub flush_phase: SimDuration,
    pub metrics: PerNodeMetrics,
    /// Gossips that wait for the next tick.
    pub pending: Vec<Gossip>,
}

/// A chunk, and how long after the tick it goes out.
#[derive(Debug)]
pub struct Chunk {
    pub offset: SimDuration,
    pub batch: GossipBatch,
}

/// `ceil(a / b)`.
pub open spec fn div_up(a: nat, b: nat) -> nat {
    if b == 0 {
        0
    } else if a % b == 0 {
        a / b
    } else {
        a / b + 1
    }
}

/// The chunk size for `batch_size` gossips: a share of the window
/// proportional to the trickle, rounded up, and no less than the minimum. Where a chunk's slot would not fit the window there is one
/// chunk.
pub open spec fn sub_batch_size(
    total_delay: SimDuration,
    sub_batch_delay: SimDuration,
    minimum_batch_size: nat,
    batch_size: nat,
) -> nat {
    if sub_batch_delay.total_nanos() >= total_delay.total_nanos() {
        batch_size
    } else {
        let share = div_up(
            batch_size * sub_batch_delay.total_nanos(),
            total_delay.total_nanos(),
        );
        if share < minimum_batch_size {
            minimum_batch_size
        } else {
            share
        }
    }
}

proof fn lemma_share(batch: nat, sub: nat, total: nat)
    requires
        total > 0,
        sub <= total,
    ensures
        div_up(batch * sub, total) <= batch,
        div_up(batch * sub, total) * total >= batch * sub,
        div_up(batch * sub, total) > 0 ==> (div_up(batch * sub, total) - 1) * total < batch * sub,
{
    let a = batch * sub;
    assert(a <= batch * total) by (nonlinear_arith)
        requires
            a == batch * sub,
            sub <= total,
    ;
    vstd::arithmetic::div_mod::lemma_fundamental_div_mod(a as int, total as int);
    let q = (a / total) as int;
    let m = (a % total) as int;
    assert(a == total * q + m);
    vstd::arithmetic::div_mod::lemma_mod_bound(a as int, total as int);
    if m == 0 {
        assert(q <= batch) by (nonlinear_arith)
            requires
                total * q <= batch * total,
                total > 0,
        ;
        assert(q * total >= a && (q - 1) * total < a) by (nonlinear_arith)
            requires
                a == total * q + m,
                m == 0,
                total > 0,
        ;
    } else {
        assert(q + 1 <= batch) by (nonlinear_arith)
            requires
                total * q + m <= batch * total,
                0 < m < total,
                total > 0,
        ;
        assert((q + 1) * total >= a && q * total < a) by (nonlinear_arith)
            requires
                a == total * q + m,
                0 < m < total,
        ;
    }
}

/// LND's sizing of the chunks of one tick.
pub fn calculate_sub_batch_size(
    total_delay: SimDuration,
    sub_batch_delay: SimDuration,
    minimum_batch_size: usize,
    batch_size: usize,
) -> (r: usize)
    requires
        total_delay.wf(),
        sub_batch_delay.wf(),
        batch_size * sub_batch_delay.total_nanos() <= u128::MAX,
    ensures
        r == sub_batch_size(
            total_delay,
            sub_batch_delay,
            minimum_batch_size as nat,
            batch_size as nat,
        ),
{
    let total: u128 = total_delay.as_nanos();
    let sub: u128 = sub_batch_delay.as_nanos();
    if sub >= total {
        return batch_size;
    }
    proof {
        lemma_share(batch_size as nat, sub as nat, total as nat);
    }
    let product: u128 = batch_size as u128 * sub;
    let whole: u128 = product / total;
    let computed: u128 = if product % total == 0 {
        whole
    } else {
        assert(whole < u128::MAX) by {
            assert(div_up(product as nat, total as nat) <= batch_size);
        }
        whole + 1
    };
    assert(computed == div_up(product as nat, total as nat));
    if (computed as usize) < minimum_batch_size {
        minimum_batch_size
    } else {
        computed as usize
    }
}

/// A list cut into pieces of `n`, the last one possibly shorter.
pub open spec fn pieces(s: Seq<Gossip>, n: nat) -> Seq<Seq<Gossip>>
    decreases s.len(),
{
    if n == 0 || s.len() == 0 {
        Seq::empty()
    } else if s.len() <= n {
        seq![s]
    } else {
        seq![s.take(n as int)] + pieces(s.skip(n as int), n)
    }
}

/// The `i`-th piece.
pub open spec fn piece(s: Seq<Gossip>, n: nat, i: int) -> Seq<Gossip> {
    s.subrange(
        i * n,
        if (i + 1) * n < s.len() {
            (i + 1) * n
        } else {
            s.len() as int
        },
    )
}

/// The number of pieces, and where each lies.
pub proof fn lemma_pieces(s: Seq<Gossip>, n: nat)
    requires
        n > 0,
    ensures
        pieces(s, n).len() == div_up(s.len(), n),
        forall|i: int|
            0 <= i < pieces(s, n).len() ==> #[trigger] pieces(s, n)[i] == piece(s, n, i) && 0 <= i
                * n < s.len(),
    decreases s.len(),
{
    if s.len() == 0 {
    } else if s.len() <= n {
        assert(div_up(s.len(), n) == 1) by {
            if s.len() == n {
                assert(n % n == 0 && n / n == 1) by (nonlinear_arith)
                    requires
                        n > 0,
                ;
            } else {
                vstd::arithmetic::div_mod::lemma_small_mod(s.len(), n);
                vstd::arithmetic::div_mod::lemma_basic_div(s.len() as int, n as int);
            }
        }
        assert(s.subrange(0, s.len() as int) =~= s);
        assert forall|i: int| 0 <= i < pieces(s, n).len() implies #[trigger] pieces(s, n)[i]
            == piece(s, n, i) && 0 <= i * n < s.len() by {
            assert(i == 0);
            assert((i + 1) * n == n) by (nonlinear_arith)
                requires
                    i == 0,
            ;
        }
    } else {
        let rest = s.skip(n as int);
        lemma_pieces(rest, n);
        assert(div_up(s.len(), n) == div_up(rest.len(), n) + 1) by {
            let l = rest.len() as int;
            vstd::arithmetic::div_mod::lemma_mod_add_multiples_vanish(l, n as int);
            vstd::arithmetic::div_mod::lemma_div_plus_one(l, n as int);
            assert((n + l) % (n as int) == l % (n as int));
            assert((n + l) / (n as int) == l / (n as int) + 1);
        }
        assert forall|i: int| 0 <= i < pieces(s, n).len() implies #[trigger] pieces(s, n)[i]
            == piece(s, n, i) && 0 <= i * n < s.len() by {
            if i == 0 {
                assert((i + 1) * n == n) by (nonlinear_arith)
                    requires
                        i == 0,
                ;
                assert(s.take(n as int) =~= s.subrange(0, n as int));
            } else {
                let j = i - 1;
                assert(pieces(s, n)[i] == pieces(rest, n)[j]);
                assert(i * n == j * n + n && (i + 1) * n == (j + 1) * n + n) by (nonlinear_arith)
                    requires
                        j == i - 1,
                ;
                assert(0 <= j * n < rest.len());
                let end = if (j + 1) * n < rest.len() {
                    (j + 1) * n
                } else {
                    rest.len() as int
                };
                assert((j + 1) * n == j * n + n) by (nonlinear_arith);
                assert(rest.subrange(j * n, end) =~= s.subrange(j * n + n, end + n));
            }
        }
    }
}

impl LndNode {
    pub open spec fn wf(&self) -> bool {
        &&& self.peers.wf()
        &&& self.metrics.wf()
        &&& self.min_batch_size > 0
    }

    pub fn new(
        id: NodeId,
        idx: NodeIdx,
        stagger: SimDuration,
        first_tick: SimDuration,
        trickle: SimDuration,
        min_batch_size: usize,
        run_duration: SimDuration,
        flush_interval: SimDuration,
        flush_phase: SimDuration,
    ) -> (r: Self)
        ensures
            r.wf(),
            r.id == id,
            r.idx == idx,
            r.peers@.len() == 0,
            r.stagger == stagger,
            r.first_tick == first_tick,
            r.trickle == trickle,
            r.min_batch_size == (if min_batch_size == 0 {
                1
            } else {
                min_batch_size
            }),
            r.run_duration == run_duration,
            r.flush_interval == flush_interval,
            r.flush_phase == flush_phase,
            r.pending@.len() == 0,
            r.metrics.counters() == metrics::no_counters(),
            r.metrics.overflow_events@.len() == 0,
            r.metrics.first_seen_pending@.len() == 0,
    {
        LndNode {
            id,
            idx,
            peers: PeerTable::new(),
            stagger,
            first_tick,
            trickle,
            min_batch_size: if min_batch_size == 0 {
                1
            } else {
                min_batch_size
            },
            run_duration,
            flush_interval,
            flush_phase,
            metrics: PerNodeMetrics::default(),
            pending: Vec::new(),
        }
    }

    /// Add the peer behind the next port.
    pub fn add_peer(&mut self, peer_id: NodeId)
        requires
            old(self).wf(),
        ensures
            final(self).wf(),
            final(self).peers@ == old(self).peers@.push(peer_id),
            *final(self) == (LndNode { peers: final(self).peers, ..*old(self) }),
    {
        self.peers.push(peer_id);
    }

    /// The timers to arm at the start of a run.
    pub fn arm_ticks(&self) -> (r: Vec<Timer>)
        ensures
            r@ == seq![
                Timer {
                    first: self.first_tick,
                    every: Some(self.stagger),
                    action: TimerAction::Tick,
                },
            ] + node::flush_timers(self.flush_phase, self.flush_interval, self.run_duration),
    {
        let mut out: Vec<Timer> = Vec::new();
        out.push(
            Timer { first: self.first_tick, every: Some(self.stagger), action: TimerAction::Tick },
        );
        node::push_flush_timers(
            &mut out,
            self.flush_phase,
            self.flush_interval,
            self.run_duration,
        );
        assert(out@ =~= seq![
            Timer { first: self.first_tick, every: Some(self.stagger), action: TimerAction::Tick },
        ] + node::flush_timers(self.flush_phase, self.flush_interval, self.run_duration));
        out
    }

    /// Flush the metrics.
    pub fn flush_summary(&mut self, now: SimDuration) -> (r: FlushSummary)
        requires
            old(self).wf(),
        ensures
            final(self).wf(),
            *final(self) == (LndNode { metrics: final(self).metrics, ..*old(self) }),
            r.idx == old(self).idx,
            r.time_ns == time::low_nanos(now),
            r.first_seen@ == old(self).metrics.first_seen_pending@,
            r.counters == old(self).metrics.counters(),
            r.overflows@ == old(self).metrics.overflow_events@,
            final(self).metrics.first_seen_pending@.len() == 0,
            final(self).metrics.overflow_events@.len() == 0,
            final(self).metrics.counters() == old(self).metrics.counters(),
    {
        node::flush_metrics(&mut self.metrics, self.idx, time::ns_since_epoch(now))
    }

    /// A message arrived. What is taken up of it waits for the next tick;
    /// the rest is counted as duplicates, without their bytes. Sketches and inventories are counted and ignored.
    pub fn recv(&mut self, state: &mut NodeState, wire: &WireMessage, now: SimDuration) -> (r:
        Arrival)
        requires
            old(self).wf(),
            old(state).wf(),
            node::receivable(*old(state), *wire),
            old(self).metrics.room(wire.bytes() + wire.gossips().len()),
        ensures
            final(self).wf(),
            node::state_received(*old(state), *final(state), *wire),
            ({
                let fresh = node::fresh_of(*old(state), *wire, node::updates_first());
                &&& r.fresh_count == fresh.len()
                &&& final(self).pending@ == old(self).pending@ + fresh
                &&& final(self).metrics.first_seen_pending@ == old(
                    self,
                ).metrics.first_seen_pending@ + node::sightings(fresh, time::low_nanos(now))
            }),
            r.early_flush == (r.fresh_count > 0
                && final(self).metrics.first_seen_pending@.len()
                >= metrics::FIRST_SEEN_FORCE_FLUSH),
            *final(self) == (LndNode {
                metrics: final(self).metrics,
                pending: final(self).pending,
                ..*old(self)
            }),
            final(self).metrics == (PerNodeMetrics {
                bytes_in_gossip: (old(self).metrics.bytes_in_gossip + wire.bytes()) as u64,
                duplicates: (old(self).metrics.duplicates + node::duplicates_of(
                    *old(state),
                    *wire,
                )) as u64,
                first_seen_pending: final(self).metrics.first_seen_pending,
                ..old(self).metrics
            }),
    {
        proof {
            node::lemma_gossip_bytes(*wire);
        }
        self.metrics.bytes_in_gossip = self.metrics.bytes_in_gossip + wire.wire_size();
        let fresh: Vec<Gossip> = node::absorb_wire(state, wire, false, false, &mut self.metrics);
        node::record_first_seen(
            &mut self.metrics,
            fresh.as_slice(),
            time::ns_since_epoch(now),
        );
        node::enqueue(&mut self.pending, fresh.as_slice());
        let fresh_count: usize = fresh.len();
        let early_flush: bool = fresh_count > 0 && node::wants_early_flush(&self.metrics);
        Arrival { fresh_count, early_flush }
    }

    /// Stamp and store an originated message and put it at the front of
    /// the queue. Returns whether it was stored: a channel that was
    /// announced before is not announced again.
    pub fn originate(&mut self, state: &mut NodeState, msg: Gossip, now: SimDuration) -> (r: bool)
        requires
            old(self).wf(),
            old(state).wf(),
            msg.kind == GossipKind::NodeAnnouncement || msg.is_keyed(),
            old(state).universe(SketchKind::of_gossip(msg.kind)).contains(
                state::origin_key(msg, old(self).id),
            ),
        ensures
            final(self).wf(),
            r == !(msg.kind == GossipKind::ChannelAnnouncement && old(state).held(
                SketchKind::ChanAnns,
            ).contains_key(msg.scid->0)),
            r ==> state::state_with(
                *old(state),
                *final(state),
                SketchKind::of_gossip(msg.kind),
                state::origin_key(msg, old(self).id),
                if msg.kind == GossipKind::ChannelAnnouncement {
                    0
                } else {
                    state::stamp_of(now)
                },
            ),
            final(state).wf(),
            final(state).idx == old(state).idx,
            final(state).shares_keys(old(state)),
            !r ==> forall|k: SketchKind| #[trigger] final(state).held(k) == old(state).held(k),
            !r ==> *final(self) == *old(self),
            r ==> final(self).pending@ == seq![state::stamped(msg, old(self).id, now)] + old(
                self,
            ).pending@,
            r ==> final(self).metrics.first_seen_pending@ == old(
                self,
            ).metrics.first_seen_pending@ + node::sightings(
                seq![state::stamped(msg, old(self).id, now)],
                time::low_nanos(now),
            ),
            r ==> *final(self) == (LndNode {
                metrics: PerNodeMetrics {
                    first_seen_pending: final(self).metrics.first_seen_pending,
                    ..old(self).metrics
                },
                pending: final(self).pending,
                ..*old(self)
            }),
    {
        let mut msg: Gossip = msg;
        if !state::originate_stamp(state, self.id, &mut msg, now) {
            return false;
        }
        let mut one: Vec<Gossip> = Vec::new();
        one.push(msg);
        assert(one@ =~= seq![msg]);
        node::record_first_seen(&mut self.metrics, one.as_slice(), time::ns_since_epoch(now));
        self.pending.insert(0, msg);
        assert(self.pending@ =~= seq![msg] + old(self).pending@);
        true
    }

    /// The chunk size of the next tick.
    pub open spec fn next_chunk_size(&self) -> nat {
        sub_batch_size(
            self.stagger,
            self.trickle,
            self.min_batch_size as nat,
            self.pending@.len(),
        )
    }

    /// Drain what is pending into chunks for every peer: the first to go
    /// out at once, the `i`-th after `i` times the trickle.
    pub fn tick(&mut self) -> (r: Vec<Chunk>)
        requires
            old(self).wf(),
            old(self).stagger.wf(),
            old(self).trickle.wf(),
            old(self).pending@.len() <= u32::MAX,
            old(self).trickle.total_nanos() * old(self).pending@.len()
                < 0x1_0000_0000_0000_0000 * 1_000_000_000,
        ensures
            final(self).wf(),
            final(self).pending@.len() == 0,
            *final(self) == (LndNode { pending: final(self).pending, ..*old(self) }),
            r@.len() == pieces(old(self).pending@, old(self).next_chunk_size()).len(),
            forall|i: int|
                0 <= i < r@.len() ==> {
                    &&& (#[trigger] r@[i]).offset.wf()
                    &&& r@[i].offset.total_nanos() == i * old(self).trickle.total_nanos()
                    &&& r@[i].batch.partitioned()
                    &&& forall|kind: GossipKind| #[trigger]
                        r@[i].batch.slot(kind) == message::of_kind(
                            pieces(old(self).pending@, old(self).next_chunk_size())[i],
                            kind,
                        )
                },
    {
        let mut out: Vec<Chunk> = Vec::new();
        if self.pending.is_empty() {
            return out;
        }
        let mut drained: Vec<Gossip> = Vec::new();
        std::mem::swap(&mut self.pending, &mut drained);
        let n: usize = drained.len();
        assert(n * self.trickle.total_nanos() == self.trickle.total_nanos() * n)
            by (nonlinear_arith);
        let sub: usize = calculate_sub_batch_size(
            self.stagger,
            self.trickle,
            self.min_batch_size,
            n,
        );
        let ghost cut = pieces(drained@, sub as nat);
        proof {
            lemma_pieces(drained@, sub as nat);
            assert(out@.len() * sub == 0) by (nonlinear_arith)
                requires
                    out@.len() == 0,
            ;
        }
        let mut start: usize = 0;
        while start < n
            invariant
                n == drained@.len(),
                n <= u32::MAX,
                sub > 0,
                cut == pieces(drained@, sub as nat),
                cut.len() == div_up(n as nat, sub as nat),
                forall|i: int|
                    0 <= i < cut.len() ==> #[trigger] cut[i] == piece(drained@, sub as nat, i),
                out@.len() <= cut.len(),
                start == (if out@.len() * sub < n {
                    out@.len() * sub
                } else {
                    n as int
                }),
                self.trickle.wf(),
                self.trickle.total_nanos() * n < 0x1_0000_0000_0000_0000 * 1_000_000_000,
                forall|i: int|
                    0 <= i < out@.len() ==> {
                        &&& (#[trigger] out@[i]).offset.wf()
                        &&& out@[i].offset.total_nanos() == i * self.trickle.total_nanos()
                        &&& out@[i].batch.partitioned()
                        &&& forall|kind: GossipKind| #[trigger]
                            out@[i].batch.slot(kind) == message::of_kind(cut[i], kind)
                    },
            decreases n - start,
        {
            let ghost k = out@.len() as int;
            proof {
                lemma_piece_count(n as nat, sub as nat, k);
                assert((k + 1) * sub == k * sub + sub) by (nonlinear_arith);
                assert(k <= start) by (nonlinear_arith)
                    requires
                        start == k * sub,
                        sub > 0,
                        k >= 0,
                ;
                assert(self.trickle.total_nanos() * k <= self.trickle.total_nanos() * n)
                    by (nonlinear_arith)
                    requires
                        k <= n,
                ;
                assert(self.trickle.total_nanos() * k == k * self.trickle.total_nanos())
                    by (nonlinear_arith);
            }
            let end: usize = if n - start > sub {
                start + sub
            } else {
                n
            };
            let piece: Vec<Gossip> = copy_range(&drained, start, end);
            assert(piece@ =~= cut[k]);
            let offset: SimDuration = self.trickle.times(out.len() as u32);
            out.push(Chunk { offset, batch: GossipBatch::from_mixed(piece) });
            start = end;
        }
        proof {
            lemma_piece_count(n as nat, sub as nat, out@.len() as int);
        }
        out
    }

    /// Count a chunk as sent to every peer.
    pub fn count_sent(&mut self, batch: &GossipBatch)
        requires
            message::total_size(batch.gossips()) <= u64::MAX,
            old(self).metrics.bytes_out_gossip + message::total_size(batch.gossips()) * old(
                self,
            ).peers@.len() <= u64::MAX,
        ensures
            *final(self) == (LndNode {
                metrics: PerNodeMetrics {
                    bytes_out_gossip: (old(self).metrics.bytes_out_gossip + message::total_size(
                        batch.gossips(),
                    ) * old(self).peers@.len()) as u64,
                    ..old(self).metrics
                },
                ..*old(self)
            }),
    {
        let bytes_per_peer: u64 = batch.wire_size();
        node::count_broadcast(&mut self.metrics, bytes_per_peer, self.peers.len());
    }
}

/// Pieces are left exactly while their start lies in the list.
proof fn lemma_piece_count(len: nat, n: nat, k: int)
    requires
        n > 0,
        k >= 0,
    ensures
        k * n < len <==> k < div_up(len, n),
{
    vstd::arithmetic::div_mod::lemma_fundamental_div_mod(len as int, n as int);
    vstd::arithmetic::div_mod::lemma_mod_bound(len as int, n as int);
    let q = (len / n) as int;
    let m = (len % n) as int;
    assert(len == n * q + m);
    if k < q {
        assert(k * n < len) by (nonlinear_arith)
            requires
                len == n * q + m,
                k < q,
                m >= 0,
                n > 0,
        ;
    } else if k == q {
        assert(k * n == n * q) by (nonlinear_arith)
            requires
                k == q,
        ;
    } else {
        assert(k * n >= len) by (nonlinear_arith)
            requires
                len == n * q + m,
                k >= q + 1,
                m < n,
                n > 0,
        ;
    }
}

fn copy_range(v: &Vec<Gossip>, start: usize, end: usize) -> (r: Vec<Gossip>)
    requires
        start <= end <= v@.len(),
    ensures
        r@ == v@.subrange(start as int, end as int),
{
    let mut out: Vec<Gossip> = Vec::new();
    for i in start..end
        invariant
            start <= end <= v@.len(),
            out@ == v@.subrange(start as int, i as int),
    {
        out.push(v[i]);
        assert(out@ =~= v@.subrange(start as int, i + 1));
    }
    out
}

// ---------------------------------------------------------------------
// Laws
// ---------------------------------------------------------------------

/// No gossip is lost, added or reordered by chunking.
pub proof fn chunks_keep_the_queue(s: Seq<Gossip>, n: nat)
    requires
        n > 0,
    ensures
        pieces(s, n).flatten() == s,
        forall|i: int| 0 <= i < pieces(s, n).len() ==> 0 < (#[trigger] pieces(s, n)[i]).len() <= n,
        forall|i: int|
            0 <= i < pieces(s, n).len() - 1 ==> (#[trigger] pieces(s, n)[i]).len() == n,
    decreases s.len(),
{
    if s.len() == 0 {
        assert(pieces(s, n).flatten() =~= s);
    } else if s.len() <= n {
        seq![s].lemma_flatten_one_element();
    } else {
        let rest = s.skip(n as int);
        chunks_keep_the_queue(rest, n);
        let p = pieces(s, n);
        assert(p.first() == s.take(n as int));
        assert(p.drop_first() =~= pieces(rest, n));
        assert(s.take(n as int) + rest =~= s);
        assert forall|i: int| 0 <= i < p.len() implies 0 < (#[trigger] p[i]).len() <= n by {
            if i > 0 {
                assert(p[i] == pieces(rest, n)[i - 1]);
            }
        }
        assert forall|i: int| 0 <= i < p.len() - 1 implies (#[trigger] p[i]).len() == n by {
            if i > 0 {
                assert(p[i] == pieces(rest, n)[i - 1]);
            }
        }
    }
}

/// A chunk is no smaller than the minimum, and the last chunk of a tick
/// goes out before the next tick. The slots of all chunks fit the window
/// exactly where the chunks that have a whole slot in it take the queue;
/// so they fit wherever the trickle divides the window.
pub proof fn trickle_fits_the_window(
    total: SimDuration,
    sub: SimDuration,
    minimum: nat,
    batch: nat,
)
    requires
        0 < sub.total_nanos() < total.total_nanos(),
        minimum > 0,
        batch > 0,
    ensures
        ({
            let window = total.total_nanos();
            let slot = sub.total_nanos();
            let chunk = sub_batch_size(total, sub, minimum, batch);
            let chunks = div_up(batch, chunk);
            &&& chunk >= minimum
            &&& chunks >= 1
            &&& (chunks - 1) * slot < window
            &&& chunks * slot <= window <==> batch <= (window / slot) * chunk
            &&& window % slot == 0 ==> chunks * slot <= window
        }),
{
    let window = total.total_nanos();
    let slot = sub.total_nanos();
    let chunk = sub_batch_size(total, sub, minimum, batch);
    lemma_share(batch, slot, window);
    let share = div_up(batch * slot, window);
    assert(chunk * window >= batch * slot) by (nonlinear_arith)
        requires
            chunk >= share,
            share * window >= batch * slot,
    ;
    let chunks = div_up(batch, chunk);
    lemma_piece_count(batch, chunk, 0);
    lemma_piece_count(batch, chunk, chunks - 1);
    lemma_piece_count(batch, chunk, chunks as int);
    // (chunks - 1) * chunk * slot < batch * slot <= chunk * window
    assert((chunks - 1) * slot < window) by (nonlinear_arith)
        requires
            (chunks - 1) * chunk < batch,
            chunk * window >= batch * slot,
            slot > 0,
            chunk > 0,
    ;
    let q = (window / slot) as int;
    let m = (window % slot) as int;
    vstd::arithmetic::div_mod::lemma_fundamental_div_mod(window as int, slot as int);
    assert(window == slot * q + m);
    if chunks <= q {
        assert(chunks * slot <= window) by (nonlinear_arith)
            requires
                chunks <= q,
                window == slot * q + m,
                m >= 0,
                slot > 0,
        ;
        assert(batch <= q * chunk) by (nonlinear_arith)
            requires
                batch <= chunks * chunk,
                chunks <= q,
        ;
    } else {
        assert(chunks * slot > window) by (nonlinear_arith)
            requires
                chunks >= q + 1,
                window == slot * q + m,
                m < slot,
        ;
        assert(q * chunk < batch) by (nonlinear_arith)
            requires
                q <= chunks - 1,
                (chunks - 1) * chunk < batch,
        ;
        if m == 0 {
            assert(chunks - 1 < q) by (nonlinear_arith)
                requires
                    (chunks - 1) * slot < window,
                    window == slot * q,
                    slot > 0,
            ;
        }
    }
}

/// A chunk is the least that keeps up: sent once per slot it empties the
/// batch within the window, and one message less per slot would not,
/// unless the chunk is already the minimum. Where a slot is as long as
/// the window the whole batch goes at once.
pub proof fn chunk_is_the_least_that_keeps_up(
    total: SimDuration,
    sub: SimDuration,
    minimum: nat,
    batch: nat,
)
    ensures
        ({
            let window = total.total_nanos();
            let slot = sub.total_nanos();
            let chunk = sub_batch_size(total, sub, minimum, batch);
            &&& slot >= window ==> chunk == batch
            &&& slot < window ==> chunk >= minimum
            &&& slot < window ==> chunk * window >= batch * slot
            &&& slot < window && chunk > minimum ==> (chunk - 1) * window < batch * slot
        }),
{
    let window = total.total_nanos();
    let slot = sub.total_nanos();
    let chunk = sub_batch_size(total, sub, minimum, batch);
    if slot < window {
        lemma_share(batch, slot, window);
        let share = div_up(batch * slot, window);
        assert(chunk * window >= batch * slot) by (nonlinear_arith)
            requires
                chunk >= share,
                share * window >= batch * slot,
        ;
    }
}

/// The chunk of a node is the least that empties its pending messages at
/// one chunk per trickle within the stagger.
pub proof fn node_chunk_keeps_up_with_the_stagger(node: &LndNode)
    ensures
        ({
            let stagger = node.stagger.total_nanos();
            let trickle = node.trickle.total_nanos();
            let pending = node.pending@.len();
            let chunk = node.next_chunk_size();
            &&& trickle >= stagger ==> chunk == pending
            &&& trickle < stagger ==> chunk >= node.min_batch_size
            &&& trickle < stagger ==> chunk * stagger >= pending * trickle
            &&& trickle < stagger && chunk > node.min_batch_size ==> (chunk - 1) * stagger < pending
                * trickle
        }),
{
    chunk_is_the_least_that_keeps_up(
        node.stagger,
        node.trickle,
        node.min_batch_size as nat,
        node.pending@.len(),
    );
}

/// A quotient rounded up is the least number of parts of size `b` that
/// hold `a`.
pub proof fn parts_are_as_few_as_will_hold(a: nat, b: nat)
    requires
        b > 0,
    ensures
        div_up(a, b) * b >= a,
        a > 0 ==> (div_up(a, b) - 1) * b < a,
        a == 0 ==> div_up(a, b) == 0,
{
    vstd::arithmetic::div_mod::lemma_fundamental_div_mod(a as int, b as int);
    let q = (a / b) as int;
    let m = (a % b) as int;
    assert(a == b * q + m);
    if m == 0 {
        assert(q * b == a && (q - 1) * b < a) by (nonlinear_arith)
            requires
                a == b * q + m,
                m == 0,
                b > 0,
        ;
        if a == 0 {
            assert(q == 0) by (nonlinear_arith)
                requires
                    q * b == 0,
                    b > 0,
            ;
        }
    } else {
        assert((q + 1) * b >= a && q * b < a) by (nonlinear_arith)
            requires
                a == b * q + m,
                0 < m < b,
        ;
        assert(a > 0) by {
            vstd::arithmetic::div_mod::lemma_small_mod(0, b);
        }
    }
}

} // verus!
