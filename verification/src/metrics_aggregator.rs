//! Per-message convergence tracking.
//!
//! The aggregator receives every node's first sightings and follows each
//! message until it is finished: it has reached every node, a newer
//! version of its channel side has superseded it, or the run has ended.
//! A finished message yields one [`MsgStats`] and is never taken up
//! again.

use nohash_hasher::{IntMap, IntSet};
use vstd::prelude::*;

use crate::intmap;
use crate::keys;
use crate::message::{Gossip, GossipKind, MsgId, NodeIdx, SketchKind};
use crate::metrics::{
    FirstSeenEntry, KindReservoirSamples, MsgStats, NodeCounters, OverflowEvent,
};
use crate::sorting;
use crate::stats_writer;
use crate::stats_writer::{NodeCountersRow, NodeReservoirRow, OverflowEventRow, WriterRow};

verus! {

/// Marks a node that has not seen a message.
pub const NOT_SEEN: u64 = u64::MAX;

/// A message that is still spreading: when each node first saw it, how
/// many have, the earliest of those times, and the message's size.
pub struct MsgInflight {
    times: Vec<u64>,
    coverage: usize,
    origin_ns: u64,
    size_bytes: u32,
}

/// A message that is still spreading, as a value.
#[verifier::ext_equal]
pub struct Flight {
    pub times: Seq<u64>,
    pub coverage: nat,
    pub origin_ns: u64,
    pub size_bytes: u32,
}

/// How a message spread, as a value.
#[verifier::ext_equal]
pub struct Outcome {
    pub id: MsgId,
    pub coverage: nat,
    pub n_nodes: nat,
    pub origin_ns: u64,
    pub last_ns: u64,
    pub size_bytes: u32,
    pub percentiles: Seq<Option<u64>>,
}

impl View for MsgStats {
    type V = Outcome;

    open spec fn view(&self) -> Outcome {
        Outcome {
            id: self.id,
            coverage: self.coverage as nat,
            n_nodes: self.n_nodes as nat,
            origin_ns: self.origin_ns,
            last_ns: self.last_ns,
            size_bytes: self.size_bytes,
            percentiles: self.percentiles@,
        }
    }
}

impl View for MsgInflight {
    type V = Flight;

    closed spec fn view(&self) -> Flight {
        Flight {
            times: self.times@,
            coverage: self.coverage as nat,
            origin_ns: self.origin_ns,
            size_bytes: self.size_bytes,
        }
    }
}

/// A node has seen the message.
pub open spec fn is_seen() -> spec_fn(u64) -> bool {
    |t: u64| t != NOT_SEEN
}

/// The times at which nodes saw a message, in ascending order.
pub open spec fn arrivals(times: Seq<u64>) -> Seq<u64> {
    sorting::ascending(times.filter(is_seen()))
}

impl Flight {
    /// A message of which only the first sighting's time is known.
    pub open spec fn started(n_nodes: nat, first_ns: u64, size_bytes: u32) -> Flight {
        Flight {
            times: Seq::new(n_nodes, |i: int| NOT_SEEN),
            coverage: 0,
            origin_ns: first_ns,
            size_bytes,
        }
    }

    /// The message after `node` saw it at `ns`.
    pub open spec fn sighted(self, node: int, ns: u64) -> Flight {
        Flight {
            times: self.times.update(node, ns),
            coverage: self.coverage + 1,
            origin_ns: if ns < self.origin_ns {
                ns
            } else {
                self.origin_ns
            },
            size_bytes: self.size_bytes,
        }
    }

    /// Coverage counts the nodes that saw the message, and no node saw it
    /// before its origin.
    pub open spec fn wf(self, n_nodes: nat) -> bool {
        &&& self.times.len() == n_nodes
        &&& self.coverage == self.times.filter(is_seen()).len()
        &&& forall|i: int| 0 <= i < n_nodes ==> self.origin_ns <= #[trigger] self.times[i]
    }

    /// What a finished message reports.
    pub open spec fn outcome(self, id: MsgId, n_nodes: nat, ranks: Seq<usize>) -> Outcome {
        let sorted = arrivals(self.times);
        Outcome {
            id,
            coverage: self.coverage,
            n_nodes,
            origin_ns: self.origin_ns,
            last_ns: if sorted.len() > 0 {
                sorted.last()
            } else {
                self.origin_ns
            },
            size_bytes: self.size_bytes,
            percentiles: Seq::new(
                ranks.len(),
                |i: int|
                    if ranks[i] < self.coverage {
                        Some(time_since(sorted[ranks[i] as int], self.origin_ns))
                    } else {
                        None
                    },
            ),
        }
    }
}

/// Time from `origin` to `t`, 0 where `t` is earlier.
pub open spec fn time_since(t: u64, origin: u64) -> u64 {
    if t >= origin {
        (t - origin) as u64
    } else {
        0
    }
}

/// Sighting one more node adds one to the number that have seen.
proof fn lemma_seen_update(times: Seq<u64>, node: int, ns: u64)
    requires
        0 <= node < times.len(),
        times[node] == NOT_SEEN,
        ns != NOT_SEEN,
    ensures
        times.update(node, ns).filter(is_seen()).len() == times.filter(is_seen()).len() + 1,
    decreases times.len(),
{
    reveal(Seq::filter);
    if node == times.len() - 1 {
        assert(times.update(node, ns).drop_last() =~= times.drop_last());
    } else {
        assert(times.update(node, ns).drop_last() =~= times.drop_last().update(node, ns));
        lemma_seen_update(times.drop_last(), node, ns);
    }
}

/// Nobody has seen a message that has just been taken up.
proof fn lemma_none_seen(n: nat)
    ensures
        Seq::new(n, |i: int| NOT_SEEN).filter(is_seen()).len() == 0,
    decreases n,
{
    reveal(Seq::filter);
    if n > 0 {
        lemma_none_seen((n - 1) as nat);
        assert(Seq::new(n, |i: int| NOT_SEEN).drop_last() =~= Seq::new(
            (n - 1) as nat,
            |i: int| NOT_SEEN,
        ));
    }
}

impl MsgInflight {
    fn new(n_nodes: usize, first_ns: u64, size_bytes: u32) -> (r: Self)
        ensures
            r@ == Flight::started(n_nodes as nat, first_ns, size_bytes),
    {
        let mut times: Vec<u64> = Vec::new();
        for i in 0..n_nodes
            invariant
                times@ == Seq::new(i as nat, |j: int| NOT_SEEN),
        {
            times.push(NOT_SEEN);
            assert(times@ =~= Seq::new((i + 1) as nat, |j: int| NOT_SEEN));
        }
        MsgInflight { times, coverage: 0, origin_ns: first_ns, size_bytes }
    }
}

/// Report a message that is finished.
fn finalize_msg(id: MsgId, inflight: MsgInflight, ranks: &Vec<usize>, n_nodes: usize) -> (r:
    MsgStats)
    requires
        inflight@.wf(n_nodes as nat),
    ensures
        r@ == inflight@.outcome(id, n_nodes as nat, ranks@),
{
    let mut sorted: Vec<u64> = Vec::new();
    let n: usize = inflight.times.len();
    proof {
        reveal(Seq::filter);
        assert(inflight.times@.take(0) =~= Seq::<u64>::empty());
    }
    for i in 0..n
        invariant
            n == inflight.times@.len(),
            sorted@ == inflight.times@.take(i as int).filter(is_seen()),
    {
        proof {
            reveal(Seq::filter);
            assert(inflight.times@.take(i + 1).drop_last() =~= inflight.times@.take(i as int));
        }
        let t: u64 = inflight.times[i];
        if t != NOT_SEEN {
            sorted.push(t);
        }
    }
    assert(inflight.times@.take(n as int) =~= inflight.times@);
    sorting::sort(&mut sorted);
    proof {
        sorting::lemma_ascending(inflight.times@.filter(is_seen()));
    }
    let origin_ns: u64 = inflight.origin_ns;
    let n_sorted: usize = sorted.len();
    let last_ns: u64 = if n_sorted > 0 {
        sorted[n_sorted - 1]
    } else {
        origin_ns
    };
    let mut percentiles: Vec<Option<u64>> = Vec::new();
    let n_ranks: usize = ranks.len();
    let ghost expected = inflight@.outcome(id, n_nodes as nat, ranks@).percentiles;
    for i in 0..n_ranks
        invariant
            n_ranks == ranks@.len(),
            sorted@ == arrivals(inflight@.times),
            sorted@.len() == inflight.coverage,
            inflight.coverage == inflight@.coverage,
            origin_ns == inflight@.origin_ns,
            expected == inflight@.outcome(id, n_nodes as nat, ranks@).percentiles,
            percentiles@ == expected.take(i as int),
    {
        let rank: usize = ranks[i];
        let val: Option<u64> = if rank < inflight.coverage {
            Some(sorted[rank].saturating_sub(origin_ns))
        } else {
            None
        };
        percentiles.push(val);
        assert(percentiles@ =~= expected.take(i + 1));
    }
    assert(expected.take(n_ranks as int) =~= expected);
    MsgStats {
        id,
        coverage: inflight.coverage,
        n_nodes,
        origin_ns,
        last_ns,
        size_bytes: inflight.size_bytes,
        percentiles,
    }
}

/// What the aggregator knows.
#[verifier::ext_equal]
pub struct Tally {
    /// Messages that are still spreading.
    pub in_flight: Map<MsgId, Flight>,
    /// Channel updates that are still spreading, by channel side.
    pub by_channel: Map<u64, Set<MsgId>>,
    /// The latest timestamp seen of each channel side.
    pub latest: Map<u64, u32>,
    /// Messages that are finished.
    pub finalized: Set<MsgId>,
    /// How many messages a newer version has superseded.
    pub superseded: nat,
}

/// The channel side that a message updates.
pub open spec fn channel_of(g: Gossip) -> Option<u64> {
    if g.kind == GossipKind::ChannelUpdate && g.scid is Some {
        Some(keys::cu_key(g.scid->0, g.direction))
    } else {
        None
    }
}

impl Tally {
    /// The message is unfinished and the newest version seen of its
    /// channel side.
    pub open spec fn supersedes(self, g: Gossip) -> bool {
        !self.finalized.contains(g.id) && channel_of(g) is Some && (!self.latest.contains_key(channel_of(g)->0) || g.timestamp
            > self.latest[channel_of(g)->0])
    }

    /// The messages that the arrival of `g` supersedes.
    pub open spec fn killed_by(self, g: Gossip) -> Set<MsgId> {
        if self.supersedes(g) && self.by_channel.contains_key(channel_of(g)->0) {
            self.by_channel[channel_of(g)->0].intersect(self.in_flight.dom()).remove(g.id)
        } else {
            Set::empty()
        }
    }

    /// After the arrival of `g` has superseded what it supersedes.
    pub open spec fn without_superseded(self, g: Gossip) -> Tally {
        if self.supersedes(g) {
            let key = channel_of(g)->0;
            let killed = self.killed_by(g);
            Tally {
                in_flight: self.in_flight.remove_keys(killed),
                by_channel: if self.by_channel.contains_key(key) {
                    self.by_channel.insert(key, Set::empty())
                } else {
                    self.by_channel
                },
                latest: self.latest.insert(key, g.timestamp),
                finalized: self.finalized.union(killed),
                superseded: self.superseded + killed.len(),
            }
        } else {
            self
        }
    }

    /// The message's flight, taken up at `ns` where it is new.
    pub open spec fn flight(self, n_nodes: nat, g: Gossip, ns: u64) -> Flight {
        if self.in_flight.contains_key(g.id) {
            self.in_flight[g.id]
        } else {
            Flight::started(n_nodes, ns, g.size_bytes as u32)
        }
    }

    /// The arrival of `g` at `node` is a first sighting.
    pub open spec fn is_fresh(self, n_nodes: nat, node: int, g: Gossip, ns: u64) -> bool {
        !self.finalized.contains(g.id) && self.without_superseded(g).flight(
            n_nodes,
            g,
            ns,
        ).times[node] == NOT_SEEN
    }

    /// The arrival of `g` at `node` completes its coverage.
    pub open spec fn completes(self, n_nodes: nat, node: int, g: Gossip, ns: u64) -> bool {
        self.is_fresh(n_nodes, node, g, ns) && self.without_superseded(g).flight(
            n_nodes,
            g,
            ns,
        ).coverage + 1 == n_nodes
    }

    /// After `node` saw `g` at `ns`.
    pub open spec fn after(self, n_nodes: nat, node: int, g: Gossip, ns: u64) -> Tally {
        if self.finalized.contains(g.id) {
            self
        } else {
            let t = self.without_superseded(g);
            let f = t.flight(n_nodes, g, ns);
            let key = channel_of(g);
            if !self.is_fresh(n_nodes, node, g, ns) {
                Tally { in_flight: t.in_flight.insert(g.id, f), ..t }
            } else if self.completes(n_nodes, node, g, ns) {
                Tally {
                    in_flight: t.in_flight.remove(g.id),
                    by_channel: if key is Some && t.by_channel.contains_key(key->0) {
                        t.by_channel.insert(key->0, t.by_channel[key->0].remove(g.id))
                    } else {
                        t.by_channel
                    },
                    finalized: t.finalized.insert(g.id),
                    ..t
                }
            } else {
                Tally {
                    in_flight: t.in_flight.insert(g.id, f.sighted(node, ns)),
                    by_channel: if key is Some {
                        t.by_channel.insert(
                            key->0,
                            (if t.by_channel.contains_key(key->0) {
                                t.by_channel[key->0]
                            } else {
                                Set::empty()
                            }).insert(g.id),
                        )
                    } else {
                        t.by_channel
                    },
                    ..t
                }
            }
        }
    }

    /// Every message in flight is consistent and unfinished.
    pub open spec fn wf(self, n_nodes: nat) -> bool {
        &&& forall|id: MsgId| #[trigger]
            self.in_flight.contains_key(id) ==> self.in_flight[id].wf(n_nodes)
                && self.in_flight[id].coverage < n_nodes && !self.finalized.contains(id)
        &&& forall|k: u64| #[trigger]
            self.by_channel.contains_key(k) ==> self.by_channel[k].finite()
        &&& self.finalized.finite()
        &&& self.superseded <= self.finalized.len()
    }

    /// `added` is what the arrival of `g` at `node` reports: the messages
    /// it supersedes, in some order, and itself where it completes its
    /// coverage.
    pub open spec fn step_reports(
        self,
        n_nodes: nat,
        ranks: Seq<usize>,
        node: int,
        g: Gossip,
        ns: u64,
        added: Seq<Outcome>,
    ) -> bool {
        exists|order: Seq<MsgId>| #[trigger]
            lists(order, self.killed_by(g)) && added == reports(
                order,
                self.in_flight,
                n_nodes,
                ranks,
            ) + self.completion_report(n_nodes, ranks, node, g, ns)
    }

    /// The report of `g` itself, where its arrival at `node` completes
    /// its coverage.
    pub open spec fn completion_report(
        self,
        n_nodes: nat,
        ranks: Seq<usize>,
        node: int,
        g: Gossip,
        ns: u64,
    ) -> Seq<Outcome> {
        if self.completes(n_nodes, node, g, ns) {
            seq![
                self.without_superseded(g).flight(n_nodes, g, ns).sighted(node, ns).outcome(
                    g.id,
                    n_nodes,
                    ranks,
                ),
            ]
        } else {
            Seq::empty()
        }
    }

    /// After `node` saw a list of messages.
    pub open spec fn after_all(self, n_nodes: nat, node: int, es: Seq<FirstSeenEntry>) -> Tally
        decreases es.len(),
    {
        if es.len() == 0 {
            self
        } else {
            self.after_all(n_nodes, node, es.drop_last()).after(
                n_nodes,
                node,
                es.last().gossip,
                es.last().time_ns,
            )
        }
    }

    /// `added` is what a list of arrivals at `node` reports, arrival by
    /// arrival.
    pub open spec fn batch_reports(
        self,
        n_nodes: nat,
        ranks: Seq<usize>,
        node: int,
        es: Seq<FirstSeenEntry>,
        added: Seq<Outcome>,
    ) -> bool
        decreases es.len(),
    {
        if es.len() == 0 {
            added.len() == 0
        } else {
            exists|n: int|
                0 <= n <= added.len() && self.batch_reports(
                    n_nodes,
                    ranks,
                    node,
                    es.drop_last(),
                    #[trigger] added.take(n),
                ) && self.after_all(n_nodes, node, es.drop_last()).step_reports(
                    n_nodes,
                    ranks,
                    node,
                    es.last().gossip,
                    es.last().time_ns,
                    added.skip(n),
                )
        }
    }
}

/// There are fewer than `2^64` ids besides a given one.
proof fn lemma_ids_bound(s: Set<MsgId>, other: MsgId)
    requires
        s.finite(),
        !s.contains(other),
    ensures
        s.len() <= u64::MAX,
{
    let t = s.insert(other);
    let f = |v: u64| v as int;
    let ints = t.map(f);
    vstd::set_lib::lemma_map_size(t, ints, f);
    vstd::set_lib::lemma_int_range(0, 0x1_0000_0000_0000_0000);
    assert(ints.subset_of(vstd::set_lib::set_int_range(0, 0x1_0000_0000_0000_0000)));
    vstd::set_lib::lemma_len_subset(
        ints,
        vstd::set_lib::set_int_range(0, 0x1_0000_0000_0000_0000),
    );
}

/// Follows every message from its first sighting to its end.
pub struct AggregatorState {
    n_nodes: usize,
    ranks: Vec<usize>,
    in_flight: IntMap<MsgId, MsgInflight>,
    inflight_by_channel: IntMap<u64, IntSet<MsgId>>,
    latest_version: IntMap<u64, u32>,
    finalized: IntSet<MsgId>,
    superseded_count: u64,
    mirror: Vec<MsgStats>,
}

impl View for AggregatorState {
    type V = Tally;

    closed spec fn view(&self) -> Tally {
        Tally {
            in_flight: self.in_flight@.map_values(|f: MsgInflight| f@),
            by_channel: self.inflight_by_channel@.map_values(|s: IntSet<MsgId>| s@),
            latest: self.latest_version@,
            finalized: self.finalized@,
            superseded: self.superseded_count as nat,
        }
    }
}

impl AggregatorState {
    /// Number of nodes in the simulation.
    pub closed spec fn nodes(&self) -> nat {
        self.n_nodes as nat
    }

    /// For each configured percentile, its position among the sorted
    /// arrival times.
    pub closed spec fn ranks(&self) -> Seq<usize> {
        self.ranks@
    }

    /// What the finished messages report, in the order in which they
    /// finished.
    pub closed spec fn outcomes(&self) -> Seq<Outcome> {
        self.mirror@.map_values(|s: MsgStats| s@)
    }

    /// Messages in flight are consistent, and every finished message was
    /// reported exactly once.
    pub open spec fn wf(&self) -> bool {
        &&& self.nodes() > 0
        &&& self@.wf(self.nodes())
        &&& reported_once(self.outcomes(), self@.finalized)
    }

    pub fn new(n_nodes: usize, ranks: Vec<usize>) -> (r: Self)
        requires
            n_nodes > 0,
        ensures
            r.wf(),
            r.nodes() == n_nodes,
            r.ranks() == ranks@,
            r.outcomes() == Seq::<Outcome>::empty(),
            r@.in_flight.is_empty(),
            r@.by_channel.is_empty(),
            r@.latest.is_empty(),
            r@.finalized.is_empty(),
            r@.superseded == 0,
    {
        let r = AggregatorState {
            n_nodes,
            ranks,
            in_flight: IntMap::default(),
            inflight_by_channel: IntMap::default(),
            latest_version: IntMap::default(),
            finalized: IntSet::default(),
            superseded_count: 0,
            mirror: Vec::new(),
        };
        assert(r.outcomes() =~= Seq::<Outcome>::empty());
        assert(r@.in_flight =~= Map::<MsgId, Flight>::empty());
        assert(r@.by_channel =~= Map::<u64, Set<MsgId>>::empty());
        assert(r@.finalized =~= Set::<MsgId>::empty());
        r
    }

    /// How many messages a newer version has superseded.
    pub fn superseded_count(&self) -> (r: u64)
        ensures
            r == self@.superseded,
    {
        self.superseded_count
    }

    /// How many messages are finished.
    pub fn finalized_count(&self) -> (r: usize)
        ensures
            r == self.outcomes().len(),
    {
        self.mirror.len()
    }
}

/// The reports are of distinct messages, and these are the finished ones.
pub open spec fn reported_once(outcomes: Seq<Outcome>, finalized: Set<MsgId>) -> bool {
    &&& forall|i: int, j: int|
        0 <= i < j < outcomes.len() ==> (#[trigger] outcomes[i]).id != (#[trigger] outcomes[j]).id
    &&& forall|i: int| 0 <= i < outcomes.len() ==> finalized.contains((#[trigger] outcomes[i]).id)
    &&& forall|id: MsgId| #[trigger]
        finalized.contains(id) ==> exists|i: int|
            0 <= i < outcomes.len() && (#[trigger] outcomes[i]).id == id
}

proof fn lemma_reported_once_push(outcomes: Seq<Outcome>, finalized: Set<MsgId>, o: Outcome)
    requires
        reported_once(outcomes, finalized),
        !finalized.contains(o.id),
    ensures
        reported_once(outcomes.push(o), finalized.insert(o.id)),
{
    let grown = outcomes.push(o);
    assert forall|id: MsgId| #[trigger] finalized.insert(o.id).contains(id) implies exists|i: int|
        0 <= i < grown.len() && (#[trigger] grown[i]).id == id by {
        if finalized.contains(id) {
            let i = choose|i: int| 0 <= i < outcomes.len() && (#[trigger] outcomes[i]).id == id;
            assert(grown[i] == outcomes[i]);
        } else {
            assert(grown[outcomes.len() as int].id == id);
        }
    }
}

/// What messages report that finish in the given order.
pub open spec fn reports(
    order: Seq<MsgId>,
    in_flight: Map<MsgId, Flight>,
    n_nodes: nat,
    ranks: Seq<usize>,
) -> Seq<Outcome> {
    Seq::new(order.len(), |i: int| in_flight[order[i]].outcome(order[i], n_nodes, ranks))
}

/// `order` lists the members of `s`, each once.
pub open spec fn lists(order: Seq<MsgId>, s: Set<MsgId>) -> bool {
    order.no_duplicates() && order.to_set() == s
}

impl AggregatorState {
    /// Record the arrival of a new version of a channel side and finish
    /// the versions that it supersedes.
    fn supersede(&mut self, key: u64, gossip: Gossip) -> (order: Ghost<Seq<MsgId>>)
        requires
            old(self).wf(),
            channel_of(gossip) == Some(key),
            !old(self)@.finalized.contains(gossip.id),
        ensures
            final(self).wf(),
            final(self).nodes() == old(self).nodes(),
            final(self).ranks() == old(self).ranks(),
            final(self)@ == old(self)@.without_superseded(gossip),
            lists(order@, old(self)@.killed_by(gossip)),
            final(self).outcomes() == old(self).outcomes() + reports(
                order@,
                old(self)@.in_flight,
                old(self).nodes(),
                old(self).ranks(),
            ),
    {
        let ghost before = *self;
        let ghost in0 = self@.in_flight;
        let newest: bool = match intmap::map_get(&self.latest_version, key) {
            Some(ts) => gossip.timestamp > *ts,
            None => true,
        };
        let ghost mut order: Seq<MsgId> = Seq::empty();
        if !newest {
            proof {
                assert(order.to_set() =~= Set::<MsgId>::empty());
                assert(self.outcomes() =~= before.outcomes() + reports(
                    order,
                    in0,
                    before.nodes(),
                    before.ranks(),
                ));
            }
            return Ghost(order);
        }
        intmap::map_insert(&mut self.latest_version, key, gossip.timestamp);
        let known: bool = match intmap::map_get(&self.inflight_by_channel, key) {
            Some(_) => true,
            None => false,
        };
        if !known {
            proof {
                assert(!before@.by_channel.contains_key(key));
                assert(order.to_set() =~= Set::<MsgId>::empty());
                assert(self@.in_flight =~= before@.without_superseded(gossip).in_flight);
                assert(self@.finalized =~= before@.without_superseded(gossip).finalized);
                assert(self.outcomes() =~= before.outcomes() + reports(
                    order,
                    in0,
                    before.nodes(),
                    before.ranks(),
                ));
            }
            return Ghost(order);
        }
        let taken: Option<IntSet<MsgId>> = intmap::map_insert(
            &mut self.inflight_by_channel,
            key,
            IntSet::default(),
        );
        let drained: Vec<MsgId> = match taken {
            Some(s) => intmap::set_members(s),
            None => Vec::new(),
        };
        let ghost members = before@.by_channel[key];
        let ghost killed = before@.killed_by(gossip);
        proof {
            assert(drained@.to_set() == members);
            assert(self@.by_channel =~= before@.by_channel.insert(key, Set::empty()));
            assert forall|x: MsgId| killed.contains(x) <==> drained@.contains(x)
                && in0.contains_key(x) && x != gossip.id by {
                assert(members.contains(x) == drained@.to_set().contains(x));
            }
            assert(killed.disjoint(before@.finalized)) by {
                assert forall|x: MsgId| killed.contains(x) implies !before@.finalized.contains(
                    x,
                ) by {
                    assert(in0.contains_key(x));
                }
            }
            vstd::set_lib::lemma_set_disjoint_lens(before@.finalized, killed);
            lemma_ids_bound(before@.finalized.union(killed), gossip.id);
            assert(order.to_set() =~= Set::<MsgId>::empty());
            assert(self@.in_flight =~= in0.remove_keys(order.to_set()));
            assert(self@.finalized =~= before@.finalized.union(order.to_set()));
            assert(self.outcomes() =~= before.outcomes() + reports(
                order,
                in0,
                before.nodes(),
                before.ranks(),
            ));
        }
        let n: usize = drained.len();
        for j in 0..n
            invariant
                n == drained@.len(),
                drained@.no_duplicates(),
                before@.wf(before.nodes()),
                in0 == before@.in_flight,
                killed == before@.killed_by(gossip),
                killed.finite(),
                before@.superseded + killed.len() <= u64::MAX,
                forall|x: MsgId|
                    killed.contains(x) <==> drained@.contains(x) && in0.contains_key(x) && x
                        != gossip.id,
                order.no_duplicates(),
                forall|x: MsgId| #[trigger]
                    order.contains(x) <==> drained@.take(j as int).contains(x)
                        && in0.contains_key(x) && x != gossip.id,
                self.nodes() == before.nodes(),
                self.ranks() == before.ranks(),
                self@.in_flight == in0.remove_keys(order.to_set()),
                self@.finalized == before@.finalized.union(order.to_set()),
                self@.superseded == before@.superseded + order.len(),
                self@.by_channel == before@.by_channel.insert(key, Set::empty()),
                self@.latest == before@.latest.insert(key, gossip.timestamp),
                reported_once(self.outcomes(), self@.finalized),
                self.outcomes() == before.outcomes() + reports(
                    order,
                    in0,
                    before.nodes(),
                    before.ranks(),
                ),
        {
            let old_id: MsgId = drained[j];
            proof {
                assert(drained@.take(j + 1) =~= drained@.take(j as int).push(old_id));
                assert(!drained@.take(j as int).contains(old_id));
                assert forall|x: MsgId| #[trigger] drained@.take(j + 1).contains(x) <==> (
                drained@.take(j as int).contains(x) || x == old_id) by {
                    if drained@.take(j as int).contains(x) {
                        let q = drained@.take(j as int).index_of(x);
                        assert(drained@.take(j + 1)[q] == x);
                    }
                    assert(drained@.take(j + 1)[j as int] == old_id);
                }
                assert(!order.contains(old_id));
            }
            if old_id != gossip.id {
                let ghost flights = self.in_flight@;
                let ghost spreading = self@.in_flight;
                if let Some(inflight) = intmap::map_remove(&mut self.in_flight, old_id) {
                    proof {
                        assert(flights.contains_key(old_id));
                        assert(spreading.contains_key(old_id));
                        assert(spreading[old_id] == flights[old_id]@);
                        assert(inflight@ == in0[old_id]);
                    }
                    let stats = finalize_msg(old_id, inflight, &self.ranks, self.n_nodes);
                    let ghost grown = order.push(old_id);
                    proof {
                        assert(killed.contains(old_id)) by {
                            assert(drained@.contains(drained@[j as int]));
                        }
                        assert forall|x: MsgId| #[trigger] grown.contains(x) <==> (order.contains(x)
                            || x == old_id) by {
                            if order.contains(x) {
                                let q = order.index_of(x);
                                assert(grown[q] == x);
                            }
                            assert(grown[order.len() as int] == old_id);
                        }
                        assert(grown.to_set() =~= order.to_set().insert(old_id));
                        assert(grown.no_duplicates());
                        grown.unique_seq_to_set();
                        assert(grown.to_set().subset_of(killed)) by {
                            assert forall|x: MsgId| grown.to_set().contains(x) implies killed.contains(
                                x,
                            ) by {
                                if x != old_id {
                                    assert(order.contains(x));
                                    let q = drained@.take(j as int).index_of(x);
                                    assert(drained@[q] == x);
                                }
                            }
                        }
                        vstd::set_lib::lemma_len_subset(grown.to_set(), killed);
                    }
                    let ghost told = self.outcomes();
                    let ghost report = stats@;
                    proof {
                        assert(!before@.finalized.contains(old_id));
                        assert(!self@.finalized.contains(old_id));
                        lemma_reported_once_push(told, self@.finalized, report);
                    }
                    self.mirror.push(stats);
                    intmap::set_insert(&mut self.finalized, old_id);
                    self.superseded_count = self.superseded_count + 1;
                    proof {
                        assert(self@.in_flight =~= spreading.remove(old_id));
                        assert(self@.in_flight =~= in0.remove_keys(grown.to_set()));
                        assert(self@.finalized =~= before@.finalized.union(grown.to_set()));
                        assert(self@.by_channel =~= before@.by_channel.insert(key, Set::empty()));
                        assert(self.outcomes() =~= told.push(report));
                        assert(reports(grown, in0, before.nodes(), before.ranks()) =~= reports(
                            order,
                            in0,
                            before.nodes(),
                            before.ranks(),
                        ).push(report));
                        assert(self.outcomes() =~= before.outcomes() + reports(
                            grown,
                            in0,
                            before.nodes(),
                            before.ranks(),
                        ));
                        order = grown;
                    }
                } else {
                    proof {
                        assert(self.in_flight@ =~= flights);
                        assert(!self@.in_flight.contains_key(old_id));
                        assert(!in0.contains_key(old_id));
                    }
                }
            }
        }
        proof {
            assert(drained@.take(n as int) =~= drained@);
            assert(order.to_set() =~= killed);
            order.unique_seq_to_set();
        }
        Ghost(order)
    }

    /// Record that `node` first saw `gossip` at `ns`. A message that is
    /// finished, or that the node has seen, is passed over; a new version
    /// of a channel side finishes the older ones; full coverage finishes
    /// the message.
    pub fn handle_one_first_seen(&mut self, node: NodeIdx, gossip: Gossip, ns: u64)
        requires
            old(self).wf(),
            node < old(self).nodes(),
            ns != NOT_SEEN,
        ensures
            final(self).wf(),
            final(self).nodes() == old(self).nodes(),
            final(self).ranks() == old(self).ranks(),
            final(self)@ == old(self)@.after(old(self).nodes(), node as int, gossip, ns),
            exists|added: Seq<Outcome>|
                final(self).outcomes() == old(self).outcomes() + added && #[trigger] old(
                    self,
                )@.step_reports(
                    old(self).nodes(),
                    old(self).ranks(),
                    node as int,
                    gossip,
                    ns,
                    added,
                ),
    {
        let ghost before = *self;
        let ghost n = self.nodes();
        let ghost mut order: Seq<MsgId> = Seq::empty();
        if intmap::set_contains(&self.finalized, gossip.id) {
            proof {
                assert(order.to_set() =~= before@.killed_by(gossip));
                assert(lists(order, before@.killed_by(gossip)));
                let added = Seq::<Outcome>::empty();
                assert(added =~= reports(order, before@.in_flight, n, before.ranks())
                    + before@.completion_report(n, before.ranks(), node as int, gossip, ns));
                assert(before@.step_reports(n, before.ranks(), node as int, gossip, ns, added));
                assert(self.outcomes() =~= before.outcomes() + added);
            }
            return;
        }
        let chan_key: Option<u64> = match gossip.scid {
            Some(scid) => if gossip.kind == GossipKind::ChannelUpdate {
                Some(keys::pack_cu_key(scid, gossip.direction))
            } else {
                None
            },
            None => None,
        };
        assert(chan_key == channel_of(gossip));
        match chan_key {
            Some(key) => {
                let listed = self.supersede(key, gossip);
                proof {
                    order = listed@;
                }
            },
            None => {
                proof {
                    assert(order.to_set() =~= before@.killed_by(gossip));
                    assert(self.outcomes() =~= before.outcomes() + reports(
                        order,
                        before@.in_flight,
                        n,
                        before.ranks(),
                    ));
                }
            },
        }
        let ghost mid = *self;
        let ghost t = self@;
        assert(t == before@.without_superseded(gossip));
        let ghost killed_reports = reports(order, before@.in_flight, n, before.ranks());
        let ghost f = t.flight(n, gossip, ns);
        let mut inflight: MsgInflight = match intmap::map_remove(&mut self.in_flight, gossip.id) {
            Some(flight) => {
                assert(t.in_flight.contains_key(gossip.id));
                flight
            },
            None => {
                assert(!t.in_flight.contains_key(gossip.id));
                MsgInflight::new(self.n_nodes, ns, gossip.size_bytes as u32)
            },
        };
        proof {
            assert(inflight@ == f);
            lemma_none_seen(n);
            assert(f.wf(n));
            assert(f.coverage < n);
        }
        if inflight.times[node as usize] != NOT_SEEN {
            intmap::map_insert(&mut self.in_flight, gossip.id, inflight);
            proof {
                assert(f.times[node as int] != NOT_SEEN);
                assert(t.in_flight.contains_key(gossip.id));
                assert(!before@.is_fresh(n, node as int, gossip, ns));
                assert(self@.in_flight =~= t.in_flight.insert(gossip.id, f));
                assert(self@ =~= t);
                assert(lists(order, before@.killed_by(gossip)));
                assert(killed_reports =~= killed_reports + before@.completion_report(
                    n,
                    before.ranks(),
                    node as int,
                    gossip,
                    ns,
                ));
                assert(before@.step_reports(
                    n,
                    before.ranks(),
                    node as int,
                    gossip,
                    ns,
                    killed_reports,
                ));
            }
            return;
        }
        proof {
            lemma_seen_update(f.times, node as int, ns);
        }
        inflight.times.set(node as usize, ns);
        if ns < inflight.origin_ns {
            inflight.origin_ns = ns;
        }
        inflight.coverage = inflight.coverage + 1;
        let ghost sighted = f.sighted(node as int, ns);
        assert(inflight@ == sighted);
        assert(sighted.wf(n));
        if inflight.coverage == self.n_nodes {
            let stats = finalize_msg(gossip.id, inflight, &self.ranks, self.n_nodes);
            let ghost report = stats@;
            proof {
                assert(!t.finalized.contains(gossip.id));
                lemma_reported_once_push(mid.outcomes(), t.finalized, report);
            }
            self.mirror.push(stats);
            intmap::set_insert(&mut self.finalized, gossip.id);
            if let Some(key) = chan_key {
                if let Some(mut set) = intmap::map_remove(&mut self.inflight_by_channel, key) {
                    intmap::set_remove(&mut set, gossip.id);
                    intmap::map_insert(&mut self.inflight_by_channel, key, set);
                }
            }
            proof {
                assert(self@.in_flight =~= t.in_flight.remove(gossip.id));
                assert(self@.by_channel =~= before@.after(
                    n,
                    node as int,
                    gossip,
                    ns,
                ).by_channel);
                assert(self.outcomes() =~= mid.outcomes().push(report));
                let added = killed_reports.push(report);
                assert(lists(order, before@.killed_by(gossip)));
                assert(added =~= killed_reports + before@.completion_report(
                    n,
                    before.ranks(),
                    node as int,
                    gossip,
                    ns,
                ));
                assert(before@.step_reports(n, before.ranks(), node as int, gossip, ns, added));
                assert(self.outcomes() =~= before.outcomes() + added);
            }
        } else {
            intmap::map_insert(&mut self.in_flight, gossip.id, inflight);
            if let Some(key) = chan_key {
                let mut set: IntSet<MsgId> = match intmap::map_remove(
                    &mut self.inflight_by_channel,
                    key,
                ) {
                    Some(s) => s,
                    None => IntSet::default(),
                };
                intmap::set_insert(&mut set, gossip.id);
                intmap::map_insert(&mut self.inflight_by_channel, key, set);
            }
            proof {
                assert(self@.in_flight =~= t.in_flight.insert(gossip.id, sighted));
                assert(lists(order, before@.killed_by(gossip)));
                assert(self@.by_channel =~= before@.after(
                    n,
                    node as int,
                    gossip,
                    ns,
                ).by_channel);
                assert(killed_reports =~= killed_reports + before@.completion_report(
                    n,
                    before.ranks(),
                    node as int,
                    gossip,
                    ns,
                ));
                assert(before@.step_reports(
                    n,
                    before.ranks(),
                    node as int,
                    gossip,
                    ns,
                    killed_reports,
                ));
            }
        }
    }

    /// Record a batch of first sightings from one node.
    pub fn handle_first_seen_batch(&mut self, node: NodeIdx, entries: Vec<FirstSeenEntry>)
        requires
            old(self).wf(),
            node < old(self).nodes(),
            forall|i: int|
                0 <= i < entries@.len() ==> (#[trigger] entries@[i]).time_ns != NOT_SEEN,
        ensures
            final(self).wf(),
            final(self).nodes() == old(self).nodes(),
            final(self).ranks() == old(self).ranks(),
            final(self)@ == old(self)@.after_all(old(self).nodes(), node as int, entries@),
            exists|added: Seq<Outcome>|
                final(self).outcomes() == old(self).outcomes() + added && #[trigger] old(
                    self,
                )@.batch_reports(
                    old(self).nodes(),
                    old(self).ranks(),
                    node as int,
                    entries@,
                    added,
                ),
    {
        let ghost before = *self;
        let ghost mut added: Seq<Outcome> = Seq::empty();
        let n: usize = entries.len();
        proof {
            assert(entries@.take(0) =~= Seq::<FirstSeenEntry>::empty());
            assert(self.outcomes() =~= before.outcomes() + added);
        }
        for i in 0..n
            invariant
                n == entries@.len(),
                self.wf(),
                self.nodes() == before.nodes(),
                self.ranks() == before.ranks(),
                node < before.nodes(),
                forall|j: int|
                    0 <= j < entries@.len() ==> (#[trigger] entries@[j]).time_ns != NOT_SEEN,
                self@ == before@.after_all(before.nodes(), node as int, entries@.take(i as int)),
                self.outcomes() == before.outcomes() + added,
                before@.batch_reports(
                    before.nodes(),
                    before.ranks(),
                    node as int,
                    entries@.take(i as int),
                    added,
                ),
        {
            let e: FirstSeenEntry = entries[i];
            let ghost mid = *self;
            self.handle_one_first_seen(node, e.gossip, e.time_ns);
            proof {
                let more = choose|more: Seq<Outcome>|
                    self.outcomes() == mid.outcomes() + more && #[trigger] mid@.step_reports(
                        mid.nodes(),
                        mid.ranks(),
                        node as int,
                        e.gossip,
                        e.time_ns,
                        more,
                    );
                let es = entries@.take(i + 1);
                assert(es.drop_last() =~= entries@.take(i as int));
                assert(es.last() == e);
                let grown = added + more;
                assert(grown.take(added.len() as int) =~= added);
                assert(grown.skip(added.len() as int) =~= more);
                assert(before@.batch_reports(
                    before.nodes(),
                    before.ranks(),
                    node as int,
                    es,
                    grown,
                ));
                assert(self.outcomes() =~= before.outcomes() + grown);
                added = grown;
            }
        }
        assert(entries@.take(n as int) =~= entries@);
    }

    /// Finish every message that is still spreading, in no particular
    /// order. Called once, at the end of a run.
    pub fn finalize_remaining(&mut self)
        requires
            old(self).wf(),
        ensures
            final(self).wf(),
            final(self).nodes() == old(self).nodes(),
            final(self).ranks() == old(self).ranks(),
            final(self)@.in_flight.is_empty(),
            final(self)@.by_channel.is_empty(),
            final(self)@.latest == old(self)@.latest,
            final(self)@.finalized == old(self)@.finalized.union(old(self)@.in_flight.dom()),
            final(self)@.superseded == old(self)@.superseded,
            exists|order: Seq<MsgId>| #[trigger]
                lists(order, old(self)@.in_flight.dom()) && final(self).outcomes() == old(
                    self,
                ).outcomes() + reports(
                    order,
                    old(self)@.in_flight,
                    old(self).nodes(),
                    old(self).ranks(),
                ),
    {
        let ghost before = *self;
        let ghost in0 = self@.in_flight;
        let ghost flights = self.in_flight@;
        let mut drained: Vec<(MsgId, MsgInflight)> = intmap::map_drain(&mut self.in_flight);
        let ghost items = drained@;
        let ghost n = items.len() as int;
        let ghost mut order: Seq<MsgId> = Seq::empty();
        proof {
            assert forall|k: int| 0 <= k < items.len() implies in0.contains_key(
                (#[trigger] items[k]).0,
            ) && in0[items[k].0] == items[k].1@ by {
                assert(flights.contains_key(items[k].0));
            }
            assert(self@.finalized =~= before@.finalized.union(order.to_set()));
            assert(self.outcomes() =~= before.outcomes() + reports(
                order,
                in0,
                before.nodes(),
                before.ranks(),
            ));
        }
        while drained.len() > 0
            invariant
                n == items.len(),
                before@.wf(before.nodes()),
                in0 == before@.in_flight,
                forall|k: int|
                    0 <= k < items.len() ==> in0.contains_key((#[trigger] items[k]).0)
                        && in0[items[k].0] == items[k].1@,
                forall|i: int, j: int|
                    0 <= i < j < items.len() ==> (#[trigger] items[i]).0 != (#[trigger] items[j]).0,
                drained@.len() <= items.len(),
                drained@ == items.take(drained@.len() as int),
                order.len() == n - drained@.len(),
                forall|k: int|
                    0 <= k < order.len() ==> #[trigger] order[k] == items[n - 1 - k].0,
                self.nodes() == before.nodes(),
                self.nodes() > 0,
                self.ranks() == before.ranks(),
                self.in_flight@.is_empty(),
                self@.by_channel == before@.by_channel,
                self@.latest == before@.latest,
                self@.superseded == before@.superseded,
                self@.finalized == before@.finalized.union(order.to_set()),
                self@.finalized.finite(),
                self@.superseded <= self@.finalized.len(),
                reported_once(self.outcomes(), self@.finalized),
                self.outcomes() == before.outcomes() + reports(
                    order,
                    in0,
                    before.nodes(),
                    before.ranks(),
                ),
            decreases drained@.len(),
        {
            let ghost p = drained@.len() - 1;
            let popped: Option<(MsgId, MsgInflight)> = drained.pop();
            if let Some((id, inflight)) = popped {
                proof {
                    assert(items[p].0 == id && items[p].1 == inflight);
                    assert(in0.contains_key(id));
                    assert(drained@ =~= items.take(p));
                }
                let done: bool = intmap::set_contains(&self.finalized, id);
                proof {
                    assert(!order.to_set().contains(id)) by {
                        if order.contains(id) {
                            let k = order.index_of(id);
                            assert(order[k] == items[n - 1 - k].0);
                        }
                    }
                    assert(!done);
                }
                if !done {
                    let stats = finalize_msg(id, inflight, &self.ranks, self.n_nodes);
                    let ghost told = self.outcomes();
                    let ghost report = stats@;
                    proof {
                        lemma_reported_once_push(told, self@.finalized, report);
                    }
                    self.mirror.push(stats);
                    intmap::set_insert(&mut self.finalized, id);
                    proof {
                        let grown = order.push(id);
                        assert forall|x: MsgId| #[trigger] grown.to_set().contains(
                            x,
                        ) <==> order.to_set().insert(id).contains(x) by {
                            if order.contains(x) {
                                let q = order.index_of(x);
                                assert(grown[q] == x);
                            }
                            assert(grown[order.len() as int] == id);
                        }
                        assert(grown.to_set() =~= order.to_set().insert(id));
                        assert(self@.finalized =~= before@.finalized.union(grown.to_set()));
                        assert(self.outcomes() =~= told.push(report));
                        assert(reports(grown, in0, before.nodes(), before.ranks()) =~= reports(
                            order,
                            in0,
                            before.nodes(),
                            before.ranks(),
                        ).push(report));
                        assert(self.outcomes() =~= before.outcomes() + reports(
                            grown,
                            in0,
                            before.nodes(),
                            before.ranks(),
                        ));
                        order = grown;
                    }
                }
            }
        }
        intmap::map_clear(&mut self.inflight_by_channel);
        proof {
            assert forall|x: MsgId| order.to_set().contains(x) <==> in0.dom().contains(x) by {
                if order.contains(x) {
                    let k = order.index_of(x);
                    assert(order[k] == items[n - 1 - k].0);
                }
                if in0.contains_key(x) {
                    assert(flights.contains_key(x));
                    let i = choose|i: int| 0 <= i < items.len() && (#[trigger] items[i]).0 == x;
                    assert(order[n - 1 - i] == items[i].0);
                    assert(order.contains(x));
                }
            }
            assert(order.to_set() =~= in0.dom());
            assert forall|i: int, j: int| 0 <= i < j < order.len() implies order[i] != order[j] by {
                assert(order[i] == items[n - 1 - i].0);
                assert(order[j] == items[n - 1 - j].0);
            }
            assert(lists(order, in0.dom()));
            assert(self@.in_flight =~= Map::<MsgId, Flight>::empty());
            assert(self@.by_channel =~= Map::<u64, Set<MsgId>>::empty());
        }
    }

    /// The reports of the finished messages, in the order in which they
    /// finished.
    pub fn finished(&self) -> (r: &Vec<MsgStats>)
        ensures
            r@.map_values(|s: MsgStats| s@) == self.outcomes(),
    {
        &self.mirror
    }
}

// ---------------------------------------------------------------------
// Events
// ---------------------------------------------------------------------

/// What nodes report while a run lasts.
#[derive(Debug)]
pub enum MetricsEvent {
    /// First sightings at one node, each with its own time.
    FirstSeenBatch { idx: NodeIdx, entries: Vec<FirstSeenEntry> },
    /// A snapshot of a node's counters, and the overflows since the last
    /// one.
    NodeCountersDelta {
        idx: NodeIdx,
        time_ns: u64,
        counters: NodeCounters,
        drained_overflow: Vec<OverflowEvent>,
    },
    /// A node's samples, once at the end of a run.
    NodeReservoirDump {
        idx: NodeIdx,
        chan_updates: KindReservoirSamples,
        node_anns: KindReservoirSamples,
        chan_anns: KindReservoirSamples,
    },
    /// The run is over.
    FinalizeAndShutdown,
}

/// The rows report the given messages, in order.
pub open spec fn rows_report(rows: Seq<WriterRow>, outcomes: Seq<Outcome>) -> bool {
    &&& rows.len() == outcomes.len()
    &&& forall|i: int|
        0 <= i < rows.len() ==> ((#[trigger] rows[i]) matches WriterRow::MsgStats(s) && s@
            == outcomes[i])
}

/// The rows of a counter flush: the overflows, then the counters.
pub open spec fn flush_rows(
    idx: NodeIdx,
    time_ns: u64,
    counters: NodeCounters,
    drained: Seq<OverflowEvent>,
) -> Seq<WriterRow> {
    drained.map_values(
        |e: OverflowEvent| WriterRow::OverflowEvent(OverflowEventRow::of_event(e)),
    ).push(WriterRow::NodeCounters(NodeCountersRow::of_counters(idx, time_ns, counters)))
}

/// Copies a report.
fn copy_stats(s: &MsgStats) -> (r: MsgStats)
    ensures
        r@ == s@,
{
    let mut percentiles: Vec<Option<u64>> = Vec::new();
    for i in 0..s.percentiles.len()
        invariant
            percentiles@ == s.percentiles@.take(i as int),
    {
        percentiles.push(s.percentiles[i]);
    }
    assert(s.percentiles@.take(s.percentiles@.len() as int) =~= s.percentiles@);
    MsgStats {
        id: s.id,
        coverage: s.coverage,
        n_nodes: s.n_nodes,
        origin_ns: s.origin_ns,
        last_ns: s.last_ns,
        size_bytes: s.size_bytes,
        percentiles,
    }
}

impl AggregatorState {
    /// Rows of the messages that finished after the first `from`.
    fn rows_since(&self, from: usize) -> (r: Vec<WriterRow>)
        requires
            from <= self.outcomes().len(),
        ensures
            rows_report(r@, self.outcomes().skip(from as int)),
    {
        let mut rows: Vec<WriterRow> = Vec::new();
        for i in from..self.mirror.len()
            invariant
                from <= self.outcomes().len(),
                rows@.len() == i - from,
                forall|j: int|
                    0 <= j < rows@.len() ==> ((#[trigger] rows@[j]) matches WriterRow::MsgStats(s)
                        && s@ == self.outcomes()[from + j]),
        {
            let s: MsgStats = copy_stats(&self.mirror[i]);
            assert(self.outcomes()[i as int] == self.mirror@[i as int]@);
            rows.push(WriterRow::MsgStats(s));
        }
        assert(self.outcomes().len() == self.mirror@.len());
        rows
    }

    /// Handles one event. Returns the rows to write, and whether the run
    /// is over.
    pub fn handle_event(&mut self, event: MetricsEvent) -> (r: (Vec<WriterRow>, bool))
        requires
            old(self).wf(),
            event matches MetricsEvent::FirstSeenBatch { idx, entries } ==> idx < old(self).nodes()
                && forall|i: int|
                0 <= i < entries@.len() ==> (#[trigger] entries@[i]).time_ns != NOT_SEEN,
        ensures
            final(self).wf(),
            final(self).nodes() == old(self).nodes(),
            final(self).ranks() == old(self).ranks(),
            r.1 == (event is FinalizeAndShutdown),
            match event {
                MetricsEvent::FirstSeenBatch { idx, entries } => {
                    &&& final(self)@ == old(self)@.after_all(
                        old(self).nodes(),
                        idx as int,
                        entries@,
                    )
                    &&& exists|added: Seq<Outcome>|
                        final(self).outcomes() == old(self).outcomes() + added && #[trigger] old(
                            self,
                        )@.batch_reports(
                            old(self).nodes(),
                            old(self).ranks(),
                            idx as int,
                            entries@,
                            added,
                        ) && rows_report(r.0@, added)
                },
                MetricsEvent::NodeCountersDelta { idx, time_ns, counters, drained_overflow } => {
                    &&& final(self)@ == old(self)@
                    &&& final(self).outcomes() == old(self).outcomes()
                    &&& r.0@ == flush_rows(idx, time_ns, counters, drained_overflow@)
                },
                MetricsEvent::NodeReservoirDump { idx, chan_updates, node_anns, chan_anns } => {
                    &&& final(self)@ == old(self)@
                    &&& final(self).outcomes() == old(self).outcomes()
                    &&& r.0@ == (stats_writer::kind_rows(
                        idx,
                        SketchKind::ChanUpdates,
                        chan_updates,
                    ) + stats_writer::kind_rows(idx, SketchKind::NodeAnns, node_anns)
                        + stats_writer::kind_rows(
                        idx,
                        SketchKind::ChanAnns,
                        chan_anns,
                    )).map_values(|row: NodeReservoirRow| WriterRow::NodeReservoir(row))
                },
                MetricsEvent::FinalizeAndShutdown => {
                    &&& final(self)@.in_flight.is_empty()
                    &&& final(self)@.finalized == old(self)@.finalized.union(
                        old(self)@.in_flight.dom(),
                    )
                    &&& exists|order: Seq<MsgId>| #[trigger]
                        lists(order, old(self)@.in_flight.dom()) && final(self).outcomes() == old(
                            self,
                        ).outcomes() + reports(
                            order,
                            old(self)@.in_flight,
                            old(self).nodes(),
                            old(self).ranks(),
                        ) && rows_report(
                            r.0@,
                            reports(
                                order,
                                old(self)@.in_flight,
                                old(self).nodes(),
                                old(self).ranks(),
                            ),
                        )
                },
            },
    {
        let from: usize = self.mirror.len();
        let ghost before = *self;
        assert(from == before.outcomes().len());
        match event {
            MetricsEvent::FirstSeenBatch { idx, entries } => {
                let ghost given = entries@;
                self.handle_first_seen_batch(idx, entries);
                let ghost added = choose|added: Seq<Outcome>|
                    self.outcomes() == before.outcomes() + added && #[trigger] before@.batch_reports(
                        before.nodes(),
                        before.ranks(),
                        idx as int,
                        given,
                        added,
                    );
                let rows: Vec<WriterRow> = self.rows_since(from);
                assert(self.outcomes().skip(from as int) =~= added);
                (rows, false)
            },
            MetricsEvent::NodeCountersDelta { idx, time_ns, counters, drained_overflow } => {
                let mut rows: Vec<WriterRow> = Vec::new();
                let ghost made = drained_overflow@.map_values(
                    |e: OverflowEvent| WriterRow::OverflowEvent(OverflowEventRow::of_event(e)),
                );
                for i in 0..drained_overflow.len()
                    invariant
                        made == drained_overflow@.map_values(
                            |e: OverflowEvent|
                                WriterRow::OverflowEvent(OverflowEventRow::of_event(e)),
                        ),
                        rows@ == made.take(i as int),
                {
                    rows.push(
                        WriterRow::OverflowEvent(
                            OverflowEventRow::from_event(&drained_overflow[i]),
                        ),
                    );
                    assert(rows@ =~= made.take(i + 1));
                }
                rows.push(
                    WriterRow::NodeCounters(
                        NodeCountersRow::from_counters(idx, time_ns, &counters),
                    ),
                );
                assert(rows@ =~= flush_rows(idx, time_ns, counters, drained_overflow@));
                (rows, false)
            },
            MetricsEvent::NodeReservoirDump { idx, chan_updates, node_anns, chan_anns } => {
                let made: Vec<NodeReservoirRow> = stats_writer::reservoir_rows(
                    idx,
                    &chan_updates,
                    &node_anns,
                    &chan_anns,
                );
                let mut rows: Vec<WriterRow> = Vec::new();
                let ghost wrapped = made@.map_values(
                    |row: NodeReservoirRow| WriterRow::NodeReservoir(row),
                );
                for i in 0..made.len()
                    invariant
                        wrapped == made@.map_values(
                            |row: NodeReservoirRow| WriterRow::NodeReservoir(row),
                        ),
                        rows@ == wrapped.take(i as int),
                {
                    rows.push(WriterRow::NodeReservoir(made[i]));
                    assert(rows@ =~= wrapped.take(i + 1));
                }
                assert(rows@ =~= wrapped);
                (rows, false)
            },
            MetricsEvent::FinalizeAndShutdown => {
                self.finalize_remaining();
                let ghost order = choose|order: Seq<MsgId>| #[trigger]
                    lists(order, before@.in_flight.dom()) && self.outcomes() == before.outcomes()
                        + reports(order, before@.in_flight, before.nodes(), before.ranks());
                let rows: Vec<WriterRow> = self.rows_since(from);
                assert(self.outcomes().skip(from as int) =~= reports(
                    order,
                    before@.in_flight,
                    before.nodes(),
                    before.ranks(),
                ));
                (rows, true)
            },
        }
    }
}

// ---------------------------------------------------------------------
// Laws
// ---------------------------------------------------------------------

/// A node's later sightings of a message count for nothing: after the
/// first, another leaves everything as it is and reports nothing.
pub proof fn sighting_counts_once(
    t: Tally,
    n_nodes: nat,
    ranks: Seq<usize>,
    node: int,
    g: Gossip,
    first_ns: u64,
    again_ns: u64,
    added: Seq<Outcome>,
)
    requires
        t.wf(n_nodes),
        0 <= node < n_nodes,
        first_ns != NOT_SEEN,
        t.after(n_nodes, node, g, first_ns).step_reports(
            n_nodes,
            ranks,
            node,
            g,
            again_ns,
            added,
        ),
    ensures
        t.after(n_nodes, node, g, first_ns).after(n_nodes, node, g, again_ns) == t.after(
            n_nodes,
            node,
            g,
            first_ns,
        ),
        added.len() == 0,
{
    let u = t.after(n_nodes, node, g, first_ns);
    assert(!u.supersedes(g));
    if !u.finalized.contains(g.id) {
        let f = t.without_superseded(g).flight(n_nodes, g, first_ns);
        assert(u.in_flight.contains_key(g.id));
        assert(f.times.len() == n_nodes);
        assert(u.in_flight[g.id].times[node] != NOT_SEEN);
        assert(u.in_flight.insert(g.id, u.in_flight[g.id]) =~= u.in_flight);
    }
    let order = choose|order: Seq<MsgId>| #[trigger]
        lists(order, u.killed_by(g)) && added == reports(
            order,
            u.in_flight,
            n_nodes,
            ranks,
        ) + u.completion_report(n_nodes, ranks, node, g, again_ns);
    order.unique_seq_to_set();
}

/// The version of a channel side that the aggregator holds to be the
/// latest never goes back.
pub proof fn latest_version_never_regresses(
    t: Tally,
    n_nodes: nat,
    node: int,
    g: Gossip,
    ns: u64,
    key: u64,
)
    requires
        t.latest.contains_key(key),
    ensures
        t.after(n_nodes, node, g, ns).latest.contains_key(key),
        t.after(n_nodes, node, g, ns).latest[key] >= t.latest[key],
{
}

/// A finished message stays finished.
pub proof fn finished_stays_finished(
    t: Tally,
    n_nodes: nat,
    node: int,
    g: Gossip,
    ns: u64,
    id: MsgId,
)
    requires
        t.finalized.contains(id),
    ensures
        t.after(n_nodes, node, g, ns).finalized.contains(id),
{
}

/// A percentile's time is the time of the sighting with its rank, and
/// higher ranks are reached no earlier; a rank that coverage does not
/// reach has no time.
pub proof fn percentiles_ascend(
    f: Flight,
    id: MsgId,
    n_nodes: nat,
    ranks: Seq<usize>,
    i: int,
    j: int,
)
    requires
        f.wf(n_nodes),
        0 <= i < ranks.len(),
        0 <= j < ranks.len(),
        ranks[i] <= ranks[j],
    ensures
        ({
            let o = f.outcome(id, n_nodes, ranks);
            &&& o.percentiles[i] is Some <==> ranks[i] < f.coverage
            &&& o.percentiles[j] is Some ==> o.percentiles[i] is Some
            &&& o.percentiles[j] is Some ==> o.percentiles[i]->0 <= o.percentiles[j]->0
            &&& o.percentiles[j] is Some ==> f.origin_ns + o.percentiles[j]->0 <= o.last_ns
        }),
{
    let seen = f.times.filter(is_seen());
    sorting::lemma_ascending(seen);
    let sorted = arrivals(f.times);
    if ranks[j] < f.coverage {
        assert(sorted[ranks[i] as int] <= sorted[ranks[j] as int]);
        assert(sorted[ranks[j] as int] <= sorted[sorted.len() - 1]);
        let t = sorted[ranks[j] as int];
        assert(sorted.contains(t));
        assert(seen.contains(t));
        f.times.lemma_filter_contains_rev(is_seen(), t);
        let p = f.times.index_of(t);
        assert(f.origin_ns <= f.times[p]);
        let ti = sorted[ranks[i] as int];
        assert(sorted.contains(ti));
        assert(seen.contains(ti));
        f.times.lemma_filter_contains_rev(is_seen(), ti);
        let q = f.times.index_of(ti);
        assert(f.origin_ns <= f.times[q]);
    }
}

/// How many nodes saw the message at or before `t`.
pub open spec fn seen_by(times: Seq<u64>, t: int) -> nat {
    times.filter(|x: u64| x != NOT_SEEN && x <= t).len()
}

proof fn lemma_filter_counts(s: Seq<u64>, p: spec_fn(u64) -> bool)
    ensures
        s.filter(p).len() == s.to_multiset().filter(p).len(),
    decreases s.len(),
{
    broadcast use vstd::multiset::group_multiset_axioms;
    broadcast use vstd::seq_lib::group_to_multiset_ensures;

    reveal(Seq::filter);
    if s.len() == 0 {
        assert(s.to_multiset() =~= vstd::multiset::Multiset::empty());
        assert(s.to_multiset().filter(p) =~= vstd::multiset::Multiset::empty());
    } else {
        let init = s.drop_last();
        lemma_filter_counts(init, p);
        assert(s =~= init.push(s.last()));
        assert(s.to_multiset() =~= init.to_multiset().insert(s.last()));
        if p(s.last()) {
            assert(s.to_multiset().filter(p) =~= init.to_multiset().filter(p).insert(s.last()));
        } else {
            assert(s.to_multiset().filter(p) =~= init.to_multiset().filter(p));
        }
    }
}

proof fn lemma_filter_twice(s: Seq<u64>, p: spec_fn(u64) -> bool, q: spec_fn(u64) -> bool)
    requires
        forall|x: u64| #[trigger] p(x) ==> q(x),
    ensures
        s.filter(q).filter(p) == s.filter(p),
    decreases s.len(),
{
    reveal(Seq::filter);
    if s.len() > 0 {
        lemma_filter_twice(s.drop_last(), p, q);
        let kept = s.drop_last().filter(q);
        if q(s.last()) {
            assert(kept.push(s.last()).drop_last() =~= kept);
        }
    }
}

/// In a list in order, at least the first `n` are counted where `p` holds
/// of them, and at most the first `n` where it holds of no other.
proof fn lemma_prefix_counts(s: Seq<u64>, p: spec_fn(u64) -> bool, n: int)
    requires
        0 <= n <= s.len(),
    ensures
        (forall|i: int| 0 <= i < n ==> p(#[trigger] s[i])) ==> s.filter(p).len() >= n,
        (forall|i: int| n <= i < s.len() ==> !p(#[trigger] s[i])) ==> s.filter(p).len() <= n,
    decreases s.len(),
{
    reveal(Seq::filter);
    if s.len() > 0 {
        let init = s.drop_last();
        if n < s.len() {
            lemma_prefix_counts(init, p, n);
            if forall|i: int| 0 <= i < n ==> p(#[trigger] s[i]) {
                assert forall|i: int| 0 <= i < n implies p(#[trigger] init[i]) by {
                    assert(init[i] == s[i]);
                }
            }
            if forall|i: int| n <= i < s.len() ==> !p(#[trigger] s[i]) {
                assert forall|i: int| n <= i < init.len() implies !p(#[trigger] init[i]) by {
                    assert(init[i] == s[i]);
                }
                assert(!p(s[s.len() - 1]));
            }
        } else {
            lemma_prefix_counts(init, p, n - 1);
            if forall|i: int| 0 <= i < n ==> p(#[trigger] s[i]) {
                assert forall|i: int| 0 <= i < n - 1 implies p(#[trigger] init[i]) by {
                    assert(init[i] == s[i]);
                }
                assert(p(s[n - 1]));
            }
        }
    }
}

/// The sighting with rank `k`, counted from 0, in the order of time: at
/// least `k + 1` nodes saw the message by then and at most `k` before.
proof fn lemma_rank(times: Seq<u64>, k: int)
    requires
        0 <= k < times.filter(is_seen()).len(),
    ensures
        arrivals(times).len() == times.filter(is_seen()).len(),
        times.contains(arrivals(times)[k]),
        arrivals(times)[k] != NOT_SEEN,
        seen_by(times, arrivals(times)[k] as int) >= k + 1,
        seen_by(times, arrivals(times)[k] - 1) <= k,
{
    let seen = times.filter(is_seen());
    let sorted = arrivals(times);
    let t = sorted[k];
    sorting::lemma_ascending(seen);
    assert(sorted.contains(t));
    assert(seen.contains(t));
    times.lemma_filter_contains_rev(is_seen(), t);
    let j = seen.index_of(t);
    times.lemma_filter_pred(is_seen(), j);
    let by = |x: u64| x != NOT_SEEN && x <= t as int;
    let before = |x: u64| x != NOT_SEEN && x <= t - 1;
    lemma_filter_twice(times, by, is_seen());
    lemma_filter_twice(times, before, is_seen());
    lemma_filter_counts(seen, by);
    lemma_filter_counts(seen, before);
    lemma_filter_counts(sorted, by);
    lemma_filter_counts(sorted, before);
    assert forall|i: int| 0 <= i < k + 1 implies by(#[trigger] sorted[i]) by {
        assert(sorted[i] <= sorted[k]);
        assert(sorted.contains(sorted[i]));
        assert(seen.contains(sorted[i]));
        times.lemma_filter_pred(is_seen(), seen.index_of(sorted[i]));
    }
    lemma_prefix_counts(sorted, by, k + 1);
    assert forall|i: int| k <= i < sorted.len() implies !before(#[trigger] sorted[i]) by {
        assert(sorted[k] <= sorted[i]);
    }
    lemma_prefix_counts(sorted, before, k);
}

/// What is reported of a message is read off its sightings. The coverage
/// is the number of nodes that saw it. A percentile is reached where its
/// rank is below the coverage; then it is the time, counted from the
/// origin, of a sighting with exactly that rank: at least one more node
/// than the rank saw the message by then, and at most as many before. The
/// last time is that of the last sighting. Id, size and origin are the
/// message's own.
pub proof fn percentile_is_the_sighting_of_its_rank(
    f: Flight,
    id: MsgId,
    n_nodes: nat,
    ranks: Seq<usize>,
    i: int,
)
    requires
        f.wf(n_nodes),
        0 <= i < ranks.len(),
    ensures
        ({
            let out = f.outcome(id, n_nodes, ranks);
            &&& out.id == id
            &&& out.size_bytes == f.size_bytes
            &&& out.origin_ns == f.origin_ns
            &&& out.n_nodes == n_nodes
            &&& out.coverage == f.times.filter(|x: u64| x != NOT_SEEN).len()
            &&& out.percentiles.len() == ranks.len()
            &&& out.percentiles[i] is Some <==> ranks[i] < out.coverage
            &&& out.percentiles[i] matches Some(since) ==> {
                let t = f.origin_ns + since;
                &&& t < NOT_SEEN
                &&& f.times.contains(t as u64)
                &&& seen_by(f.times, t) >= ranks[i] + 1
                &&& seen_by(f.times, t - 1) <= ranks[i]
            }
            &&& out.coverage > 0 ==> f.times.contains(out.last_ns) && out.last_ns != NOT_SEEN
                && forall|m: int|
                0 <= m < f.times.len() && #[trigger] f.times[m] != NOT_SEEN ==> f.times[m]
                    <= out.last_ns
            &&& out.coverage == 0 ==> out.last_ns == f.origin_ns
        }),
{
    let out = f.outcome(id, n_nodes, ranks);
    let sorted = arrivals(f.times);
    let seen = f.times.filter(is_seen());
    assert(is_seen() =~= (|x: u64| x != NOT_SEEN));
    sorting::lemma_ascending(seen);
    if ranks[i] < f.coverage {
        let t = sorted[ranks[i] as int];
        lemma_rank(f.times, ranks[i] as int);
        let m = f.times.index_of(t);
        assert(f.times[m] == t);
    }
    if f.coverage > 0 {
        let k = sorted.len() - 1;
        lemma_rank(f.times, k);
        assert forall|m: int|
            0 <= m < f.times.len() && #[trigger] f.times[m] != NOT_SEEN implies f.times[m]
            <= out.last_ns by {
            f.times.lemma_filter_contains(is_seen(), m);
            assert(seen.contains(f.times[m]));
            assert(sorted.contains(f.times[m]));
            let j = sorted.index_of(f.times[m]);
            assert(sorted[j] <= sorted[k]);
        }
    }
}

proof fn lemma_all_seen(times: Seq<u64>)
    ensures
        times.filter(is_seen()).len() <= times.len(),
        times.filter(is_seen()).len() == times.len() <==> forall|m: int|
            0 <= m < times.len() ==> #[trigger] times[m] != NOT_SEEN,
    decreases times.len(),
{
    reveal(Seq::filter);
    if times.len() > 0 {
        let init = times.drop_last();
        lemma_all_seen(init);
        assert(forall|m: int| 0 <= m < init.len() ==> #[trigger] times[m] == init[m]);
        assert(forall|m: int| 0 <= m < init.len() ==> times[m] == #[trigger] init[m]);
        assert(times[times.len() - 1] == times.last());
    }
}

/// A first sighting is recorded at its node and nowhere else: all other
/// times stay, the origin is the earlier of the two, and the size is that
/// of the message when it was first seen. The message is finished where
/// every other node had seen it before, and is in flight otherwise. A
/// node that has seen it already changes nothing.
pub proof fn sighting_is_recorded(t: Tally, n_nodes: nat, node: int, g: Gossip, ns: u64)
    requires
        t.wf(n_nodes),
        0 <= node < n_nodes,
        ns != NOT_SEEN,
        !t.finalized.contains(g.id),
    ensures
        ({
            let u = t.after(n_nodes, node, g, ns);
            let known = t.in_flight.contains_key(g.id);
            let old_flight = t.in_flight[g.id];
            let f = u.in_flight[g.id];
            if known && old_flight.times[node] != NOT_SEEN {
                &&& u.in_flight.contains_key(g.id)
                &&& f == old_flight
                &&& !u.finalized.contains(g.id)
            } else {
                &&& u.finalized.contains(g.id) <==> forall|m: int|
                    0 <= m < n_nodes && m != node ==> known && #[trigger] old_flight.times[m]
                        != NOT_SEEN
                &&& u.in_flight.contains_key(g.id) <==> !u.finalized.contains(g.id)
                &&& u.in_flight.contains_key(g.id) ==> {
                    &&& f.times.len() == n_nodes
                    &&& f.times[node] == ns
                    &&& forall|m: int|
                        0 <= m < n_nodes && m != node ==> #[trigger] f.times[m] == if known {
                            old_flight.times[m]
                        } else {
                            NOT_SEEN
                        }
                    &&& f.origin_ns == if known && old_flight.origin_ns < ns {
                        old_flight.origin_ns
                    } else {
                        ns
                    }
                    &&& f.size_bytes == if known {
                        old_flight.size_bytes
                    } else {
                        g.size_bytes as u32
                    }
                    &&& f.coverage == 1 + if known {
                        old_flight.coverage
                    } else {
                        0
                    }
                }
            }
        }),
{
    let s = t.without_superseded(g);
    assert(s.in_flight.contains_key(g.id) == t.in_flight.contains_key(g.id));
    assert(s.in_flight.contains_key(g.id) ==> s.in_flight[g.id] == t.in_flight[g.id]);
    assert(!s.finalized.contains(g.id));
    let f = s.flight(n_nodes, g, ns);
    if f.times[node] == NOT_SEEN {
        let now = f.times.update(node, ns);
        lemma_none_seen(n_nodes);
        lemma_seen_update(f.times, node, ns);
        lemma_all_seen(now);
        let known = t.in_flight.contains_key(g.id);
        let old_flight = t.in_flight[g.id];
        if f.coverage + 1 == n_nodes {
            assert forall|m: int| 0 <= m < n_nodes && m != node implies known
                && #[trigger] old_flight.times[m] != NOT_SEEN by {
                assert(now[m] != NOT_SEEN);
            }
        } else {
            let m = choose|m: int| 0 <= m < now.len() && !(#[trigger] now[m] != NOT_SEEN);
            assert(now[m] == NOT_SEEN);
            assert(m != node);
            assert(old_flight.times[m] <= NOT_SEEN);
        }
    }
}

/// An update finishes the older versions of its own side of the channel
/// that are still under way, and only those, where it is newer than
/// every version seen so far. It is then the latest version there. No
/// other message, and no other version, is touched. Each message that is
/// finished this way is counted.
pub proof fn newer_version_finishes_the_older(
    t: Tally,
    n_nodes: nat,
    node: int,
    g: Gossip,
    ns: u64,
    scid: u64,
)
    requires
        t.wf(n_nodes),
        0 <= node < n_nodes,
        !t.finalized.contains(g.id),
        g.kind == GossipKind::ChannelUpdate,
        g.scid == Some(scid),
        scid < 0x8000_0000_0000_0000,
        g.direction <= 1,
    ensures
        ({
            let key = (2 * scid + g.direction) as u64;
            let newest = !t.latest.contains_key(key) || t.latest[key] < g.timestamp;
            let u = t.after(n_nodes, node, g, ns);
            &&& u.latest == if newest {
                t.latest.insert(key, g.timestamp)
            } else {
                t.latest
            }
            &&& forall|id: MsgId|
                id != g.id ==> (#[trigger] u.finalized.contains(id) <==> t.finalized.contains(id)
                    || (newest && t.in_flight.contains_key(id) && t.by_channel.contains_key(key)
                    && t.by_channel[key].contains(id)))
            &&& forall|id: MsgId|
                id != g.id ==> (#[trigger] u.in_flight.contains_key(id)
                    <==> t.in_flight.contains_key(id) && !u.finalized.contains(id))
            &&& forall|id: MsgId|
                id != g.id && #[trigger] u.in_flight.contains_key(id) ==> u.in_flight[id]
                    == t.in_flight[id]
            &&& u.finalized.len() - t.finalized.len() == u.superseded - t.superseded
                + if u.finalized.contains(g.id) {
                1int
            } else {
                0
            }
            &&& forall|k: u64|
                k != key ==> (#[trigger] u.by_channel.contains_key(k) <==> t.by_channel.contains_key(
                    k,
                )) && u.by_channel[k] == t.by_channel[k]
            &&& u.in_flight.contains_key(g.id) && !t.in_flight.contains_key(g.id)
                ==> u.by_channel.contains_key(key) && u.by_channel[key].contains(g.id)
            &&& newest && u.by_channel.contains_key(key) ==> u.by_channel[key].subset_of(
                set![g.id],
            )
            &&& !newest && t.by_channel.contains_key(key) ==> u.by_channel.contains_key(key)
                && forall|id: MsgId|
                id != g.id ==> (#[trigger] u.by_channel[key].contains(id)
                    <==> t.by_channel[key].contains(id))
        }),
{
    let key = (2 * scid + g.direction) as u64;
    assert(channel_of(g) == Some(key));
    let killed = t.killed_by(g);
    let s = t.without_superseded(g);
    let u = t.after(n_nodes, node, g, ns);
    let f = s.flight(n_nodes, g, ns);
    assert(f.times.len() == n_nodes);
    assert(killed.finite()) by {
        if t.by_channel.contains_key(key) {
            assert(killed.subset_of(t.by_channel[key]));
        }
    }
    assert(killed.disjoint(t.finalized));
    vstd::set_lib::lemma_set_disjoint_lens(t.finalized, killed);
    assert(t.supersedes(g) ==> s.finalized == t.finalized + killed);
    assert(s.finalized.len() == t.finalized.len() + s.superseded - t.superseded);
    assert(!s.finalized.contains(g.id));
    assert(s.finalized.finite());
    assert(u.latest =~= if !t.latest.contains_key(key) || t.latest[key] < g.timestamp {
        t.latest.insert(key, g.timestamp)
    } else {
        t.latest
    });
}

/// Only a channel update supersedes anything: any other message leaves
/// the rest as it was.
pub proof fn announcements_supersede_nothing(t: Tally, n_nodes: nat, node: int, g: Gossip, ns: u64)
    requires
        g.kind != GossipKind::ChannelUpdate || g.scid is None,
    ensures
        ({
            let u = t.after(n_nodes, node, g, ns);
            &&& u.latest == t.latest
            &&& u.superseded == t.superseded
            &&& u.by_channel == t.by_channel
            &&& forall|id: MsgId|
                id != g.id ==> (#[trigger] u.finalized.contains(id) <==> t.finalized.contains(id))
            &&& forall|id: MsgId|
                id != g.id ==> (#[trigger] u.in_flight.contains_key(id)
                    <==> t.in_flight.contains_key(id)) && u.in_flight[id] == t.in_flight[id]
        }),
{
}

/// What a sighting reports is what it finishes: every message that is
/// finished by it is reported, once, and nothing else. A message finished
/// early is reported as it stood; the sighted message itself only where
/// all nodes have seen it.
pub proof fn reports_are_of_what_finished(
    t: Tally,
    n_nodes: nat,
    ranks: Seq<usize>,
    node: int,
    g: Gossip,
    ns: u64,
    added: Seq<Outcome>,
)
    requires
        t.wf(n_nodes),
        0 <= node < n_nodes,
        t.step_reports(n_nodes, ranks, node, g, ns, added),
    ensures
        ({
            let u = t.after(n_nodes, node, g, ns);
            &&& forall|i: int|
                0 <= i < added.len() ==> u.finalized.contains((#[trigger] added[i]).id)
                    && !t.finalized.contains(added[i].id)
            &&& forall|i: int, j: int|
                0 <= i < j < added.len() ==> (#[trigger] added[i]).id != (#[trigger] added[j]).id
            &&& forall|id: MsgId| #[trigger]
                u.finalized.contains(id) && !t.finalized.contains(id) ==> exists|i: int|
                    0 <= i < added.len() && (#[trigger] added[i]).id == id
            &&& forall|i: int|
                0 <= i < added.len() && (#[trigger] added[i]).id != g.id
                    ==> t.in_flight.contains_key(added[i].id) && added[i]
                    == t.in_flight[added[i].id].outcome(added[i].id, n_nodes, ranks)
            &&& forall|i: int|
                0 <= i < added.len() && (#[trigger] added[i]).id == g.id ==> added[i].coverage
                    == n_nodes && added[i].n_nodes == n_nodes
        }),
{
    let u = t.after(n_nodes, node, g, ns);
    let killed = t.killed_by(g);
    let order = choose|order: Seq<MsgId>| #[trigger]
        lists(order, killed) && added == reports(order, t.in_flight, n_nodes, ranks)
            + t.completion_report(n_nodes, ranks, node, g, ns);
    let early = reports(order, t.in_flight, n_nodes, ranks);
    assert forall|i: int| 0 <= i < order.len() implies killed.contains(#[trigger] order[i]) by {
        assert(order.to_set().contains(order[i]));
    }
    assert(forall|i: int| 0 <= i < order.len() ==> (#[trigger] added[i]).id == order[i]);
    assert(t.completes(n_nodes, node, g, ns) ==> added.len() == order.len() + 1 && added[
    order.len() as int].id == g.id);
    assert(!t.completes(n_nodes, node, g, ns) ==> added =~= early);
    assert forall|id: MsgId| #[trigger]
        u.finalized.contains(id) && !t.finalized.contains(id) implies exists|i: int|
        0 <= i < added.len() && (#[trigger] added[i]).id == id by {
        if id == g.id {
            assert(added[order.len() as int].id == id);
        } else {
            assert(killed.contains(id));
            assert(order.to_set().contains(id));
            let i = order.index_of(id);
            assert(added[i].id == id);
        }
    }
}

/// What a node hands over is written out whole: one row for each overflow,
/// in order, and then the row of the counters.
pub proof fn flush_writes_every_overflow(
    idx: NodeIdx,
    time_ns: u64,
    counters: NodeCounters,
    drained: Seq<OverflowEvent>,
)
    ensures
        ({
            let rows = flush_rows(idx, time_ns, counters, drained);
            &&& rows.len() == drained.len() + 1
            &&& forall|i: int|
                0 <= i < drained.len() ==> ((#[trigger] rows[i]) matches WriterRow::OverflowEvent(
                    row,
                ) && row.time_ns == drained[i].time_ns && row.receiver_idx
                    == drained[i].receiver_idx && row.peer_id == drained[i].peer_id && row.kind
                    == drained[i].kind.code() && row.amount == drained[i].amount
                    && row.total_diff == drained[i].difference)
            &&& rows.last() matches WriterRow::NodeCounters(row) && row.node_idx == idx
                && row.time_ns == time_ns
        }),
{
}

/// A batch of sightings counts as its sightings one by one.
pub proof fn sightings_count_one_by_one(
    t: Tally,
    n_nodes: nat,
    node: int,
    a: Seq<FirstSeenEntry>,
    b: Seq<FirstSeenEntry>,
)
    ensures
        t.after_all(n_nodes, node, a + b) == t.after_all(n_nodes, node, a).after_all(
            n_nodes,
            node,
            b,
        ),
        a.len() == 0 ==> t.after_all(n_nodes, node, a) == t,
        a.len() == 1 ==> t.after_all(n_nodes, node, a) == t.after(
            n_nodes,
            node,
            a[0].gossip,
            a[0].time_ns,
        ),
    decreases b.len(),
{
    if b.len() == 0 {
        assert(a + b =~= a);
    } else {
        sightings_count_one_by_one(t, n_nodes, node, a, b.drop_last());
        assert((a + b).drop_last() =~= a + b.drop_last());
    }
    if a.len() == 1 {
        reveal_with_fuel(Tally::after_all, 2);
    }
}

/// What is reported of messages that are finished together is each as it
/// stood, one report per message.
pub proof fn each_finished_message_is_reported_once(
    order: Seq<MsgId>,
    finished: Set<MsgId>,
    in_flight: Map<MsgId, Flight>,
    n_nodes: nat,
    ranks: Seq<usize>,
    id: MsgId,
)
    requires
        lists(order, finished),
    ensures
        ({
            let out = reports(order, in_flight, n_nodes, ranks);
            &&& out.len() == order.len()
            &&& forall|i: int, j: int|
                0 <= i < j < out.len() ==> (#[trigger] out[i]).id != (#[trigger] out[j]).id
            &&& finished.contains(id) <==> exists|i: int|
                0 <= i < out.len() && (#[trigger] out[i]).id == id
            &&& forall|i: int|
                0 <= i < out.len() && (#[trigger] out[i]).id == id ==> out[i].coverage
                    == in_flight[id].coverage && out[i].size_bytes == in_flight[id].size_bytes
                    && out[i].origin_ns == in_flight[id].origin_ns
        }),
{
    let out = reports(order, in_flight, n_nodes, ranks);
    assert(forall|i: int| 0 <= i < out.len() ==> (#[trigger] out[i]).id == order[i]);
    if finished.contains(id) {
        assert(order.to_set().contains(id));
        let i = order.index_of(id);
        assert(out[i].id == id);
    }
    if exists|i: int| 0 <= i < out.len() && (#[trigger] out[i]).id == id {
        let i = choose|i: int| 0 <= i < out.len() && (#[trigger] out[i]).id == id;
        assert(order.to_set().contains(order[i]));
    }
}

/// A finished message has exactly one report, and only finished messages
/// have one.
pub proof fn finished_messages_have_one_report(
    outcomes: Seq<Outcome>,
    finalized: Set<MsgId>,
    i: int,
    j: int,
    id: MsgId,
)
    requires
        reported_once(outcomes, finalized),
        0 <= i < j < outcomes.len(),
    ensures
        outcomes[i].id != outcomes[j].id,
        finalized.contains(outcomes[i].id),
        finalized.contains(id) <==> exists|m: int|
            0 <= m < outcomes.len() && (#[trigger] outcomes[m]).id == id,
{
}

/// The rows written are the reports, one for one.
pub proof fn rows_are_the_reports(rows: Seq<WriterRow>, outcomes: Seq<Outcome>, i: int)
    requires
        rows_report(rows, outcomes),
        0 <= i < outcomes.len(),
    ensures
        rows.len() == outcomes.len(),
        rows[i] matches WriterRow::MsgStats(s) && s.id == outcomes[i].id && s.coverage
            == outcomes[i].coverage && s.n_nodes == outcomes[i].n_nodes && s.origin_ns
            == outcomes[i].origin_ns && s.last_ns == outcomes[i].last_ns && s.size_bytes
            == outcomes[i].size_bytes && s.percentiles@ == outcomes[i].percentiles,
{
}

} // verus!
