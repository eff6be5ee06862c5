//! Setting up a run, and driving it.
//!
//! A run is set up in steps: the nodes, the algorithm of each, the
//! channels, and the peers that follow from them. It is then driven in
//! chunks: simulated time advances to the next thing of interest (the end
//! of the run, the next scheduled event, the next progress line), and
//! whatever is due is handled.

use rand_chacha::ChaCha8Rng;
use vstd::prelude::*;

use crate::channels;
use crate::channels::ChannelRegistry;
use crate::config::{
    AlgoCfg, EventCfg, KByAlgo, LatencyCfg, MixEntry, NodeAlgoKind, RunCfg, SimConfig, TopologyCfg,
};
use crate::events;
use crate::events::oneshot;
use crate::events::oneshot::{OneShotAll, OneShotSingle};
use crate::events::poisson::PoissonRandom;
use crate::events::EventSchedule;
use crate::graphs;
use crate::keys::ScheduledEvent;
use crate::message::NodeId;
use crate::rng;
use crate::time::SimDuration;
use crate::topology::graph;
use crate::topology::ln_data::LnSnapshot;
use crate::topology::synthetic;
use crate::topology::synthetic::PeerBuildStats;
use crate::topology::{NodeAlgo, NodeMeta, Topology};

verus! {

/// Sub-seed of the assignment of algorithms.
pub const MIX_SUBSEED: u64 = 0xA55;

/// Sub-seed of a random event stream.
pub const EVENT_SUBSEED: u64 = 0xE7E;

/// Size of the messages of one-shot schedules.
pub const ONE_SHOT_SIZE: u16 = 1024;

/// Most counterparties that a node keeps as peers.
pub const MAX_PEER_COUNTERPARTIES: usize = 100;

// ---------------------------------------------------------------------
// Algorithms
// ---------------------------------------------------------------------

/// The algorithm that every node starts with. In a mix it is replaced
/// before any node is made.
pub open spec fn starting_algo(cfg: AlgoCfg) -> NodeAlgo {
    match cfg {
        AlgoCfg::Flooding {  } => NodeAlgo::Flooding,
        AlgoCfg::Cln { stagger_ms } => NodeAlgo::Cln { stagger_ms },
        AlgoCfg::Lnd { stagger_ms, trickle_ms, min_batch_size } => NodeAlgo::Lnd {
            stagger_ms,
            trickle_ms,
            min_batch_size,
        },
        AlgoCfg::Mix { population } => NodeAlgo::Cln { stagger_ms: 0 },
        AlgoCfg::Sketch {
            stagger_ms,
            capacity_chan_updates,
            capacity_node_anns,
            capacity_chan_anns,
            peer_offset_max_ms,
        } => NodeAlgo::Sketch {
            stagger_ms,
            capacity_chan_updates,
            capacity_node_anns,
            capacity_chan_anns,
        },
    }
}

/// See [`starting_algo`].
pub fn default_algo_from(cfg: &AlgoCfg) -> (r: NodeAlgo)
    ensures
        r == starting_algo(*cfg),
{
    match cfg {
        AlgoCfg::Flooding {  } => NodeAlgo::Flooding,
        AlgoCfg::Cln { stagger_ms } => NodeAlgo::Cln { stagger_ms: *stagger_ms },
        AlgoCfg::Lnd { stagger_ms, trickle_ms, min_batch_size } => NodeAlgo::Lnd {
            stagger_ms: *stagger_ms,
            trickle_ms: *trickle_ms,
            min_batch_size: *min_batch_size,
        },
        AlgoCfg::Mix { population: _ } => NodeAlgo::Cln { stagger_ms: 0 },
        AlgoCfg::Sketch {
            stagger_ms,
            capacity_chan_updates,
            capacity_node_anns,
            capacity_chan_anns,
            peer_offset_max_ms: _,
        } => NodeAlgo::Sketch {
            stagger_ms: *stagger_ms,
            capacity_chan_updates: *capacity_chan_updates,
            capacity_node_anns: *capacity_node_anns,
            capacity_chan_anns: *capacity_chan_anns,
        },
    }
}

/// The latency of an edge in milliseconds.
pub fn latency_ms(c: &LatencyCfg) -> (r: u64)
    ensures
        r == (match *c {
            LatencyCfg::Constant { ms } => ms,
        }),
{
    match c {
        LatencyCfg::Constant { ms } => *ms,
    }
}

/// The stagger of an algorithm in milliseconds; none when flooding.
pub open spec fn stagger_ms_of(algo: NodeAlgo) -> u64 {
    match algo {
        NodeAlgo::Flooding => 0,
        NodeAlgo::Cln { stagger_ms } => stagger_ms,
        NodeAlgo::Lnd { stagger_ms, .. } => stagger_ms,
        NodeAlgo::Sketch { stagger_ms, .. } => stagger_ms,
    }
}

/// The stagger of an algorithm.
pub fn stagger_of(algo: &NodeAlgo) -> (r: SimDuration)
    ensures
        r.wf(),
        r.total_nanos() == stagger_ms_of(*algo) * 1_000_000,
{
    let ms: u64 = match algo {
        NodeAlgo::Flooding => 0,
        NodeAlgo::Cln { stagger_ms } => *stagger_ms,
        NodeAlgo::Lnd { stagger_ms, .. } => *stagger_ms,
        NodeAlgo::Sketch { stagger_ms, .. } => *stagger_ms,
    };
    SimDuration::from_millis(ms)
}

/// What the sketch nodes of a run are set to.
#[derive(Debug, Clone, Copy, PartialEq, Eq, Structural)]
pub struct SketchSettings {
    pub stagger_ms: u64,
    pub capacity_chan_updates: u32,
    pub capacity_node_anns: u32,
    pub capacity_chan_anns: u32,
    /// Bound on the offsets of peers within the stagger.
    pub peer_offset_max_ms: Option<u64>,
}

/// The settings of an entry of a mix, where it is one of sketch nodes.
pub open spec fn entry_settings(algo: NodeAlgoKind) -> Option<SketchSettings> {
    match algo {
        NodeAlgoKind::Sketch {
            stagger_ms,
            capacity_chan_updates,
            capacity_node_anns,
            capacity_chan_anns,
            peer_offset_max_ms,
        } => Some(
            SketchSettings {
                stagger_ms,
                capacity_chan_updates,
                capacity_node_anns,
                capacity_chan_anns,
                peer_offset_max_ms,
            },
        ),
        _ => None,
    }
}

/// The settings of the first sketch nodes of a mix.
pub open spec fn first_settings(population: Seq<MixEntry>) -> Option<SketchSettings>
    decreases population.len(),
{
    if population.len() == 0 {
        None
    } else if entry_settings(population[0].algo) is Some {
        entry_settings(population[0].algo)
    } else {
        first_settings(population.skip(1))
    }
}

fn settings_in_mix(population: &Vec<MixEntry>) -> (r: Option<SketchSettings>)
    ensures
        r == first_settings(population@),
{
    assert(population@.skip(0) =~= population@);
    for i in 0..population.len()
        invariant
            first_settings(population@.skip(i as int)) == first_settings(population@),
    {
        assert(population@.skip(i as int).skip(1) =~= population@.skip(i + 1));
        if let NodeAlgoKind::Sketch {
            stagger_ms,
            capacity_chan_updates,
            capacity_node_anns,
            capacity_chan_anns,
            peer_offset_max_ms,
        } = population[i].algo {
            return Some(
                SketchSettings {
                    stagger_ms,
                    capacity_chan_updates,
                    capacity_node_anns,
                    capacity_chan_anns,
                    peer_offset_max_ms,
                },
            );
        }
    }
    None
}

/// The settings of the sketch nodes of a run, in a mix those of the first
/// entry that is one of sketch nodes.
pub fn sketch_settings(cfg: &AlgoCfg) -> (r: Option<SketchSettings>)
    ensures
        r == (match *cfg {
            AlgoCfg::Sketch {
                stagger_ms,
                capacity_chan_updates,
                capacity_node_anns,
                capacity_chan_anns,
                peer_offset_max_ms,
            } => Some(
                SketchSettings {
                    stagger_ms,
                    capacity_chan_updates,
                    capacity_node_anns,
                    capacity_chan_anns,
                    peer_offset_max_ms,
                },
            ),
            AlgoCfg::Mix { population } => first_settings(population@),
            _ => None,
        }),
{
    match cfg {
        AlgoCfg::Sketch {
            stagger_ms,
            capacity_chan_updates,
            capacity_node_anns,
            capacity_chan_anns,
            peer_offset_max_ms,
        } => Some(
            SketchSettings {
                stagger_ms: *stagger_ms,
                capacity_chan_updates: *capacity_chan_updates,
                capacity_node_anns: *capacity_node_anns,
                capacity_chan_anns: *capacity_chan_anns,
                peer_offset_max_ms: *peer_offset_max_ms,
            },
        ),
        AlgoCfg::Mix { population } => settings_in_mix(population),
        _ => None,
    }
}

/// What the offsets of peers are sampled from: the stagger, or the bound
/// where that is less.
pub fn offset_window(stagger: SimDuration, max_ms: Option<u64>) -> (r: SimDuration)
    requires
        stagger.wf(),
    ensures
        r.wf(),
        r.total_nanos() == (match max_ms {
            Some(ms) => if ms * 1_000_000 < stagger.total_nanos() {
                (ms * 1_000_000) as nat
            } else {
                stagger.total_nanos()
            },
            None => stagger.total_nanos(),
        }),
        r.total_nanos() <= stagger.total_nanos(),
        max_ms matches Some(ms) ==> r.total_nanos() <= ms * 1_000_000,
        r == stagger || (max_ms matches Some(ms) && r.total_nanos() == ms * 1_000_000),
{
    match max_ms {
        Some(ms) => {
            let bound: SimDuration = SimDuration::from_millis(ms);
            if bound.as_nanos() < stagger.as_nanos() {
                bound
            } else {
                stagger
            }
        },
        None => stagger,
    }
}

/// The number of worker threads that is asked for, `None` for all cores.
pub fn worker_threads(run: &RunCfg) -> (r: Option<usize>)
    ensures
        r == (match run.threads {
            Some(n) => if n > 0 {
                Some(n)
            } else {
                None
            },
            None => None::<usize>,
        }),
{
    match run.threads {
        Some(n) => if n > 0 {
            Some(n)
        } else {
            None
        },
        None => None,
    }
}

impl KByAlgo {
    /// The number of peers that a node of an algorithm aims for. Sketch
    /// nodes aim for as many as CLN nodes where nothing is said.
    pub open spec fn target(self, algo: NodeAlgo) -> usize {
        match algo {
            NodeAlgo::Flooding => self.flooding,
            NodeAlgo::Cln { .. } => self.cln,
            NodeAlgo::Lnd { .. } => self.lnd,
            NodeAlgo::Sketch { .. } => match self.sketch {
                Some(k) => k,
                None => self.cln,
            },
        }
    }

    /// The largest of the targets.
    pub open spec fn largest(self) -> usize {
        let a = if self.flooding >= self.cln {
            self.flooding
        } else {
            self.cln
        };
        let b = match self.sketch {
            Some(k) => if k >= self.lnd {
                k
            } else {
                self.lnd
            },
            None => self.lnd,
        };
        if a >= b {
            a
        } else {
            b
        }
    }

    /// See [`KByAlgo::target`].
    pub fn k_for(&self, algo: &NodeAlgo) -> (r: usize)
        ensures
            r == self.target(*algo),
    {
        match algo {
            NodeAlgo::Flooding => self.flooding,
            NodeAlgo::Cln { .. } => self.cln,
            NodeAlgo::Lnd { .. } => self.lnd,
            NodeAlgo::Sketch { .. } => match self.sketch {
                Some(k) => k,
                None => self.cln,
            },
        }
    }
}

// ---------------------------------------------------------------------
// Mixed populations
// ---------------------------------------------------------------------

/// Sum of counts.
pub open spec fn total(counts: Seq<usize>) -> nat
    decreases counts.len(),
{
    if counts.len() == 0 {
        0
    } else {
        total(counts.drop_last()) + counts.last() as nat
    }
}

/// How many nodes get one more than their whole share: as many as the
/// whole shares leave over, taken from the front of `by_residual`.
pub open spec fn topped_up(n: usize, floors: Seq<usize>, by_residual: Seq<usize>) -> Seq<usize> {
    if total(floors) < n {
        let left = n - total(floors);
        by_residual.take(
            if left <= by_residual.len() {
                left
            } else {
                by_residual.len() as int
            },
        )
    } else {
        Seq::empty()
    }
}

/// The nodes of each entry: its whole share, and one more for the entries
/// with the largest remainders.
pub open spec fn apportioned(n: usize, floors: Seq<usize>, by_residual: Seq<usize>) -> Seq<usize> {
    let extra = topped_up(n, floors, by_residual);
    Seq::new(
        floors.len(),
        |i: int|
            if extra.contains(i as usize) {
                (floors[i] + 1) as usize
            } else {
                floors[i]
            },
    )
}

/// `by_residual` lists every entry once.
pub open spec fn ranks_all(by_residual: Seq<usize>, entries: nat) -> bool {
    &&& by_residual.len() == entries
    &&& by_residual.no_duplicates()
    &&& forall|i: int| 0 <= i < by_residual.len() ==> (#[trigger] by_residual[i]) < entries
}

proof fn lemma_total_update(counts: Seq<usize>, i: int, x: usize)
    requires
        0 <= i < counts.len(),
    ensures
        total(counts.update(i, x)) == total(counts) - counts[i] + x,
    decreases counts.len(),
{
    let now = counts.update(i, x);
    if i == counts.len() - 1 {
        assert(now.drop_last() =~= counts.drop_last());
    } else {
        assert(now.drop_last() =~= counts.drop_last().update(i, x));
        lemma_total_update(counts.drop_last(), i, x);
    }
}

proof fn lemma_total_part(counts: Seq<usize>, i: int)
    requires
        0 <= i < counts.len(),
    ensures
        counts[i] <= total(counts),
        total(counts.take(i)) + counts[i] <= total(counts),
    decreases counts.len(),
{
    if i == counts.len() - 1 {
        assert(counts.take(i) =~= counts.drop_last());
    } else {
        lemma_total_part(counts.drop_last(), i);
        assert(counts.drop_last().take(i) =~= counts.take(i));
    }
}

/// Gives out `n` nodes by whole shares and remainders.
pub fn apportion(n: usize, floors: &Vec<usize>, by_residual: &Vec<usize>) -> (r: Vec<usize>)
    requires
        ranks_all(by_residual@, floors@.len()),
        total(floors@) <= usize::MAX,
    ensures
        r@ == apportioned(n, floors@, by_residual@),
        total(floors@) <= n <= total(floors@) + floors@.len() ==> total(r@) == n,
        total(floors@) >= n ==> r@ == floors@,
        total(r@) <= usize::MAX,
{
    let mut counts: Vec<usize> = Vec::new();
    let mut assigned: usize = 0;
    assert(floors@.take(0) =~= Seq::<usize>::empty());
    for i in 0..floors.len()
        invariant
            counts@ == floors@.take(i as int),
            assigned == total(floors@.take(i as int)),
            total(floors@) <= usize::MAX,
    {
        proof {
            lemma_total_part(floors@, i as int);
            assert(floors@.take(i + 1).drop_last() =~= floors@.take(i as int));
        }
        counts.push(floors[i]);
        assigned = assigned + floors[i];
    }
    assert(floors@.take(floors@.len() as int) =~= floors@);
    if assigned < n {
        let left: usize = n - assigned;
        let extra: usize = if left <= by_residual.len() {
            left
        } else {
            by_residual.len()
        };
        assert(by_residual@.take(0) =~= Seq::<usize>::empty());
        for j in 0..extra
            invariant
                ranks_all(by_residual@, floors@.len()),
                assigned == total(floors@),
                assigned < n,
                left == n - assigned,
                extra <= by_residual@.len(),
                extra <= left,
                counts@.len() == floors@.len(),
                total(counts@) == assigned + j,
                forall|i: int|
                    0 <= i < counts@.len() ==> #[trigger] counts@[i]
                        == if by_residual@.take(j as int).contains(i as usize) {
                        (floors@[i] + 1) as usize
                    } else {
                        floors@[i]
                    },
        {
            let at: usize = by_residual[j];
            let ghost before = counts@;
            proof {
                let part = by_residual@.take(j as int);
                assert(!part.contains(at)) by {
                    if part.contains(at) {
                        let p = part.index_of(at);
                        assert(by_residual@[p] == by_residual@[j as int]);
                    }
                }
                assert(before[at as int] == floors@[at as int]);
                lemma_total_part(before, at as int);
                assert(by_residual@.take(j + 1) =~= part.push(at));
            }
            let more: usize = counts[at] + 1;
            counts.set(at, more);
            proof {
                let part = by_residual@.take(j as int);
                let now = by_residual@.take(j + 1);
                assert(counts.len() == counts@.len());
                lemma_total_update(before, at as int, more);
                assert forall|i: int| 0 <= i < counts@.len() implies #[trigger] counts@[i]
                    == if now.contains(i as usize) {
                    (floors@[i] + 1) as usize
                } else {
                    floors@[i]
                } by {
                    assert(before[i] == if part.contains(i as usize) {
                        (floors@[i] + 1) as usize
                    } else {
                        floors@[i]
                    });
                    if i == at {
                        assert(now[j as int] == i as usize);
                    } else {
                        if part.contains(i as usize) {
                            assert(now[part.index_of(i as usize)] == i as usize);
                        }
                        if now.contains(i as usize) {
                            let p = now.index_of(i as usize);
                            assert(now[p] == i as usize);
                            assert(now[j as int] == at);
                            assert(part[p] == i as usize);
                        }
                    }
                }
            }
        }
    }
    assert(counts@ =~= apportioned(n, floors@, by_residual@));
    assert(total(floors@) >= n ==> counts@ =~= floors@);
    counts
}

/// Each algorithm as often as it counts, one after the other.
pub open spec fn repeated(algos: Seq<NodeAlgoKind>, counts: Seq<usize>) -> Seq<NodeAlgoKind>
    decreases algos.len(),
{
    if algos.len() == 0 {
        Seq::empty()
    } else {
        let before = repeated(algos.drop_last(), counts);
        let k = algos.len() - 1;
        before + Seq::new(counts[k] as nat, |i: int| algos[k])
    }
}

/// The algorithms of the entries of a mix.
pub open spec fn algos_of(population: Seq<MixEntry>) -> Seq<NodeAlgoKind> {
    population.map_values(|m: MixEntry| m.algo)
}

/// A mix given out to `n` nodes and shuffled.
pub open spec fn assigned_mix(
    n: usize,
    population: Seq<MixEntry>,
    floors: Seq<usize>,
    by_residual: Seq<usize>,
    seed: u64,
) -> Seq<NodeAlgoKind> {
    let all = repeated(algos_of(population), apportioned(n, floors, by_residual));
    rng::order_draw(rng::seeded(seed ^ MIX_SUBSEED), all.len()).0.map_values(|p: int| all[p])
}

/// Gives every node an algorithm of the mix. `floors` are the whole shares
/// of the entries, and `by_residual` the entries by what remains of their
/// shares, the largest first.
pub fn assign_mix(
    n: usize,
    population: &Vec<MixEntry>,
    floors: &Vec<usize>,
    by_residual: &Vec<usize>,
    seed: u64,
) -> (r: Vec<NodeAlgoKind>)
    requires
        floors@.len() == population@.len(),
        ranks_all(by_residual@, floors@.len()),
        total(floors@) <= usize::MAX,
    ensures
        r@ == assigned_mix(n, population@, floors@, by_residual@, seed),
        r@.to_multiset() == repeated(
            algos_of(population@),
            apportioned(n, floors@, by_residual@),
        ).to_multiset(),
        total(floors@) <= n <= total(floors@) + floors@.len() ==> r@.len() == n,
{
    let counts: Vec<usize> = apportion(n, floors, by_residual);
    let ghost algos = algos_of(population@);
    let mut out: Vec<NodeAlgoKind> = Vec::new();
    assert(algos.take(0) =~= Seq::<NodeAlgoKind>::empty());
    assert(counts@.take(0) =~= Seq::<usize>::empty());
    for i in 0..population.len()
        invariant
            algos == algos_of(population@),
            counts@.len() == population@.len(),
            out@ == repeated(algos.take(i as int), counts@),
            out@.len() == total(counts@.take(i as int)),
    {
        let ghost before = out@;
        let algo: NodeAlgoKind = population[i].algo;
        let count: usize = counts[i];
        for j in 0..count
            invariant
                out@ == before + Seq::new(j as nat, |k: int| algo),
        {
            out.push(algo);
            assert(out@ =~= before + Seq::new((j + 1) as nat, |k: int| algo));
        }
        proof {
            assert(algos[i as int] == algo);
            assert(algos.take(i + 1).drop_last() =~= algos.take(i as int));
            assert(algos.take(i + 1)[i as int] == algo);
            assert(out@ =~= repeated(algos.take(i + 1), counts@));
            assert(counts@.take(i + 1).drop_last() =~= counts@.take(i as int));
        }
    }
    assert(algos.take(algos.len() as int) =~= algos);
    assert(counts@.take(counts@.len() as int) =~= counts@);
    let mut r: ChaCha8Rng = rng::from_seed(seed ^ MIX_SUBSEED);
    rng::shuffle(&mut r, &mut out);
    out
}

/// How many nodes of a mix run each algorithm: CLN, LND, sketches.
pub fn mix_counts(assignments: &Vec<NodeAlgoKind>) -> (r: (usize, usize, usize))
    ensures
        r.0 == assignments@.filter(|a: NodeAlgoKind| a is Cln).len(),
        r.1 == assignments@.filter(|a: NodeAlgoKind| a is Lnd).len(),
        r.2 == assignments@.filter(|a: NodeAlgoKind| a is Sketch).len(),
{
    let ghost is_cln = |a: NodeAlgoKind| a is Cln;
    let ghost is_lnd = |a: NodeAlgoKind| a is Lnd;
    let ghost is_sketch = |a: NodeAlgoKind| a is Sketch;
    let mut cln: usize = 0;
    let mut lnd: usize = 0;
    let mut sketch: usize = 0;
    proof {
        reveal(Seq::filter);
        assert(assignments@.take(0) =~= Seq::<NodeAlgoKind>::empty());
    }
    for i in 0..assignments.len()
        invariant
            is_cln == (|a: NodeAlgoKind| a is Cln),
            is_lnd == (|a: NodeAlgoKind| a is Lnd),
            is_sketch == (|a: NodeAlgoKind| a is Sketch),
            cln == assignments@.take(i as int).filter(is_cln).len(),
            lnd == assignments@.take(i as int).filter(is_lnd).len(),
            sketch == assignments@.take(i as int).filter(is_sketch).len(),
            cln <= i,
            lnd <= i,
            sketch <= i,
    {
        proof {
            reveal(Seq::filter);
            assert(assignments@.take(i + 1).drop_last() =~= assignments@.take(i as int));
            assert(assignments@.take(i + 1).last() == assignments@[i as int]);
        }
        match assignments[i] {
            NodeAlgoKind::Cln { .. } => {
                cln = cln + 1;
            },
            NodeAlgoKind::Lnd { .. } => {
                lnd = lnd + 1;
            },
            NodeAlgoKind::Sketch { .. } => {
                sketch = sketch + 1;
            },
        }
    }
    assert(assignments@.take(assignments@.len() as int) =~= assignments@);
    (cln, lnd, sketch)
}

// ---------------------------------------------------------------------
// The network
// ---------------------------------------------------------------------

/// How the nodes of a mix are shared out: see [`assign_mix`].
#[derive(Debug)]
pub struct MixShares {
    pub floors: Vec<usize>,
    pub by_residual: Vec<usize>,
}

/// Why a run cannot be set up.
#[derive(Debug, Clone, Copy, PartialEq, Eq, Structural)]
pub enum SetupError {
    /// A synthetic topology needs a number of channels.
    ChannelsMissing,
}

/// What a run takes place on.
pub struct Network {
    pub topology: Topology,
    pub registry: ChannelRegistry,
    /// Figures of the peer graph, where it was built from channels.
    pub peer_stats: Option<PeerBuildStats>,
}

/// The algorithm of each of `n` nodes.
pub open spec fn node_algos(
    cfg: AlgoCfg,
    n: usize,
    shares: Option<MixShares>,
    seed: u64,
) -> Seq<NodeAlgo> {
    match cfg {
        AlgoCfg::Mix { population } => {
            let kinds = assigned_mix(
                n,
                population@,
                shares->0.floors@,
                shares->0.by_residual@,
                seed,
            );
            Seq::new(
                n as nat,
                |i: int|
                    if i < kinds.len() {
                        graph::algo_of(kinds[i])
                    } else {
                        starting_algo(cfg)
                    },
            )
        },
        _ => Seq::new(n as nat, |i: int| starting_algo(cfg)),
    }
}

/// The nodes with the given ids and algorithms.
pub open spec fn nodes_with(ids: Seq<NodeId>, algos: Seq<NodeAlgo>) -> Seq<NodeMeta> {
    Seq::new(ids.len(), |i: int| NodeMeta { id: ids[i], idx: i as u32, algo: algos[i] })
}

/// The ids `0..n`.
pub open spec fn dense_ids(n: usize) -> Seq<NodeId> {
    Seq::new(n as nat, |i: int| i as u64)
}

/// The targets of nodes with the given algorithms.
pub open spec fn targets(k: KByAlgo, algos: Seq<NodeAlgo>) -> Seq<usize> {
    algos.map_values(|a: NodeAlgo| k.target(a))
}

/// The caps of `n` nodes.
pub open spec fn peer_caps(n: nat) -> Seq<usize> {
    Seq::new(n, |i: int| MAX_PEER_COUNTERPARTIES)
}

/// The shares of a mix fit its entries.
pub open spec fn shares_fit(cfg: AlgoCfg, shares: Option<MixShares>) -> bool {
    cfg matches AlgoCfg::Mix { population } ==> shares matches Some(s) && s.floors@.len()
        == population@.len() && ranks_all(s.by_residual@, s.floors@.len()) && total(s.floors@)
        <= usize::MAX
}

/// A random regular graph with these parameters exists, and fits.
pub open spec fn regular_exists(n: usize, k: usize) -> bool {
    &&& 0 < n <= u32::MAX
    &&& k < n
    &&& n * k % 2 == 0
    &&& n * k <= usize::MAX
    &&& n * k / 2 <= u32::MAX
}

/// A snapshot is consistent, and fits.
pub open spec fn snapshot_fits(snap: LnSnapshot) -> bool {
    &&& snap.nodes@.no_duplicates()
    &&& snap.nodes@.len() <= u32::MAX
    &&& channels::rows_within(snap.channels@, snap.nodes@)
    &&& snap.channels@.len() <= u32::MAX
}

/// What has to hold of a configuration, and of what was read for it.
pub open spec fn setup_fits(
    cfg: SimConfig,
    snapshot: Option<LnSnapshot>,
    shares: Option<MixShares>,
) -> bool {
    &&& shares_fit(cfg.algo, shares)
    &&& match cfg.topology {
        TopologyCfg::KRegular { n, k } => regular_exists(n, k) && (cfg.channels is Some ==> n >= 2),
        TopologyCfg::FromCsv { nodes_csv, channels_csv, k, enforce_hub_cap } => snapshot matches Some(
            snap,
        ) && snapshot_fits(snap) && 2 * snap.channels@.len() + snap.nodes@.len()
            * synthetic::most_strangers(k.largest(), snap.nodes@.len()) <= u32::MAX,
    }
}

/// The network that a configuration leads to.
pub open spec fn network_of(
    net: Network,
    cfg: SimConfig,
    snapshot: Option<LnSnapshot>,
    shares: Option<MixShares>,
) -> bool {
    &&& net.topology.wf()
    &&& net.registry.wf()
    &&& match cfg.topology {
        TopologyCfg::KRegular { n, k } => {
            &&& net.topology.nodes@ == nodes_with(
                dense_ids(n),
                node_algos(cfg.algo, n, shares, cfg.seed),
            )
            &&& net.topology.links() == graphs::widened(graphs::regular_links(n, k, cfg.seed))
            &&& net.registry.rows@ == channels::sampled(
                cfg.seed,
                n as u64,
                cfg.channels->0.count as nat,
            )
            &&& net.topology.arcs() == channels::row_arcs(net.registry.rows@, dense_ids(n))
            &&& net.peer_stats is None
        },
        TopologyCfg::FromCsv { nodes_csv, channels_csv, k, enforce_hub_cap } => {
            let snap = snapshot->0;
            let n = snap.nodes@.len() as usize;
            let algos = node_algos(cfg.algo, n, shares, cfg.seed);
            &&& net.topology.nodes@ == nodes_with(snap.nodes@, algos)
            &&& net.registry.rows@ == snap.channels@
            &&& net.topology.arcs() == channels::row_arcs(snap.channels@, snap.nodes@)
            &&& net.peer_stats matches Some(stats) && (
                net.topology.links(),
                stats.hub_rejected_edges as nat,
                stats.replacements_added as nat,
            ) == synthetic::built(
                Seq::empty(),
                net.topology.arcs(),
                n,
                targets(k, algos),
                peer_caps(n as nat),
                cfg.seed,
                enforce_hub_cap,
            )
        },
    }
}

/// Gives the nodes of a mix their algorithms.
fn assign_algos(
    topology: &mut Topology,
    algo: &AlgoCfg,
    shares: &Option<MixShares>,
    seed: u64,
    Ghost(ids): Ghost<Seq<NodeId>>,
)
    requires
        old(topology).wf(),
        old(topology).nodes@ == nodes_with(
            ids,
            Seq::new(ids.len(), |i: int| starting_algo(*algo)),
        ),
        shares_fit(*algo, *shares),
    ensures
        final(topology).wf(),
        final(topology).nodes@ == nodes_with(
            ids,
            node_algos(*algo, ids.len() as usize, *shares, seed),
        ),
        final(topology).links() == old(topology).links(),
        final(topology).arcs() == old(topology).arcs(),
        final(topology).ids() == old(topology).ids(),
{
    let n: usize = topology.len();
    let ghost want = node_algos(*algo, n, *shares, seed);
    match algo {
        AlgoCfg::Mix { population } => {
            match shares {
                Some(s) => {
                    let kinds: Vec<NodeAlgoKind> = assign_mix(
                        n,
                        population,
                        &s.floors,
                        &s.by_residual,
                        seed,
                    );
                    let upto: usize = if kinds.len() <= n {
                        kinds.len()
                    } else {
                        n
                    };
                    for i in 0..upto
                        invariant
                            topology.wf(),
                            upto <= n,
                            upto <= kinds@.len(),
                            n == ids.len(),
                            topology.links() == old(topology).links(),
                            topology.arcs() == old(topology).arcs(),
                            topology.nodes@ == nodes_with(
                                ids,
                                Seq::new(
                                    n as nat,
                                    |j: int|
                                        if j < i {
                                            graph::algo_of(kinds@[j])
                                        } else {
                                            starting_algo(*algo)
                                        },
                                ),
                            ),
                    {
                        let mut meta: NodeMeta = topology.nodes[i];
                        meta.algo = NodeAlgo::from(&kinds[i]);
                        let ghost before = topology.nodes@;
                        topology.nodes.set(i, meta);
                        proof {
                            assert(topology.nodes@ =~= nodes_with(
                                ids,
                                Seq::new(
                                    n as nat,
                                    |j: int|
                                        if j < i + 1 {
                                            graph::algo_of(kinds@[j])
                                        } else {
                                            starting_algo(*algo)
                                        },
                                ),
                            ));
                            assert forall|j: int| 0 <= j < before.len() implies (
                            #[trigger] topology.nodes@[j]).id == before[j].id
                                && topology.nodes@[j].idx == before[j].idx by {
                            }
                        }
                    }
                    assert(topology.nodes@ =~= nodes_with(ids, want));
                },
                None => {},
            }
        },
        _ => {
            assert(topology.nodes@ =~= nodes_with(ids, want));
        },
    }
    proof {
        assert(topology.ids() =~= old(topology).ids());
    }
}

/// Sets up the network of a run: nodes, algorithms, channels, peers.
/// `snapshot` is what was read where the topology comes from files, and
/// `shares` goes with a mix.
pub fn build_network(
    cfg: &SimConfig,
    snapshot: Option<LnSnapshot>,
    shares: Option<MixShares>,
) -> (r: Result<Network, SetupError>)
    requires
        setup_fits(*cfg, snapshot, shares),
    ensures
        r is Err <==> cfg.topology is KRegular && cfg.channels is None,
        r matches Ok(net) ==> network_of(net, *cfg, snapshot, shares),
{
    let default_algo: NodeAlgo = default_algo_from(&cfg.algo);
    match &cfg.topology {
        TopologyCfg::KRegular { n, k } => {
            let ghost ids = dense_ids(*n);
            let mut topology = synthetic::random_regular(*n, *k, cfg.seed, default_algo);
            proof {
                assert(topology.nodes@ =~= nodes_with(
                    ids,
                    Seq::new(ids.len(), |i: int| starting_algo(cfg.algo)),
                ));
            }
            assign_algos(&mut topology, &cfg.algo, &shares, cfg.seed, Ghost(ids));
            match &cfg.channels {
                None => Err(SetupError::ChannelsMissing),
                Some(chans) => {
                    proof {
                        assert(topology.ids() =~= ids);
                        assert forall|i: int| 0 <= i < topology.nodes@.len() implies topology.has(
                            #[trigger] (i as u64),
                        ) by {
                            assert(topology.ids()[i] == i as u64);
                        }
                    }
                    let registry = ChannelRegistry::build(&mut topology, chans.count, cfg.seed);
                    proof {
                        assert(topology.arcs() =~= channels::row_arcs(registry.rows@, ids));
                    }
                    Ok(Network { topology, registry, peer_stats: None })
                },
            }
        },
        TopologyCfg::FromCsv { nodes_csv: _, channels_csv: _, k, enforce_hub_cap } => {
            match snapshot {
                Some(snap) => {
                    let mut topology = Topology::with_capacity(snap.nodes.len());
                    let ghost ids = snap.nodes@;
                    assert(topology.nodes@ =~= nodes_with(
                        ids.take(0),
                        Seq::new(0, |j: int| default_algo),
                    ));
                    for i in 0..snap.nodes.len()
                        invariant
                            ids == snap.nodes@,
                            ids.no_duplicates(),
                            ids.len() <= u32::MAX,
                            topology.wf(),
                            topology.nodes@ == nodes_with(
                                ids.take(i as int),
                                Seq::new(i as nat, |j: int| default_algo),
                            ),
                            topology.links() == Seq::<(int, int)>::empty(),
                            topology.arcs() == Seq::<(int, int, u64)>::empty(),
                    {
                        let id: NodeId = snap.nodes[i];
                        proof {
                            if topology.has(id) {
                                let p = topology.ids().index_of(id);
                                assert(topology.ids()[p] == id);
                                assert(topology.nodes@[p].id == ids[p]);
                            }
                        }
                        topology.add_node(id, default_algo);
                        assert(topology.nodes@ =~= nodes_with(
                            ids.take(i + 1),
                            Seq::new((i + 1) as nat, |j: int| default_algo),
                        ));
                    }
                    proof {
                        assert(ids.take(ids.len() as int) =~= ids);
                        assert(topology.nodes@ =~= nodes_with(
                            ids,
                            Seq::new(ids.len(), |i: int| starting_algo(cfg.algo)),
                        ));
                    }
                    assign_algos(&mut topology, &cfg.algo, &shares, cfg.seed, Ghost(ids));
                    let ghost algos = node_algos(
                        cfg.algo,
                        ids.len() as usize,
                        shares,
                        cfg.seed,
                    );
                    proof {
                        assert(topology.ids() =~= ids);
                    }
                    let ghost rows = snap.channels@;
                    let registry = ChannelRegistry::from_iter(&mut topology, snap.channels);
                    proof {
                        assert(topology.arcs() =~= channels::row_arcs(rows, ids));
                    }
                    let mut ks: Vec<usize> = Vec::new();
                    let mut caps: Vec<usize> = Vec::new();
                    for i in 0..topology.nodes.len()
                        invariant
                            topology.nodes@ == nodes_with(ids, algos),
                            algos.len() == ids.len(),
                            ks@ == targets(*k, algos).take(i as int),
                            caps@ == peer_caps(i as nat),
                    {
                        ks.push(k.k_for(&topology.nodes[i].algo));
                        caps.push(MAX_PEER_COUNTERPARTIES);
                        assert(ks@ =~= targets(*k, algos).take(i + 1));
                        assert(caps@ =~= peer_caps((i + 1) as nat));
                    }
                    proof {
                        assert(ks@ =~= targets(*k, algos));
                        assert(topology.links() =~= Seq::<(int, int)>::empty());
                        assert forall|i: int| 0 <= i < ks@.len() implies #[trigger] ks@[i]
                            <= k.largest() by {
                            assert(ks@[i] == k.target(algos[i]));
                        }
                        synthetic::demand_is_bounded(
                            topology.arcs(),
                            ks@,
                            k.largest() as nat,
                            ids.len(),
                        );
                    }
                    let stats: PeerBuildStats = synthetic::build_peer_graph_with(
                        &mut topology,
                        &ks,
                        &caps,
                        cfg.seed,
                        *enforce_hub_cap,
                    );
                    Ok(Network { topology, registry, peer_stats: Some(stats) })
                },
                None => Err(SetupError::ChannelsMissing),
            }
        },
    }
}

// ---------------------------------------------------------------------
// Events
// ---------------------------------------------------------------------

/// The random stream that an event configuration asks for.
pub fn poisson_source(event: &EventCfg, seed: u64) -> (r: Option<PoissonRandom>)
    ensures
        r == (match *event {
            EventCfg::PoissonRandom { rate_bits, size_bytes } => Some(
                PoissonRandom { rate_bits, seed: seed ^ EVENT_SUBSEED, size_bytes },
            ),
            _ => None::<PoissonRandom>,
        }),
{
    match event {
        EventCfg::PoissonRandom { rate_bits, size_bytes } => Some(
            PoissonRandom {
                rate_bits: *rate_bits,
                seed: seed ^ EVENT_SUBSEED,
                size_bytes: *size_bytes,
            },
        ),
        _ => None,
    }
}

/// The events of a run in the order in which they were made. `streamed`
/// are those of a random stream or of a trace.
pub open spec fn made_events(
    event: EventCfg,
    nodes: Seq<NodeId>,
    registry: &ChannelRegistry,
    streamed: Seq<ScheduledEvent>,
) -> Seq<ScheduledEvent> {
    let at = SimDuration { secs: 0, nanos: 0 };
    match event {
        EventCfg::OneShotSingle { node } => if node < nodes.len() {
            match oneshot::first_side(registry, nodes[node as int]) {
                Some(side) => seq![
                    (
                        at,
                        nodes[node as int],
                        oneshot::unstamped_update(0, side, ONE_SHOT_SIZE),
                    ),
                ],
                None => Seq::empty(),
            }
        } else {
            Seq::empty()
        },
        EventCfg::OneShotAll {  } => oneshot::one_each(
            OneShotAll { at, size_bytes: ONE_SHOT_SIZE },
            nodes,
            registry,
        ),
        EventCfg::PoissonRandom { .. } => streamed,
        EventCfg::ParquetReplay { .. } => streamed,
    }
}

/// The schedule of a run: its events, ordered by when they are due.
pub fn build_events(
    event: &EventCfg,
    nodes: &[NodeId],
    max: SimDuration,
    registry: &ChannelRegistry,
    streamed: Vec<ScheduledEvent>,
) -> (r: Vec<ScheduledEvent>)
    requires
        registry.wf(),
    ensures
        events::scheduled(r@, made_events(*event, nodes@, registry, streamed@)),
{
    let at: SimDuration = SimDuration { secs: 0, nanos: 0 };
    let made: Vec<ScheduledEvent> = match event {
        EventCfg::OneShotSingle { node } => {
            let source = OneShotSingle { node: *node, at, size_bytes: ONE_SHOT_SIZE };
            source.build(nodes, max, registry)
        },
        EventCfg::OneShotAll {  } => {
            let source = OneShotAll { at, size_bytes: ONE_SHOT_SIZE };
            source.build(nodes, max, registry)
        },
        _ => streamed,
    };
    assert(made@ =~= made_events(*event, nodes@, registry, streamed@));
    events::in_schedule_order(made)
}

// ---------------------------------------------------------------------
// Models
// ---------------------------------------------------------------------

/// Which model stands for a node: its kind, and its position among the
/// models of that kind.
#[derive(Debug, Clone, Copy, PartialEq, Eq, Structural)]
pub enum Slot {
    Flooding(usize),
    Cln(usize),
    Lnd(usize),
    Sketch(usize),
}

/// Number of nodes among the first `upto` that run the same kind of
/// algorithm as node `v`.
pub open spec fn same_kind_before(nodes: Seq<NodeMeta>, v: int, upto: nat) -> nat
    decreases upto,
{
    if upto == 0 {
        0
    } else {
        same_kind_before(nodes, v, (upto - 1) as nat) + if same_kind(
            nodes[upto - 1].algo,
            nodes[v].algo,
        ) {
            1nat
        } else {
            0nat
        }
    }
}

/// Two algorithms are of one kind.
pub open spec fn same_kind(a: NodeAlgo, b: NodeAlgo) -> bool {
    match a {
        NodeAlgo::Flooding => b is Flooding,
        NodeAlgo::Cln { .. } => b is Cln,
        NodeAlgo::Lnd { .. } => b is Lnd,
        NodeAlgo::Sketch { .. } => b is Sketch,
    }
}

/// The slot of node `v`.
pub open spec fn slot_of(nodes: Seq<NodeMeta>, v: int) -> Slot {
    let at = same_kind_before(nodes, v, v as nat) as usize;
    match nodes[v].algo {
        NodeAlgo::Flooding => Slot::Flooding(at),
        NodeAlgo::Cln { .. } => Slot::Cln(at),
        NodeAlgo::Lnd { .. } => Slot::Lnd(at),
        NodeAlgo::Sketch { .. } => Slot::Sketch(at),
    }
}

/// Number of nodes of each kind among the first `upto`: flooding, CLN,
/// LND, sketches.
spec fn kind_totals(nodes: Seq<NodeMeta>, upto: nat) -> (nat, nat, nat, nat)
    decreases upto,
{
    if upto == 0 {
        (0, 0, 0, 0)
    } else {
        let (f, c, l, s) = kind_totals(nodes, (upto - 1) as nat);
        match nodes[upto - 1].algo {
            NodeAlgo::Flooding => (f + 1, c, l, s),
            NodeAlgo::Cln { .. } => (f, c + 1, l, s),
            NodeAlgo::Lnd { .. } => (f, c, l + 1, s),
            NodeAlgo::Sketch { .. } => (f, c, l, s + 1),
        }
    }
}

proof fn lemma_kind_totals(nodes: Seq<NodeMeta>, v: int, upto: nat)
    requires
        upto <= nodes.len(),
        0 <= v < nodes.len(),
    ensures
        same_kind_before(nodes, v, upto) == (match nodes[v].algo {
            NodeAlgo::Flooding => kind_totals(nodes, upto).0,
            NodeAlgo::Cln { .. } => kind_totals(nodes, upto).1,
            NodeAlgo::Lnd { .. } => kind_totals(nodes, upto).2,
            NodeAlgo::Sketch { .. } => kind_totals(nodes, upto).3,
        }),
        kind_totals(nodes, upto).0 <= upto,
        kind_totals(nodes, upto).1 <= upto,
        kind_totals(nodes, upto).2 <= upto,
        kind_totals(nodes, upto).3 <= upto,
    decreases upto,
{
    if upto > 0 {
        lemma_kind_totals(nodes, v, (upto - 1) as nat);
    }
}

/// The slots of all nodes: models of one kind are numbered from 0 in the
/// order of their nodes.
pub fn plan_slots(topology: &Topology) -> (r: Vec<Slot>)
    ensures
        r@ == Seq::new(topology.nodes@.len(), |v: int| slot_of(topology.nodes@, v)),
{
    let mut out: Vec<Slot> = Vec::new();
    let mut flooding: usize = 0;
    let mut cln: usize = 0;
    let mut lnd: usize = 0;
    let mut sketch: usize = 0;
    let ghost nodes = topology.nodes@;
    for v in 0..topology.nodes.len()
        invariant
            nodes == topology.nodes@,
            out@ == Seq::new(v as nat, |u: int| slot_of(nodes, u)),
            (flooding as nat, cln as nat, lnd as nat, sketch as nat) == kind_totals(nodes, v as nat),
            flooding <= v,
            cln <= v,
            lnd <= v,
            sketch <= v,
    {
        proof {
            lemma_kind_totals(nodes, v as int, v as nat);
        }
        match topology.nodes[v].algo {
            NodeAlgo::Flooding => {
                out.push(Slot::Flooding(flooding));
                flooding = flooding + 1;
            },
            NodeAlgo::Cln { .. } => {
                out.push(Slot::Cln(cln));
                cln = cln + 1;
            },
            NodeAlgo::Lnd { .. } => {
                out.push(Slot::Lnd(lnd));
                lnd = lnd + 1;
            },
            NodeAlgo::Sketch { .. } => {
                out.push(Slot::Sketch(sketch));
                sketch = sketch + 1;
            },
        }
        assert(out@ =~= Seq::new((v + 1) as nat, |u: int| slot_of(nodes, u)));
    }
    out
}

/// Two nodes never share a slot.
pub proof fn slots_are_distinct(nodes: Seq<NodeMeta>, v: int, w: int)
    requires
        0 <= v < w < nodes.len(),
        nodes.len() <= usize::MAX,
    ensures
        slot_of(nodes, v) != slot_of(nodes, w),
{
    lemma_kind_totals(nodes, v, v as nat);
    lemma_kind_totals(nodes, w, w as nat);
    if same_kind(nodes[v].algo, nodes[w].algo) {
        lemma_same_kind_counts(nodes, v, w, w as nat);
    }
}

proof fn lemma_same_kind_counts(nodes: Seq<NodeMeta>, v: int, w: int, upto: nat)
    requires
        0 <= v < nodes.len(),
        0 <= w < nodes.len(),
        same_kind(nodes[v].algo, nodes[w].algo),
        upto <= nodes.len(),
    ensures
        same_kind_before(nodes, v, upto) == same_kind_before(nodes, w, upto),
        v < upto ==> same_kind_before(nodes, v, v as nat) < same_kind_before(nodes, v, upto),
    decreases upto,
{
    if upto > 0 {
        lemma_same_kind_counts(nodes, v, w, (upto - 1) as nat);
    }
}

/// The connections out of the node at `v`: one per peer.
pub open spec fn wires_from(links: Seq<(int, int)>, v: int) -> Seq<(int, int)> {
    graphs::neighbours(links, v).map_values(|w: int| (v, w))
}

/// The connections out of the first `upto` nodes.
pub open spec fn wires(links: Seq<(int, int)>, upto: nat) -> Seq<(int, int)>
    decreases upto,
{
    if upto == 0 {
        Seq::empty()
    } else {
        wires(links, (upto - 1) as nat) + wires_from(links, upto - 1)
    }
}

/// Vertex pairs, sender first, that are to be connected.
pub fn wiring(topology: &Topology) -> (r: Vec<(usize, usize)>)
    requires
        topology.wf(),
    ensures
        graphs::widened(r@) == wires(topology.links(), topology.nodes@.len()),
        forall|i: int|
            0 <= i < r@.len() ==> (#[trigger] r@[i]).0 < topology.nodes@.len() && r@[i].1
                < topology.nodes@.len(),
{
    let n: usize = topology.len();
    let ghost links = topology.links();
    let mut out: Vec<(usize, usize)> = Vec::new();
    assert(graphs::widened(out@) =~= Seq::<(int, int)>::empty());
    for v in 0..n
        invariant
            topology.wf(),
            n == topology.nodes@.len(),
            links == topology.links(),
            graphs::widened(out@) == wires(links, v as nat),
            forall|i: int| 0 <= i < out@.len() ==> (#[trigger] out@[i]).0 < n && out@[i].1 < n,
    {
        let near: Vec<usize> = topology.peers_at(v);
        let ghost before = graphs::widened(out@);
        let ghost ns = graphs::neighbours(links, v as int);
        let ghost fan = wires_from(links, v as int);
        assert(before + fan.take(0) =~= before);
        for j in 0..near.len()
            invariant
                v < n,
                fan == wires_from(links, v as int),
                ns == graphs::neighbours(links, v as int),
                graphs::as_ints(near@) == ns,
                forall|i: int| 0 <= i < near@.len() ==> (#[trigger] near@[i]) < n,
                graphs::widened(out@) == before + fan.take(j as int),
                forall|i: int| 0 <= i < out@.len() ==> (#[trigger] out@[i]).0 < n && out@[i].1 < n,
        {
            let w: usize = near[j];
            let ghost was = graphs::widened(out@);
            proof {
                assert(graphs::as_ints(near@)[j as int] == w as int);
                assert(fan[j as int] == (v as int, w as int));
                assert(near@[j as int] < n);
            }
            out.push((v, w));
            proof {
                assert(graphs::widened(out@) =~= was.push((v as int, w as int)));
                assert(before + fan.take(j + 1) =~= was.push((v as int, w as int)));
            }
        }
        proof {
            assert(graphs::as_ints(near@).len() == fan.len());
            assert(fan.take(fan.len() as int) =~= fan);
        }
    }
    out
}

// ---------------------------------------------------------------------
// Driving
// ---------------------------------------------------------------------

/// What is to be done next.
#[derive(Debug, Clone, Copy)]
pub enum Action {
    /// Advance simulated time to this point.
    StepTo(SimDuration),
    /// Inject this event now.
    Inject(ScheduledEvent),
    /// Report progress.
    Progress,
    /// The run is over.
    Finished,
}

/// Where in its round the driver is.
#[derive(Debug, Clone, Copy, PartialEq, Eq, Structural)]
pub enum Phase {
    /// Time has to advance.
    Check,
    /// Due events have to be injected, and progress reported.
    Drain,
}

/// The state of a driver, times in nanoseconds.
#[verifier::ext_equal]
pub struct Drive {
    pub events: Seq<ScheduledEvent>,
    /// Number of events injected so far.
    pub next: nat,
    pub deadline: SimDuration,
    /// Seconds between progress reports; none where 0.
    pub interval: u64,
    /// When progress is reported next.
    pub report_at: SimDuration,
    pub phase: Phase,
}

impl Drive {
    /// The next event is due at `now`.
    pub open spec fn event_due(self, now: SimDuration) -> bool {
        self.next < self.events.len() && self.events[self.next as int].0.total_nanos()
            <= now.total_nanos()
    }

    /// A progress report is due at `now`.
    pub open spec fn report_due(self, now: SimDuration) -> bool {
        self.interval > 0 && self.report_at.total_nanos() <= now.total_nanos()
    }

    /// The next point of interest: the end of the run, the next event or
    /// the next report, whichever comes first.
    pub open spec fn target(self) -> SimDuration {
        let t = if self.next < self.events.len()
            && self.events[self.next as int].0.total_nanos() < self.deadline.total_nanos() {
            self.events[self.next as int].0
        } else {
            self.deadline
        };
        if self.interval > 0 && self.report_at.total_nanos() < t.total_nanos() {
            self.report_at
        } else {
            t
        }
    }

    /// One round from its start, until something has to be done.
    pub open spec fn check(self, now: SimDuration) -> (Action, Drive) {
        if self.deadline.total_nanos() <= now.total_nanos() {
            (Action::Finished, self)
        } else if self.target().total_nanos() > now.total_nanos() {
            (Action::StepTo(self.target()), Drive { phase: Phase::Drain, ..self })
        } else if self.event_due(now) {
            (
                Action::Inject(self.events[self.next as int]),
                Drive { next: self.next + 1, phase: Phase::Drain, ..self },
            )
        } else {
            (
                Action::Progress,
                Drive {
                    report_at: SimDuration {
                        secs: (self.report_at.secs + self.interval) as u64,
                        nanos: self.report_at.nanos,
                    },
                    phase: Phase::Check,
                    ..self
                },
            )
        }
    }

    /// What is to be done at `now`, and the state after it.
    pub open spec fn decide(self, now: SimDuration) -> (Action, Drive) {
        if self.phase == Phase::Check {
            self.check(now)
        } else if self.phase == Phase::Drain && self.event_due(now) {
            (
                Action::Inject(self.events[self.next as int]),
                Drive { next: self.next + 1, ..self },
            )
        } else if self.report_due(now) {
            (
                Action::Progress,
                Drive {
                    report_at: SimDuration {
                        secs: (self.report_at.secs + self.interval) as u64,
                        nanos: self.report_at.nanos,
                    },
                    phase: Phase::Check,
                    ..self
                },
            )
        } else {
            Drive { phase: Phase::Check, ..self }.check(now)
        }
    }

    /// Times are well formed, and reports do not overflow.
    pub open spec fn wf(self) -> bool {
        &&& self.deadline.wf()
        &&& self.report_at.wf()
        &&& self.deadline.secs + self.interval <= u64::MAX
        &&& self.next <= self.events.len()
        &&& forall|i: int| 0 <= i < self.events.len() ==> (#[trigger] self.events[i]).0.wf()
    }
}

/// Drives a run.
pub struct Driver {
    events: Vec<ScheduledEvent>,
    next: usize,
    deadline: SimDuration,
    interval: u64,
    report_at: SimDuration,
    phase: Phase,
}

/// Whether one span is no longer than another.
fn at_most(a: SimDuration, b: SimDuration) -> (r: bool)
    requires
        a.wf(),
        b.wf(),
    ensures
        r == (a.total_nanos() <= b.total_nanos()),
{
    a.secs < b.secs || (a.secs == b.secs && a.nanos <= b.nanos)
}

impl Driver {
    /// The state of the driver.
    pub closed spec fn state(&self) -> Drive {
        Drive {
            events: self.events@,
            next: self.next as nat,
            deadline: self.deadline,
            interval: self.interval,
            report_at: self.report_at,
            phase: self.phase,
        }
    }

    /// A driver at the start of a run that ends at `deadline`, with
    /// progress reports every `progress_interval_secs`, none where 0.
    pub fn new(
        events: Vec<ScheduledEvent>,
        deadline: SimDuration,
        progress_interval_secs: u64,
    ) -> (r: Self)
        requires
            deadline.wf(),
            deadline.secs + progress_interval_secs <= u64::MAX,
            forall|i: int| 0 <= i < events@.len() ==> (#[trigger] events@[i]).0.wf(),
        ensures
            r.state().wf(),
            r.state() == (Drive {
                events: events@,
                next: 0,
                deadline,
                interval: progress_interval_secs,
                report_at: SimDuration { secs: progress_interval_secs, nanos: 0 },
                phase: Phase::Check,
            }),
    {
        Driver {
            events,
            next: 0,
            deadline,
            interval: progress_interval_secs,
            report_at: SimDuration { secs: progress_interval_secs, nanos: 0 },
            phase: Phase::Check,
        }
    }

    fn event_due(&self, now: SimDuration) -> (r: bool)
        requires
            self.state().wf(),
            now.wf(),
        ensures
            r == self.state().event_due(now),
    {
        self.next < self.events.len() && at_most(self.events[self.next].0, now)
    }

    fn target(&self) -> (r: SimDuration)
        requires
            self.state().wf(),
        ensures
            r == self.state().target(),
            r.wf(),
    {
        let mut t: SimDuration = self.deadline;
        if self.next < self.events.len() && !at_most(t, self.events[self.next].0) {
            t = self.events[self.next].0;
        }
        if self.interval > 0 && !at_most(t, self.report_at) {
            t = self.report_at;
        }
        t
    }

    fn inject(&mut self) -> (r: Action)
        requires
            old(self).state().wf(),
            old(self).next < old(self).events@.len(),
        ensures
            final(self).state().wf(),
            r == Action::Inject(old(self).state().events[old(self).next as int]),
            final(self).state() == (Drive {
                next: old(self).state().next + 1,
                phase: Phase::Drain,
                ..old(self).state()
            }),
    {
        let e: ScheduledEvent = self.events[self.next];
        assert(self.next < self.events.len());
        self.next = self.next + 1;
        self.phase = Phase::Drain;
        Action::Inject(e)
    }

    fn report(&mut self) -> (r: Action)
        requires
            old(self).state().wf(),
            old(self).report_at.secs + old(self).interval <= u64::MAX,
        ensures
            final(self).state().wf(),
            r == Action::Progress,
            final(self).state() == (Drive {
                report_at: SimDuration {
                    secs: (old(self).state().report_at.secs + old(self).state().interval) as u64,
                    nanos: old(self).state().report_at.nanos,
                },
                phase: Phase::Check,
                ..old(self).state()
            }),
    {
        self.report_at = SimDuration {
            secs: self.report_at.secs + self.interval,
            nanos: self.report_at.nanos,
        };
        self.phase = Phase::Check;
        Action::Progress
    }

    /// Decides what is to be done when simulated time is `now`. After
    /// [`Action::StepTo`] time has advanced to that point when the driver
    /// is asked again.
    pub fn decide(&mut self, now: SimDuration) -> (r: Action)
        requires
            old(self).state().wf(),
            now.wf(),
            now.total_nanos() <= old(self).state().deadline.total_nanos(),
        ensures
            final(self).state().wf(),
            (r, final(self).state()) == old(self).state().decide(now),
    {
        if self.phase == Phase::Drain && self.event_due(now) {
            return self.inject();
        }
        if self.phase != Phase::Check && self.interval > 0 && at_most(self.report_at, now) {
            return self.report();
        }
        self.phase = Phase::Check;
        if at_most(self.deadline, now) {
            return Action::Finished;
        }
        let t: SimDuration = self.target();
        if !at_most(t, now) {
            self.phase = Phase::Drain;
            return Action::StepTo(t);
        }
        if self.event_due(now) {
            return self.inject();
        }
        self.report()
    }
}

/// Time only moves forward, never past the end of the run, and never past
/// an event that is still to be injected or a report that is still to be
/// made.
pub proof fn steps_stop_at_what_is_next(d: Drive, now: SimDuration, i: int)
    requires
        d.wf(),
        events::in_order(d.events),
        d.decide(now).0 is StepTo,
        d.next <= i < d.events.len(),
    ensures
        now.total_nanos() < d.decide(now).0->StepTo_0.total_nanos(),
        d.decide(now).0->StepTo_0.total_nanos() <= d.deadline.total_nanos(),
        d.decide(now).0->StepTo_0.total_nanos() <= d.events[i].0.total_nanos(),
        d.interval > 0 ==> d.decide(now).0->StepTo_0.total_nanos() <= d.report_at.total_nanos(),
        d.decide(now).1.next == d.next,
{
    let first = d.events[d.next as int];
    assert(events::no_later(first, d.events[i]));
    assert(first.0.wf() && d.events[i].0.wf());
}

/// Events are injected in the order of the schedule, each once, and none
/// before it is due.
pub proof fn events_are_injected_in_order(d: Drive, now: SimDuration)
    requires
        d.wf(),
    ensures
        d.decide(now).0 is Inject <==> d.decide(now).1.next != d.next,
        d.decide(now).0 matches Action::Inject(e) ==> d.next < d.events.len() && e
            == d.events[d.next as int] && d.decide(now).1.next == d.next + 1
            && e.0.total_nanos() <= now.total_nanos(),
        d.decide(now).1.events == d.events,
{
}

/// Before time moves on, and before the run ends after some of it has
/// passed, everything that is due has been injected.
pub proof fn nothing_due_is_left_behind(d: Drive, now: SimDuration, i: int)
    requires
        d.wf(),
        now.wf(),
        events::in_order(d.events),
        d.phase == Phase::Drain,
        d.decide(now).0 is StepTo || d.decide(now).0 is Finished || d.decide(now).0 is Progress,
        d.next <= i < d.events.len(),
    ensures
        d.events[i].0.total_nanos() > now.total_nanos(),
{
    let first = d.events[d.next as int];
    assert(events::no_later(first, d.events[i]));
    assert(first.0.wf() && d.events[i].0.wf());
}

/// What a driver goes through: it is asked at each time what to do, and
/// time advances to where it steps.
pub open spec fn execution(ds: Seq<Drive>, ts: Seq<SimDuration>) -> bool {
    &&& ds.len() == ts.len()
    &&& forall|k: int|
        0 <= k < ds.len() - 1 ==> #[trigger] ds[k].decide(ts[k]).1 == ds[k + 1] && ts[k + 1] == (
        match ds[k].decide(ts[k]).0 {
            Action::StepTo(t) => t,
            _ => ts[k],
        })
}

/// A driver at the start of a run.
pub open spec fn at_start(d: Drive, now: SimDuration) -> bool {
    &&& d.wf()
    &&& d.next == 0
    &&& d.phase == Phase::Check
    &&& now == (SimDuration { secs: 0, nanos: 0 })
    &&& d.deadline.total_nanos() > 0
    &&& events::in_order(d.events)
}

/// What holds all along a run: times are in range, what was injected was
/// due, and once some round is over nothing due is left.
spec fn on_course(d: Drive, now: SimDuration, first: Drive) -> bool {
    &&& d.events == first.events
    &&& d.deadline == first.deadline
    &&& d.interval == first.interval
    &&& d.next <= d.events.len()
    &&& now.wf()
    &&& d.report_at.wf()
    &&& now.total_nanos() <= d.deadline.total_nanos()
    &&& forall|i: int|
        0 <= i < d.next ==> (#[trigger] d.events[i]).0.total_nanos() <= now.total_nanos()
    &&& d.phase == Phase::Check && now.total_nanos() > 0 ==> forall|i: int|
        d.next <= i < d.events.len() ==> (#[trigger] d.events[i]).0.total_nanos()
            > now.total_nanos()
}

proof fn lemma_on_course(d: Drive, now: SimDuration, first: Drive)
    requires
        on_course(d, now, first),
        first.wf(),
        events::in_order(first.events),
    ensures
        ({
            let (action, after) = d.decide(now);
            let then = match action {
                Action::StepTo(t) => t,
                _ => now,
            };
            on_course(after, then, first)
        }),
{
    let (action, after) = d.decide(now);
    let then = match action {
        Action::StepTo(t) => t,
        _ => now,
    };
    assert forall|i: int| d.next <= i < d.events.len() implies d.events[d.next as int].0.total_nanos()
        <= (#[trigger] d.events[i]).0.total_nanos() by {
        assert(events::no_later(d.events[d.next as int], d.events[i]));
        assert(d.events[d.next as int].0.wf() && d.events[i].0.wf());
    }
    assert forall|i: int| 0 <= i < after.next implies (#[trigger] after.events[i]).0.total_nanos()
        <= then.total_nanos() by {
    }
}

proof fn lemma_course(ds: Seq<Drive>, ts: Seq<SimDuration>, k: int)
    requires
        execution(ds, ts),
        ds.len() > 0,
        at_start(ds[0], ts[0]),
        0 <= k < ds.len(),
    ensures
        on_course(ds[k], ts[k], ds[0]),
    decreases k,
{
    if k > 0 {
        lemma_course(ds, ts, k - 1);
        lemma_on_course(ds[k - 1], ts[k - 1], ds[0]);
        assert(ds[k - 1].decide(ts[k - 1]).1 == ds[(k - 1) + 1]);
    }
}

/// When a run ends, exactly the events that are due by its end have been
/// injected.
pub proof fn run_injects_what_is_due(ds: Seq<Drive>, ts: Seq<SimDuration>, i: int)
    requires
        execution(ds, ts),
        ds.len() > 0,
        at_start(ds[0], ts[0]),
        ds.last().decide(ts.last()).0 is Finished,
        0 <= i < ds[0].events.len(),
    ensures
        i < ds.last().next <==> ds[0].events[i].0.total_nanos() <= ds[0].deadline.total_nanos(),
{
    let k = ds.len() - 1;
    lemma_course(ds, ts, k);
    lemma_on_course(ds[k], ts[k], ds[0]);
    let d = ds[k];
    let now = ts[k];
    if d.next <= i {
        assert(events::no_later(d.events[d.next as int], d.events[i]));
        assert(d.events[d.next as int].0.wf() && d.events[i].0.wf());
    }
}

/// Counts add up: two lists together to the sum of their totals, one
/// count to itself.
pub proof fn counts_add_up(a: Seq<usize>, b: Seq<usize>)
    ensures
        total(a + b) == total(a) + total(b),
        a.len() == 0 ==> total(a) == 0,
        a.len() == 1 ==> total(a) == a[0],
    decreases b.len(),
{
    if b.len() == 0 {
        assert(a + b =~= a);
    } else {
        counts_add_up(a, b.drop_last());
        assert((a + b).drop_last() =~= a + b.drop_last());
    }
    if a.len() == 1 {
        reveal_with_fuel(total, 2);
    }
}

/// The nodes that the whole shares leave over go, one each, to the
/// entries with the largest remainders, as far as these go; every other
/// entry gets its whole share and no more.
pub proof fn largest_remainders_get_the_rest(
    n: usize,
    floors: Seq<usize>,
    by_residual: Seq<usize>,
    p: int,
)
    requires
        ranks_all(by_residual, floors.len()),
        0 <= p < by_residual.len(),
        floors[by_residual[p] as int] < usize::MAX,
    ensures
        apportioned(n, floors, by_residual).len() == floors.len(),
        apportioned(n, floors, by_residual)[by_residual[p] as int] == floors[by_residual[p] as int]
            + if p < n - total(floors) {
            1int
        } else {
            0
        },
{
    let extra = topped_up(n, floors, by_residual);
    let i = by_residual[p];
    assert(i < floors.len());
    if p < n - total(floors) {
        assert(extra[p] == i);
        assert(extra.contains(i));
    } else if extra.contains(i) {
        let q = extra.index_of(i);
        assert(by_residual[q] == i);
    }
}

/// A mix lists every algorithm as often as it is given, one algorithm
/// after the other.
pub proof fn mix_lists_each_algorithm_as_often_as_given(
    algos: Seq<NodeAlgoKind>,
    counts: Seq<usize>,
    k: int,
    i: int,
)
    requires
        0 <= k < algos.len(),
        algos.len() <= counts.len(),
        0 <= i < counts[k],
    ensures
        repeated(algos, counts).len() == total(counts.take(algos.len() as int)),
        total(counts.take(k)) + i < repeated(algos, counts).len(),
        repeated(algos, counts)[total(counts.take(k)) + i] == algos[k],
    decreases algos.len(),
{
    let n = algos.len();
    let last = n - 1;
    lemma_repeated_len(algos.drop_last(), counts);
    lemma_repeated_len(algos, counts);
    let before = repeated(algos.drop_last(), counts);
    if k < last {
        mix_lists_each_algorithm_as_often_as_given(algos.drop_last(), counts, k, i);
        assert(algos.drop_last()[k] == algos[k]);
    } else {
        assert(counts.take(k) == counts.take(last));
    }
}

proof fn lemma_repeated_len(algos: Seq<NodeAlgoKind>, counts: Seq<usize>)
    requires
        algos.len() <= counts.len(),
    ensures
        repeated(algos, counts).len() == total(counts.take(algos.len() as int)),
    decreases algos.len(),
{
    let t = counts.take(algos.len() as int);
    if algos.len() > 0 {
        lemma_repeated_len(algos.drop_last(), counts);
        assert(t.drop_last() =~= counts.take(algos.len() - 1));
    }
}

/// The assignment of a mix is a draw of the order of its list, and each
/// node runs the algorithm at its place there; a node past the list, and
/// every node of a run without a mix, runs the algorithm of the run.
pub proof fn nodes_run_what_the_mix_assigns(
    cfg: AlgoCfg,
    n: usize,
    shares: Option<MixShares>,
    seed: u64,
    i: int,
)
    requires
        0 <= i < n,
    ensures
        node_algos(cfg, n, shares, seed).len() == n,
        !(cfg is Mix) ==> node_algos(cfg, n, shares, seed)[i] == starting_algo(cfg),
        cfg matches AlgoCfg::Mix { population } ==> {
            let kinds = assigned_mix(
                n,
                population@,
                shares->0.floors@,
                shares->0.by_residual@,
                seed,
            );
            let all = repeated(
                algos_of(population@),
                apportioned(n, shares->0.floors@, shares->0.by_residual@),
            );
            let order = rng::order_draw(rng::seeded(seed ^ MIX_SUBSEED), all.len()).0;
            &&& kinds.len() == order.len()
            &&& i < kinds.len() ==> kinds[i] == all[order[i]]
            &&& i < kinds.len() ==> node_algos(cfg, n, shares, seed)[i] == graph::algo_of(kinds[i])
            &&& i >= kinds.len() ==> node_algos(cfg, n, shares, seed)[i] == starting_algo(cfg)
            &&& forall|k: int|
                0 <= k < population@.len() ==> #[trigger] algos_of(population@)[k]
                    == population@[k].algo
        },
{
}

/// An algorithm takes its settings from the configuration: the stagger
/// and, where it has them, trickle, batch size and capacities. A mix
/// starts its nodes unstaggered.
pub proof fn algorithm_takes_its_settings(
    stagger_ms: u64,
    trickle_ms: u64,
    min_batch_size: usize,
    caps: (u32, u32, u32),
    offset: Option<u64>,
)
    ensures
        starting_algo(AlgoCfg::Flooding {  }) == NodeAlgo::Flooding,
        starting_algo(AlgoCfg::Cln { stagger_ms }) == (NodeAlgo::Cln { stagger_ms }),
        starting_algo(AlgoCfg::Lnd { stagger_ms, trickle_ms, min_batch_size }) == (NodeAlgo::Lnd {
            stagger_ms,
            trickle_ms,
            min_batch_size,
        }),
        forall|population: Vec<MixEntry>|
            #[trigger] starting_algo(AlgoCfg::Mix { population }) == (NodeAlgo::Cln {
                stagger_ms: 0,
            }),
        ({
            let s = starting_algo(
                AlgoCfg::Sketch {
                    stagger_ms,
                    capacity_chan_updates: caps.0,
                    capacity_node_anns: caps.1,
                    capacity_chan_anns: caps.2,
                    peer_offset_max_ms: offset,
                },
            );
            let k = graph::algo_of(
                NodeAlgoKind::Sketch {
                    stagger_ms,
                    capacity_chan_updates: caps.0,
                    capacity_node_anns: caps.1,
                    capacity_chan_anns: caps.2,
                    peer_offset_max_ms: offset,
                },
            );
            &&& s == (NodeAlgo::Sketch {
                stagger_ms,
                capacity_chan_updates: caps.0,
                capacity_node_anns: caps.1,
                capacity_chan_anns: caps.2,
            })
            &&& k == s
            &&& stagger_ms_of(s) == stagger_ms
        }),
        graph::algo_of(NodeAlgoKind::Cln { stagger_ms }) == (NodeAlgo::Cln { stagger_ms }),
        graph::algo_of(NodeAlgoKind::Lnd { stagger_ms, trickle_ms, min_batch_size }) == (
        NodeAlgo::Lnd { stagger_ms, trickle_ms, min_batch_size }),
        stagger_ms_of(NodeAlgo::Flooding) == 0,
        stagger_ms_of(NodeAlgo::Cln { stagger_ms }) == stagger_ms,
        stagger_ms_of(NodeAlgo::Lnd { stagger_ms, trickle_ms, min_batch_size }) == stagger_ms,
{
}

/// A mix takes its sketch settings from the first entry that runs
/// sketches, and has none where no entry does.
pub proof fn first_sketch_entry_sets_the_sketches(population: Seq<MixEntry>, i: int)
    requires
        0 <= i <= population.len(),
        forall|j: int| 0 <= j < i ==> !((#[trigger] population[j]).algo is Sketch),
    ensures
        i == population.len() ==> first_settings(population) is None,
        i < population.len() ==> (population[i].algo matches NodeAlgoKind::Sketch {
            stagger_ms,
            capacity_chan_updates,
            capacity_node_anns,
            capacity_chan_anns,
            peer_offset_max_ms,
        } ==> first_settings(population) == Some(
            SketchSettings {
                stagger_ms,
                capacity_chan_updates,
                capacity_node_anns,
                capacity_chan_anns,
                peer_offset_max_ms,
            },
        )),
    decreases population.len(),
{
    if i > 0 {
        let rest = population.skip(1);
        assert(!(population[0].algo is Sketch));
        assert forall|j: int| 0 <= j < i - 1 implies !((#[trigger] rest[j]).algo is Sketch) by {
            assert(rest[j] == population[j + 1]);
        }
        first_sketch_entry_sets_the_sketches(rest, i - 1);
        if i < population.len() {
            assert(rest[i - 1] == population[i]);
        }
    }
}

/// Each algorithm has its own target of peers; sketch nodes take that of
/// `cln` where they have none. The largest is one of the targets, and no
/// target is above it.
pub proof fn largest_target_bounds_all(k: KByAlgo, a: NodeAlgo)
    ensures
        k.target(a) <= k.largest(),
        a is Flooding ==> k.target(a) == k.flooding,
        a is Cln ==> k.target(a) == k.cln,
        a is Lnd ==> k.target(a) == k.lnd,
        a is Sketch && k.sketch is None ==> k.target(a) == k.cln,
        a is Sketch && k.sketch is Some ==> k.target(a) == k.sketch->0,
        k.largest() == k.flooding || k.largest() == k.cln || k.largest() == k.lnd || k.sketch
            == Some(k.largest()),
{
}

/// Nodes are numbered in the order of their ids, each with its own
/// algorithm, target and cap.
pub proof fn nodes_are_numbered_in_order(
    ids: Seq<NodeId>,
    algos: Seq<NodeAlgo>,
    k: KByAlgo,
    n: usize,
    i: int,
)
    requires
        0 <= i < ids.len() <= u32::MAX,
        ids.len() == algos.len(),
    ensures
        nodes_with(ids, algos).len() == ids.len(),
        nodes_with(ids, algos)[i].id == ids[i],
        nodes_with(ids, algos)[i].idx == i,
        nodes_with(ids, algos)[i].algo == algos[i],
        targets(k, algos).len() == algos.len(),
        targets(k, algos)[i] == k.target(algos[i]),
        peer_caps(ids.len()).len() == ids.len(),
        peer_caps(ids.len())[i] == MAX_PEER_COUNTERPARTIES,
        dense_ids(n).len() == n,
        i < n ==> dense_ids(n)[i] == i,
{
}

/// One node's update, or one of every node, is sent at the start; drawn
/// and replayed schedules are taken as they were streamed.
pub proof fn schedule_is_what_is_configured(
    event: EventCfg,
    nodes: Seq<NodeId>,
    registry: &ChannelRegistry,
    streamed: Seq<ScheduledEvent>,
)
    ensures
        ({
            let made = made_events(event, nodes, registry, streamed);
            &&& event is PoissonRandom || event is ParquetReplay ==> made == streamed
            &&& event matches EventCfg::OneShotSingle { node } ==> {
                let owned = channels::owned_in(registry.rows@, nodes[node as int]);
                &&& made.len() == if node < nodes.len() && owned.len() > 0 {
                    1nat
                } else {
                    0nat
                }
                &&& made.len() == 1 ==> made[0].0.total_nanos() == 0 && made[0].1
                    == nodes[node as int] && made[0].2.scid == Some(owned[0].0)
                    && made[0].2.direction == owned[0].1 && made[0].2.size_bytes == ONE_SHOT_SIZE
                    && made[0].2.kind == crate::message::GossipKind::ChannelUpdate
            }
            &&& event is OneShotAll ==> made == oneshot::one_each(
                OneShotAll {
                    at: SimDuration { secs: 0, nanos: 0 },
                    size_bytes: ONE_SHOT_SIZE,
                },
                nodes,
                registry,
            )
        }),
{
}

/// A node's slot is of its algorithm, and its place there is the number
/// of nodes before it that run the same.
pub proof fn slot_counts_the_nodes_before(nodes: Seq<NodeMeta>, v: int)
    requires
        0 <= v < nodes.len() <= usize::MAX,
    ensures
        ({
            let at = nodes.take(v).filter(
                |m: NodeMeta|
                    match nodes[v].algo {
                        NodeAlgo::Flooding => m.algo is Flooding,
                        NodeAlgo::Cln { .. } => m.algo is Cln,
                        NodeAlgo::Lnd { .. } => m.algo is Lnd,
                        NodeAlgo::Sketch { .. } => m.algo is Sketch,
                    },
            ).len();
            &&& nodes[v].algo is Flooding ==> slot_of(nodes, v) == Slot::Flooding(at as usize)
            &&& nodes[v].algo is Cln ==> slot_of(nodes, v) == Slot::Cln(at as usize)
            &&& nodes[v].algo is Lnd ==> slot_of(nodes, v) == Slot::Lnd(at as usize)
            &&& nodes[v].algo is Sketch ==> slot_of(nodes, v) == Slot::Sketch(at as usize)
        }),
{
    let p = |m: NodeMeta|
        match nodes[v].algo {
            NodeAlgo::Flooding => m.algo is Flooding,
            NodeAlgo::Cln { .. } => m.algo is Cln,
            NodeAlgo::Lnd { .. } => m.algo is Lnd,
            NodeAlgo::Sketch { .. } => m.algo is Sketch,
        };
    lemma_same_kind_filter(nodes, v, v as nat, p);
}

proof fn lemma_same_kind_filter(
    nodes: Seq<NodeMeta>,
    v: int,
    upto: nat,
    p: spec_fn(NodeMeta) -> bool,
)
    requires
        0 <= v < nodes.len(),
        upto <= nodes.len(),
        forall|m: NodeMeta| #[trigger] p(m) == same_kind(m.algo, nodes[v].algo),
    ensures
        same_kind_before(nodes, v, upto) == nodes.take(upto as int).filter(p).len(),
    decreases upto,
{
    reveal(Seq::filter);
    let t = nodes.take(upto as int);
    if upto > 0 {
        lemma_same_kind_filter(nodes, v, (upto - 1) as nat, p);
        assert(t.drop_last() =~= nodes.take(upto - 1));
    }
}

/// Every link is wired in both directions, and nothing else is: as often
/// as the two are linked, and node by node.
pub proof fn links_are_wired_both_ways(links: Seq<(int, int)>, n: nat, v: int, w: int)
    ensures
        wires(links, n).contains((v, w)) <==> 0 <= v < n && graphs::linked(links, v, w),
        0 <= v < n && 0 <= w < n ==> (wires(links, n).contains((v, w)) <==> wires(
            links,
            n,
        ).contains((w, v))),
        n == 0 ==> wires(links, n).len() == 0,
        wires(links, n + 1).len() == wires(links, n).len() + graphs::neighbours(
            links,
            n as int,
        ).len(),
        wires(links, n + 1).take(wires(links, n).len() as int) == wires(links, n),
{
    lemma_wires(links, n, v, w);
    lemma_wires(links, n, w, v);
    assert(graphs::linked(links, v, w) ==> graphs::linked(links, w, v)) by {
        if graphs::linked(links, v, w) {
            let i = choose|i: int|
                0 <= i < links.len() && (#[trigger] links[i] == (v, w) || links[i] == (w, v));
            assert(links[i] == (w, v) || links[i] == (v, w));
        }
    }
    assert(graphs::linked(links, w, v) ==> graphs::linked(links, v, w)) by {
        if graphs::linked(links, w, v) {
            let i = choose|i: int|
                0 <= i < links.len() && (#[trigger] links[i] == (w, v) || links[i] == (v, w));
            assert(links[i] == (w, v) || links[i] == (v, w));
        }
    }
    assert(wires(links, n + 1).take(wires(links, n).len() as int) =~= wires(links, n));
}

proof fn lemma_wires(links: Seq<(int, int)>, n: nat, v: int, w: int)
    ensures
        wires(links, n).contains((v, w)) <==> 0 <= v < n && graphs::linked(links, v, w),
    decreases n,
{
    if n > 0 {
        let last = n - 1;
        let before = wires(links, last as nat);
        let here = wires_from(links, last);
        lemma_wires(links, last as nat, v, w);
        graphs::lemma_neighbours(links, last);
        let ns = graphs::neighbours(links, last);
        let now = wires(links, n);
        if before.contains((v, w)) {
            let p = before.index_of((v, w));
            assert(now[p] == (v, w));
        }
        if v == last && graphs::linked(links, v, w) {
            assert(ns.contains(w));
            let p = ns.index_of(w);
            assert(here[p] == (v, w));
            assert(now[before.len() + p] == (v, w));
        }
        if now.contains((v, w)) {
            let p = now.index_of((v, w));
            if p < before.len() {
                assert(before[p] == (v, w));
            } else {
                assert(here[p - before.len()] == (v, w));
                assert(ns[p - before.len()] == w);
                assert(ns.contains(w));
            }
        }
    }
}

/// Progress is reported when it is due, and then again one interval
/// later; nothing else moves the next report.
pub proof fn progress_is_reported_every_interval(d: Drive, now: SimDuration)
    requires
        d.wf(),
        d.report_at.secs + d.interval <= u64::MAX,
    ensures
        ({
            let (action, next) = d.decide(now);
            &&& action is Progress ==> d.interval > 0 && d.report_at.total_nanos()
                <= now.total_nanos() && next.report_at.total_nanos() == d.report_at.total_nanos()
                + d.interval * 1_000_000_000 && next.next == d.next
            &&& !(action is Progress) ==> next.report_at == d.report_at
            &&& next.deadline == d.deadline && next.interval == d.interval
        }),
{
}

/// The run ends at its deadline and not before: what decides is finished
/// only there, and is finished there once nothing is left to inject or
/// to report.
pub proof fn run_ends_at_its_deadline(d: Drive, now: SimDuration)
    ensures
        d.decide(now).0 is Finished ==> d.deadline.total_nanos() <= now.total_nanos(),
        d.deadline.total_nanos() <= now.total_nanos() && !(d.decide(now).0 is Inject) && !(d.decide(
            now,
        ).0 is Progress) ==> d.decide(now).0 is Finished,
        d.deadline.total_nanos() <= now.total_nanos() && d.phase == Phase::Check ==> d.decide(now).0
            is Finished,
{
}

/// What is due comes before everything else, the end included: after a
/// step the events that are due, one by one, and after them the report
/// that is due.
pub proof fn due_work_comes_first(d: Drive, now: SimDuration)
    requires
        d.phase == Phase::Drain,
        d.next <= d.events.len(),
    ensures
        ({
            let event = d.next < d.events.len() && d.events[d.next as int].0.total_nanos()
                <= now.total_nanos();
            let report = d.interval > 0 && d.report_at.total_nanos() <= now.total_nanos();
            let (action, next) = d.decide(now);
            &&& event ==> action is Inject && next.phase == Phase::Drain
            &&& !event && report ==> action is Progress && next.phase == Phase::Check
            &&& !event && !report && now.total_nanos() < d.deadline.total_nanos() ==> action is StepTo
                && next.phase == Phase::Drain
            &&& !event && !report && now.total_nanos() >= d.deadline.total_nanos() ==> action
                is Finished
        }),
{
}

/// A step goes to the first of three times: that of the next event, that
/// of the next report, and the deadline.
pub proof fn step_goes_to_the_first_of_what_is_next(d: Drive, now: SimDuration)
    requires
        d.next <= d.events.len(),
        d.decide(now).0 is StepTo,
    ensures
        ({
            let t = d.decide(now).0->StepTo_0;
            ||| t == d.deadline
            ||| d.next < d.events.len() && t == d.events[d.next as int].0
            ||| d.interval > 0 && t == d.report_at
        }),
{
}

/// A network has the nodes and channels that it is configured with, in
/// their order: those of the snapshot, with peers built for the targets
/// of their algorithms, or numbered ones, with the sampled channels and
/// the links of a regular graph.
pub proof fn network_is_what_is_configured(
    net: Network,
    cfg: SimConfig,
    snapshot: Option<LnSnapshot>,
    shares: Option<MixShares>,
    i: int,
)
    requires
        network_of(net, cfg, snapshot, shares),
        setup_fits(cfg, snapshot, shares),
        0 <= i < net.topology.nodes@.len(),
    ensures
        cfg.topology matches TopologyCfg::KRegular { n, k } ==> {
            &&& net.topology.nodes@.len() == n
            &&& net.topology.nodes@[i].id == i
            &&& net.topology.nodes@[i].idx == i
            &&& net.topology.nodes@[i].algo == node_algos(cfg.algo, n, shares, cfg.seed)[i]
            &&& net.topology.links() == graphs::widened(graphs::regular_links(n, k, cfg.seed))
            &&& net.registry.rows@ == channels::sampled(
                cfg.seed,
                n as u64,
                cfg.channels->0.count as nat,
            )
            &&& net.peer_stats is None
        },
        cfg.topology matches TopologyCfg::FromCsv { nodes_csv, channels_csv, k, enforce_hub_cap }
            ==> {
            let snap = snapshot->0;
            let ids = snap.nodes@;
            let algos = node_algos(cfg.algo, ids.len() as usize, shares, cfg.seed);
            &&& net.topology.nodes@.len() == ids.len()
            &&& net.topology.nodes@[i].id == ids[i]
            &&& net.topology.nodes@[i].idx == i
            &&& net.topology.nodes@[i].algo == algos[i]
            &&& net.registry.rows@ == snap.channels@
            &&& net.peer_stats is Some
            &&& (
                net.topology.links(),
                net.peer_stats->0.hub_rejected_edges as nat,
                net.peer_stats->0.replacements_added as nat,
            ) == synthetic::built(
                Seq::empty(),
                channels::row_arcs(snap.channels@, ids),
                ids.len() as usize,
                targets(k, algos),
                peer_caps(ids.len()),
                cfg.seed,
                enforce_hub_cap,
            )
        },
{
}

} // verus!
