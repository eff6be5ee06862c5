//! Degrees, distances and connectedness of the two graphs of a topology.
//!
//! Propagation time scales with the diameter of the peer graph, so these
//! figures tell before a run whether it can converge. Means are reported
//! as totals and counts. Channels carry traffic both ways, so the channel
//! graph is taken without its directions.

use petgraph::graph::UnGraph;
use rand_chacha::ChaCha8Rng;
use vstd::prelude::*;

use crate::graphs;
use crate::rng;
use crate::topology::graph;
use crate::topology::Topology;

verus! {

/// Sub-seed of the choice of sources.
pub const SOURCE_SUBSEED: u64 = 0xBF5;

/// Sub-seed that sets the channel graph's sources apart.
pub const CHANNEL_SUBSEED: u64 = 0xC0FFEE;

/// Figures of both graphs.
#[derive(Debug)]
pub struct TopologyMetrics {
    pub peers: GraphMetrics,
    pub channels: GraphMetrics,
}

/// Figures of one graph.
#[derive(Debug, Clone, Copy, PartialEq, Eq, Structural)]
pub struct GraphMetrics {
    pub n: usize,
    pub edges: usize,
    pub min_degree: usize,
    pub max_degree: usize,
    /// Sum of all degrees; divided by `n` it is the mean degree.
    pub total_degree: u64,
    /// Longest shortest path from a source.
    pub diameter: u32,
    /// Sum of the lengths of the shortest paths from the sources.
    pub total_distance: u128,
    /// Number of those paths; the sum divided by it is the mean length.
    pub paths: u64,
    /// Number of sources: all vertices where `exact` is set.
    pub bfs_sources: usize,
    pub exact: bool,
    /// Every source reaches every vertex.
    pub connected: bool,
    /// Most vertices reached from one source.
    pub largest_component_seen: usize,
}

/// Degree of a vertex.
pub open spec fn degree(es: Seq<(int, int)>, v: int) -> nat {
    graphs::neighbours(es, v).len()
}

/// Smallest degree of the first `upto` vertices; 0 for none.
pub open spec fn min_degree(es: Seq<(int, int)>, upto: nat) -> nat
    decreases upto,
{
    if upto == 0 {
        0
    } else if upto == 1 {
        degree(es, 0)
    } else {
        let before = min_degree(es, (upto - 1) as nat);
        let d = degree(es, upto - 1);
        if d < before {
            d
        } else {
            before
        }
    }
}

/// Largest degree of the first `upto` vertices; 0 for none.
pub open spec fn max_degree(es: Seq<(int, int)>, upto: nat) -> nat
    decreases upto,
{
    if upto == 0 {
        0
    } else {
        let before = max_degree(es, (upto - 1) as nat);
        let d = degree(es, upto - 1);
        if d > before {
            d
        } else {
            before
        }
    }
}

/// Sum of the degrees of the first `upto` vertices.
pub open spec fn total_degree(es: Seq<(int, int)>, upto: nat) -> nat
    decreases upto,
{
    if upto == 0 {
        0
    } else {
        total_degree(es, (upto - 1) as nat) + degree(es, upto - 1)
    }
}

/// Distance between two vertices, `None` where no walk joins them.
pub open spec fn distance(es: Seq<(int, int)>, a: int, b: int) -> Option<nat> {
    if graphs::reachable(es, a, b) {
        Some(choose|d: nat| #[trigger] graphs::hops(es, a, b, d))
    } else {
        None
    }
}

/// What is seen from one source among the first `upto` vertices.
pub struct Horizon {
    /// Largest distance.
    pub far: nat,
    /// Sum of the distances.
    pub total: nat,
    /// Number of vertices reached.
    pub reached: nat,
}

/// The horizon of `a` over the first `upto` vertices.
pub open spec fn horizon(es: Seq<(int, int)>, a: int, upto: nat) -> Horizon
    decreases upto,
{
    if upto == 0 {
        Horizon { far: 0, total: 0, reached: 0 }
    } else {
        let before = horizon(es, a, (upto - 1) as nat);
        match distance(es, a, upto - 1) {
            Some(d) => Horizon {
                far: if d > before.far {
                    d
                } else {
                    before.far
                },
                total: before.total + d,
                reached: before.reached + 1,
            },
            None => before,
        }
    }
}

/// What is seen from several sources.
pub struct Survey {
    pub far: nat,
    pub total: nat,
    pub paths: nat,
    pub largest: nat,
    pub connected: bool,
}

/// The survey from the given sources over `n` vertices.
pub open spec fn survey(es: Seq<(int, int)>, n: nat, sources: Seq<usize>) -> Survey
    decreases sources.len(),
{
    if sources.len() == 0 {
        Survey { far: 0, total: 0, paths: 0, largest: 0, connected: true }
    } else {
        let before = survey(es, n, sources.drop_last());
        let h = horizon(es, sources.last() as int, n);
        Survey {
            far: if h.far > before.far {
                h.far
            } else {
                before.far
            },
            total: before.total + h.total,
            paths: before.paths + h.reached,
            largest: if h.reached > before.largest {
                h.reached
            } else {
                before.largest
            },
            connected: before.connected && h.reached >= n,
        }
    }
}

/// The vertices `0..n`.
pub open spec fn all_vertices(n: usize) -> Seq<usize> {
    Seq::new(n as nat, |i: int| i as usize)
}

/// The sources: all vertices of a small graph, else a sample.
pub open spec fn sources(n: usize, seed: u64, max_exact_n: usize, sample: usize) -> Seq<usize> {
    if n <= max_exact_n {
        all_vertices(n)
    } else {
        rng::positions_draw(
            rng::seeded(seed ^ SOURCE_SUBSEED),
            n as nat,
            if sample <= n {
                sample
            } else {
                n
            },
        ).0.map_values(|p: int| p as usize)
    }
}

/// The figures of a graph with `n` vertices and the edges `es`.
pub open spec fn figures(
    m: GraphMetrics,
    es: Seq<(int, int)>,
    n: usize,
    seed: u64,
    max_exact_n: usize,
    sample: usize,
) -> bool {
    let from = sources(n, seed, max_exact_n, sample);
    let s = survey(es, n as nat, from);
    &&& m.n == n
    &&& m.edges == es.len()
    &&& m.min_degree == min_degree(es, n as nat)
    &&& m.max_degree == max_degree(es, n as nat)
    &&& m.total_degree == total_degree(es, n as nat)
    &&& m.diameter == s.far
    &&& m.total_distance == s.total
    &&& m.paths == s.paths
    &&& m.bfs_sources == from.len()
    &&& m.exact == (n <= max_exact_n)
    &&& m.connected == s.connected
    &&& m.largest_component_seen == s.largest
}

/// The channels without their directions: one edge for each pair of nodes
/// that share a channel, in the order of their first channel.
pub open spec fn undirected(arcs: Seq<(int, int, u64)>) -> Seq<(int, int)>
    decreases arcs.len(),
{
    if arcs.len() == 0 {
        Seq::empty()
    } else {
        let before = undirected(arcs.drop_last());
        let (a, b, _scid) = arcs.last();
        let e = if a < b {
            (a, b)
        } else {
            (b, a)
        };
        if e.0 == e.1 || before.contains(e) {
            before
        } else {
            before.push(e)
        }
    }
}

/// A shortest walk has one length.
proof fn lemma_distance(es: Seq<(int, int)>, a: int, b: int, d: nat)
    requires
        graphs::hops(es, a, b, d),
    ensures
        distance(es, a, b) == Some(d),
{
    let other = choose|e: nat| #[trigger] graphs::hops(es, a, b, e);
    assert(graphs::hops(es, a, b, other));
    if other < d {
        assert(graphs::reaches_in(es, a, b, other));
    }
    if d < other {
        assert(graphs::reaches_in(es, a, b, d));
    }
}

proof fn lemma_degree_bound(es: Seq<(int, int)>, v: int)
    ensures
        degree(es, v) <= es.len(),
    decreases es.len(),
{
    if es.len() > 0 {
        lemma_degree_bound(es.drop_last(), v);
    }
}

/// Distances from one vertex to all, `None` where a vertex is not
/// reached.
fn distances(g: &UnGraph<(), ()>, n: usize, start: usize) -> (r: Vec<Option<u32>>)
    requires
        n == graphs::size(*g),
        start < n,
    ensures
        r@.len() == n,
        forall|b: int|
            0 <= b < n ==> match #[trigger] r@[b] {
                Some(d) => distance(graphs::links(*g), start as int, b) == Some(d as nat),
                None => distance(graphs::links(*g), start as int, b) is None,
            },
{
    let ghost es = graphs::links(*g);
    let found: Vec<(usize, u32)> = graphs::hop_counts(g, start);
    let mut out: Vec<Option<u32>> = Vec::new();
    for i in 0..n
        invariant
            out@.len() == i,
            forall|b: int| 0 <= b < i ==> #[trigger] out@[b] is None,
    {
        out.push(None);
    }
    for i in 0..found.len()
        invariant
            es == graphs::links(*g),
            out@.len() == n,
            n == graphs::size(*g),
            forall|j: int|
                0 <= j < found@.len() ==> (#[trigger] found@[j]).0 < n && graphs::hops(
                    es,
                    start as int,
                    found@[j].0 as int,
                    found@[j].1 as nat,
                ),
            forall|b: int|
                0 <= b < n && #[trigger] out@[b] is Some ==> graphs::hops(
                    es,
                    start as int,
                    b,
                    out@[b]->0 as nat,
                ),
            forall|j: int|
                0 <= j < i ==> out@[(#[trigger] found@[j]).0 as int] is Some,
    {
        let (b, d) = found[i];
        assert(found@[i as int] == (b, d));
        out.set(b, Some(d));
    }
    proof {
        assert forall|b: int| 0 <= b < n implies match #[trigger] out@[b] {
            Some(d) => distance(es, start as int, b) == Some(d as nat),
            None => distance(es, start as int, b) is None,
        } by {
            if out@[b] is Some {
                lemma_distance(es, start as int, b, out@[b]->0 as nat);
            } else if graphs::reachable(es, start as int, b) {
                let j = choose|j: int| 0 <= j < found@.len() && (#[trigger] found@[j]).0 == b;
                assert(out@[found@[j].0 as int] is Some);
            }
        }
    }
    out
}

/// Largest distance from a vertex, sum of the distances, and number of
/// vertices reached.
fn look_around(g: &UnGraph<(), ()>, n: usize, start: usize) -> (r: (u32, u64, usize))
    requires
        n == graphs::size(*g),
        n <= u32::MAX,
        start < n,
    ensures
        (Horizon { far: r.0 as nat, total: r.1 as nat, reached: r.2 as nat }) == horizon(
            graphs::links(*g),
            start as int,
            n as nat,
        ),
        r.2 <= n,
{
    let ghost es = graphs::links(*g);
    let dists: Vec<Option<u32>> = distances(g, n, start);
    let mut far: u32 = 0;
    let mut total: u64 = 0;
    let mut reached: usize = 0;
    for b in 0..n
        invariant
            es == graphs::links(*g),
            n <= u32::MAX,
            dists@.len() == n,
            forall|v: int|
                0 <= v < n ==> match #[trigger] dists@[v] {
                    Some(d) => distance(es, start as int, v) == Some(d as nat),
                    None => distance(es, start as int, v) is None,
                },
            (Horizon { far: far as nat, total: total as nat, reached: reached as nat })
                == horizon(es, start as int, b as nat),
            reached <= b,
            total <= b * 0xFFFF_FFFF,
    {
        match dists[b] {
            Some(d) => {
                if d > far {
                    far = d;
                }
                total = total + d as u64;
                reached = reached + 1;
            },
            None => {},
        }
    }
    (far, total, reached)
}

/// The vertices from which distances are taken.
fn choose_sources(n: usize, seed: u64, max_exact_n: usize, sample_sources: usize) -> (r: Vec<usize>)
    ensures
        r@ == sources(n, seed, max_exact_n, sample_sources),
        r@.len() <= n,
        forall|i: int| 0 <= i < r@.len() ==> (#[trigger] r@[i]) < n,
{
    let mut pool: Vec<usize> = Vec::new();
    for i in 0..n
        invariant
            pool@ == all_vertices(i),
    {
        pool.push(i);
        assert(pool@ =~= all_vertices((i + 1) as usize));
    }
    if n <= max_exact_n {
        pool
    } else {
        let mut r: ChaCha8Rng = rng::from_seed(seed ^ SOURCE_SUBSEED);
        let amount: usize = if sample_sources <= n {
            sample_sources
        } else {
            n
        };
        let ghost start = r;
        let out: Vec<usize> = rng::choose_multiple(&mut r, &pool, amount);
        proof {
            let at = rng::positions_draw(start, pool@.len(), amount).0;
            assert forall|i: int| 0 <= i < out@.len() implies out@[i] == #[trigger] at[i] as usize
                && out@[i] < n by {
                assert(pool@[at[i]] == at[i] as usize);
            }
            assert(out@ =~= at.map_values(|p: int| p as usize));
            assert forall|i: int| 0 <= i < out@.len() implies (#[trigger] out@[i]) < n by {
                assert(out@[i] == at[i] as usize);
            }
        }
        out
    }
}

/// The figures of an undirected graph.
fn stats_undirected(
    g: &UnGraph<(), ()>,
    seed: u64,
    max_exact_n: usize,
    sample_sources: usize,
) -> (r: GraphMetrics)
    requires
        graphs::size(*g) <= u32::MAX,
        graphs::links(*g).len() <= u32::MAX,
    ensures
        figures(
            r,
            graphs::links(*g),
            graphs::size(*g) as usize,
            seed,
            max_exact_n,
            sample_sources,
        ),
{
    let ghost es = graphs::links(*g);
    let n: usize = graphs::vertex_count(g);
    let edges: usize = graphs::link_count(g);
    let mut least: usize = 0;
    let mut most: usize = 0;
    let mut sum: u64 = 0;
    for v in 0..n
        invariant
            es == graphs::links(*g),
            es.len() <= u32::MAX,
            n == graphs::size(*g),
            n <= u32::MAX,
            least == min_degree(es, v as nat),
            most == max_degree(es, v as nat),
            sum == total_degree(es, v as nat),
            sum <= v * 0xFFFF_FFFF,
    {
        let near: Vec<usize> = graphs::neighbours_of(g, v);
        let d: usize = near.len();
        proof {
            assert(graphs::as_ints(near@).len() == d);
            lemma_degree_bound(es, v as int);
        }
        if v == 0 || d < least {
            least = d;
        }
        if d > most {
            most = d;
        }
        sum = sum + d as u64;
    }
    let from: Vec<usize> = choose_sources(n, seed, max_exact_n, sample_sources);
    let mut far: u32 = 0;
    let mut total: u128 = 0;
    let mut paths: u64 = 0;
    let mut largest: usize = 0;
    let mut connected: bool = true;
    assert(from@.take(0) =~= Seq::<usize>::empty());
    for i in 0..from.len()
        invariant
            es == graphs::links(*g),
            n == graphs::size(*g),
            n <= u32::MAX,
            from@.len() <= n,
            forall|j: int| 0 <= j < from@.len() ==> (#[trigger] from@[j]) < n,
            (Survey {
                far: far as nat,
                total: total as nat,
                paths: paths as nat,
                largest: largest as nat,
                connected,
            }) == survey(es, n as nat, from@.take(i as int)),
            total <= i * 0xFFFF_FFFF_FFFF_FFFF,
            paths <= i * 0xFFFF_FFFF,
    {
        let start: usize = from[i];
        proof {
            assert(from@.take(i + 1).drop_last() =~= from@.take(i as int));
            assert(from@.take(i + 1).last() == start);
        }
        let (f, t, reached) = look_around(g, n, start);
        if f > far {
            far = f;
        }
        total = total + t as u128;
        paths = paths + reached as u64;
        if reached > largest {
            largest = reached;
        }
        if reached < n {
            connected = false;
        }
    }
    assert(from@.take(from@.len() as int) =~= from@);
    GraphMetrics {
        n,
        edges,
        min_degree: least,
        max_degree: most,
        total_degree: sum,
        diameter: far,
        total_distance: total,
        paths,
        bfs_sources: from.len(),
        exact: n <= max_exact_n,
        connected,
        largest_component_seen: largest,
    }
}

proof fn lemma_undirected(arcs: Seq<(int, int, u64)>, n: int)
    requires
        graph::arcs_within(arcs, n),
    ensures
        undirected(arcs).len() <= arcs.len(),
        forall|i: int|
            0 <= i < undirected(arcs).len() ==> 0 <= (#[trigger] undirected(arcs)[i]).0
                < undirected(arcs)[i].1 && undirected(arcs)[i].1 < n,
    decreases arcs.len(),
{
    if arcs.len() > 0 {
        let init = arcs.drop_last();
        assert forall|i: int| 0 <= i < init.len() implies 0 <= (#[trigger] init[i]).0 < n && 0
            <= init[i].1 < n && init[i].0 != init[i].1 by {
            assert(init[i] == arcs[i]);
        }
        lemma_undirected(init, n);
        assert(arcs[arcs.len() - 1] == arcs.last());
    }
}

/// The channel graph of a topology without its directions.
fn project_channels_undirected(topo: &Topology) -> (un: UnGraph<(), ()>)
    requires
        topo.wf(),
    ensures
        graphs::size(un) == topo.nodes@.len(),
        graphs::links(un) == undirected(topo.arcs()),
        graphs::links(un).len() <= topo.arcs().len(),
{
    let n: usize = topo.len();
    let ghost arcs = topo.arcs();
    let mut un: UnGraph<(), ()> = graphs::undirected(n);
    for i in 0..n
        invariant
            n <= u32::MAX,
            graphs::size(un) == i,
            graphs::links(un) == Seq::<(int, int)>::empty(),
    {
        graphs::add_vertex(&mut un);
    }
    let edges: Vec<(usize, usize)> = graphs::arc_list(&topo.channels);
    assert(arcs.take(0) =~= Seq::<(int, int, u64)>::empty());
    for i in 0..edges.len()
        invariant
            topo.wf(),
            n == topo.nodes@.len(),
            arcs == topo.arcs(),
            edges@.len() == arcs.len(),
            forall|j: int|
                0 <= j < edges@.len() ==> (#[trigger] edges@[j]).0 == arcs[j].0 && edges@[j].1
                    == arcs[j].1,
            graphs::size(un) == n,
            graphs::links(un) == undirected(arcs.take(i as int)),
    {
        let (a, b) = edges[i];
        proof {
            assert(edges@[i as int] == (a, b));
            assert(arcs[i as int].0 == a && arcs[i as int].1 == b);
            assert(arcs.take(i + 1).drop_last() =~= arcs.take(i as int));
            assert(arcs.take(i + 1).last() == arcs[i as int]);
            assert forall|j: int| 0 <= j < i implies 0 <= (#[trigger] arcs.take(i as int)[j]).0 < n
                && 0 <= arcs.take(i as int)[j].1 < n && arcs.take(i as int)[j].0 != arcs.take(
                i as int,
            )[j].1 by {
                assert(arcs.take(i as int)[j] == arcs[j]);
            }
            lemma_undirected(arcs.take(i as int), n as int);
        }
        let lo: usize = if a < b {
            a
        } else {
            b
        };
        let hi: usize = if a < b {
            b
        } else {
            a
        };
        let ghost before = graphs::links(un);
        proof {
            if before.contains((lo as int, hi as int)) {
                let j = before.index_of((lo as int, hi as int));
                assert(before[j] == (lo as int, hi as int));
            }
            if graphs::linked(before, lo as int, hi as int) {
                let j = choose|j: int|
                    0 <= j < before.len() && (#[trigger] before[j] == (lo as int, hi as int)
                        || before[j] == (hi as int, lo as int));
                assert(before[j].0 < before[j].1);
            }
        }
        if lo != hi && !graphs::has_link(&un, lo, hi) {
            graphs::add_link(&mut un, lo, hi);
        }
    }
    proof {
        assert(arcs.take(arcs.len() as int) =~= arcs);
        lemma_undirected(arcs, n as int);
    }
    un
}

/// The figures of the peer graph and of the channel graph.
pub fn compute(topo: &Topology, seed: u64, max_exact_n: usize, sample_sources: usize) -> (r:
    TopologyMetrics)
    requires
        topo.wf(),
    ensures
        figures(
            r.peers,
            topo.links(),
            topo.nodes@.len() as usize,
            seed,
            max_exact_n,
            sample_sources,
        ),
        figures(
            r.channels,
            undirected(topo.arcs()),
            topo.nodes@.len() as usize,
            seed ^ CHANNEL_SUBSEED,
            max_exact_n,
            sample_sources,
        ),
{
    let peers: GraphMetrics = stats_undirected(&topo.peers, seed, max_exact_n, sample_sources);
    let un: UnGraph<(), ()> = project_channels_undirected(topo);
    let channels: GraphMetrics = stats_undirected(
        &un,
        seed ^ CHANNEL_SUBSEED,
        max_exact_n,
        sample_sources,
    );
    TopologyMetrics { peers, channels }
}

/// Where every vertex is a source, the graph is reported as connected if
/// and only if every vertex reaches every other.
pub proof fn connected_means_all_reach_all(
    m: GraphMetrics,
    es: Seq<(int, int)>,
    n: usize,
    seed: u64,
    max_exact_n: usize,
    sample: usize,
)
    requires
        figures(m, es, n, seed, max_exact_n, sample),
        m.exact,
    ensures
        m.connected <==> forall|a: int, b: int|
            0 <= a < n && 0 <= b < n ==> #[trigger] graphs::reachable(es, a, b),
{
    lemma_survey_connected(es, n, n as nat);
    assert(all_vertices(n).take(n as int) =~= all_vertices(n));
}

proof fn lemma_survey_connected(es: Seq<(int, int)>, n: usize, upto: nat)
    requires
        upto <= n,
    ensures
        survey(es, n as nat, all_vertices(n).take(upto as int)).connected <==> forall|
            a: int,
            b: int,
        |
            0 <= a < upto && 0 <= b < n ==> #[trigger] graphs::reachable(es, a, b),
    decreases upto,
{
    if upto > 0 {
        let prev = (upto - 1) as nat;
        lemma_survey_connected(es, n, prev);
        let now = all_vertices(n).take(upto as int);
        assert(now.drop_last() =~= all_vertices(n).take(prev as int));
        assert(now.last() == prev as usize);
        lemma_horizon_reached(es, prev as int, n as nat);
        if forall|a: int, b: int|
            0 <= a < upto && 0 <= b < n ==> #[trigger] graphs::reachable(es, a, b) {
            assert forall|b: int| 0 <= b < n implies #[trigger] graphs::reachable(
                es,
                prev as int,
                b,
            ) by {
            }
        }
    }
}

proof fn lemma_horizon_reached(es: Seq<(int, int)>, a: int, upto: nat)
    ensures
        horizon(es, a, upto).reached <= upto,
        horizon(es, a, upto).reached == upto <==> forall|b: int|
            0 <= b < upto ==> #[trigger] graphs::reachable(es, a, b),
    decreases upto,
{
    if upto > 0 {
        let prev = (upto - 1) as nat;
        lemma_horizon_reached(es, a, prev);
        if forall|b: int| 0 <= b < upto ==> #[trigger] graphs::reachable(es, a, b) {
            assert(graphs::reachable(es, a, prev as int));
        }
    }
}

/// The degree of a vertex is the number of edges that end at it.
pub proof fn degree_counts_edge_ends(es: Seq<(int, int)>, v: int)
    ensures
        degree(es, v) == es.filter(|e: (int, int)| e.0 == v || e.1 == v).len(),
    decreases es.len(),
{
    reveal(Seq::filter);
    if es.len() > 0 {
        degree_counts_edge_ends(es.drop_last(), v);
    }
}

/// The least and the greatest degree are degrees of vertices, and no
/// vertex has less or more.
pub proof fn extreme_degrees_are_attained(es: Seq<(int, int)>, n: nat, v: int)
    requires
        0 <= v < n,
    ensures
        min_degree(es, n) <= degree(es, v) <= max_degree(es, n),
        exists|u: int| 0 <= u < n && #[trigger] degree(es, u) == min_degree(es, n),
        exists|u: int| 0 <= u < n && #[trigger] degree(es, u) == max_degree(es, n),
    decreases n,
{
    let last = (n - 1) as nat;
    if n == 1 {
        assert(degree(es, 0) == min_degree(es, n));
        reveal_with_fuel(max_degree, 2);
        assert(degree(es, 0) == max_degree(es, n));
    } else {
        extreme_degrees_are_attained(
            es,
            last,
            if v < last {
                v
            } else {
                0
            },
        );
        let a = choose|u: int| 0 <= u < last && #[trigger] degree(es, u) == min_degree(es, last);
        let b = choose|u: int| 0 <= u < last && #[trigger] degree(es, u) == max_degree(es, last);
        let d = degree(es, last as int);
        assert(degree(es, a) == min_degree(es, n) || d == min_degree(es, n));
        assert(degree(es, b) == max_degree(es, n) || d == max_degree(es, n));
    }
}

/// Every edge counts at both of its ends: the degrees add up to twice the
/// number of edges.
pub proof fn degrees_add_up_to_twice_the_edges(es: Seq<(int, int)>, n: nat)
    requires
        forall|i: int|
            0 <= i < es.len() ==> 0 <= (#[trigger] es[i]).0 < n && 0 <= es[i].1 < n && es[i].0
                != es[i].1,
    ensures
        total_degree(es, n) == 2 * es.len(),
    decreases es.len(),
{
    if es.len() == 0 {
        lemma_total_step(es, n);
    } else {
        let init = es.drop_last();
        assert forall|i: int| 0 <= i < init.len() implies 0 <= (#[trigger] init[i]).0 < n && 0
            <= init[i].1 < n && init[i].0 != init[i].1 by {
            assert(init[i] == es[i]);
        }
        degrees_add_up_to_twice_the_edges(init, n);
        assert(es[es.len() - 1] == es.last());
        lemma_total_step(es, n);
    }
}

proof fn lemma_total_step(es: Seq<(int, int)>, n: nat)
    requires
        es.len() > 0 ==> es.last().0 != es.last().1,
    ensures
        es.len() == 0 ==> total_degree(es, n) == 0,
        es.len() > 0 ==> total_degree(es, n) == total_degree(es.drop_last(), n) + (if 0
            <= es.last().0 < n {
            1int
        } else {
            0
        }) + (if 0 <= es.last().1 < n {
            1int
        } else {
            0
        }),
    decreases n,
{
    if n > 0 {
        lemma_total_step(es, (n - 1) as nat);
        if es.len() == 0 {
            assert(graphs::neighbours(es, n - 1).len() == 0);
        }
    }
}

/// What a breadth-first search finds from a vertex: every further vertex
/// that is reached adds its distance in hops to the total, and one to the
/// number reached, and the farthest is as far as any of them. One that is
/// not reached adds nothing.
pub proof fn search_adds_the_hops(es: Seq<(int, int)>, a: int, upto: nat, d: nat)
    ensures
        ({
            let before = horizon(es, a, upto);
            let now = horizon(es, a, upto + 1);
            &&& upto == 0 ==> before.far == 0 && before.total == 0 && before.reached == 0
            &&& graphs::hops(es, a, upto as int, d) ==> {
                &&& now.total == before.total + d
                &&& now.reached == before.reached + 1
                &&& now.far >= d && now.far >= before.far && (now.far == d || now.far
                    == before.far)
            }
            &&& !graphs::reachable(es, a, upto as int) ==> now == before
        }),
{
    if graphs::hops(es, a, upto as int, d) {
        lemma_distance(es, a, upto as int, d);
    }
}

/// A further source adds its paths and their lengths to the figures; the
/// diameter is the greatest distance from any source, the largest
/// component seen the greatest number reached from one, and the graph
/// is connected where each source reaches all.
pub proof fn survey_adds_up_its_sources(
    es: Seq<(int, int)>,
    n: nat,
    sources: Seq<usize>,
    s: usize,
)
    ensures
        ({
            let before = survey(es, n, sources);
            let now = survey(es, n, sources.push(s));
            let h = horizon(es, s as int, n);
            &&& sources.len() == 0 ==> before.far == 0 && before.total == 0 && before.paths == 0
                && before.largest == 0 && before.connected
            &&& now.total == before.total + h.total
            &&& now.paths == before.paths + h.reached
            &&& now.far >= h.far && now.far >= before.far && (now.far == h.far || now.far
                == before.far)
            &&& now.largest >= h.reached && now.largest >= before.largest && (now.largest
                == h.reached || now.largest == before.largest)
            &&& now.connected <==> before.connected && h.reached == n
        }),
{
    assert(sources.push(s).drop_last() =~= sources);
    lemma_horizon_reached(es, s as int, n);
}

/// Where all vertices are sources, the diameter is a distance between
/// two vertices, and no two that reach each other are further apart.
pub proof fn diameter_is_the_greatest_distance(
    m: GraphMetrics,
    es: Seq<(int, int)>,
    n: usize,
    seed: u64,
    max_exact_n: usize,
    sample: usize,
    a: int,
    b: int,
    d: nat,
)
    requires
        figures(m, es, n, seed, max_exact_n, sample),
        m.exact,
        0 <= a < n,
        0 <= b < n,
        graphs::hops(es, a, b, d),
    ensures
        d <= m.diameter,
        exists|x: int, y: int|
            0 <= x < n && 0 <= y < n && #[trigger] graphs::hops(es, x, y, m.diameter as nat),
        m.bfs_sources == n,
{
    assert(all_vertices(n).take(n as int) =~= all_vertices(n));
    lemma_survey_far(es, n, n as nat, a, b, d);
}

proof fn lemma_survey_far(es: Seq<(int, int)>, n: usize, upto: nat, a: int, b: int, d: nat)
    requires
        0 < upto <= n,
    ensures
        ({
            let far = survey(es, n as nat, all_vertices(n).take(upto as int)).far;
            &&& 0 <= a < upto && 0 <= b < n && graphs::hops(es, a, b, d) ==> d <= far
            &&& exists|x: int, y: int|
                0 <= x < n && 0 <= y < n && #[trigger] graphs::hops(es, x, y, far)
        }),
    decreases upto,
{
    let prev = (upto - 1) as nat;
    let now = all_vertices(n).take(upto as int);
    assert(now.drop_last() =~= all_vertices(n).take(prev as int));
    assert(now.last() == prev as usize);
    lemma_horizon_far(es, prev as int, n as nat, b, d);
    lemma_self_hop(es, prev as int);
    lemma_horizon_far(es, prev as int, n as nat, prev as int, 0);
    let h = horizon(es, prev as int, n as nat).far;
    let y = choose|y: int| 0 <= y < n && #[trigger] graphs::hops(es, prev as int, y, h);
    assert(graphs::hops(es, prev as int, y, h));
    if prev > 0 {
        let before = survey(es, n as nat, now.drop_last()).far;
        lemma_survey_far(es, n, prev, a, b, d);
        let (x, z) = choose|x: int, z: int|
            0 <= x < n && 0 <= z < n && #[trigger] graphs::hops(es, x, z, before);
        assert(graphs::hops(es, x, z, before));
        assert(survey(es, n as nat, now).far == h || survey(es, n as nat, now).far == before);
    } else {
        assert(survey(es, n as nat, now.drop_last()).far == 0);
        assert(survey(es, n as nat, now).far == h);
    }
}

proof fn lemma_self_hop(es: Seq<(int, int)>, a: int)
    ensures
        graphs::hops(es, a, a, 0),
{
    let path = seq![a];
    assert(graphs::is_walk(es, path));
    assert(path.len() == 0nat + 1 && path[0] == a && path.last() == a);
    assert(graphs::reaches_in(es, a, a, 0));
}

proof fn lemma_horizon_far(es: Seq<(int, int)>, a: int, upto: nat, b: int, d: nat)
    ensures
        0 <= b < upto && graphs::hops(es, a, b, d) ==> d <= horizon(es, a, upto).far && exists|
            y: int,
        |
            0 <= y < upto && #[trigger] graphs::hops(es, a, y, horizon(es, a, upto).far),
    decreases upto,
{
    if upto > 0 {
        let prev = (upto - 1) as nat;
        let far = horizon(es, a, prev).far;
        lemma_horizon_far(es, a, prev, b, d);
        if 0 <= b < upto && graphs::hops(es, a, b, d) {
            if b < prev {
                let y = choose|y: int| 0 <= y < prev && #[trigger] graphs::hops(es, a, y, far);
                assert(graphs::hops(es, a, y, far));
            } else {
                lemma_distance(es, a, b, d);
                lemma_some_far(es, a, prev);
            }
            if graphs::reachable(es, a, prev as int) {
                let e = choose|e: nat| #[trigger] graphs::hops(es, a, prev as int, e);
                assert(graphs::hops(es, a, prev as int, e));
                lemma_distance(es, a, prev as int, e);
            }
        }
    }
}

proof fn lemma_some_far(es: Seq<(int, int)>, a: int, upto: nat)
    ensures
        horizon(es, a, upto).far > 0 ==> exists|y: int|
            0 <= y < upto && #[trigger] graphs::hops(es, a, y, horizon(es, a, upto).far),
    decreases upto,
{
    if upto > 0 {
        let prev = (upto - 1) as nat;
        let far = horizon(es, a, prev).far;
        lemma_some_far(es, a, prev);
        if graphs::reachable(es, a, prev as int) {
            let e = choose|e: nat| #[trigger] graphs::hops(es, a, prev as int, e);
            assert(graphs::hops(es, a, prev as int, e));
            lemma_distance(es, a, prev as int, e);
        }
        if far > 0 {
            let y = choose|y: int| 0 <= y < prev && #[trigger] graphs::hops(es, a, y, far);
            assert(graphs::hops(es, a, y, far));
        }
    }
}

/// Small graphs are surveyed from every vertex, larger ones from a sample
/// of the size that is asked for, or of all where there are fewer.
pub proof fn small_graphs_are_surveyed_whole(n: usize, seed: u64, max_exact_n: usize, sample: usize)
    ensures
        n <= max_exact_n ==> sources(n, seed, max_exact_n, sample).len() == n && forall|i: int|
            0 <= i < n ==> #[trigger] sources(n, seed, max_exact_n, sample)[i] == i,
        n > max_exact_n && sample <= n ==> sources(n, seed, max_exact_n, sample)
            == rng::positions_draw(
            rng::seeded(seed ^ SOURCE_SUBSEED),
            n as nat,
            sample,
        ).0.map_values(|p: int| p as usize),
        n > max_exact_n && sample > n ==> sources(n, seed, max_exact_n, sample)
            == rng::positions_draw(
            rng::seeded(seed ^ SOURCE_SUBSEED),
            n as nat,
            n,
        ).0.map_values(|p: int| p as usize),
{
}

/// Channels are projected to edges: two vertices are joined, once, where
/// a channel joins them in either direction, and more channels only add
/// edges behind.
pub proof fn projection_joins_channel_ends(
    arcs: Seq<(int, int, u64)>,
    arc: (int, int, u64),
    a: int,
    b: int,
)
    ensures
        undirected(arcs).no_duplicates(),
        undirected(arcs).contains((a, b)) <==> a < b && exists|i: int|
            0 <= i < arcs.len() && (((#[trigger] arcs[i]).0 == a && arcs[i].1 == b) || (arcs[i].0
                == b && arcs[i].1 == a)),
        undirected(arcs).len() <= undirected(arcs.push(arc)).len(),
        undirected(arcs.push(arc)).take(undirected(arcs).len() as int) == undirected(arcs),
    decreases arcs.len(),
{
    assert(arcs.push(arc).drop_last() =~= arcs);
    assert(undirected(arcs.push(arc)).take(undirected(arcs).len() as int) =~= undirected(arcs));
    if arcs.len() > 0 {
        let init = arcs.drop_last();
        let last = arcs.last();
        let before = undirected(init);
        let now = undirected(arcs);
        projection_joins_channel_ends(init, last, a, b);
        assert(init.push(last) =~= arcs);
        let joins = |i: int|
            (arcs[i].0 == a && arcs[i].1 == b) || (arcs[i].0 == b && arcs[i].1 == a);
        let e = if last.0 < last.1 {
            (last.0, last.1)
        } else {
            (last.1, last.0)
        };
        if now != before {
            assert(now == before.push(e));
            assert(now[before.len() as int] == e);
            assert(now.contains(e));
        }
        if before.contains((a, b)) {
            let p = before.index_of((a, b));
            assert(now[p] == (a, b));
            let i = choose|i: int|
                0 <= i < init.len() && (((#[trigger] init[i]).0 == a && init[i].1 == b) || (
                init[i].0 == b && init[i].1 == a));
            assert(arcs[i] == init[i]);
        }
        if now.contains((a, b)) && !before.contains((a, b)) {
            let p = now.index_of((a, b));
            assert(p == before.len());
            assert(e == (a, b));
            assert(arcs[arcs.len() - 1] == last);
        }
        if a < b && exists|i: int|
            0 <= i < arcs.len() && (((#[trigger] arcs[i]).0 == a && arcs[i].1 == b) || (arcs[i].0
                == b && arcs[i].1 == a)) {
            let i = choose|i: int|
                0 <= i < arcs.len() && (((#[trigger] arcs[i]).0 == a && arcs[i].1 == b) || (
                arcs[i].0 == b && arcs[i].1 == a));
            if i < init.len() {
                assert(init[i] == arcs[i]);
                assert(before.contains((a, b)));
            } else {
                assert(e == (a, b));
                if before.contains(e) {
                    assert(now.contains(e));
                }
            }
        }
    }
}

/// The figures of a graph are figures of that graph: its vertices and
/// edges are counted, the extreme degrees are those of its vertices, and
/// on a graph without loops the degrees add up to twice the edges.
pub proof fn figures_describe_the_graph(
    m: GraphMetrics,
    es: Seq<(int, int)>,
    n: usize,
    seed: u64,
    max_exact_n: usize,
    sample: usize,
    v: int,
)
    requires
        figures(m, es, n, seed, max_exact_n, sample),
        0 <= v < n,
        forall|i: int|
            0 <= i < es.len() ==> 0 <= (#[trigger] es[i]).0 < n && 0 <= es[i].1 < n && es[i].0
                != es[i].1,
    ensures
        m.n == n,
        m.edges == es.len(),
        m.total_degree == 2 * es.len(),
        m.min_degree <= degree(es, v) <= m.max_degree,
        exists|u: int| 0 <= u < n && #[trigger] degree(es, u) == m.min_degree,
        exists|u: int| 0 <= u < n && #[trigger] degree(es, u) == m.max_degree,
        m.exact <==> n <= max_exact_n,
        ({
            let from = sources(n, seed, max_exact_n, sample);
            let s = survey(es, n as nat, from);
            &&& m.bfs_sources == from.len()
            &&& m.diameter == s.far
            &&& m.total_distance == s.total
            &&& m.paths == s.paths
            &&& m.largest_component_seen == s.largest
            &&& m.connected == s.connected
        }),
{
    degrees_add_up_to_twice_the_edges(es, n as nat);
    extreme_degrees_are_attained(es, n as nat, v);
}

} // verus!
