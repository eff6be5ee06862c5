//! Undirected and directed graphs over dense vertices.
//!
//! The graphs are petgraph's. What a graph holds is named as the number
//! of its vertices and the sequence of its edges in the order in which
//! they were added; the operations are stated over these.

use petgraph::graph::{DiGraph, Graph, NodeIndex, UnGraph};
use petgraph::{Directed, Direction, Undirected};
use rustworkx_core::generators::random_regular_graph;
use vstd::prelude::*;

verus! {

/// `petgraph::graph::Graph`, carried as an opaque value.
#[verifier::external_type_specification]
#[verifier::external_body]
#[verifier::reject_recursive_types(N)]
#[verifier::reject_recursive_types(E)]
#[verifier::reject_recursive_types(Ty)]
#[verifier::reject_recursive_types(Ix)]
pub struct ExGraph<N, E, Ty, Ix>(Graph<N, E, Ty, Ix>);

/// `petgraph::Undirected`, the marker of undirected graphs.
#[verifier::external_type_specification]
#[verifier::external_body]
pub struct ExUndirected(Undirected);

/// `petgraph::Directed`, the marker of directed graphs.
#[verifier::external_type_specification]
#[verifier::external_body]
pub struct ExDirected(Directed);

/// Number of vertices of an undirected graph.
pub uninterp spec fn size(g: UnGraph<(), ()>) -> nat;

/// The edges of an undirected graph in the order in which they were
/// added.
pub uninterp spec fn links(g: UnGraph<(), ()>) -> Seq<(int, int)>;

/// Number of vertices of a directed graph.
pub uninterp spec fn arc_size(g: DiGraph<(), u64>) -> nat;

/// The edges of a directed graph with their labels, in the order in which
/// they were added.
pub uninterp spec fn arcs(g: DiGraph<(), u64>) -> Seq<(int, int, u64)>;

/// An edge joins the two vertices.
pub open spec fn linked(es: Seq<(int, int)>, a: int, b: int) -> bool {
    exists|i: int| 0 <= i < es.len() && (#[trigger] es[i] == (a, b) || es[i] == (b, a))
}

/// The far ends of the edges that were added from `a`, the latest first.
pub open spec fn far_ends(es: Seq<(int, int)>, a: int) -> Seq<int>
    decreases es.len(),
{
    if es.len() == 0 {
        Seq::empty()
    } else if es.last().0 == a {
        seq![es.last().1] + far_ends(es.drop_last(), a)
    } else {
        far_ends(es.drop_last(), a)
    }
}

/// The near ends of the edges that were added to `a` from elsewhere, the
/// latest first.
pub open spec fn near_ends(es: Seq<(int, int)>, a: int) -> Seq<int>
    decreases es.len(),
{
    if es.len() == 0 {
        Seq::empty()
    } else if es.last().1 == a && es.last().0 != a {
        seq![es.last().0] + near_ends(es.drop_last(), a)
    } else {
        near_ends(es.drop_last(), a)
    }
}

/// The neighbours of `a`, one per edge: the far ends before the near
/// ends.
pub open spec fn neighbours(es: Seq<(int, int)>, a: int) -> Seq<int> {
    far_ends(es, a) + near_ends(es, a)
}

/// The labels of the edges that leave `a`, the latest first.
pub open spec fn leaving(es: Seq<(int, int, u64)>, a: int) -> Seq<u64>
    decreases es.len(),
{
    if es.len() == 0 {
        Seq::empty()
    } else if es.last().0 == a {
        seq![es.last().2] + leaving(es.drop_last(), a)
    } else {
        leaving(es.drop_last(), a)
    }
}

/// The labels of the edges that enter `a`, the latest first.
pub open spec fn entering(es: Seq<(int, int, u64)>, a: int) -> Seq<u64>
    decreases es.len(),
{
    if es.len() == 0 {
        Seq::empty()
    } else if es.last().1 == a {
        seq![es.last().2] + entering(es.drop_last(), a)
    } else {
        entering(es.drop_last(), a)
    }
}

/// Directed edges without their labels.
pub open spec fn unlabelled(es: Seq<(int, int, u64)>) -> Seq<(int, int)> {
    es.map_values(|e: (int, int, u64)| (e.0, e.1))
}

/// `path` leads from vertex to vertex along edges.
pub open spec fn is_walk(es: Seq<(int, int)>, path: Seq<int>) -> bool {
    path.len() > 0 && forall|i: int|
        0 <= i < path.len() - 1 ==> linked(es, #[trigger] path[i], path[i + 1])
}

/// Some walk of `d` edges leads from `a` to `b`.
pub open spec fn reaches_in(es: Seq<(int, int)>, a: int, b: int, d: nat) -> bool {
    exists|path: Seq<int>| #[trigger]
        is_walk(es, path) && path.len() == d + 1 && path[0] == a && path.last() == b
}

/// The shortest walk from `a` to `b` has `d` edges.
pub open spec fn hops(es: Seq<(int, int)>, a: int, b: int, d: nat) -> bool {
    &&& reaches_in(es, a, b, d)
    &&& forall|e: nat| e < d ==> !#[trigger] reaches_in(es, a, b, e)
}

/// Some walk leads from `a` to `b`.
pub open spec fn reachable(es: Seq<(int, int)>, a: int, b: int) -> bool {
    exists|d: nat| #[trigger] hops(es, a, b, d)
}

/// `Graph::with_capacity` for an undirected graph: no vertices, no edges.
#[verifier::external_body]
pub(crate) fn undirected(nodes: usize) -> (g: UnGraph<(), ()>)
    ensures
        size(g) == 0,
        links(g) == Seq::<(int, int)>::empty(),
{
    UnGraph::with_capacity(nodes, 0)
}

/// `Graph::add_node` on an undirected graph: one more vertex, whose index
/// is the former number of vertices. It panics where 32-bit indices run
/// out, which `requires` leaves out.
#[verifier::external_body]
pub(crate) fn add_vertex(g: &mut UnGraph<(), ()>) -> (r: usize)
    requires
        size(*old(g)) < u32::MAX,
    ensures
        r == size(*old(g)),
        size(*final(g)) == size(*old(g)) + 1,
        links(*final(g)) == links(*old(g)),
{
    g.add_node(()).index()
}

/// `Graph::add_edge` on an undirected graph: one more edge. It panics on
/// vertices that do not exist and where 32-bit indices run out, which
/// `requires` leaves out.
#[verifier::external_body]
pub(crate) fn add_link(g: &mut UnGraph<(), ()>, a: usize, b: usize)
    requires
        a < size(*old(g)),
        b < size(*old(g)),
        links(*old(g)).len() < u32::MAX,
    ensures
        size(*final(g)) == size(*old(g)),
        links(*final(g)) == links(*old(g)).push((a as int, b as int)),
{
    g.add_edge(NodeIndex::new(a), NodeIndex::new(b), ());
}

/// `Graph::contains_edge` on an undirected graph: whether an edge joins
/// the two vertices.
#[verifier::external_body]
pub(crate) fn has_link(g: &UnGraph<(), ()>, a: usize, b: usize) -> (r: bool)
    requires
        a < size(*g),
        b < size(*g),
    ensures
        r == linked(links(*g), a as int, b as int),
{
    g.contains_edge(NodeIndex::new(a), NodeIndex::new(b))
}

/// Collects `Graph::neighbors` on an undirected graph: the other end of
/// each edge at `a`, those of edges added from `a` before those of edges
/// added to it, the latest first in each.
#[verifier::external_body]
pub(crate) fn neighbours_of(g: &UnGraph<(), ()>, a: usize) -> (r: Vec<usize>)
    requires
        a < size(*g),
    ensures
        as_ints(r@) == neighbours(links(*g), a as int),
{
    g.neighbors(NodeIndex::new(a)).map(|n| n.index()).collect()
}

/// `Graph::node_count` of an undirected graph.
#[verifier::external_body]
pub(crate) fn vertex_count(g: &UnGraph<(), ()>) -> (r: usize)
    ensures
        r == size(*g),
{
    g.node_count()
}

/// `Graph::edge_count` of an undirected graph.
#[verifier::external_body]
pub(crate) fn link_count(g: &UnGraph<(), ()>) -> (r: usize)
    ensures
        r == links(*g).len(),
{
    g.edge_count()
}

/// `petgraph::algo::dijkstra` with every edge of cost 1: each vertex that
/// can be reached, once, with the length of a shortest walk to it, in no
/// particular order.
#[verifier::external_body]
pub(crate) fn hop_counts(g: &UnGraph<(), ()>, start: usize) -> (r: Vec<(usize, u32)>)
    requires
        start < size(*g),
    ensures
        forall|i: int|
            0 <= i < r@.len() ==> (#[trigger] r@[i]).0 < size(*g) && hops(
                links(*g),
                start as int,
                r@[i].0 as int,
                r@[i].1 as nat,
            ),
        forall|i: int, j: int|
            0 <= i < j < r@.len() ==> (#[trigger] r@[i]).0 != (#[trigger] r@[j]).0,
        forall|b: int| #[trigger]
            reachable(links(*g), start as int, b) ==> exists|i: int|
                0 <= i < r@.len() && (#[trigger] r@[i]).0 == b,
{
    let scores = petgraph::algo::dijkstra(g, NodeIndex::new(start), None, |_| 1u32);
    scores.into_iter().map(|(n, d)| (n.index(), d)).collect()
}

/// `Graph::with_capacity` for a directed graph: no vertices, no edges.
#[verifier::external_body]
pub(crate) fn directed(nodes: usize) -> (g: DiGraph<(), u64>)
    ensures
        arc_size(g) == 0,
        arcs(g) == Seq::<(int, int, u64)>::empty(),
{
    DiGraph::with_capacity(nodes, 0)
}

/// `Graph::add_node` on a directed graph: one more vertex, whose index is
/// the former number of vertices. It panics where 32-bit indices run out,
/// which `requires` leaves out.
#[verifier::external_body]
pub(crate) fn add_arc_vertex(g: &mut DiGraph<(), u64>) -> (r: usize)
    requires
        arc_size(*old(g)) < u32::MAX,
    ensures
        r == arc_size(*old(g)),
        arc_size(*final(g)) == arc_size(*old(g)) + 1,
        arcs(*final(g)) == arcs(*old(g)),
{
    g.add_node(()).index()
}

/// `Graph::add_edge` on a directed graph: one more edge. It panics on
/// vertices that do not exist and where 32-bit indices run out, which
/// `requires` leaves out.
#[verifier::external_body]
pub(crate) fn add_arc(g: &mut DiGraph<(), u64>, a: usize, b: usize, label: u64)
    requires
        a < arc_size(*old(g)),
        b < arc_size(*old(g)),
        arcs(*old(g)).len() < u32::MAX,
    ensures
        arc_size(*final(g)) == arc_size(*old(g)),
        arcs(*final(g)) == arcs(*old(g)).push((a as int, b as int, label)),
{
    g.add_edge(NodeIndex::new(a), NodeIndex::new(b), label);
}

/// Collects `Graph::edges_directed` outgoing: the labels of the edges
/// that leave `a`, the latest first.
#[verifier::external_body]
pub(crate) fn labels_out(g: &DiGraph<(), u64>, a: usize) -> (r: Vec<u64>)
    requires
        a < arc_size(*g),
    ensures
        r@ == leaving(arcs(*g), a as int),
{
    g.edges_directed(NodeIndex::new(a), Direction::Outgoing).map(|e| *e.weight()).collect()
}

/// Collects `Graph::edges_directed` incoming: the labels of the edges
/// that enter `a`, the latest first.
#[verifier::external_body]
pub(crate) fn labels_in(g: &DiGraph<(), u64>, a: usize) -> (r: Vec<u64>)
    requires
        a < arc_size(*g),
    ensures
        r@ == entering(arcs(*g), a as int),
{
    g.edges_directed(NodeIndex::new(a), Direction::Incoming).map(|e| *e.weight()).collect()
}

/// Collects `Graph::neighbors_undirected` on a directed graph: the other
/// end of each edge at `a`, in the order of [`neighbours`].
#[verifier::external_body]
pub(crate) fn arc_neighbours(g: &DiGraph<(), u64>, a: usize) -> (r: Vec<usize>)
    requires
        a < arc_size(*g),
    ensures
        as_ints(r@) == neighbours(unlabelled(arcs(*g)), a as int),
{
    g.neighbors_undirected(NodeIndex::new(a)).map(|n| n.index()).collect()
}

/// Collects `Graph::raw_edges`: the ends of every edge, in the order in
/// which the edges were added.
#[verifier::external_body]
pub(crate) fn arc_list(g: &DiGraph<(), u64>) -> (r: Vec<(usize, usize)>)
    ensures
        r@.len() == arcs(*g).len(),
        forall|i: int|
            0 <= i < r@.len() ==> (#[trigger] r@[i]).0 == arcs(*g)[i].0 && r@[i].1 == arcs(
                *g,
            )[i].1,
{
    g.raw_edges().iter().map(|e| (e.source().index(), e.target().index())).collect()
}

/// Edges over integers.
pub open spec fn widened(es: Seq<(usize, usize)>) -> Seq<(int, int)> {
    es.map_values(|e: (usize, usize)| (e.0 as int, e.1 as int))
}

/// Number of edges at a vertex.
pub open spec fn degree(es: Seq<(usize, usize)>, v: int) -> nat
    decreases es.len(),
{
    if es.len() == 0 {
        0
    } else {
        degree(es.drop_last(), v) + if es.last().0 == v || es.last().1 == v {
            1nat
        } else {
            0nat
        }
    }
}

/// The edges form a graph on `n` vertices in which every vertex has `k`
/// neighbours: ends ascend, no edge occurs twice, and `k` edges meet at
/// every vertex.
pub open spec fn is_regular(es: Seq<(usize, usize)>, n: usize, k: usize) -> bool {
    &&& forall|i: int| 0 <= i < es.len() ==> (#[trigger] es[i]).0 < es[i].1 && es[i].1 < n
    &&& es.no_duplicates()
    &&& forall|v: int| 0 <= v < n ==> #[trigger] degree(es, v) == k
}

/// The edges of the random regular graph that a seed leads to.
pub uninterp spec fn regular_links(n: usize, k: usize, seed: u64) -> Seq<(usize, usize)>;

/// `rustworkx_core::generators::random_regular_graph` with a seed, taken
/// apart into its edges: an error, here `None`, where there are no
/// vertices, `n * k` is odd or `k` is not below `n`, and otherwise a
/// simple graph in which every vertex has `k` neighbours, a function of
/// the arguments. The product must not overflow, and vertices and edges
/// must fit 32-bit indices.
#[verifier::external_body]
pub(crate) fn regular_graph(n: usize, k: usize, seed: u64) -> (r: Option<Vec<(usize, usize)>>)
    requires
        n <= u32::MAX,
        n * k <= usize::MAX,
        n * k / 2 <= u32::MAX,
    ensures
        r is Some == (n > 0 && n * k % 2 == 0 && k < n),
        r matches Some(es) ==> es@ == regular_links(n, k, seed) && is_regular(es@, n, k),
{
    let g: Result<UnGraph<(), ()>, _> = random_regular_graph(n, k, Some(seed), || (), || ());
    g.ok().map(
        |g| g.raw_edges().iter().map(|e| (e.source().index(), e.target().index())).collect(),
    )
}

/// Without self-loops, a vertex has as many neighbours as edges.
pub proof fn lemma_degree(es: Seq<(usize, usize)>, v: int)
    requires
        forall|i: int| 0 <= i < es.len() ==> (#[trigger] es[i]).0 < es[i].1,
    ensures
        neighbours(widened(es), v).len() == degree(es, v),
    decreases es.len(),
{
    if es.len() > 0 {
        let init = es.drop_last();
        assert forall|i: int| 0 <= i < init.len() implies (#[trigger] init[i]).0 < init[i].1 by {
            assert(init[i] == es[i]);
        }
        lemma_degree(init, v);
        assert(widened(es).drop_last() =~= widened(init));
        assert(es[es.len() - 1] == es.last());
        assert(widened(es).last() == (es.last().0 as int, es.last().1 as int));
    }
}

/// Sum of the degrees of the first `n` vertices.
pub open spec fn degree_sum(es: Seq<(usize, usize)>, n: nat) -> nat
    decreases n,
{
    if n == 0 {
        0
    } else {
        degree_sum(es, (n - 1) as nat) + degree(es, n - 1)
    }
}

/// Every edge is counted at both of its ends.
pub proof fn lemma_degree_sum(es: Seq<(usize, usize)>, n: nat)
    requires
        forall|i: int| 0 <= i < es.len() ==> (#[trigger] es[i]).0 < es[i].1 && es[i].1 < n,
    ensures
        degree_sum(es, n) == 2 * es.len(),
    decreases es.len(),
{
    if es.len() == 0 {
        lemma_degree_sum_step(es, Seq::empty(), n);
    } else {
        let init = es.drop_last();
        assert forall|i: int| 0 <= i < init.len() implies (#[trigger] init[i]).0 < init[i].1
            && init[i].1 < n by {
            assert(init[i] == es[i]);
        }
        lemma_degree_sum(init, n);
        assert(es[es.len() - 1] == es.last());
        lemma_degree_sum_step(es, init, n);
    }
}

proof fn lemma_degree_sum_step(es: Seq<(usize, usize)>, init: Seq<(usize, usize)>, n: nat)
    requires
        es.len() == 0 || (init == es.drop_last() && es.last().0 < es.last().1),
    ensures
        es.len() == 0 ==> degree_sum(es, n) == 0,
        es.len() > 0 ==> degree_sum(es, n) == degree_sum(init, n) + (if es.last().0 < n {
            1int
        } else {
            0
        }) + (if es.last().1 < n {
            1int
        } else {
            0
        }),
    decreases n,
{
    if n > 0 {
        lemma_degree_sum_step(es, init, (n - 1) as nat);
    }
}

/// The degrees of a regular graph sum up to `n * k`.
pub proof fn lemma_regular_sum(es: Seq<(usize, usize)>, n: nat, k: nat)
    requires
        forall|v: int| 0 <= v < n ==> #[trigger] degree(es, v) == k,
    ensures
        degree_sum(es, n) == n * k,
    decreases n,
{
    if n > 0 {
        let m = (n - 1) as nat;
        lemma_regular_sum(es, m, k);
        assert(degree(es, n - 1) == k);
        assert(n * k == m * k + k) by (nonlinear_arith)
            requires
                n == m + 1,
        ;
    } else {
        assert(n * k == 0) by (nonlinear_arith)
            requires
                n == 0,
        ;
    }
}

/// Machine indices as integers.
pub open spec fn as_ints(v: Seq<usize>) -> Seq<int> {
    v.map_values(|x: usize| x as int)
}

/// Every neighbour is joined by an edge, and every vertex joined by an
/// edge is a neighbour.
pub proof fn lemma_neighbours(es: Seq<(int, int)>, a: int)
    ensures
        forall|b: int| #[trigger] neighbours(es, a).contains(b) <==> linked(es, a, b),
{
    lemma_ends(es, a);
    assert forall|b: int| #[trigger] neighbours(es, a).contains(b) <==> linked(es, a, b) by {
        let f = far_ends(es, a);
        let n = near_ends(es, a);
        if neighbours(es, a).contains(b) {
            let i = neighbours(es, a).index_of(b);
            if i < f.len() {
                assert(f[i] == b);
                assert(f.contains(b));
            } else {
                assert(n[i - f.len()] == b);
                assert(n.contains(b));
            }
        }
        if linked(es, a, b) {
            if f.contains(b) {
                let i = f.index_of(b);
                assert(neighbours(es, a)[i] == b);
            } else {
                let i = n.index_of(b);
                assert(neighbours(es, a)[f.len() + i] == b);
            }
        }
    }
}

proof fn lemma_ends(es: Seq<(int, int)>, a: int)
    ensures
        forall|b: int| #[trigger] far_ends(es, a).contains(b) ==> linked(es, a, b),
        forall|b: int| #[trigger] near_ends(es, a).contains(b) ==> linked(es, a, b),
        forall|b: int|
            #![trigger linked(es, a, b)]
            linked(es, a, b) ==> far_ends(es, a).contains(b) || near_ends(es, a).contains(b),
    decreases es.len(),
{
    if es.len() > 0 {
        let init = es.drop_last();
        let last = es.last();
        lemma_ends(init, a);
        assert(es[es.len() - 1] == last);
        assert forall|b: int| #[trigger] linked(init, a, b) implies linked(es, a, b) by {
            let i = choose|i: int|
                0 <= i < init.len() && (#[trigger] init[i] == (a, b) || init[i] == (b, a));
            assert(es[i] == init[i]);
        }
        assert forall|b: int| #[trigger] far_ends(es, a).contains(b) implies linked(es, a, b) by {
            if last.0 == a {
                let i = far_ends(es, a).index_of(b);
                if i > 0 {
                    assert(far_ends(init, a)[i - 1] == b);
                    assert(far_ends(init, a).contains(b));
                    assert(linked(init, a, b));
                } else {
                    assert(es[es.len() - 1] == (a, b));
                }
            } else {
                assert(far_ends(init, a).contains(b));
                assert(linked(init, a, b));
            }
        }
        assert forall|b: int| #[trigger] near_ends(es, a).contains(b) implies linked(es, a, b) by {
            if last.1 == a && last.0 != a {
                let i = near_ends(es, a).index_of(b);
                if i > 0 {
                    assert(near_ends(init, a)[i - 1] == b);
                    assert(near_ends(init, a).contains(b));
                    assert(linked(init, a, b));
                } else {
                    assert(es[es.len() - 1] == (b, a));
                }
            } else {
                assert(near_ends(init, a).contains(b));
                assert(linked(init, a, b));
            }
        }
        assert forall|b: int|
            #![trigger linked(es, a, b)]
            linked(es, a, b) implies far_ends(es, a).contains(b) || near_ends(es, a).contains(
            b,
        ) by {
            let i = choose|i: int|
                0 <= i < es.len() && (#[trigger] es[i] == (a, b) || es[i] == (b, a));
            if i < init.len() {
                assert(init[i] == es[i]);
                assert(linked(init, a, b));
                if far_ends(init, a).contains(b) {
                    let p = far_ends(init, a).index_of(b);
                    if last.0 == a {
                        assert(far_ends(es, a)[p + 1] == b);
                    }
                } else {
                    let p = near_ends(init, a).index_of(b);
                    if last.1 == a && last.0 != a {
                        assert(near_ends(es, a)[p + 1] == b);
                    }
                }
            } else if last == (a, b) {
                assert(far_ends(es, a)[0] == b);
            } else {
                assert(near_ends(es, a)[0] == b);
            }
        }
    }
}

} // verus!
