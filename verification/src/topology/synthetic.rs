//! Peer graphs: random regular ones, and those that follow from a channel
//! graph.
//!
//! In a peer graph built from channels each node asks for some of its
//! channel counterparties, the distinct nodes at the other ends of its
//! channels. With `c` of them, a target of `k` peers and a cap:
//!
//! * above the cap the node is a hub: it asks for as many random
//!   counterparties as the cap allows;
//! * otherwise it asks for all of them, and where there are fewer than
//!   `k`, for random strangers too: half of what is missing, rounded up.
//!   The other half is left to nodes that ask for it.
//!
//! With the cap enforced a hub takes no edge from a node that it did not
//! pick, and the node that asked gets another stranger instead.

use rand_chacha::ChaCha8Rng;
use std::collections::HashSet;
use vstd::prelude::*;

use crate::graphs;
use crate::rng;
use crate::topology::graph;
use crate::topology::{NodeAlgo, NodeMeta, Topology};

verus! {

broadcast use vstd::std_specs::hash::group_hash_axioms;

/// Sub-seed of the draws that build a peer graph.
pub const PEER_BUILD_SUBSEED: u64 = 0x504545525F535542;

/// Bound on the draws spent on one choice of strangers.
pub const DRAW_BUDGET: u64 = 0xFFFF_FFFF_FFFF_FFFF;

/// Distinct values of `s` other than `v`, in the order in which they
/// first appear.
pub open spec fn firsts(s: Seq<int>, v: int) -> Seq<usize>
    decreases s.len(),
{
    if s.len() == 0 {
        Seq::empty()
    } else {
        let before = firsts(s.drop_last(), v);
        let w = s.last();
        if w == v || before.contains(w as usize) {
            before
        } else {
            before.push(w as usize)
        }
    }
}

/// The channel counterparties of the node at vertex `v`.
pub open spec fn counterparties(arcs: Seq<(int, int, u64)>, v: int) -> Seq<usize> {
    firsts(graphs::neighbours(graphs::unlabelled(arcs), v), v)
}

/// How many strangers a node asks for that has `c` counterparties, is no
/// hub, and has a target of `k` peers.
pub open spec fn stranger_quota(c: int, k: int) -> int {
    if c >= k {
        0
    } else {
        (k - c + 1) / 2
    }
}

/// Fills `picked` up to `target` with the lowest vertices from `from` on
/// that are free.
pub open spec fn filled(
    n: usize,
    excluded: Set<usize>,
    picked: Seq<usize>,
    target: nat,
    from: nat,
) -> Seq<usize>
    decreases n - from,
{
    if picked.len() >= target || from >= n {
        picked
    } else if excluded.contains(from as usize) || picked.contains(from as usize) {
        filled(n, excluded, picked, target, from + 1)
    } else {
        filled(n, excluded, picked.push(from as usize), target, from + 1)
    }
}

/// Draws vertices until `target` of them are free and distinct. Should
/// `budget` draws not suffice, the lowest free vertices make up the rest.
pub open spec fn drawn(
    r: ChaCha8Rng,
    n: usize,
    excluded: Set<usize>,
    picked: Seq<usize>,
    target: nat,
    budget: nat,
) -> (Seq<usize>, ChaCha8Rng)
    decreases budget,
{
    if picked.len() >= target {
        (picked, r)
    } else if budget == 0 {
        (filled(n, excluded, picked, target, 0), r)
    } else {
        let (i, next) = rng::index_draw(r, n);
        if excluded.contains(i) || picked.contains(i) {
            drawn(next, n, excluded, picked, target, (budget - 1) as nat)
        } else {
            drawn(next, n, excluded, picked.push(i), target, (budget - 1) as nat)
        }
    }
}

/// How many strangers there are to choose: `count`, or all that are not
/// excluded where these are fewer.
pub open spec fn stranger_target(n: usize, excluded: Set<usize>, count: nat) -> nat {
    let available = if excluded.len() <= n {
        (n - excluded.len()) as nat
    } else {
        0
    };
    if count <= available {
        count
    } else {
        available
    }
}

/// Distinct random vertices that are not excluded, and the generator
/// after the choice.
pub open spec fn strangers(r: ChaCha8Rng, n: usize, excluded: Set<usize>, count: nat) -> (
    Seq<usize>,
    ChaCha8Rng,
) {
    drawn(
        r,
        n,
        excluded,
        Seq::empty(),
        stranger_target(n, excluded, count),
        DRAW_BUDGET as nat,
    )
}

/// `s` is made of distinct free vertices.
pub open spec fn free_picks(s: Seq<usize>, n: usize, excluded: Set<usize>) -> bool {
    &&& s.no_duplicates()
    &&& forall|i: int| 0 <= i < s.len() ==> (#[trigger] s[i]) < n && !excluded.contains(s[i])
}

/// A set of vertices below `n` is finite and has at most `n` of them.
proof fn lemma_bounded(s: Set<usize>, n: nat)
    requires
        n <= usize::MAX,
        forall|x: usize| #[trigger] s.contains(x) ==> x < n,
    ensures
        s.finite(),
        s.len() <= n,
    decreases n,
{
    if n == 0 {
        assert(s =~= Set::empty());
    } else {
        let last = (n - 1) as usize;
        lemma_bounded(s.remove(last), (n - 1) as nat);
        if s.contains(last) {
            assert(s =~= s.remove(last).insert(last));
        } else {
            assert(s =~= s.remove(last));
        }
    }
}

/// While fewer than `target` vertices are picked, some vertex is neither
/// excluded nor picked.
proof fn lemma_some_free(n: usize, excluded: Set<usize>, picked: Seq<usize>, from: nat)
    requires
        excluded.finite(),
        forall|x: usize| excluded.contains(x) ==> x < n,
        free_picks(picked, n, excluded),
        from <= n,
        forall|x: usize| x < from ==> excluded.contains(x) || picked.contains(x),
        picked.len() + excluded.len() < n,
    ensures
        exists|x: usize| from <= x < n && !excluded.contains(x) && !picked.contains(x),
{
    if forall|x: usize| from <= x < n ==> excluded.contains(x) || picked.contains(x) {
        let ps = picked.to_set();
        picked.unique_seq_to_set();
        let both = excluded.union(ps);
        vstd::set_lib::lemma_len_union(excluded, ps);
        lemma_range_within(both, n as nat);
    }
}

/// A set that holds every vertex below `n` has at least `n` elements.
proof fn lemma_range_within(s: Set<usize>, n: nat)
    requires
        s.finite(),
        n <= usize::MAX,
        forall|x: usize| x < n ==> s.contains(x),
    ensures
        s.len() >= n,
    decreases n,
{
    if n > 0 {
        let last = (n - 1) as usize;
        lemma_range_within(s.remove(last), (n - 1) as nat);
    }
}

proof fn lemma_filled(n: usize, excluded: Set<usize>, picked: Seq<usize>, target: nat, from: nat)
    requires
        excluded.finite(),
        forall|x: usize| excluded.contains(x) ==> x < n,
        free_picks(picked, n, excluded),
        from <= n,
        forall|x: usize| x < from ==> excluded.contains(x) || picked.contains(x),
        target + excluded.len() <= n,
        picked.len() <= target,
    ensures
        free_picks(filled(n, excluded, picked, target, from), n, excluded),
        filled(n, excluded, picked, target, from).len() == target,
    decreases n - from,
{
    if picked.len() < target {
        lemma_some_free(n, excluded, picked, from);
        let x = from as usize;
        if excluded.contains(x) || picked.contains(x) {
            lemma_filled(n, excluded, picked, target, from + 1);
        } else {
            let more = picked.push(x);
            assert forall|y: usize| y < from + 1 implies excluded.contains(y) || more.contains(
                y,
            ) by {
                if y == x {
                    assert(more[picked.len() as int] == x);
                } else if picked.contains(y) {
                    assert(more[picked.index_of(y)] == y);
                }
            }
            lemma_filled(n, excluded, more, target, from + 1);
        }
    }
}

/// What one node asks for.
#[verifier::ext_equal]
pub struct Plan {
    pub kept: Seq<usize>,
    pub strangers: Seq<usize>,
    pub hub: bool,
}

impl Plan {
    /// Vertices asked for, in order.
    pub open spec fn requests(self) -> Seq<usize> {
        self.kept + self.strangers
    }

    /// The plan is one of a node with the counterparties `cp`, the target
    /// `k` and the cap `cap`, at vertex `v` of `n`.
    pub open spec fn fits(self, cp: Seq<usize>, n: usize, v: int, k: usize, cap: usize) -> bool {
        &&& self.hub == (cp.len() > cap)
        &&& self.kept.no_duplicates()
        &&& forall|i: int| 0 <= i < self.kept.len() ==> cp.contains(#[trigger] self.kept[i])
        &&& if self.hub {
            self.kept.len() == cap && self.strangers.len() == 0
        } else {
            &&& self.kept == cp
            &&& self.strangers.len() == if stranger_quota(cp.len() as int, k as int) > 0 {
                stranger_target(
                    n,
                    cp.to_set().insert(v as usize),
                    stranger_quota(cp.len() as int, k as int) as nat,
                )
            } else {
                0
            }
        }
        &&& free_picks(self.strangers, n, cp.to_set().insert(v as usize))
    }
}

/// What the node at vertex `v` asks for, and the generator after it has
/// chosen.
pub open spec fn planned(
    cp: Seq<usize>,
    n: usize,
    v: int,
    k: usize,
    cap: usize,
    r: ChaCha8Rng,
) -> (Plan, ChaCha8Rng) {
    if cp.len() > cap {
        let (at, next) = rng::positions_draw(r, cp.len(), cap);
        (
            Plan { kept: at.map_values(|p: int| cp[p]), strangers: Seq::empty(), hub: true },
            next,
        )
    } else {
        let quota = stranger_quota(cp.len() as int, k as int);
        let (far, next) = if quota > 0 {
            strangers(r, n, cp.to_set().insert(v as usize), quota as nat)
        } else {
            (Seq::empty(), r)
        };
        (Plan { kept: cp, strangers: far, hub: false }, next)
    }
}

/// What the first `upto` nodes ask for, each choosing after the one
/// before it.
pub open spec fn plans(
    arcs: Seq<(int, int, u64)>,
    n: usize,
    ks: Seq<usize>,
    caps: Seq<usize>,
    r: ChaCha8Rng,
    upto: nat,
) -> (Seq<Plan>, ChaCha8Rng)
    decreases upto,
{
    if upto == 0 {
        (Seq::empty(), r)
    } else {
        let v = upto - 1;
        let (before, here) = plans(arcs, n, ks, caps, r, v as nat);
        let (plan, next) = planned(counterparties(arcs, v), n, v, ks[v], caps[v], here);
        (before.push(plan), next)
    }
}

/// Every plan is one of its node.
pub open spec fn plans_fit(
    ps: Seq<Plan>,
    arcs: Seq<(int, int, u64)>,
    n: usize,
    ks: Seq<usize>,
    caps: Seq<usize>,
) -> bool {
    &&& ps.len() == n
    &&& forall|v: int|
        0 <= v < ps.len() ==> (#[trigger] ps[v]).fits(
            counterparties(arcs, v),
            n,
            v,
            ks[v],
            caps[v],
        )
}

/// The node at `dst` takes an edge from the node at `src`.
pub open spec fn admits(ps: Seq<Plan>, enforce: bool, src: int, dst: int) -> bool {
    enforce && ps[dst].hub ==> ps[dst].kept.contains(src as usize)
}

/// The peer graph after the node at `v` has made its requests.
pub open spec fn joined(
    links: Seq<(int, int)>,
    ps: Seq<Plan>,
    enforce: bool,
    v: int,
    requests: Seq<usize>,
) -> Seq<(int, int)>
    decreases requests.len(),
{
    if requests.len() == 0 {
        links
    } else {
        let before = joined(links, ps, enforce, v, requests.drop_last());
        let w = requests.last() as int;
        if !admits(ps, enforce, v, w) || graphs::linked(before, v, w) {
            before
        } else {
            before.push((v, w))
        }
    }
}

/// How many requests of the node at `v` are refused.
pub open spec fn refused(ps: Seq<Plan>, enforce: bool, v: int, requests: Seq<usize>) -> nat
    decreases requests.len(),
{
    if requests.len() == 0 {
        0
    } else {
        refused(ps, enforce, v, requests.drop_last()) + if admits(
            ps,
            enforce,
            v,
            requests.last() as int,
        ) {
            0nat
        } else {
            1nat
        }
    }
}

/// The peer graph after the first `upto` nodes have made their requests.
pub open spec fn joined_upto(
    links: Seq<(int, int)>,
    ps: Seq<Plan>,
    enforce: bool,
    upto: nat,
) -> Seq<(int, int)>
    decreases upto,
{
    if upto == 0 {
        links
    } else {
        let v = upto - 1;
        joined(joined_upto(links, ps, enforce, v as nat), ps, enforce, v, ps[v].requests())
    }
}

/// How many requests of the first `upto` nodes are refused.
pub open spec fn refused_upto(ps: Seq<Plan>, enforce: bool, upto: nat) -> nat
    decreases upto,
{
    if upto == 0 {
        0
    } else {
        refused_upto(ps, enforce, (upto - 1) as nat) + refused(
            ps,
            enforce,
            upto - 1,
            ps[upto - 1].requests(),
        )
    }
}

/// Vertices that cannot replace a refused one: the node itself, its
/// peers, and hubs that would refuse it too.
pub open spec fn barred(links: Seq<(int, int)>, ps: Seq<Plan>, n: usize, v: int) -> Set<usize> {
    Set::new(
        |w: usize|
            w < n && (w == v || graphs::linked(links, v, w as int) || !admits(
                ps,
                true,
                v,
                w as int,
            )),
    )
}

/// Edges from `v` to each of `ws`.
pub open spec fn spokes(v: int, ws: Seq<usize>) -> Seq<(int, int)> {
    ws.map_values(|w: usize| (v, w as int))
}

/// The state of the top-up: the peer graph, the replacements so far, and
/// the generator.
#[verifier::ext_equal]
pub struct TopUp {
    pub links: Seq<(int, int)>,
    pub added: nat,
    pub rng: ChaCha8Rng,
}

/// The top-up of the node at `v`.
pub open spec fn topped(t: TopUp, ps: Seq<Plan>, n: usize, v: int) -> TopUp {
    let lost = refused(ps, true, v, ps[v].requests());
    if lost == 0 {
        t
    } else {
        let (others, next) = strangers(t.rng, n, barred(t.links, ps, n, v), lost);
        TopUp {
            links: t.links + spokes(v, others),
            added: t.added + others.len(),
            rng: next,
        }
    }
}

/// The top-up of the first `upto` nodes.
pub open spec fn topped_upto(t: TopUp, ps: Seq<Plan>, n: usize, upto: nat) -> TopUp
    decreases upto,
{
    if upto == 0 {
        t
    } else {
        topped(topped_upto(t, ps, n, (upto - 1) as nat), ps, n, upto - 1)
    }
}

/// Peer graph, refused requests and replacements that follow from the
/// channels.
pub open spec fn built(
    links: Seq<(int, int)>,
    arcs: Seq<(int, int, u64)>,
    n: usize,
    ks: Seq<usize>,
    caps: Seq<usize>,
    seed: u64,
    enforce: bool,
) -> (Seq<(int, int)>, nat, nat) {
    if n < 2 {
        (links, 0, 0)
    } else {
        let (ps, r) = plans(
            arcs,
            n,
            ks,
            caps,
            rng::seeded(seed ^ PEER_BUILD_SUBSEED),
            n as nat,
        );
        let asked = joined_upto(links, ps, enforce, n as nat);
        if enforce {
            let t = topped_upto(TopUp { links: asked, added: 0, rng: r }, ps, n, n as nat);
            (t.links, refused_upto(ps, true, n as nat), t.added)
        } else {
            (asked, 0, 0)
        }
    }
}

/// Bound on the strangers that a node with a target of `k` peers asks for
/// among `n` nodes.
pub open spec fn most_strangers(k: usize, n: nat) -> nat {
    if k < n {
        k as nat
    } else {
        n
    }
}

/// Bound on what the first `upto` nodes ask for: the channel ends at each
/// and its strangers, of which there are no more than nodes.
pub open spec fn demand(arcs: Seq<(int, int, u64)>, ks: Seq<usize>, upto: nat) -> nat
    decreases upto,
{
    if upto == 0 {
        0
    } else {
        demand(arcs, ks, (upto - 1) as nat) + graphs::neighbours(
            graphs::unlabelled(arcs),
            upto - 1,
        ).len() + most_strangers(ks[upto - 1], ks.len())
    }
}

/// Picks up to `count` distinct vertices of the first `n` that are not
/// excluded.
fn pick_strangers(n: usize, excluded: &HashSet<usize>, count: usize, r: &mut ChaCha8Rng) -> (out:
    Vec<usize>)
    requires
        n > 0,
        forall|x: usize| excluded@.contains(x) ==> x < n,
    ensures
        (out@, *final(r)) == strangers(*old(r), n, excluded@, count as nat),
        free_picks(out@, n, excluded@),
        out@.len() == stranger_target(n, excluded@, count as nat),
{
    proof {
        lemma_bounded(excluded@, n as nat);
    }
    let taken: usize = excluded.len();
    let available: usize = if taken <= n {
        n - taken
    } else {
        0
    };
    let target: usize = if count <= available {
        count
    } else {
        available
    };
    let mut picked: Vec<usize> = Vec::new();
    let mut seen: HashSet<usize> = HashSet::new();
    let mut budget: u64 = DRAW_BUDGET;
    assert(seen@ =~= picked@.to_set());
    while picked.len() < target && budget > 0
        invariant
            n > 0,
            drawn(*r, n, excluded@, picked@, target as nat, budget as nat) == strangers(
                *old(r),
                n,
                excluded@,
                count as nat,
            ),
            free_picks(picked@, n, excluded@),
            seen@ == picked@.to_set(),
            picked@.len() <= target,
        decreases budget,
    {
        let i: usize = rng::draw_index(r, n);
        if !excluded.contains(&i) && !seen.contains(&i) {
            let ghost before = picked@;
            picked.push(i);
            seen.insert(i);
            proof {
                assert(!before.contains(i)) by {
                    if before.contains(i) {
                        assert(before.to_set().contains(i));
                    }
                }
                lemma_push_set(before, i);
            }
        } else {
            assert(excluded@.contains(i) || picked@.contains(i));
        }
        budget = budget - 1;
    }
    let mut from: usize = 0;
    let ghost start = picked@;
    let ghost left = *r;
    proof {
        if picked@.len() < target {
            lemma_filled(n, excluded@, picked@, target as nat, 0);
        }
        assert((filled(n, excluded@, picked@, target as nat, 0), left) == strangers(
            *old(r),
            n,
            excluded@,
            count as nat,
        ));
    }
    while picked.len() < target && from < n
        invariant
            from <= n,
            picked@.len() <= target,
            filled(n, excluded@, picked@, target as nat, from as nat) == filled(
                n,
                excluded@,
                start,
                target as nat,
                0,
            ),
            free_picks(picked@, n, excluded@),
            seen@ == picked@.to_set(),
        decreases n - from,
    {
        if !excluded.contains(&from) && !seen.contains(&from) {
            let ghost before = picked@;
            picked.push(from);
            seen.insert(from);
            proof {
                assert(!before.contains(from)) by {
                    if before.contains(from) {
                        assert(before.to_set().contains(from));
                    }
                }
                lemma_push_set(before, from);
            }
        } else {
            assert(excluded@.contains(from) || picked@.contains(from));
        }
        from = from + 1;
    }
    proof {
        if start.len() < target {
            lemma_filled(n, excluded@, start, target as nat, 0);
        }
    }
    picked
}

proof fn lemma_firsts(s: Seq<int>, v: int, n: usize)
    requires
        forall|i: int| 0 <= i < s.len() ==> 0 <= #[trigger] s[i] < n,
    ensures
        firsts(s, v).no_duplicates(),
        firsts(s, v).len() <= s.len(),
        forall|w: usize| #[trigger] firsts(s, v).contains(w) <==> s.contains(w as int) && w != v,
    decreases s.len(),
{
    if s.len() > 0 {
        let init = s.drop_last();
        assert forall|i: int| 0 <= i < init.len() implies 0 <= #[trigger] init[i] < n by {
            assert(init[i] == s[i]);
        }
        lemma_firsts(init, v, n);
        let before = firsts(init, v);
        let now = firsts(s, v);
        let last = s.last();
        assert(s[s.len() - 1] == last);
        assert forall|w: usize| #[trigger] now.contains(w) <==> s.contains(w as int) && w != v by {
            assert(before.contains(w) <==> init.contains(w as int) && w != v);
            if init.contains(w as int) {
                assert(s[init.index_of(w as int)] == w as int);
            }
            if s.contains(w as int) && w as int != last {
                assert(init[s.index_of(w as int)] == w as int);
            }
            if before.contains(w) {
                assert(now[before.index_of(w)] == w);
            }
            if now.contains(w) && w as int != last {
                assert(before.contains(w)) by {
                    let p = now.index_of(w);
                    assert(p < before.len());
                    assert(before[p] == w);
                }
            }
            if w as int == last && w != v {
                if !before.contains(w) {
                    assert(now[before.len() as int] == w);
                }
            }
        }
    }
}

/// The counterparties of a node are the other nodes that it shares a
/// channel with, each once.
pub proof fn counterparties_share_a_channel(arcs: Seq<(int, int, u64)>, n: usize, v: int)
    requires
        graph::arcs_within(arcs, n as int),
    ensures
        counterparties(arcs, v).no_duplicates(),
        counterparties(arcs, v).len() <= graphs::neighbours(graphs::unlabelled(arcs), v).len(),
        forall|w: usize| #[trigger]
            counterparties(arcs, v).contains(w) <==> w != v && exists|i: int|
                0 <= i < arcs.len() && (((#[trigger] arcs[i]).0 == v && arcs[i].1 == w) || (
                arcs[i].0 == w && arcs[i].1 == v)),
{
    let es = graphs::unlabelled(arcs);
    let near = graphs::neighbours(es, v);
    graphs::lemma_neighbours(es, v);
    assert forall|w: int| #[trigger] near.contains(w) <==> exists|i: int|
        0 <= i < arcs.len() && (((#[trigger] arcs[i]).0 == v && arcs[i].1 == w) || (arcs[i].0 == w
            && arcs[i].1 == v)) by {
        if graphs::linked(es, v, w) {
            let i = choose|i: int|
                0 <= i < es.len() && (#[trigger] es[i] == (v, w) || es[i] == (w, v));
            assert(arcs[i].0 == es[i].0 && arcs[i].1 == es[i].1);
        }
        if exists|i: int|
            0 <= i < arcs.len() && (((#[trigger] arcs[i]).0 == v && arcs[i].1 == w) || (arcs[i].0
                == w && arcs[i].1 == v)) {
            let i = choose|i: int|
                0 <= i < arcs.len() && (((#[trigger] arcs[i]).0 == v && arcs[i].1 == w) || (
                arcs[i].0 == w && arcs[i].1 == v));
            assert(es[i] == (arcs[i].0, arcs[i].1));
        }
    }
    assert forall|i: int| 0 <= i < near.len() implies 0 <= #[trigger] near[i] < n by {
        assert(near.contains(near[i]));
    }
    lemma_firsts(near, v, n);
}

/// The counterparties of the node at a vertex.
fn counterparties_of(topology: &Topology, nx: usize) -> (r: Vec<usize>)
    requires
        topology.wf(),
        nx < topology.nodes@.len(),
    ensures
        r@ == counterparties(topology.arcs(), nx as int),
{
    let near: Vec<usize> = graphs::arc_neighbours(&topology.channels, nx);
    let ghost ns = graphs::neighbours(graphs::unlabelled(topology.arcs()), nx as int);
    let mut seen: HashSet<usize> = HashSet::new();
    let mut out: Vec<usize> = Vec::new();
    assert(ns.take(0) =~= Seq::<int>::empty());
    assert(seen@ =~= out@.to_set());
    for i in 0..near.len()
        invariant
            graphs::as_ints(near@) == ns,
            out@ == firsts(ns.take(i as int), nx as int),
            seen@ == out@.to_set(),
    {
        let w: usize = near[i];
        proof {
            assert(graphs::as_ints(near@)[i as int] == w as int);
            assert(ns.take(i + 1).drop_last() =~= ns.take(i as int));
            assert(ns.take(i + 1).last() == w as int);
        }
        let ghost before = out@;
        if w != nx && !seen.contains(&w) {
            out.push(w);
            seen.insert(w);
            proof {
                lemma_push_set(before, w);
            }
        }
    }
    assert(ns.take(ns.len() as int) =~= ns);
    assert(graphs::as_ints(near@).len() == near@.len());
    out
}

/// The elements after one more is appended.
proof fn lemma_push_set(s: Seq<usize>, x: usize)
    ensures
        s.push(x).to_set() == s.to_set().insert(x),
{
    assert forall|y: usize| s.push(x).to_set().contains(y) == s.to_set().insert(x).contains(y) by {
        if y == x {
            assert(s.push(x)[s.len() as int] == x);
        }
        if s.contains(y) {
            assert(s.push(x)[s.index_of(y)] == y);
        }
        if s.push(x).contains(y) && y != x {
            assert(s[s.push(x).index_of(y)] == y);
        }
    }
    assert(s.push(x).to_set() =~= s.to_set().insert(x));
}

/// What one node asks for.
struct NodePicks {
    kept: Vec<usize>,
    strangers: Vec<usize>,
    is_hub: bool,
    /// The members of `kept`, where the node is a hub.
    kept_set: HashSet<usize>,
}

impl NodePicks {
    spec fn plan(self) -> Plan {
        Plan { kept: self.kept@, strangers: self.strangers@, hub: self.is_hub }
    }

    spec fn wf(self) -> bool {
        self.is_hub ==> self.kept_set@ == self.kept@.to_set()
    }
}

/// The members of a list.
fn members(items: &Vec<usize>) -> (r: HashSet<usize>)
    ensures
        r@ == items@.to_set(),
{
    let mut out: HashSet<usize> = HashSet::new();
    assert(items@.take(0) =~= Seq::<usize>::empty());
    assert(out@ =~= items@.take(0).to_set());
    for i in 0..items.len()
        invariant
            out@ == items@.take(i as int).to_set(),
    {
        out.insert(items[i]);
        proof {
            assert(items@.take(i + 1) =~= items@.take(i as int).push(items@[i as int]));
            lemma_push_set(items@.take(i as int), items@[i as int]);
        }
    }
    assert(items@.take(items@.len() as int) =~= items@);
    out
}

/// Decides what the node at a vertex asks for.
fn plan_node(topology: &Topology, nx: usize, k: usize, max_peer: usize, r: &mut ChaCha8Rng) -> (out:
    NodePicks)
    requires
        topology.wf(),
        nx < topology.nodes@.len(),
    ensures
        out.wf(),
        (out.plan(), *final(r)) == planned(
            counterparties(topology.arcs(), nx as int),
            topology.nodes@.len() as usize,
            nx as int,
            k,
            max_peer,
            *old(r),
        ),
        out.plan().fits(
            counterparties(topology.arcs(), nx as int),
            topology.nodes@.len() as usize,
            nx as int,
            k,
            max_peer,
        ),
{
    let n: usize = topology.len();
    let cp: Vec<usize> = counterparties_of(topology, nx);
    let c: usize = cp.len();
    proof {
        counterparties_share_a_channel(topology.arcs(), n, nx as int);
    }
    if c > max_peer {
        let kept: Vec<usize> = rng::choose_multiple(r, &cp, max_peer);
        let kept_set: HashSet<usize> = members(&kept);
        proof {
            let at = rng::positions_draw(*old(r), cp@.len(), max_peer).0;
            assert(kept@ =~= at.map_values(|p: int| cp@[p])) by {
                assert forall|i: int| 0 <= i < kept@.len() implies kept@[i] == cp@[#[trigger] at[i]] by {
                }
            }
            assert(kept@.no_duplicates()) by {
                assert forall|i: int, j: int|
                    0 <= i < kept@.len() && 0 <= j < kept@.len() && i != j implies kept@[i]
                    != kept@[j] by {
                    assert(kept@[i] == cp@[at[i]]);
                    assert(kept@[j] == cp@[at[j]]);
                    if i < j {
                        assert(at[i] != at[j]);
                    } else {
                        assert(at[j] != at[i]);
                    }
                }
            }
            assert forall|i: int| 0 <= i < kept@.len() implies cp@.contains(
                #[trigger] kept@[i],
            ) by {
                assert(kept@[i] == cp@[at[i]]);
            }
        }
        let out = NodePicks { kept, strangers: Vec::new(), is_hub: true, kept_set };
        assert(out.strangers@ =~= Seq::<usize>::empty());
        out
    } else {
        let quota: usize = if c >= k {
            0
        } else {
            (k - c) / 2 + (k - c) % 2
        };
        assert(quota == stranger_quota(c as int, k as int));
        let far: Vec<usize> = if quota > 0 {
            let mut excluded: HashSet<usize> = members(&cp);
            excluded.insert(nx);
            proof {
                assert forall|x: usize| excluded@.contains(x) implies x < n by {
                    if x != nx {
                        assert(cp@.contains(x));
                    }
                }
            }
            pick_strangers(n, &excluded, quota, r)
        } else {
            Vec::new()
        };
        assert(quota == 0 ==> far@ =~= Seq::<usize>::empty());
        let out = NodePicks { kept: cp, strangers: far, is_hub: false, kept_set: HashSet::new() };
        out
    }
}

/// Whether the node at `dst` takes an edge from the node at `src`.
fn edge_allowed(picks: &Vec<NodePicks>, enforce: bool, src: usize, dst: usize) -> (r: bool)
    requires
        dst < picks@.len(),
        picks@[dst as int].wf(),
    ensures
        r == admits(views(picks@), enforce, src as int, dst as int),
{
    if !enforce || !picks[dst].is_hub {
        true
    } else {
        picks[dst].kept_set.contains(&src)
    }
}

spec fn views(picks: Seq<NodePicks>) -> Seq<Plan> {
    picks.map_values(|p: NodePicks| p.plan())
}

proof fn lemma_demand(arcs: Seq<(int, int, u64)>, ks: Seq<usize>, a: nat, b: nat)
    requires
        a <= b,
    ensures
        demand(arcs, ks, a) <= demand(arcs, ks, b),
    decreases b,
{
    if a < b {
        lemma_demand(arcs, ks, a, (b - 1) as nat);
    }
}

/// The edge `e` is counted at most twice over all vertices.
proof fn lemma_demand_grows(
    arcs: Seq<(int, int, u64)>,
    e: (int, int, u64),
    ks: Seq<usize>,
    upto: nat,
)
    ensures
        demand(arcs.push(e), ks, upto) <= demand(arcs, ks, upto) + (if 0 <= e.0 < upto {
            1int
        } else {
            0
        }) + (if 0 <= e.1 < upto {
            1int
        } else {
            0
        }),
    decreases upto,
{
    if upto > 0 {
        lemma_demand_grows(arcs, e, ks, (upto - 1) as nat);
        let v = upto - 1;
        let more = graphs::unlabelled(arcs.push(e));
        assert(more.drop_last() =~= graphs::unlabelled(arcs));
        assert(more.last() == (e.0, e.1));
        assert(graphs::neighbours(more, v).len() <= graphs::neighbours(
            graphs::unlabelled(arcs),
            v,
        ).len() + (if e.0 == v {
            1int
        } else {
            0
        }) + (if e.1 == v {
            1int
        } else {
            0
        }));
    }
}

/// A network asks for at most two channel ends for every channel and, for
/// every node, the largest target or as many as there are nodes.
pub proof fn demand_is_bounded(arcs: Seq<(int, int, u64)>, ks: Seq<usize>, most: nat, upto: nat)
    requires
        upto <= ks.len(),
        forall|i: int| 0 <= i < ks.len() ==> #[trigger] ks[i] <= most,
    ensures
        demand(arcs, ks, upto) <= 2 * arcs.len() + upto * most,
        demand(arcs, ks, upto) <= 2 * arcs.len() + upto * ks.len(),
    decreases arcs.len(), upto,
{
    if arcs.len() > 0 {
        let before = arcs.drop_last();
        demand_is_bounded(before, ks, most, upto);
        lemma_demand_grows(before, arcs.last(), ks, upto);
        assert(before.push(arcs.last()) =~= arcs);
    } else if upto > 0 {
        demand_is_bounded(arcs, ks, most, (upto - 1) as nat);
        assert(graphs::unlabelled(arcs) =~= Seq::<(int, int)>::empty());
        assert(upto * most == (upto - 1) * most + most) by (nonlinear_arith);
        assert(upto * ks.len() == (upto - 1) * ks.len() + ks.len()) by (nonlinear_arith);
        assert(ks[upto - 1] <= most);
    }
}

proof fn lemma_refused_upto(ps: Seq<Plan>, enforce: bool, a: nat, b: nat)
    requires
        a <= b,
    ensures
        refused_upto(ps, enforce, a) <= refused_upto(ps, enforce, b),
    decreases b,
{
    if a < b {
        lemma_refused_upto(ps, enforce, a, (b - 1) as nat);
    }
}

/// What a node asks for is bounded by its channel ends and its strangers.
proof fn lemma_requests(
    p: Plan,
    arcs: Seq<(int, int, u64)>,
    n: usize,
    v: int,
    k: usize,
    cap: usize,
)
    requires
        graph::arcs_within(arcs, n as int),
        0 <= v < n,
        p.fits(counterparties(arcs, v), n, v, k, cap),
    ensures
        p.requests().len() <= graphs::neighbours(graphs::unlabelled(arcs), v).len()
            + most_strangers(k, n as nat),
        forall|i: int|
            0 <= i < p.requests().len() ==> (#[trigger] p.requests()[i]) < n && p.requests()[i]
                != v,
{
    counterparties_share_a_channel(arcs, n, v);
    let cp = counterparties(arcs, v);
    assert forall|i: int| 0 <= i < p.requests().len() implies (#[trigger] p.requests()[i]) < n
        && p.requests()[i] != v by {
        if i < p.kept.len() {
            assert(p.requests()[i] == p.kept[i]);
            assert(cp.contains(p.kept[i]));
        } else {
            assert(p.requests()[i] == p.strangers[i - p.kept.len()]);
        }
    }
    if p.hub {
        assert(p.kept.len() <= cp.len());
    }
}

/// Stats of a peer graph's construction.
#[derive(Debug, Clone, Copy, PartialEq, Eq, Structural)]
pub struct PeerBuildStats {
    /// Requests that a hub refused.
    pub hub_rejected_edges: usize,
    /// Strangers added in place of refused requests.
    pub replacements_added: usize,
}

impl Default for PeerBuildStats {
    fn default() -> (r: Self)
        ensures
            r == (PeerBuildStats { hub_rejected_edges: 0, replacements_added: 0 }),
    {
        PeerBuildStats { hub_rejected_edges: 0, replacements_added: 0 }
    }
}

/// Decides what every node asks for.
fn plan_all(topology: &Topology, ks: &Vec<usize>, caps: &Vec<usize>, r: &mut ChaCha8Rng) -> (out:
    Vec<NodePicks>)
    requires
        topology.wf(),
        ks@.len() == topology.nodes@.len(),
        caps@.len() == topology.nodes@.len(),
    ensures
        (views(out@), *final(r)) == plans(
            topology.arcs(),
            topology.nodes@.len() as usize,
            ks@,
            caps@,
            *old(r),
            topology.nodes@.len(),
        ),
        plans_fit(views(out@), topology.arcs(), topology.nodes@.len() as usize, ks@, caps@),
        forall|i: int| 0 <= i < out@.len() ==> (#[trigger] out@[i]).wf(),
        out@.len() == topology.nodes@.len(),
{
    let n: usize = topology.len();
    let mut out: Vec<NodePicks> = Vec::new();
    assert(views(out@) =~= Seq::<Plan>::empty());
    for i in 0..n
        invariant
            topology.wf(),
            n == topology.nodes@.len(),
            ks@.len() == n,
            caps@.len() == n,
            (views(out@), *r) == plans(topology.arcs(), n, ks@, caps@, *old(r), i as nat),
            out@.len() == i,
            forall|j: int| 0 <= j < out@.len() ==> (#[trigger] out@[j]).wf(),
            forall|v: int|
                0 <= v < out@.len() ==> (#[trigger] views(out@)[v]).fits(
                    counterparties(topology.arcs(), v),
                    n,
                    v,
                    ks@[v],
                    caps@[v],
                ),
    {
        let ghost before = views(out@);
        let p = plan_node(topology, i, ks[i], caps[i], r);
        out.push(p);
        proof {
            assert(views(out@) =~= before.push(p.plan()));
            assert forall|v: int| 0 <= v < out@.len() implies (#[trigger] views(out@)[v]).fits(
                counterparties(topology.arcs(), v),
                n,
                v,
                ks@[v],
                caps@[v],
            ) by {
                if v < before.len() {
                    assert(views(out@)[v] == before[v]);
                }
            }
        }
    }
    out
}

/// The peer graph grew by at most what was asked for and not refused.
spec fn within_demand(
    links: Seq<(int, int)>,
    before: Seq<(int, int)>,
    refusals: nat,
    requested: nat,
) -> bool {
    links.len() + refusals <= before.len() + requested
}

/// Makes the requests of the node at a vertex, and returns how many were
/// refused.
fn join_node(topology: &mut Topology, picks: &Vec<NodePicks>, enforce: bool, nx: usize) -> (lost:
    usize)
    requires
        old(topology).wf(),
        nx < old(topology).nodes@.len(),
        picks@.len() == old(topology).nodes@.len(),
        forall|i: int| 0 <= i < picks@.len() ==> (#[trigger] picks@[i]).wf(),
        forall|i: int|
            0 <= i < views(picks@)[nx as int].requests().len() ==> (#[trigger] views(
                picks@,
            )[nx as int].requests()[i]) < picks@.len(),
        old(topology).links().len() + views(picks@)[nx as int].requests().len() <= u32::MAX,
    ensures
        final(topology).wf(),
        final(topology).nodes@ == old(topology).nodes@,
        final(topology).arcs() == old(topology).arcs(),
        final(topology).links() == joined(
            old(topology).links(),
            views(picks@),
            enforce,
            nx as int,
            views(picks@)[nx as int].requests(),
        ),
        lost == refused(
            views(picks@),
            enforce,
            nx as int,
            views(picks@)[nx as int].requests(),
        ),
        within_demand(
            final(topology).links(),
            old(topology).links(),
            lost as nat,
            views(picks@)[nx as int].requests().len(),
        ),
{
    let ghost ps = views(picks@);
    let ghost reqs = ps[nx as int].requests();
    let ghost before = topology.links();
    let mut lost: usize = 0;
    let kept: usize = picks[nx].kept.len();
    let far: usize = picks[nx].strangers.len();
    assert(reqs.take(0) =~= Seq::<usize>::empty());
    let mut i: usize = 0;
    while i < kept || i - kept < far
        invariant
            topology.wf(),
            topology.nodes@ == old(topology).nodes@,
            topology.arcs() == old(topology).arcs(),
            before == old(topology).links(),
            ps == views(picks@),
            reqs == ps[nx as int].requests(),
            nx < picks@.len(),
            picks@.len() == topology.nodes@.len(),
            forall|j: int| 0 <= j < picks@.len() ==> (#[trigger] picks@[j]).wf(),
            forall|j: int| 0 <= j < reqs.len() ==> (#[trigger] reqs[j]) < picks@.len(),
            kept == picks@[nx as int].kept@.len(),
            far == picks@[nx as int].strangers@.len(),
            reqs.len() == kept + far,
            i <= reqs.len(),
            before.len() + reqs.len() <= u32::MAX,
            topology.links() == joined(before, ps, enforce, nx as int, reqs.take(i as int)),
            lost == refused(ps, enforce, nx as int, reqs.take(i as int)),
            topology.links().len() + lost <= before.len() + i,
        decreases reqs.len() - i,
    {
        let w: usize = if i < kept {
            picks[nx].kept[i]
        } else {
            picks[nx].strangers[i - kept]
        };
        proof {
            assert(reqs[i as int] == w);
            assert(reqs.take(i + 1).drop_last() =~= reqs.take(i as int));
            assert(reqs.take(i + 1).last() == w);
        }
        if !edge_allowed(picks, enforce, nx, w) {
            lost = lost + 1;
        } else if !graphs::has_link(&topology.peers, nx, w) {
            graphs::add_link(&mut topology.peers, nx, w);
        }
        i = i + 1;
    }
    assert(reqs.take(reqs.len() as int) =~= reqs);
    lost
}

/// The vertices that cannot replace a refused one.
fn barred_for(topology: &Topology, picks: &Vec<NodePicks>, nx: usize) -> (r: HashSet<usize>)
    requires
        topology.wf(),
        nx < topology.nodes@.len(),
        picks@.len() == topology.nodes@.len(),
        forall|i: int| 0 <= i < picks@.len() ==> (#[trigger] picks@[i]).wf(),
    ensures
        r@ == barred(
            topology.links(),
            views(picks@),
            topology.nodes@.len() as usize,
            nx as int,
        ),
{
    let ghost ps = views(picks@);
    let mut out: HashSet<usize> = HashSet::new();
    out.insert(nx);
    let near: Vec<usize> = topology.peers_at(nx);
    let ghost ns = graphs::neighbours(topology.links(), nx as int);
    proof {
        graphs::lemma_neighbours(topology.links(), nx as int);
    }
    for i in 0..near.len()
        invariant
            graphs::as_ints(near@) == ns,
            nx < topology.nodes@.len(),
            forall|j: int| 0 <= j < near@.len() ==> (#[trigger] near@[j]) < topology.nodes@.len(),
            forall|w: usize| #[trigger]
                out@.contains(w) <==> w == nx || near@.take(i as int).contains(w),
    {
        let ghost before = out@;
        out.insert(near[i]);
        proof {
            let prev = near@.take(i as int);
            assert(near@.take(i + 1) =~= prev.push(near@[i as int]));
            lemma_push_set(prev, near@[i as int]);
            assert forall|w: usize| #[trigger] out@.contains(w) <==> w == nx || near@.take(
                i + 1,
            ).contains(w) by {
                assert(prev.to_set().contains(w) == prev.contains(w));
                assert(near@.take(i + 1).to_set().contains(w) == near@.take(i + 1).contains(w));
                assert(before.contains(w) <==> w == nx || prev.contains(w));
            }
        }
    }
    proof {
        assert(near@.take(near@.len() as int) =~= near@);
        assert forall|w: usize| #[trigger] out@.contains(w) <==> w < topology.nodes@.len() && (w
            == nx || graphs::linked(topology.links(), nx as int, w as int)) by {
            assert(ns.contains(w as int) <==> near@.contains(w)) by {
                if ns.contains(w as int) {
                    let p = ns.index_of(w as int);
                    assert(graphs::as_ints(near@)[p] == w as int);
                    assert(near@[p] == w);
                }
                if near@.contains(w) {
                    let p = near@.index_of(w);
                    assert(graphs::as_ints(near@)[p] == w as int);
                }
            }
            if near@.contains(w) {
                assert(near@[near@.index_of(w)] < topology.nodes@.len());
            }
        }
    }
    for i in 0..picks.len()
        invariant
            ps == views(picks@),
            nx < topology.nodes@.len(),
            picks@.len() == topology.nodes@.len(),
            forall|j: int| 0 <= j < picks@.len() ==> (#[trigger] picks@[j]).wf(),
            forall|w: usize| #[trigger]
                out@.contains(w) <==> w < topology.nodes@.len() && (w == nx || graphs::linked(
                    topology.links(),
                    nx as int,
                    w as int,
                ) || (w < i && !admits(ps, true, nx as int, w as int))),
    {
        if !edge_allowed(picks, true, nx, i) {
            out.insert(i);
        }
    }
    assert(out@ =~= barred(topology.links(), ps, topology.nodes@.len() as usize, nx as int));
    out
}

/// One more edge at `v` links `v` to its far end and to nothing else.
proof fn lemma_push_linked(links: Seq<(int, int)>, v: int, w: int)
    ensures
        forall|x: int| x != v ==> (#[trigger] graphs::linked(links.push((v, w)), v, x) <==> x == w
            || graphs::linked(links, v, x)),
{
    let more = links.push((v, w));
    assert forall|x: int| x != v implies (#[trigger] graphs::linked(more, v, x) <==> x == w
        || graphs::linked(links, v, x)) by {
        if graphs::linked(more, v, x) {
            let i = choose|i: int|
                0 <= i < more.len() && (#[trigger] more[i] == (v, x) || more[i] == (x, v));
            if i < links.len() {
                assert(links[i] == more[i]);
            }
        }
        if graphs::linked(links, v, x) {
            let i = choose|i: int|
                0 <= i < links.len() && (#[trigger] links[i] == (v, x) || links[i] == (x, v));
            assert(more[i] == links[i]);
        }
        assert(more[links.len() as int] == (v, w));
    }
}

/// Replaces the refused requests of the node at a vertex, and returns how
/// many strangers it got.
fn top_up_node(
    topology: &mut Topology,
    picks: &Vec<NodePicks>,
    nx: usize,
    lost: usize,
    r: &mut ChaCha8Rng,
) -> (added: usize)
    requires
        old(topology).wf(),
        nx < old(topology).nodes@.len(),
        picks@.len() == old(topology).nodes@.len(),
        forall|i: int| 0 <= i < picks@.len() ==> (#[trigger] picks@[i]).wf(),
        lost == refused(
            views(picks@),
            true,
            nx as int,
            views(picks@)[nx as int].requests(),
        ),
        old(topology).links().len() + lost <= u32::MAX,
    ensures
        final(topology).wf(),
        final(topology).nodes@ == old(topology).nodes@,
        final(topology).arcs() == old(topology).arcs(),
        forall|before: nat|
            (TopUp { links: final(topology).links(), added: before + added as nat, rng: *final(r) })
                == #[trigger] topped(
                TopUp { links: old(topology).links(), added: before, rng: *old(r) },
                views(picks@),
                old(topology).nodes@.len() as usize,
                nx as int,
            ),
        added <= lost,
        final(topology).links().len() == old(topology).links().len() + added,
        lost > 0 ==> free_picks(
            strangers(
                *old(r),
                old(topology).nodes@.len() as usize,
                barred(
                    old(topology).links(),
                    views(picks@),
                    old(topology).nodes@.len() as usize,
                    nx as int,
                ),
                lost as nat,
            ).0,
            old(topology).nodes@.len() as usize,
            barred(
                old(topology).links(),
                views(picks@),
                old(topology).nodes@.len() as usize,
                nx as int,
            ),
        ),
        added == if lost == 0 {
            0
        } else {
            stranger_target(
                old(topology).nodes@.len() as usize,
                barred(
                    old(topology).links(),
                    views(picks@),
                    old(topology).nodes@.len() as usize,
                    nx as int,
                ),
                lost as nat,
            )
        },
{
    if lost == 0 {
        return 0;
    }
    let n: usize = topology.len();
    let ghost links = topology.links();
    let ghost ps = views(picks@);
    let out_of_reach: HashSet<usize> = barred_for(topology, picks, nx);
    let others: Vec<usize> = pick_strangers(n, &out_of_reach, lost, r);
    let mut added: usize = 0;
    let ghost edges = spokes(nx as int, others@);
    assert(links + edges.take(0) =~= links);
    for i in 0..others.len()
        invariant
            topology.wf(),
            topology.nodes@ == old(topology).nodes@,
            topology.arcs() == old(topology).arcs(),
            n == topology.nodes@.len(),
            nx < n,
            links == old(topology).links(),
            out_of_reach@ == barred(links, ps, n, nx as int),
            free_picks(others@, n, out_of_reach@),
            edges == spokes(nx as int, others@),
            others@.len() <= lost,
            links.len() + lost <= u32::MAX,
            added == i,
            topology.links() == links + edges.take(i as int),
            forall|x: int|
                x != nx ==> (#[trigger] graphs::linked(topology.links(), nx as int, x)
                    <==> graphs::linked(links, nx as int, x) || exists|j: int|
                    0 <= j < i && x == #[trigger] others@[j] as int),
    {
        let w: usize = others[i];
        let ghost now = topology.links();
        proof {
            assert(!out_of_reach@.contains(others@[i as int]));
            assert(!graphs::linked(now, nx as int, w as int));
            lemma_push_linked(now, nx as int, w as int);
            assert(edges.take(i + 1) =~= edges.take(i as int).push((nx as int, w as int)));
            assert(now.push((nx as int, w as int)) =~= links + edges.take(i + 1));
        }
        if !graphs::has_link(&topology.peers, nx, w) {
            graphs::add_link(&mut topology.peers, nx, w);
            added = added + 1;
        }
        proof {
            assert forall|x: int| x != nx implies (#[trigger] graphs::linked(
                topology.links(),
                nx as int,
                x,
            ) <==> graphs::linked(links, nx as int, x) || exists|j: int|
                0 <= j < i + 1 && x == #[trigger] others@[j] as int) by {
                assert(graphs::linked(topology.links(), nx as int, x) <==> x == w || graphs::linked(
                    now,
                    nx as int,
                    x,
                ));
                if x == w {
                    assert(x == others@[i as int] as int);
                }
            }
        }
    }
    proof {
        assert(edges.take(edges.len() as int) =~= edges);
        assert forall|before: nat|
            (TopUp { links: topology.links(), added: before + added as nat, rng: *r }) == #[trigger] topped(
                TopUp { links: old(topology).links(), added: before, rng: *old(r) },
                views(picks@),
                n,
                nx as int,
            ) by {
        }
    }
    added
}

/// The `i`-th edge was rightly added: its ends differ, were not joined
/// before, the far end admits the near end, and the near end asked for
/// the far end or was owed a replacement.
pub open spec fn edge_sound(links: Seq<(int, int)>, i: int, ps: Seq<Plan>, enforce: bool) -> bool {
    let (a, b) = links[i];
    &&& a != b
    &&& !graphs::linked(links.take(i), a, b)
    &&& admits(ps, enforce, a, b)
    &&& ps[a].requests().contains(b as usize) || refused(ps, enforce, a, ps[a].requests()) > 0
}

/// `links` extends `before` by edges that were rightly added.
pub open spec fn grown(
    before: Seq<(int, int)>,
    links: Seq<(int, int)>,
    ps: Seq<Plan>,
    enforce: bool,
) -> bool {
    &&& before.len() <= links.len()
    &&& links.take(before.len() as int) == before
    &&& forall|i: int|
        before.len() <= i < links.len() ==> #[trigger] edge_sound(links, i, ps, enforce)
}

/// Every request of the node at `v` that was not refused was met.
pub open spec fn served(links: Seq<(int, int)>, ps: Seq<Plan>, enforce: bool, v: int) -> bool {
    forall|i: int|
        0 <= i < ps[v].requests().len() && admits(
            ps,
            enforce,
            v,
            (#[trigger] ps[v].requests()[i]) as int,
        ) ==> graphs::linked(links, v, ps[v].requests()[i] as int)
}

proof fn lemma_linked_grows(a: Seq<(int, int)>, b: Seq<(int, int)>)
    requires
        a.len() <= b.len(),
        b.take(a.len() as int) == a,
    ensures
        forall|v: int, w: int| #[trigger] graphs::linked(a, v, w) ==> graphs::linked(b, v, w),
{
    assert forall|v: int, w: int| #[trigger] graphs::linked(a, v, w) implies graphs::linked(
        b,
        v,
        w,
    ) by {
        let i = choose|i: int| 0 <= i < a.len() && (#[trigger] a[i] == (v, w) || a[i] == (w, v));
        assert(b[i] == b.take(a.len() as int)[i]);
    }
}

proof fn lemma_grown_push(
    before: Seq<(int, int)>,
    links: Seq<(int, int)>,
    ps: Seq<Plan>,
    enforce: bool,
    e: (int, int),
)
    requires
        grown(before, links, ps, enforce),
        e.0 != e.1,
        !graphs::linked(links, e.0, e.1),
        admits(ps, enforce, e.0, e.1),
        ps[e.0].requests().contains(e.1 as usize) || refused(
            ps,
            enforce,
            e.0,
            ps[e.0].requests(),
        ) > 0,
    ensures
        grown(before, links.push(e), ps, enforce),
{
    let more = links.push(e);
    assert(more.take(before.len() as int) =~= links.take(before.len() as int));
    assert forall|i: int| before.len() <= i < more.len() implies #[trigger] edge_sound(
        more,
        i,
        ps,
        enforce,
    ) by {
        if i < links.len() {
            assert(edge_sound(links, i, ps, enforce));
            assert(more.take(i) =~= links.take(i));
        } else {
            assert(more.take(i) =~= links);
        }
    }
}

proof fn lemma_joined(
    before: Seq<(int, int)>,
    links: Seq<(int, int)>,
    ps: Seq<Plan>,
    enforce: bool,
    v: int,
    upto: nat,
)
    requires
        grown(before, links, ps, enforce),
        upto <= ps[v].requests().len(),
        forall|i: int|
            0 <= i < ps[v].requests().len() ==> (#[trigger] ps[v].requests()[i]) as int != v,
    ensures
        grown(before, joined(links, ps, enforce, v, ps[v].requests().take(upto as int)), ps, enforce),
        links.len() <= joined(links, ps, enforce, v, ps[v].requests().take(upto as int)).len(),
        joined(links, ps, enforce, v, ps[v].requests().take(upto as int)).take(links.len() as int)
            == links,
        forall|i: int|
            0 <= i < upto && admits(ps, enforce, v, (#[trigger] ps[v].requests()[i]) as int)
                ==> graphs::linked(
                joined(links, ps, enforce, v, ps[v].requests().take(upto as int)),
                v,
                ps[v].requests()[i] as int,
            ),
    decreases upto,
{
    let reqs = ps[v].requests();
    if upto == 0 {
        assert(links.take(links.len() as int) =~= links);
    } else {
        let prev = (upto - 1) as nat;
        lemma_joined(before, links, ps, enforce, v, prev);
        let was = joined(links, ps, enforce, v, reqs.take(prev as int));
        let now = joined(links, ps, enforce, v, reqs.take(upto as int));
        assert(reqs.take(upto as int).drop_last() =~= reqs.take(prev as int));
        let w = reqs[prev as int] as int;
        assert(reqs.take(upto as int).last() == reqs[prev as int]);
        if admits(ps, enforce, v, w) && !graphs::linked(was, v, w) {
            assert(reqs.contains(reqs[prev as int]));
            lemma_grown_push(before, was, ps, enforce, (v, w));
            assert(now == was.push((v, w)));
            assert(now.take(links.len() as int) =~= was.take(links.len() as int));
            assert(now[was.len() as int] == (v, w));
            assert(now.take(was.len() as int) =~= was);
            lemma_linked_grows(was, now);
        }
    }
}

/// The graph after the first `upto` nodes have asked grew rightly, and
/// served them.
proof fn lemma_joined_upto(links: Seq<(int, int)>, ps: Seq<Plan>, enforce: bool, upto: nat)
    requires
        upto <= ps.len(),
        forall|v: int, i: int|
            0 <= v < ps.len() && 0 <= i < ps[v].requests().len() ==> (
            #[trigger] ps[v].requests()[i]) as int != v,
    ensures
        grown(links, joined_upto(links, ps, enforce, upto), ps, enforce),
        forall|v: int|
            0 <= v < upto ==> #[trigger] served(
                joined_upto(links, ps, enforce, upto),
                ps,
                enforce,
                v,
            ),
    decreases upto,
{
    if upto == 0 {
        assert(links.take(links.len() as int) =~= links);
    } else {
        let last = upto - 1;
        let prev = last as nat;
        lemma_joined_upto(links, ps, enforce, prev);
        let was = joined_upto(links, ps, enforce, prev);
        let now = joined_upto(links, ps, enforce, upto);
        let reqs = ps[last].requests();
        lemma_joined(links, was, ps, enforce, last, reqs.len());
        assert(reqs.take(reqs.len() as int) =~= reqs);
        lemma_linked_grows(was, now);
        assert forall|v: int| 0 <= v < upto implies #[trigger] served(now, ps, enforce, v) by {
            if v < last {
                assert(served(was, ps, enforce, v));
            }
        }
    }
}

/// A top-up keeps the graph rightly grown.
proof fn lemma_topped(
    before: Seq<(int, int)>,
    links: Seq<(int, int)>,
    ps: Seq<Plan>,
    n: usize,
    v: int,
    others: Seq<usize>,
    upto: nat,
)
    requires
        grown(before, links, ps, true),
        0 <= v < n,
        refused(ps, true, v, ps[v].requests()) > 0,
        free_picks(others, n, barred(links, ps, n, v)),
        upto <= others.len(),
    ensures
        grown(
            before,
            links + spokes(v, others.take(upto as int)),
            ps,
            true,
        ),
        forall|x: int|
            x != v ==> (#[trigger] graphs::linked(
                links + spokes(v, others.take(upto as int)),
                v,
                x,
            ) <==> graphs::linked(links, v, x) || exists|j: int|
                0 <= j < upto && x == #[trigger] others[j] as int),
    decreases upto,
{
    if upto == 0 {
        assert(links + spokes(v, others.take(0)) =~= links);
    } else {
        let prev = (upto - 1) as nat;
        lemma_topped(before, links, ps, n, v, others, prev);
        let was = links + spokes(v, others.take(prev as int));
        let now = links + spokes(v, others.take(upto as int));
        let w = others[prev as int] as int;
        assert(now =~= was.push((v, w)));
        assert(!barred(links, ps, n, v).contains(others[prev as int]));
        assert(!graphs::linked(was, v, w));
        lemma_grown_push(before, was, ps, true, (v, w));
        lemma_push_linked(was, v, w);
        assert forall|x: int| x != v implies (#[trigger] graphs::linked(now, v, x)
            <==> graphs::linked(links, v, x) || exists|j: int|
            0 <= j < upto && x == #[trigger] others[j] as int) by {
            assert(graphs::linked(now, v, x) <==> x == w || graphs::linked(was, v, x));
            if x == w {
                assert(x == others[prev as int] as int);
            }
        }
    }
}

/// In each of the first `upto` top-ups there are candidates for every
/// refused request.
pub open spec fn pool_suffices(t: TopUp, ps: Seq<Plan>, n: usize, upto: nat) -> bool {
    forall|v: int|
        0 <= v < upto ==> (#[trigger] barred(
            topped_upto(t, ps, n, v as nat).links,
            ps,
            n,
            v,
        )).len() + refused(ps, true, v, ps[v].requests()) <= n
}

/// Joins every node to what it asks for, given what each asks for.
fn join_all(topology: &mut Topology, picks: &Vec<NodePicks>, enforce: bool, Ghost(bound): Ghost<
    spec_fn(nat) -> nat,
>) -> (dropped: Vec<usize>)
    requires
        old(topology).wf(),
        picks@.len() == old(topology).nodes@.len(),
        forall|i: int| 0 <= i < picks@.len() ==> (#[trigger] picks@[i]).wf(),
        forall|v: int, i: int|
            0 <= v < picks@.len() && 0 <= i < views(picks@)[v].requests().len() ==> (
            #[trigger] views(picks@)[v].requests()[i]) < picks@.len(),
        bound(0) == 0,
        forall|v: nat|
            v < picks@.len() ==> (#[trigger] bound(v)) + views(
                picks@,
            )[v as int].requests().len() <= bound(v + 1),
        forall|v: nat| v <= picks@.len() ==> #[trigger] bound(v) <= bound(picks@.len()),
        old(topology).links().len() + bound(picks@.len()) <= u32::MAX,
    ensures
        final(topology).wf(),
        final(topology).nodes@ == old(topology).nodes@,
        final(topology).arcs() == old(topology).arcs(),
        final(topology).links() == joined_upto(
            old(topology).links(),
            views(picks@),
            enforce,
            picks@.len(),
        ),
        dropped@.len() == picks@.len(),
        forall|v: int|
            0 <= v < dropped@.len() ==> (#[trigger] dropped@[v]) == refused(
                views(picks@),
                enforce,
                v,
                views(picks@)[v].requests(),
            ),
        final(topology).links().len() + refused_upto(views(picks@), enforce, picks@.len()) <= old(
            topology,
        ).links().len() + bound(picks@.len()),
{
    let ghost ps = views(picks@);
    let ghost before = topology.links();
    let mut dropped: Vec<usize> = Vec::new();
    for i in 0..picks.len()
        invariant
            topology.wf(),
            topology.nodes@ == old(topology).nodes@,
            topology.arcs() == old(topology).arcs(),
            before == old(topology).links(),
            ps == views(picks@),
            picks@.len() == topology.nodes@.len(),
            forall|j: int| 0 <= j < picks@.len() ==> (#[trigger] picks@[j]).wf(),
            forall|v: int, j: int|
                0 <= v < picks@.len() && 0 <= j < ps[v].requests().len() ==> (
                #[trigger] ps[v].requests()[j]) < picks@.len(),
            forall|v: nat|
                v < picks@.len() ==> (#[trigger] bound(v)) + ps[v as int].requests().len()
                    <= bound(v + 1),
            forall|v: nat| v <= picks@.len() ==> #[trigger] bound(v) <= bound(picks@.len()),
            before.len() + bound(picks@.len()) <= u32::MAX,
            topology.links() == joined_upto(before, ps, enforce, i as nat),
            dropped@.len() == i,
            forall|v: int|
                0 <= v < dropped@.len() ==> (#[trigger] dropped@[v]) == refused(
                    ps,
                    enforce,
                    v,
                    ps[v].requests(),
                ),
            topology.links().len() + refused_upto(ps, enforce, i as nat) <= before.len() + bound(
                i as nat,
            ),
    {
        proof {
            assert(bound(i as nat) + ps[i as int].requests().len() <= bound(i as nat + 1));
            assert(bound(i as nat + 1) <= bound(picks@.len()));
        }
        let lost: usize = join_node(topology, picks, enforce, i);
        dropped.push(lost);
    }
    dropped
}

/// Replaces the refused requests of every node, and returns how many
/// strangers were added.
fn top_up_all(
    topology: &mut Topology,
    picks: &Vec<NodePicks>,
    dropped: &Vec<usize>,
    r: &mut ChaCha8Rng,
    Ghost(before): Ghost<Seq<(int, int)>>,
) -> (added: usize)
    requires
        old(topology).wf(),
        picks@.len() == old(topology).nodes@.len(),
        dropped@.len() == picks@.len(),
        forall|i: int| 0 <= i < picks@.len() ==> (#[trigger] picks@[i]).wf(),
        forall|v: int|
            0 <= v < dropped@.len() ==> (#[trigger] dropped@[v]) == refused(
                views(picks@),
                true,
                v,
                views(picks@)[v].requests(),
            ),
        old(topology).links().len() + refused_upto(views(picks@), true, picks@.len()) <= u32::MAX,
        grown(before, old(topology).links(), views(picks@), true),
    ensures
        final(topology).wf(),
        final(topology).nodes@ == old(topology).nodes@,
        final(topology).arcs() == old(topology).arcs(),
        (TopUp { links: final(topology).links(), added: added as nat, rng: *final(r) })
            == topped_upto(
            TopUp { links: old(topology).links(), added: 0, rng: *old(r) },
            views(picks@),
            picks@.len() as usize,
            picks@.len(),
        ),
        added <= refused_upto(views(picks@), true, picks@.len()),
        pool_suffices(
            TopUp { links: old(topology).links(), added: 0, rng: *old(r) },
            views(picks@),
            picks@.len() as usize,
            picks@.len(),
        ) ==> added == refused_upto(views(picks@), true, picks@.len()),
        grown(before, final(topology).links(), views(picks@), true),
        old(topology).links().len() <= final(topology).links().len(),
        final(topology).links().take(old(topology).links().len() as int) == old(topology).links(),
{
    let ghost ps = views(picks@);
    let ghost start = topology.links();
    let ghost t0 = TopUp { links: start, added: 0, rng: *r };
    let n: usize = picks.len();
    let ghost suffices = pool_suffices(t0, ps, n, n as nat);
    let mut added: usize = 0;
    assert(start.take(start.len() as int) =~= start);
    for i in 0..n
        invariant
            topology.wf(),
            topology.nodes@ == old(topology).nodes@,
            topology.arcs() == old(topology).arcs(),
            start == old(topology).links(),
            t0 == (TopUp { links: start, added: 0, rng: *old(r) }),
            ps == views(picks@),
            n == picks@.len(),
            n == topology.nodes@.len(),
            dropped@.len() == n,
            forall|j: int| 0 <= j < picks@.len() ==> (#[trigger] picks@[j]).wf(),
            forall|v: int|
                0 <= v < dropped@.len() ==> (#[trigger] dropped@[v]) == refused(
                    ps,
                    true,
                    v,
                    ps[v].requests(),
                ),
            start.len() + refused_upto(ps, true, n as nat) <= u32::MAX,
            (TopUp { links: topology.links(), added: added as nat, rng: *r }) == topped_upto(
                t0,
                ps,
                n,
                i as nat,
            ),
            added <= refused_upto(ps, true, i as nat),
            suffices == pool_suffices(t0, ps, n, n as nat),
            suffices ==> added == refused_upto(ps, true, i as nat),
            topology.links().len() == start.len() + added,
            topology.links().take(start.len() as int) == start,
            grown(before, topology.links(), ps, true),
    {
        let ghost was = topology.links();
        let ghost held = *r;
        let lost: usize = dropped[i];
        proof {
            lemma_refused_upto(ps, true, i as nat + 1, n as nat);
        }
        let got: usize = top_up_node(topology, picks, i, lost, r);
        proof {
            let t = TopUp { links: was, added: added as nat, rng: held };
            assert(topped(t, ps, n, i as int) == (TopUp {
                links: topology.links(),
                added: added as nat + got as nat,
                rng: *r,
            }));
            if lost > 0 {
                let out = barred(was, ps, n, i as int);
                let others = strangers(held, n, out, lost as nat).0;
                lemma_topped(before, was, ps, n, i as int, others, others.len());
                assert(others.take(others.len() as int) =~= others);
                assert(topology.links().take(start.len() as int) =~= was.take(start.len() as int));
                if suffices {
                    assert(barred(topped_upto(t0, ps, n, i as nat).links, ps, n, i as int).len()
                        + refused(ps, true, i as int, ps[i as int].requests()) <= n);
                }
            }
        }
        added = added + got;
    }
    added
}

/// The plans that a seed leads to.
pub open spec fn seeded_plans(
    arcs: Seq<(int, int, u64)>,
    n: usize,
    ks: Seq<usize>,
    caps: Seq<usize>,
    seed: u64,
) -> Seq<Plan> {
    plans(arcs, n, ks, caps, rng::seeded(seed ^ PEER_BUILD_SUBSEED), n as nat).0
}

/// A peer graph was rightly built: every plan is one of its node, every
/// edge that was added was rightly added, and every request that was not
/// refused was met.
pub open spec fn rightly_built(
    before: Seq<(int, int)>,
    links: Seq<(int, int)>,
    ps: Seq<Plan>,
    arcs: Seq<(int, int, u64)>,
    n: usize,
    ks: Seq<usize>,
    caps: Seq<usize>,
    enforce: bool,
) -> bool {
    &&& plans_fit(ps, arcs, n, ks, caps)
    &&& grown(before, links, ps, enforce)
    &&& forall|v: int| 0 <= v < n ==> #[trigger] served(links, ps, enforce, v)
}

/// With the cap enforced, every refused request finds a candidate to
/// replace it.
pub open spec fn candidates_suffice(
    links: Seq<(int, int)>,
    arcs: Seq<(int, int, u64)>,
    n: usize,
    ks: Seq<usize>,
    caps: Seq<usize>,
    seed: u64,
) -> bool {
    let (ps, r) = plans(arcs, n, ks, caps, rng::seeded(seed ^ PEER_BUILD_SUBSEED), n as nat);
    let asked = TopUp { links: joined_upto(links, ps, true, n as nat), added: 0, rng: r };
    pool_suffices(asked, ps, n, n as nat)
}

/// Adds to the peer graph what follows from the channels, with a target
/// and a cap for each vertex. The outcome is a function of the channels,
/// the targets, the caps and the seed.
pub fn build_peer_graph_with(
    topology: &mut Topology,
    ks: &Vec<usize>,
    caps: &Vec<usize>,
    seed: u64,
    enforce_hub_cap: bool,
) -> (stats: PeerBuildStats)
    requires
        old(topology).wf(),
        ks@.len() == old(topology).nodes@.len(),
        caps@.len() == old(topology).nodes@.len(),
        old(topology).links().len() + demand(
            old(topology).arcs(),
            ks@,
            old(topology).nodes@.len(),
        ) <= u32::MAX,
    ensures
        final(topology).wf(),
        final(topology).nodes@ == old(topology).nodes@,
        final(topology).arcs() == old(topology).arcs(),
        (
            final(topology).links(),
            stats.hub_rejected_edges as nat,
            stats.replacements_added as nat,
        ) == built(
            old(topology).links(),
            old(topology).arcs(),
            old(topology).nodes@.len() as usize,
            ks@,
            caps@,
            seed,
            enforce_hub_cap,
        ),
        stats.replacements_added <= stats.hub_rejected_edges,
        !enforce_hub_cap ==> stats.hub_rejected_edges == 0,
        old(topology).nodes@.len() >= 2 ==> rightly_built(
            old(topology).links(),
            final(topology).links(),
            seeded_plans(
                old(topology).arcs(),
                old(topology).nodes@.len() as usize,
                ks@,
                caps@,
                seed,
            ),
            old(topology).arcs(),
            old(topology).nodes@.len() as usize,
            ks@,
            caps@,
            enforce_hub_cap,
        ),
        enforce_hub_cap && old(topology).nodes@.len() >= 2 && candidates_suffice(
            old(topology).links(),
            old(topology).arcs(),
            old(topology).nodes@.len() as usize,
            ks@,
            caps@,
            seed,
        ) ==> stats.replacements_added == stats.hub_rejected_edges,
{
    let mut stats = PeerBuildStats { hub_rejected_edges: 0, replacements_added: 0 };
    let mut r: ChaCha8Rng = rng::from_seed(seed ^ PEER_BUILD_SUBSEED);
    let n: usize = topology.len();
    if n < 2 {
        return stats;
    }
    let picks: Vec<NodePicks> = plan_all(topology, ks, caps, &mut r);
    let ghost ps = views(picks@);
    let ghost before = topology.links();
    let ghost arcs = topology.arcs();
    let ghost bound = |upto: nat| demand(arcs, ks@, upto);
    proof {
        assert forall|v: int, i: int|
            0 <= v < picks@.len() && 0 <= i < ps[v].requests().len() implies (
        #[trigger] ps[v].requests()[i]) < picks@.len() && ps[v].requests()[i] != v by {
            lemma_requests(ps[v], arcs, n, v, ks@[v], caps@[v]);
        }
        assert forall|v: nat| v < picks@.len() implies (#[trigger] bound(v))
            + ps[v as int].requests().len() <= bound(v + 1) by {
            lemma_requests(ps[v as int], arcs, n, v as int, ks@[v as int], caps@[v as int]);
        }
        assert forall|v: nat| v <= picks@.len() implies #[trigger] bound(v) <= bound(
            picks@.len(),
        ) by {
            lemma_demand(arcs, ks@, v, picks@.len());
        }
    }
    let dropped: Vec<usize> = join_all(topology, &picks, enforce_hub_cap, Ghost(bound));
    let ghost asked = topology.links();
    proof {
        lemma_joined_upto(before, ps, enforce_hub_cap, n as nat);
    }
    if enforce_hub_cap {
        let mut rejected: usize = 0;
        for i in 0..n
            invariant
                n == dropped@.len(),
                forall|v: int|
                    0 <= v < dropped@.len() ==> (#[trigger] dropped@[v]) == refused(
                        ps,
                        true,
                        v,
                        ps[v].requests(),
                    ),
                rejected == refused_upto(ps, true, i as nat),
                refused_upto(ps, true, n as nat) <= u32::MAX,
        {
            proof {
                lemma_refused_upto(ps, true, i as nat + 1, n as nat);
            }
            rejected = rejected + dropped[i];
        }
        stats.hub_rejected_edges = rejected;
        stats.replacements_added = top_up_all(
            topology,
            &picks,
            &dropped,
            &mut r,
            Ghost(before),
        );
        proof {
            lemma_linked_grows(asked, topology.links());
            assert forall|v: int| 0 <= v < n implies #[trigger] served(
                topology.links(),
                ps,
                true,
                v,
            ) by {
                assert(served(asked, ps, true, v));
            }
        }
    }
    stats
}

/// `f` answers `out[i]` for the algorithm of the `i`-th node.
pub open spec fn answers<F: Fn(&NodeAlgo) -> usize>(
    f: F,
    nodes: Seq<NodeMeta>,
    out: Seq<usize>,
) -> bool {
    &&& out.len() == nodes.len()
    &&& forall|i: int| 0 <= i < out.len() ==> call_ensures(f, (&nodes[i].algo,), #[trigger] out[i])
}

/// Asks `f` about the algorithm of every node.
fn ask_each<F: Fn(&NodeAlgo) -> usize>(topology: &Topology, f: F) -> (out: Vec<usize>)
    requires
        forall|a: NodeAlgo| call_requires(f, (&a,)),
    ensures
        answers(f, topology.nodes@, out@),
{
    let mut out: Vec<usize> = Vec::new();
    for i in 0..topology.nodes.len()
        invariant
            forall|a: NodeAlgo| call_requires(f, (&a,)),
            out@.len() == i,
            forall|j: int|
                0 <= j < out@.len() ==> call_ensures(
                    f,
                    (&topology.nodes@[j].algo,),
                    #[trigger] out@[j],
                ),
    {
        let answer: usize = f(&topology.nodes[i].algo);
        out.push(answer);
    }
    out
}

/// The peer graph of `after` and the figures are what follows from the
/// channels of `before` with answers of `k_for` and `max_peer_for` as
/// targets and caps.
pub open spec fn peers_built<F, G>(
    before: Topology,
    after: Topology,
    stats: PeerBuildStats,
    k_for: F,
    max_peer_for: G,
    seed: u64,
    enforce: bool,
) -> bool where F: Fn(&NodeAlgo) -> usize, G: Fn(&NodeAlgo) -> usize {
    exists|ks: Seq<usize>, caps: Seq<usize>|
        #![trigger answers(k_for, before.nodes@, ks), answers(max_peer_for, before.nodes@, caps)]
        answers(k_for, before.nodes@, ks) && answers(max_peer_for, before.nodes@, caps) && (
            after.links(),
            stats.hub_rejected_edges as nat,
            stats.replacements_added as nat,
        ) == built(
            before.links(),
            before.arcs(),
            before.nodes@.len() as usize,
            ks,
            caps,
            seed,
            enforce,
        ) && (before.nodes@.len() >= 2 ==> rightly_built(
            before.links(),
            after.links(),
            seeded_plans(before.arcs(), before.nodes@.len() as usize, ks, caps, seed),
            before.arcs(),
            before.nodes@.len() as usize,
            ks,
            caps,
            enforce,
        )) && (enforce && before.nodes@.len() >= 2 && candidates_suffice(
            before.links(),
            before.arcs(),
            before.nodes@.len() as usize,
            ks,
            caps,
            seed,
        ) ==> stats.replacements_added == stats.hub_rejected_edges)
}

/// Adds to the peer graph what follows from the channels. The target and
/// the cap of a node depend on its algorithm: see
/// [`build_peer_graph_with`].
pub fn build_peer_graph<F, G>(
    topology: &mut Topology,
    k_for: F,
    max_peer_for: G,
    seed: u64,
    enforce_hub_cap: bool,
) -> (stats: PeerBuildStats) where F: Fn(&NodeAlgo) -> usize, G: Fn(&NodeAlgo) -> usize
    requires
        old(topology).wf(),
        forall|a: NodeAlgo| call_requires(k_for, (&a,)),
        forall|a: NodeAlgo| call_requires(max_peer_for, (&a,)),
        forall|ks: Seq<usize>| #[trigger]
            answers(k_for, old(topology).nodes@, ks) ==> old(topology).links().len() + demand(
                old(topology).arcs(),
                ks,
                old(topology).nodes@.len(),
            ) <= u32::MAX,
    ensures
        final(topology).wf(),
        final(topology).nodes@ == old(topology).nodes@,
        final(topology).arcs() == old(topology).arcs(),
        peers_built(
            *old(topology),
            *final(topology),
            stats,
            k_for,
            max_peer_for,
            seed,
            enforce_hub_cap,
        ),
        stats.replacements_added <= stats.hub_rejected_edges,
        !enforce_hub_cap ==> stats.hub_rejected_edges == 0,
{
    let ks: Vec<usize> = ask_each(topology, k_for);
    let caps: Vec<usize> = ask_each(topology, max_peer_for);
    proof {
        assert(answers(k_for, old(topology).nodes@, ks@));
        assert(answers(max_peer_for, old(topology).nodes@, caps@));
    }
    build_peer_graph_with(topology, &ks, &caps, seed, enforce_hub_cap)
}

/// Two functions have one answer in common for every algorithm.
pub open spec fn agree<F, G>(f: F, g: G) -> bool where
    F: Fn(&NodeAlgo) -> usize,
    G: Fn(&NodeAlgo) -> usize,
 {
    forall|a: NodeAlgo, x: usize, y: usize| #[trigger]
        call_ensures(f, (&a,), x) && #[trigger] call_ensures(g, (&a,), y) ==> x == y
}

proof fn lemma_agree<F, G>(f: F, g: G, nodes: Seq<NodeMeta>, x: Seq<usize>, y: Seq<usize>) where
    F: Fn(&NodeAlgo) -> usize,
    G: Fn(&NodeAlgo) -> usize,

    requires
        agree(f, g),
        answers(f, nodes, x),
        answers(g, nodes, y),
    ensures
        x == y,
{
    assert forall|i: int| 0 <= i < x.len() implies x[i] == y[i] by {
        assert(call_ensures(f, (&nodes[i].algo,), x[i]));
        assert(call_ensures(g, (&nodes[i].algo,), y[i]));
    }
    assert(x =~= y);
}

/// Two peer graphs that are built from the same nodes, channels and
/// peers, with the same targets, caps and seed, are the same, hubs
/// included, and so are the figures.
pub proof fn same_seed_gives_same_peers<F, G, H, I>(
    a: Topology,
    a_after: Topology,
    a_stats: PeerBuildStats,
    a_targets: F,
    a_caps: G,
    b: Topology,
    b_after: Topology,
    b_stats: PeerBuildStats,
    b_targets: H,
    b_caps: I,
    seed: u64,
    enforce: bool,
) where
    F: Fn(&NodeAlgo) -> usize,
    G: Fn(&NodeAlgo) -> usize,
    H: Fn(&NodeAlgo) -> usize,
    I: Fn(&NodeAlgo) -> usize,

    requires
        a.nodes@ == b.nodes@,
        a.links() == b.links(),
        a.arcs() == b.arcs(),
        agree(a_targets, b_targets),
        agree(a_caps, b_caps),
        peers_built(a, a_after, a_stats, a_targets, a_caps, seed, enforce),
        peers_built(b, b_after, b_stats, b_targets, b_caps, seed, enforce),
    ensures
        a_after.links() == b_after.links(),
        a_stats == b_stats,
        forall|v: int, w: int| #[trigger]
            graphs::linked(a_after.links(), v, w) == graphs::linked(b_after.links(), v, w),
{
    let nodes = a.nodes@;
    let n = nodes.len() as usize;
    let (ka, ca) = choose|ks: Seq<usize>, caps: Seq<usize>|
        #![trigger answers(a_targets, nodes, ks), answers(a_caps, nodes, caps)]
        answers(a_targets, nodes, ks) && answers(a_caps, nodes, caps) && (
            a_after.links(),
            a_stats.hub_rejected_edges as nat,
            a_stats.replacements_added as nat,
        ) == built(a.links(), a.arcs(), n, ks, caps, seed, enforce);
    let (kb, cb) = choose|ks: Seq<usize>, caps: Seq<usize>|
        #![trigger answers(b_targets, nodes, ks), answers(b_caps, nodes, caps)]
        answers(b_targets, nodes, ks) && answers(b_caps, nodes, caps) && (
            b_after.links(),
            b_stats.hub_rejected_edges as nat,
            b_stats.replacements_added as nat,
        ) == built(b.links(), b.arcs(), n, ks, caps, seed, enforce);
    lemma_agree(a_targets, b_targets, nodes, ka, kb);
    lemma_agree(a_caps, b_caps, nodes, ca, cb);
}

/// With the cap enforced, a hub takes no edge from a node that it did not
/// pick: every edge that was added towards a hub comes from one of its
/// picks, which are channel counterparties, as many as the cap.
pub proof fn hub_takes_only_its_picks(
    before: Seq<(int, int)>,
    links: Seq<(int, int)>,
    ps: Seq<Plan>,
    arcs: Seq<(int, int, u64)>,
    n: usize,
    ks: Seq<usize>,
    caps: Seq<usize>,
    i: int,
)
    requires
        rightly_built(before, links, ps, arcs, n, ks, caps, true),
        graph::links_within(links, n as int),
        before.len() <= i < links.len(),
        counterparties(arcs, links[i].1).len() > caps[links[i].1],
    ensures
        ps[links[i].1].kept.contains(links[i].0 as usize),
        ps[links[i].1].kept.len() == caps[links[i].1],
        counterparties(arcs, links[i].1).contains(links[i].0 as usize),
{
    assert(edge_sound(links, i, ps, true));
    let p = ps[links[i].1];
    assert(p.fits(
        counterparties(arcs, links[i].1),
        n,
        links[i].1,
        ks[links[i].1],
        caps[links[i].1],
    ));
    let at = p.kept.index_of(links[i].0 as usize);
    assert(counterparties(arcs, links[i].1).contains(p.kept[at]));
}

/// No two nodes are joined twice, and none is joined to itself, by what
/// is added.
pub proof fn added_edges_are_simple(
    before: Seq<(int, int)>,
    links: Seq<(int, int)>,
    ps: Seq<Plan>,
    arcs: Seq<(int, int, u64)>,
    n: usize,
    ks: Seq<usize>,
    caps: Seq<usize>,
    enforce: bool,
    i: int,
    j: int,
)
    requires
        rightly_built(before, links, ps, arcs, n, ks, caps, enforce),
        0 <= i < j < links.len(),
        before.len() <= j,
    ensures
        links[j].0 != links[j].1,
        links[i] != links[j],
        links[i] != (links[j].1, links[j].0),
{
    assert(edge_sound(links, j, ps, enforce));
    assert(links.take(j)[i] == links[i]);
}

/// A node that is no hub keeps every channel counterparty as a peer, save
/// those that refuse it.
pub proof fn counterparties_become_peers(
    before: Seq<(int, int)>,
    links: Seq<(int, int)>,
    ps: Seq<Plan>,
    arcs: Seq<(int, int, u64)>,
    n: usize,
    ks: Seq<usize>,
    caps: Seq<usize>,
    enforce: bool,
    v: int,
    w: usize,
)
    requires
        rightly_built(before, links, ps, arcs, n, ks, caps, enforce),
        0 <= v < n,
        counterparties(arcs, v).len() <= caps[v],
        counterparties(arcs, v).contains(w),
        admits(ps, enforce, v, w as int),
    ensures
        graphs::linked(links, v, w as int),
{
    assert(ps[v].fits(counterparties(arcs, v), n, v, ks[v], caps[v]));
    assert(served(links, ps, enforce, v));
    let at = ps[v].kept.index_of(w);
    assert(ps[v].requests()[at] == w);
}

/// With the cap enforced from an empty peer graph, a hub none of whose
/// picks refuses it ends up with exactly its picks as peers.
pub proof fn hub_peers_are_its_picks(
    links: Seq<(int, int)>,
    ps: Seq<Plan>,
    arcs: Seq<(int, int, u64)>,
    n: usize,
    ks: Seq<usize>,
    caps: Seq<usize>,
    v: int,
    w: int,
)
    requires
        rightly_built(Seq::empty(), links, ps, arcs, n, ks, caps, true),
        graph::links_within(links, n as int),
        0 <= v < n,
        0 <= w < n,
        counterparties(arcs, v).len() > caps[v],
        forall|i: int|
            0 <= i < ps[v].kept.len() ==> admits(ps, true, v, (#[trigger] ps[v].kept[i]) as int),
    ensures
        graphs::linked(links, v, w) <==> ps[v].kept.contains(w as usize),
        ps[v].kept.no_duplicates(),
        ps[v].kept.len() == caps[v],
{
    let p = ps[v];
    assert(p.fits(counterparties(arcs, v), n, v, ks[v], caps[v]));
    assert(p.requests() =~= p.kept);
    lemma_all_admitted(ps, v, p.requests());
    if graphs::linked(links, v, w) {
        let i = choose|i: int|
            0 <= i < links.len() && (#[trigger] links[i] == (v, w) || links[i] == (w, v));
        assert(edge_sound(links, i, ps, true));
    }
    if p.kept.contains(w as usize) {
        let at = p.kept.index_of(w as usize);
        assert(p.requests()[at] == w as usize);
        assert(admits(ps, true, v, p.kept[at] as int));
        assert(served(links, ps, true, v));
    }
}

/// Where every node that is asked takes the edge, no request is refused.
proof fn lemma_all_admitted(ps: Seq<Plan>, v: int, requests: Seq<usize>)
    requires
        forall|i: int|
            0 <= i < requests.len() ==> admits(ps, true, v, (#[trigger] requests[i]) as int),
    ensures
        refused(ps, true, v, requests) == 0,
    decreases requests.len(),
{
    if requests.len() > 0 {
        let init = requests.drop_last();
        assert forall|i: int| 0 <= i < init.len() implies admits(
            ps,
            true,
            v,
            (#[trigger] init[i]) as int,
        ) by {
            assert(init[i] == requests[i]);
        }
        lemma_all_admitted(ps, v, init);
        assert(requests[requests.len() - 1] == requests.last());
    }
}

/// A random graph of `n` nodes with the ids `0..n` in which every node has
/// `k` peers, no two nodes are joined twice and none is joined to itself.
/// There is such a graph where `n * k` is even and `k` is below `n`.
pub fn random_regular(n: usize, k: usize, seed: u64, default_algo: NodeAlgo) -> (r: Topology)
    requires
        0 < n <= u32::MAX,
        k < n,
        n * k % 2 == 0,
        n * k <= usize::MAX,
        n * k / 2 <= u32::MAX,
    ensures
        r.wf(),
        r.nodes@ == Seq::new(
            n as nat,
            |i: int| NodeMeta { id: i as u64, idx: i as u32, algo: default_algo },
        ),
        r.arcs() == Seq::<(int, int, u64)>::empty(),
        r.links() == graphs::widened(graphs::regular_links(n, k, seed)),
        forall|v: int| 0 <= v < n ==> #[trigger] graphs::neighbours(r.links(), v).len() == k,
        forall|i: int| 0 <= i < r.links().len() ==> (#[trigger] r.links()[i]).0 < r.links()[i].1,
        r.links().no_duplicates(),
{
    let mut topo = Topology::empty(n, default_algo);
    match graphs::regular_graph(n, k, seed) {
        Some(edges) => {
            proof {
                graphs::lemma_degree_sum(edges@, n as nat);
                graphs::lemma_regular_sum(edges@, n as nat, k as nat);
                assert(2 * edges@.len() == n * k);
            }
            assert(graphs::widened(edges@.take(0)) =~= Seq::<(int, int)>::empty());
            for i in 0..edges.len()
                invariant
                    n <= u32::MAX,
                    topo.wf(),
                    topo.nodes@ == Seq::new(
                        n as nat,
                        |j: int| NodeMeta { id: j as u64, idx: j as u32, algo: default_algo },
                    ),
                    topo.arcs() == Seq::<(int, int, u64)>::empty(),
                    topo.links() == graphs::widened(edges@.take(i as int)),
                    graphs::is_regular(edges@, n, k),
                    edges@.len() <= u32::MAX,
            {
                let (u, v) = edges[i];
                proof {
                    topo.lemma_at();
                    assert(edges@[i as int] == (u, v));
                    assert(topo.nodes@[u as int].id == u as u64);
                    assert(topo.nodes@[v as int].id == v as u64);
                    assert(edges@.take(i + 1) =~= edges@.take(i as int).push((u, v)));
                    assert(graphs::widened(edges@.take(i + 1)) =~= topo.links().push(
                        (u as int, v as int),
                    ));
                }
                topo.add_peer_edge(u as u64, v as u64);
            }
            proof {
                assert(edges@.take(edges@.len() as int) =~= edges@);
                let wide = graphs::widened(edges@);
                assert forall|v: int| 0 <= v < n implies #[trigger] graphs::neighbours(
                    topo.links(),
                    v,
                ).len() == k by {
                    graphs::lemma_degree(edges@, v);
                    assert(graphs::degree(edges@, v) == k);
                }
                assert forall|i: int, j: int|
                    0 <= i < wide.len() && 0 <= j < wide.len() && i != j implies wide[i]
                    != wide[j] by {
                    assert(edges@[i] != edges@[j]);
                }
                assert forall|i: int| 0 <= i < wide.len() implies (#[trigger] wide[i]).0
                    < wide[i].1 by {
                    assert(edges@[i].0 < edges@[i].1);
                }
            }
        },
        None => {},
    }
    topo
}

/// A node with more counterparties than its cap is a hub: it asks for as
/// many of them as the cap allows, and for nobody else. Any other node
/// asks for all of its counterparties, and, where these are fewer than
/// its target, for strangers to make up half of what is missing, rounded
/// up, or for all the others where there are too few. Nobody is asked
/// twice, and nobody asks itself.
pub proof fn strangers_make_up_half_the_shortfall(
    p: Plan,
    cp: Seq<usize>,
    n: usize,
    v: int,
    k: usize,
    cap: usize,
)
    requires
        0 <= v < n,
        cp.no_duplicates(),
        forall|i: int| 0 <= i < cp.len() ==> (#[trigger] cp[i]) < n && cp[i] != v,
        p.fits(cp, n, v, k, cap),
    ensures
        ({
            let c = cp.len();
            let s = p.strangers.len();
            let others = n - 1 - c;
            &&& p.hub <==> c > cap
            &&& c > cap ==> s == 0 && p.kept.len() == cap
            &&& c <= cap ==> p.kept == cp
            &&& c >= k ==> s == 0
            &&& c <= cap && c < k && 2 * others >= k - c ==> s > 0 && (2 * s == k - c || 2 * s == k
                - c + 1)
            &&& c <= cap && c < k && 2 * others < k - c ==> s == others
            &&& p.requests().no_duplicates()
            &&& forall|i: int|
                0 <= i < p.requests().len() ==> (#[trigger] p.requests()[i]) < n && p.requests()[i]
                    != v
            &&& forall|i: int| 0 <= i < p.kept.len() ==> cp.contains(#[trigger] p.kept[i])
            &&& forall|i: int|
                0 <= i < s ==> (#[trigger] p.strangers[i]) < n && p.strangers[i] != v
                    && !cp.contains(p.strangers[i])
        }),
{
    cp.unique_seq_to_set();
    let excluded = cp.to_set().insert(v as usize);
    assert(!cp.to_set().contains(v as usize));
    assert(excluded.len() == cp.len() + 1);
    lemma_bounded(excluded, n as nat);
    let s = p.strangers;
    assert forall|i: int| 0 <= i < s.len() implies (#[trigger] s[i]) < n && s[i] != v
        && !cp.contains(s[i]) by {
        assert(!excluded.contains(s[i]));
        assert(!cp.to_set().contains(s[i]));
    }
    let asked = p.requests();
    assert forall|i: int| 0 <= i < asked.len() implies (#[trigger] asked[i]) < n && asked[i]
        != v by {
        if i < p.kept.len() {
            assert(cp.contains(p.kept[i]));
        } else {
            assert(asked[i] == s[i - p.kept.len()]);
        }
    }
    assert forall|i: int, j: int|
        0 <= i < asked.len() && 0 <= j < asked.len() && i != j implies asked[i] != asked[j] by {
        let m = p.kept.len();
        if i < m {
            assert(cp.contains(p.kept[i]));
        } else {
            assert(asked[i] == s[i - m]);
        }
        if j < m {
            assert(cp.contains(p.kept[j]));
        } else {
            assert(asked[j] == s[j - m]);
        }
    }
}

/// Strangers are drawn as many as are asked for, or all that are free
/// where there are fewer: each once, and none of those left out.
pub proof fn strangers_are_free_and_as_many_as_asked(
    r: ChaCha8Rng,
    n: usize,
    excluded: Set<usize>,
    count: nat,
)
    requires
        rng::draws_keep_to_their_range(),
        forall|x: usize| #[trigger] excluded.contains(x) ==> x < n,
    ensures
        ({
            let s = strangers(r, n, excluded, count).0;
            let free = n - excluded.len();
            &&& count <= free ==> s.len() == count
            &&& count > free ==> s.len() == free
            &&& forall|i: int, j: int| 0 <= i < j < s.len() ==> s[i] != s[j]
            &&& forall|i: int| 0 <= i < s.len() ==> (#[trigger] s[i]) < n && !excluded.contains(s[i])
        }),
{
    lemma_bounded(excluded, n as nat);
    let target = stranger_target(n, excluded, count);
    lemma_drawn(r, n, excluded, Seq::empty(), target, DRAW_BUDGET as nat);
}

proof fn lemma_drawn(
    r: ChaCha8Rng,
    n: usize,
    excluded: Set<usize>,
    picked: Seq<usize>,
    target: nat,
    budget: nat,
)
    requires
        rng::draws_keep_to_their_range(),
        excluded.finite(),
        forall|x: usize| #[trigger] excluded.contains(x) ==> x < n,
        free_picks(picked, n, excluded),
        target + excluded.len() <= n,
        picked.len() <= target,
    ensures
        free_picks(drawn(r, n, excluded, picked, target, budget).0, n, excluded),
        drawn(r, n, excluded, picked, target, budget).0.len() == target,
    decreases budget,
{
    if picked.len() < target {
        if budget == 0 {
            lemma_filled(n, excluded, picked, target, 0);
        } else {
            let (i, next) = rng::index_draw(r, n);
            assert(i < n);
            if excluded.contains(i) || picked.contains(i) {
                lemma_drawn(next, n, excluded, picked, target, (budget - 1) as nat);
            } else {
                let more = picked.push(i);
                assert(more.no_duplicates()) by {
                    assert forall|a: int, b: int|
                        0 <= a < more.len() && 0 <= b < more.len() && a != b implies more[a]
                        != more[b] by {
                        if a < picked.len() && b < picked.len() {
                            assert(picked[a] != picked[b]);
                        } else if a < picked.len() {
                            assert(picked.contains(picked[a]));
                        } else if b < picked.len() {
                            assert(picked.contains(picked[b]));
                        }
                    }
                }
                lemma_drawn(next, n, excluded, more, target, (budget - 1) as nat);
            }
        }
    }
}

/// A hub that keeps to its picks takes an edge only from these; everyone
/// else takes every edge. What is lost to a node is the number of its
/// requests that are not taken.
pub proof fn lost_requests_are_those_not_taken(
    ps: Seq<Plan>,
    enforce: bool,
    v: int,
    requests: Seq<usize>,
    w: int,
)
    requires
        0 <= v <= usize::MAX,
    ensures
        !enforce ==> admits(ps, enforce, v, w),
        !ps[w].hub ==> admits(ps, enforce, v, w),
        enforce && ps[w].hub ==> (admits(ps, enforce, v, w) <==> exists|i: int|
            0 <= i < ps[w].kept.len() && #[trigger] ps[w].kept[i] == v),
        refused(ps, enforce, v, requests) == requests.filter(
            |x: usize| !admits(ps, enforce, v, x as int),
        ).len(),
    decreases requests.len(),
{
    reveal(Seq::filter);
    if requests.len() > 0 {
        lost_requests_are_those_not_taken(ps, enforce, v, requests.drop_last(), w);
    }
    if ps[w].kept.contains(v as usize) {
        let i = ps[w].kept.index_of(v as usize);
        assert(ps[w].kept[i] == v);
    }
}

/// The requests lost to all nodes are those lost to each.
pub proof fn losses_add_up(ps: Seq<Plan>, enforce: bool, v: nat)
    ensures
        refused_upto(ps, enforce, 0) == 0,
        refused_upto(ps, enforce, v + 1) == refused_upto(ps, enforce, v) + refused(
            ps,
            enforce,
            v as int,
            ps[v as int].kept + ps[v as int].strangers,
        ),
{
}

/// A request adds one edge, behind those there are, where it is taken
/// and the two are not yet joined; otherwise it adds none.
pub proof fn request_joins_where_it_is_taken(
    links: Seq<(int, int)>,
    ps: Seq<Plan>,
    enforce: bool,
    v: int,
    requests: Seq<usize>,
    w: usize,
)
    ensures
        ({
            let before = joined(links, ps, enforce, v, requests);
            let now = joined(links, ps, enforce, v, requests.push(w));
            &&& requests.len() == 0 ==> before == links
            &&& graphs::linked(before, v, w as int) ==> now == before
            &&& !admits(ps, enforce, v, w as int) ==> now == before
            &&& admits(ps, enforce, v, w as int) && !graphs::linked(before, v, w as int) ==> now
                == before.push((v, w as int))
        }),
{
    assert(requests.push(w).drop_last() =~= requests);
}

/// What a node lost is made up by as many strangers, or all that are
/// left: nodes that are not itself, that it is not joined to, and that
/// take its edges.
pub proof fn losses_are_made_up_by_strangers(t: TopUp, ps: Seq<Plan>, n: usize, v: int)
    requires
        rng::draws_keep_to_their_range(),
        0 <= v < n,
    ensures
        ({
            let now = topped(t, ps, n, v);
            let lost = refused(ps, true, v, ps[v].requests());
            let open = Set::new(
                |w: usize|
                    w < n && w != v && !graphs::linked(t.links, v, w as int) && admits(
                        ps,
                        true,
                        v,
                        w as int,
                    ),
            );
            let added = now.links.len() - t.links.len();
            &&& now.links.take(t.links.len() as int) == t.links
            &&& now.added - t.added == added
            &&& lost <= open.len() ==> added == lost
            &&& lost > open.len() ==> added == open.len()
            &&& forall|i: int|
                t.links.len() <= i < now.links.len() ==> (#[trigger] now.links[i]).0 == v && 0
                    <= now.links[i].1 < n && open.contains(now.links[i].1 as usize)
        }),
{
    let now = topped(t, ps, n, v);
    let lost = refused(ps, true, v, ps[v].requests());
    let out = barred(t.links, ps, n, v);
    let open = Set::new(
        |w: usize|
            w < n && w != v && !graphs::linked(t.links, v, w as int) && admits(
                ps,
                true,
                v,
                w as int,
            ),
    );
    lemma_bounded(out, n as nat);
    lemma_bounded(open, n as nat);
    assert(out.disjoint(open));
    vstd::set_lib::lemma_set_disjoint_lens(out, open);
    let both = out + open;
    assert(both.len() == n) by {
        lemma_bounded(both, n as nat);
        assert(forall|x: usize| x < n ==> both.contains(x));
        lemma_range_within(both, n as nat);
    }
    assert(now.links.take(t.links.len() as int) =~= t.links);
    if lost > 0 {
        strangers_are_free_and_as_many_as_asked(t.rng, n, out, lost);
        let others = strangers(t.rng, n, out, lost).0;
        assert forall|i: int| t.links.len() <= i < now.links.len() implies (
        #[trigger] now.links[i]).0 == v && 0 <= now.links[i].1 < n && open.contains(
            now.links[i].1 as usize,
        ) by {
            let w = others[i - t.links.len()];
            assert(now.links[i] == (v, w as int));
            assert(!out.contains(w));
        }
    }
}

/// Counterparties are listed in the order in which the graph lists the
/// neighbours, each once: more neighbours only add to the list.
pub proof fn counterparties_keep_their_order(s: Seq<int>, v: int, w: int)
    requires
        0 <= w <= usize::MAX,
    ensures
        ({
            let before = firsts(s, v);
            let now = firsts(s.push(w), v);
            &&& s.len() == 0 ==> before.len() == 0
            &&& w == v ==> now == before
            &&& before.contains(w as usize) ==> now == before
            &&& w != v && !before.contains(w as usize) ==> now == before.push(w as usize)
        }),
{
    assert(s.push(w).drop_last() =~= s);
}

/// Peers are joined in two rounds. The first joins what is asked for and
/// taken; the second, where hubs keep to their picks, adds what makes up
/// for the losses, behind the edges of the first, and counts it. Without
/// that rule nothing is lost or made up. One node alone stays alone.
pub proof fn losses_are_made_up_in_a_second_round(
    links: Seq<(int, int)>,
    arcs: Seq<(int, int, u64)>,
    n: usize,
    ks: Seq<usize>,
    caps: Seq<usize>,
    seed: u64,
    enforce: bool,
)
    ensures
        ({
            let (out, lost, added) = built(links, arcs, n, ks, caps, seed, enforce);
            let ps = seeded_plans(arcs, n, ks, caps, seed);
            let first = joined_upto(links, ps, enforce, n as nat);
            &&& n < 2 ==> out == links && lost == 0 && added == 0
            &&& n >= 2 ==> out.len() == first.len() + added && out.take(first.len() as int) == first
            &&& !enforce ==> lost == 0 && added == 0
            &&& n >= 2 && enforce ==> lost == refused_upto(ps, true, n as nat)
        }),
{
    if n >= 2 {
        let (ps, r) = plans(arcs, n, ks, caps, rng::seeded(seed ^ PEER_BUILD_SUBSEED), n as nat);
        let first = joined_upto(links, ps, enforce, n as nat);
        lemma_topped_upto(TopUp { links: first, added: 0, rng: r }, ps, n, n as nat);
        assert(first.take(first.len() as int) =~= first);
    }
}

proof fn lemma_topped_upto(t: TopUp, ps: Seq<Plan>, n: usize, upto: nat)
    ensures
        topped_upto(t, ps, n, upto).links.len() - t.links.len() == topped_upto(t, ps, n, upto).added
            - t.added,
        topped_upto(t, ps, n, upto).links.len() >= t.links.len(),
        topped_upto(t, ps, n, upto).links.take(t.links.len() as int) == t.links,
    decreases upto,
{
    if upto > 0 {
        lemma_topped_upto(t, ps, n, (upto - 1) as nat);
        let before = topped_upto(t, ps, n, (upto - 1) as nat).links;
        let now = topped_upto(t, ps, n, upto).links;
        assert(now.take(t.links.len() as int) =~= before.take(t.links.len() as int));
    } else {
        assert(t.links.take(t.links.len() as int) =~= t.links);
    }
}

/// Every node plans for its own target and cap: with more counterparties
/// than its cap it is a hub without strangers; with fewer than its target
/// it asks for strangers to make up half of what it lacks, or for all the
/// others where these are too few; otherwise it asks for none.
pub proof fn each_node_plans_for_its_own_target(
    ps: Seq<Plan>,
    arcs: Seq<(int, int, u64)>,
    n: usize,
    ks: Seq<usize>,
    caps: Seq<usize>,
    v: int,
)
    requires
        plans_fit(ps, arcs, n, ks, caps),
        graph::arcs_within(arcs, n as int),
        0 <= v < n,
    ensures
        ({
            let c = counterparties(arcs, v).len();
            let s = ps[v].strangers.len();
            let others = n - 1 - c;
            &&& ps.len() == n
            &&& ps[v].hub <==> c > caps[v]
            &&& c > caps[v] ==> s == 0 && ps[v].kept.len() == caps[v]
            &&& c <= caps[v] ==> ps[v].kept == counterparties(arcs, v)
            &&& c >= ks[v] ==> s == 0
            &&& c <= caps[v] && c < ks[v] && 2 * others >= ks[v] - c ==> s > 0 && (2 * s == ks[v] - c
                || 2 * s == ks[v] - c + 1)
            &&& c <= caps[v] && c < ks[v] && 2 * others < ks[v] - c ==> s == others
        }),
{
    let cp = counterparties(arcs, v);
    counterparties_share_a_channel(arcs, n, v);
    assert forall|i: int| 0 <= i < cp.len() implies (#[trigger] cp[i]) < n && cp[i] != v by {
        assert(cp.contains(cp[i]));
    }
    strangers_make_up_half_the_shortfall(ps[v], cp, n, v, ks[v], caps[v]);
}

} // verus!
