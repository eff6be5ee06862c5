//! Who owns which side of which channel.
//!
//! Every channel has two directions, and each belongs to one node. The
//! registry is built once, together with the channel graph of the
//! topology, and only read afterwards. Channel ids and node ids may be
//! sparse.

use rand_chacha::ChaCha8Rng;
use std::collections::HashMap;
use vstd::prelude::*;

use crate::message::{Direction, NodeId, Scid};
use crate::rng;
use crate::topology::graph;
use crate::topology::Topology;

verus! {

broadcast use vstd::std_specs::hash::group_hash_axioms;

/// Sub-seed of the draws that make synthetic channels.
pub const CHANNEL_SUBSEED: u64 = 0xC4A;

/// Bound on the draws spent on the second end of one channel.
pub const DRAW_BUDGET: u64 = 0xFFFF_FFFF_FFFF_FFFF;

/// A channel: its id, the owner of direction 0, the owner of direction 1.
pub type ChannelRow = (Scid, NodeId, NodeId);

/// Ownership of all channel sides.
pub struct ChannelRegistry {
    /// Number of channels.
    pub num_scids: usize,
    /// Channel ids as they were added.
    pub scids: Vec<Scid>,
    /// Owners of direction 0 and of direction 1.
    pub owners: HashMap<Scid, (NodeId, NodeId)>,
    /// The sides that each node owns, as they were added.
    pub per_node: HashMap<NodeId, Vec<(Scid, Direction)>>,
    /// The channels as they were added.
    pub rows: Ghost<Seq<ChannelRow>>,
}

/// Owner of one direction of a channel row.
pub open spec fn side_owner(row: ChannelRow, direction: Direction) -> NodeId {
    if direction == 0 {
        row.1
    } else {
        row.2
    }
}

/// The owners of a channel: those of the last row with its id.
pub open spec fn owners_in(rows: Seq<ChannelRow>, scid: Scid) -> Option<(NodeId, NodeId)>
    decreases rows.len(),
{
    if rows.len() == 0 {
        None
    } else if rows.last().0 == scid {
        Some((rows.last().1, rows.last().2))
    } else {
        owners_in(rows.drop_last(), scid)
    }
}

/// Owner of one direction of a known channel.
pub open spec fn owner_in(rows: Seq<ChannelRow>, scid: Scid, direction: Direction) -> NodeId {
    match owners_in(rows, scid) {
        Some(pair) => if direction == 0 {
            pair.0
        } else {
            pair.1
        },
        None => 0,
    }
}

/// The sides that a node owns, in the order of the rows.
pub open spec fn owned_in(rows: Seq<ChannelRow>, node: NodeId) -> Seq<(Scid, Direction)>
    decreases rows.len(),
{
    if rows.len() == 0 {
        Seq::empty()
    } else {
        let before = owned_in(rows.drop_last(), node);
        let row = rows.last();
        let with0 = if row.1 == node {
            before.push((row.0, 0u8))
        } else {
            before
        };
        if row.2 == node {
            with0.push((row.0, 1u8))
        } else {
            with0
        }
    }
}

/// The nodes that own a side.
pub open spec fn owning_nodes(rows: Seq<ChannelRow>) -> Set<NodeId>
    decreases rows.len(),
{
    if rows.len() == 0 {
        Set::empty()
    } else {
        owning_nodes(rows.drop_last()).insert(rows.last().1).insert(rows.last().2)
    }
}

/// The rows as edges between the vertices of a topology.
pub open spec fn row_arcs(rows: Seq<ChannelRow>, ids: Seq<NodeId>) -> Seq<(int, int, u64)> {
    rows.map_values(|row: ChannelRow| (ids.index_of(row.1), ids.index_of(row.2), row.0))
}

/// Both ends of every row are among `ids`, and differ.
pub open spec fn rows_within(rows: Seq<ChannelRow>, ids: Seq<NodeId>) -> bool {
    forall|i: int|
        0 <= i < rows.len() ==> ids.contains((#[trigger] rows[i]).1) && ids.contains(rows[i].2)
            && rows[i].1 != rows[i].2
}

/// A vertex other than `a`, and the generator after it was drawn.
pub open spec fn other_end(r: ChaCha8Rng, n: u64, a: u64, budget: nat) -> (u64, ChaCha8Rng)
    decreases budget,
{
    if budget == 0 {
        (
            if a + 1 < n {
                (a + 1) as u64
            } else {
                0
            },
            r,
        )
    } else {
        let (b, next) = rng::below_draw(r, n);
        if b != a {
            (b, next)
        } else {
            other_end(next, n, a, (budget - 1) as nat)
        }
    }
}

/// A random channel among `n` nodes: two distinct ends, and a coin that
/// says which of them owns direction 0.
pub open spec fn channel_draw(r: ChaCha8Rng, n: u64, scid: Scid) -> (ChannelRow, ChaCha8Rng) {
    let (a, r1) = rng::below_draw(r, n);
    let (b, r2) = other_end(r1, n, a, DRAW_BUDGET as nat);
    let (heads, r3) = rng::coin_draw(r2);
    (
        if heads {
            (scid, a, b)
        } else {
            (scid, b, a)
        },
        r3,
    )
}

/// Random channels with the ids `0..count`, drawn one after the other.
pub open spec fn channel_draws(r: ChaCha8Rng, n: u64, count: nat) -> (Seq<ChannelRow>, ChaCha8Rng)
    decreases count,
{
    if count == 0 {
        (Seq::empty(), r)
    } else {
        let (before, here) = channel_draws(r, n, (count - 1) as nat);
        let (row, next) = channel_draw(here, n, (count - 1) as u64);
        (before.push(row), next)
    }
}

/// The channels that are sampled among `n` nodes with a seed.
pub open spec fn sampled(seed: u64, n: u64, count: nat) -> Seq<ChannelRow> {
    channel_draws(rng::seeded(seed ^ CHANNEL_SUBSEED), n, count).0
}

/// A random side of the channels of `scids`.
pub open spec fn side_draw(scids: Seq<Scid>, r: ChaCha8Rng) -> (Scid, Direction, ChaCha8Rng) {
    let (i, r1) = rng::index_draw(r, scids.len() as usize);
    let (heads, r2) = rng::coin_draw(r1);
    (
        scids[i as int],
        if heads {
            1u8
        } else {
            0u8
        },
        r2,
    )
}

/// Draws a vertex other than `a`.
fn draw_other_end(r: &mut ChaCha8Rng, n: u64, a: u64) -> (b: u64)
    requires
        n >= 2,
        a < n,
    ensures
        (b, *final(r)) == other_end(*old(r), n, a, DRAW_BUDGET as nat),
        b < n,
        b != a,
{
    let mut budget: u64 = DRAW_BUDGET;
    while budget > 0
        invariant
            n >= 2,
            a < n,
            other_end(*r, n, a, budget as nat) == other_end(*old(r), n, a, DRAW_BUDGET as nat),
        decreases budget,
    {
        let b: u64 = rng::draw_below(r, n);
        if b != a {
            return b;
        }
        budget = budget - 1;
    }
    if a + 1 < n {
        a + 1
    } else {
        0
    }
}

impl ChannelRegistry {
    /// The registry holds what its channels imply.
    pub open spec fn wf(&self) -> bool {
        &&& self.num_scids == self.rows@.len()
        &&& self.rows@.len() <= u32::MAX
        &&& self.scids@ == self.rows@.map_values(|row: ChannelRow| row.0)
        &&& forall|i: int|
            0 <= i < self.rows@.len() ==> (#[trigger] self.rows@[i]).1 != self.rows@[i].2
        &&& forall|s: Scid|
            #![trigger self.owners@.dom().contains(s)]
            self.owners@.dom().contains(s) == owners_in(self.rows@, s) is Some
        &&& forall|s: Scid| #[trigger]
            self.owners@.dom().contains(s) ==> Some(self.owners@[s]) == owners_in(self.rows@, s)
        &&& forall|v: NodeId|
            #![trigger self.per_node@.dom().contains(v)]
            self.per_node@.dom().contains(v) == owning_nodes(self.rows@).contains(v)
        &&& forall|v: NodeId| #[trigger]
            self.per_node@.dom().contains(v) ==> self.per_node@[v]@ == owned_in(self.rows@, v)
    }

    /// A registry without channels.
    fn empty() -> (r: Self)
        ensures
            r.wf(),
            r.rows@ == Seq::<ChannelRow>::empty(),
    {
        let registry = ChannelRegistry {
            num_scids: 0,
            scids: Vec::new(),
            owners: HashMap::new(),
            per_node: HashMap::new(),
            rows: Ghost(Seq::empty()),
        };
        assert(registry.scids@ =~= registry.rows@.map_values(|row: ChannelRow| row.0));
        registry
    }

    /// Records that a node owns one more side.
    fn add_side(&mut self, node: NodeId, scid: Scid, direction: Direction)
        ensures
            final(self).num_scids == old(self).num_scids,
            final(self).scids == old(self).scids,
            final(self).owners == old(self).owners,
            final(self).rows == old(self).rows,
            final(self).per_node@.dom() == old(self).per_node@.dom().insert(node),
            final(self).per_node@[node]@ == (if old(self).per_node@.dom().contains(node) {
                old(self).per_node@[node]@
            } else {
                Seq::empty()
            }).push((scid, direction)),
            forall|v: NodeId|
                v != node && old(self).per_node@.dom().contains(v) ==> final(self).per_node@[v]
                    == #[trigger] old(self).per_node@[v],
    {
        let mut list: Vec<(Scid, Direction)> = match self.per_node.remove(&node) {
            Some(held) => held,
            None => Vec::new(),
        };
        list.push((scid, direction));
        self.per_node.insert(node, list);
        assert(self.per_node@.dom() =~= old(self).per_node@.dom().insert(node));
    }

    /// Adds one channel.
    fn add_row(&mut self, scid: Scid, d0: NodeId, d1: NodeId)
        requires
            old(self).wf(),
            old(self).rows@.len() < u32::MAX,
            d0 != d1,
        ensures
            final(self).wf(),
            final(self).rows@ == old(self).rows@.push((scid, d0, d1)),
    {
        let ghost before = self.rows@;
        self.scids.push(scid);
        self.num_scids = self.num_scids + 1;
        self.owners.insert(scid, (d0, d1));
        self.add_side(d0, scid, 0u8);
        self.add_side(d1, scid, 1u8);
        self.rows = Ghost(before.push((scid, d0, d1)));
        proof {
            let rows = self.rows@;
            assert(rows.drop_last() =~= before);
            assert(self.scids@ =~= rows.map_values(|row: ChannelRow| row.0));
            lemma_owned_nonempty(before);
            assert forall|v: NodeId| #[trigger]
                self.per_node@.dom().contains(v) implies self.per_node@[v]@ == owned_in(rows, v) by {
                assert(!old(self).per_node@.dom().contains(v) ==> owned_in(before, v)
                    =~= Seq::empty());
            }
        }
    }

    /// Builds the registry from its channels, and adds the channels to the
    /// topology.
    pub fn from_iter(topology: &mut Topology, channels: Vec<ChannelRow>) -> (r: Self)
        requires
            old(topology).wf(),
            rows_within(channels@, old(topology).ids()),
            old(topology).arcs().len() + channels@.len() <= u32::MAX,
        ensures
            r.wf(),
            r.rows@ == channels@,
            final(topology).wf(),
            final(topology).nodes@ == old(topology).nodes@,
            final(topology).links() == old(topology).links(),
            final(topology).arcs() == old(topology).arcs() + row_arcs(
                channels@,
                old(topology).ids(),
            ),
    {
        let mut registry = Self::empty();
        let ghost ids = topology.ids();
        let ghost arcs = topology.arcs();
        assert(arcs + row_arcs(channels@.take(0), ids) =~= arcs);
        assert(channels@.take(0) =~= Seq::<ChannelRow>::empty());
        for i in 0..channels.len()
            invariant
                registry.wf(),
                registry.rows@ == channels@.take(i as int),
                topology.wf(),
                topology.nodes@ == old(topology).nodes@,
                topology.links() == old(topology).links(),
                ids == old(topology).ids(),
                ids == topology.ids(),
                arcs == old(topology).arcs(),
                rows_within(channels@, ids),
                arcs.len() + channels@.len() <= u32::MAX,
                topology.arcs() == arcs + row_arcs(channels@.take(i as int), ids),
        {
            let (scid, d0, d1) = channels[i];
            proof {
                assert(channels@[i as int] == (scid, d0, d1));
                assert(channels@.take(i + 1) =~= channels@.take(i as int).push((scid, d0, d1)));
                assert(arcs + row_arcs(channels@.take(i + 1), ids) =~= topology.arcs().push(
                    (ids.index_of(d0), ids.index_of(d1), scid),
                ));
                assert(topology.has(d0) && topology.has(d1));
            }
            registry.add_row(scid, d0, d1);
            topology.add_channel(scid, d0, d1);
        }
        assert(channels@.take(channels@.len() as int) =~= channels@);
        registry
    }

    /// Samples channels at random, with the ids `0..num_scids`, between
    /// nodes whose ids are `0..n`. The outcome is a function of the number
    /// of nodes, the number of channels and the seed.
    pub fn build(topology: &mut Topology, num_scids: u32, seed: u64) -> (r: Self)
        requires
            old(topology).wf(),
            old(topology).nodes@.len() >= 2,
            forall|i: int|
                0 <= i < old(topology).nodes@.len() ==> old(topology).has(#[trigger] (i as u64)),
            old(topology).arcs().len() + num_scids <= u32::MAX,
        ensures
            r.wf(),
            r.rows@ == sampled(seed, old(topology).nodes@.len() as u64, num_scids as nat),
            r.scids@ == Seq::new(num_scids as nat, |i: int| i as u64),
            rows_within(r.rows@, old(topology).ids()),
            forall|scid: Scid|
                scid < num_scids ==> (#[trigger] owners_in(r.rows@, scid)) is Some && owner_in(
                    r.rows@,
                    scid,
                    0,
                ) < old(topology).nodes@.len() && owner_in(r.rows@, scid, 1) < old(
                    topology,
                ).nodes@.len() && owner_in(r.rows@, scid, 0) != owner_in(r.rows@, scid, 1),
            final(topology).wf(),
            final(topology).nodes@ == old(topology).nodes@,
            final(topology).links() == old(topology).links(),
            final(topology).arcs() == old(topology).arcs() + row_arcs(
                r.rows@,
                old(topology).ids(),
            ),
    {
        let n: u64 = topology.len() as u64;
        let mut r: ChaCha8Rng = rng::from_seed(seed ^ CHANNEL_SUBSEED);
        let mut tuples: Vec<ChannelRow> = Vec::new();
        let ghost start = r;
        for scid in 0..num_scids
            invariant
                n == topology.nodes@.len(),
                n >= 2,
                *topology == *old(topology),
                forall|i: int|
                    0 <= i < topology.nodes@.len() ==> topology.has(#[trigger] (i as u64)),
                (tuples@, r) == channel_draws(start, n, scid as nat),
                tuples@.len() == scid,
                rows_within(tuples@, topology.ids()),
                forall|i: int|
                    0 <= i < tuples@.len() ==> (#[trigger] tuples@[i]).0 == i && tuples@[i].1 < n
                        && tuples@[i].2 < n,
        {
            let a: u64 = rng::draw_below(&mut r, n);
            let b: u64 = draw_other_end(&mut r, n, a);
            let heads: bool = rng::draw_coin(&mut r);
            proof {
                assert(topology.has((a as int) as u64));
                assert(topology.has((b as int) as u64));
            }
            if heads {
                tuples.push((scid as u64, a, b));
            } else {
                tuples.push((scid as u64, b, a));
            }
        }
        let registry = Self::from_iter(topology, tuples);
        proof {
            let rows = registry.rows@;
            assert(registry.scids@ =~= Seq::new(num_scids as nat, |i: int| i as u64));
            assert forall|scid: Scid| scid < num_scids implies (#[trigger] owners_in(
                rows,
                scid,
            )) is Some && owner_in(rows, scid, 0) < n && owner_in(rows, scid, 1) < n && owner_in(
                rows,
                scid,
                0,
            ) != owner_in(rows, scid, 1) by {
                assert(rows[scid as int].0 == scid);
                lemma_known(rows, scid);
                lemma_last_row(rows, scid);
            }
        }
        registry
    }

    /// Owner of one side of a channel, which must be known.
    pub fn owner(&self, scid: Scid, direction: Direction) -> (r: NodeId)
        requires
            self.wf(),
            owners_in(self.rows@, scid) is Some,
            direction <= 1,
        ensures
            r == owner_in(self.rows@, scid, direction),
    {
        assert(self.owners@.dom().contains(scid));
        match self.owners.get(&scid) {
            Some(pair) => if direction == 0 {
                pair.0
            } else {
                pair.1
            },
            None => 0,
        }
    }

    /// The listed channels are those whose owners are known.
    pub proof fn lemma_listed(&self, scid: Scid)
        requires
            self.wf(),
        ensures
            self.scids@.contains(scid) <==> owners_in(self.rows@, scid) is Some,
    {
        lemma_known(self.rows@, scid);
        let ids = self.rows@.map_values(|row: ChannelRow| row.0);
        if owners_in(self.rows@, scid) is Some {
            let i = choose|i: int|
                0 <= i < self.rows@.len() && (#[trigger] self.rows@[i]).0 == scid;
            assert(ids[i] == scid);
        }
        if ids.contains(scid) {
            let i = ids.index_of(scid);
            assert(self.rows@[i].0 == scid);
        }
    }

    /// Whether the channel is known.
    pub fn knows_scid(&self, scid: Scid) -> (r: bool)
        requires
            self.wf(),
        ensures
            r == self.scids@.contains(scid),
            r == owners_in(self.rows@, scid) is Some,
    {
        proof {
            self.lemma_listed(scid);
        }
        self.owners.contains_key(&scid)
    }

    /// The sides that a node owns, as they were added; none where the node
    /// is unknown.
    pub fn channels_for(&self, node: NodeId) -> (r: Vec<(Scid, Direction)>)
        requires
            self.wf(),
        ensures
            r@ == owned_in(self.rows@, node),
    {
        let mut out: Vec<(Scid, Direction)> = Vec::new();
        match self.per_node.get(&node) {
            Some(held) => {
                for i in 0..held.len()
                    invariant
                        out@ == held@.take(i as int),
                {
                    out.push(held[i]);
                }
                assert(held@.take(held@.len() as int) =~= held@);
            },
            None => {
                proof {
                    lemma_owned_nonempty(self.rows@);
                    assert(!self.per_node@.dom().contains(node));
                    assert(owned_in(self.rows@, node) =~= Seq::empty());
                }
            },
        }
        out
    }

    /// Number of channels.
    pub fn len(&self) -> (r: usize)
        requires
            self.wf(),
        ensures
            r == self.rows@.len(),
    {
        self.num_scids
    }

    /// Whether there are no channels.
    pub fn is_empty(&self) -> (r: bool)
        requires
            self.wf(),
        ensures
            r == (self.rows@.len() == 0),
    {
        self.num_scids == 0
    }

    /// Draws a side of a channel, and looks up its owner.
    pub fn random_channel(&self, rng: &mut ChaCha8Rng) -> (r: (Scid, Direction, NodeId))
        requires
            self.wf(),
            self.rows@.len() > 0,
        ensures
            (r.0, r.1, *final(rng)) == side_draw(self.scids@, *old(rng)),
            self.scids@.contains(r.0),
            r.1 <= 1,
            owners_in(self.rows@, r.0) is Some,
            r.2 == owner_in(self.rows@, r.0, r.1),
    {
        let idx: usize = rng::draw_index(rng, self.scids.len());
        let scid: Scid = self.scids[idx];
        let heads: bool = rng::draw_coin(rng);
        let direction: Direction = if heads {
            1u8
        } else {
            0u8
        };
        proof {
            lemma_known(self.rows@, scid);
            assert(self.rows@[idx as int].0 == scid);
        }
        let owner: NodeId = self.owner(scid, direction);
        (scid, direction, owner)
    }

    /// Ids of all channels, as they were added.
    pub fn scids(&self) -> (r: &[Scid])
        ensures
            r@ == self.scids@,
    {
        self.scids.as_slice()
    }

    /// Number of owned sides and of nodes in the topology, whose quotient
    /// is the mean number of sides per node.
    pub fn ownership(&self, topology: &Topology) -> (r: (u64, usize))
        requires
            self.wf(),
            topology.wf(),
        ensures
            r.0 == 2 * self.rows@.len(),
            r.1 == topology.nodes@.len(),
    {
        (2 * (self.num_scids as u64), topology.len())
    }
}

/// A channel is known where some row has its id.
proof fn lemma_known(rows: Seq<ChannelRow>, scid: Scid)
    ensures
        owners_in(rows, scid) is Some <==> exists|i: int|
            0 <= i < rows.len() && (#[trigger] rows[i]).0 == scid,
    decreases rows.len(),
{
    if rows.len() > 0 {
        let init = rows.drop_last();
        lemma_known(init, scid);
        assert(rows[rows.len() - 1] == rows.last());
        if exists|i: int| 0 <= i < init.len() && (#[trigger] init[i]).0 == scid {
            let i = choose|i: int| 0 <= i < init.len() && (#[trigger] init[i]).0 == scid;
            assert(rows[i] == init[i]);
        }
        if exists|i: int| 0 <= i < rows.len() && (#[trigger] rows[i]).0 == scid {
            let i = choose|i: int| 0 <= i < rows.len() && (#[trigger] rows[i]).0 == scid;
            if i < init.len() {
                assert(init[i] == rows[i]);
            }
        }
    }
}

/// The nodes that own a side are those whose list is not empty.
proof fn lemma_owned_nonempty(rows: Seq<ChannelRow>)
    ensures
        forall|v: NodeId| #[trigger]
            owning_nodes(rows).contains(v) <==> owned_in(rows, v).len() > 0,
    decreases rows.len(),
{
    if rows.len() > 0 {
        lemma_owned_nonempty(rows.drop_last());
        assert forall|v: NodeId| #[trigger] owning_nodes(rows).contains(v) <==> owned_in(
            rows,
            v,
        ).len() > 0 by {
            assert(owning_nodes(rows.drop_last()).contains(v) <==> owned_in(
                rows.drop_last(),
                v,
            ).len() > 0);
        }
    }
}

/// A side is on a node's list where some row gives it to the node.
proof fn lemma_owned(rows: Seq<ChannelRow>, node: NodeId, scid: Scid, direction: Direction)
    requires
        direction <= 1,
    ensures
        owned_in(rows, node).contains((scid, direction)) <==> exists|i: int|
            0 <= i < rows.len() && (#[trigger] rows[i]).0 == scid && side_owner(rows[i], direction)
                == node,
    decreases rows.len(),
{
    if rows.len() > 0 {
        let init = rows.drop_last();
        lemma_owned(init, node, scid, direction);
        let before = owned_in(init, node);
        let now = owned_in(rows, node);
        let row = rows.last();
        assert(rows[rows.len() - 1] == row);
        if exists|i: int|
            0 <= i < init.len() && (#[trigger] init[i]).0 == scid && side_owner(init[i], direction)
                == node {
            let i = choose|i: int|
                0 <= i < init.len() && (#[trigger] init[i]).0 == scid && side_owner(
                    init[i],
                    direction,
                ) == node;
            assert(rows[i] == init[i]);
        }
        if exists|i: int|
            0 <= i < rows.len() && (#[trigger] rows[i]).0 == scid && side_owner(rows[i], direction)
                == node {
            let i = choose|i: int|
                0 <= i < rows.len() && (#[trigger] rows[i]).0 == scid && side_owner(
                    rows[i],
                    direction,
                ) == node;
            if i < init.len() {
                assert(init[i] == rows[i]);
            }
        }
        if before.contains((scid, direction)) {
            assert(now[before.index_of((scid, direction))] == (scid, direction));
        }
        if now.contains((scid, direction)) {
            let p = now.index_of((scid, direction));
            if p < before.len() {
                assert(before[p] == (scid, direction));
            }
        }
        if row.1 == node {
            assert(now[before.len() as int] == (row.0, 0u8));
            if row.2 == node {
                assert(now[before.len() as int + 1] == (row.0, 1u8));
            }
        } else if row.2 == node {
            assert(now[before.len() as int] == (row.0, 1u8));
        }
    }
}

/// The owner that is looked up for a side has the side on its list.
pub proof fn owner_matches_list(r: &ChannelRegistry, scid: Scid, direction: Direction)
    requires
        r.wf(),
        owners_in(r.rows@, scid) is Some,
        direction <= 1,
    ensures
        owned_in(r.rows@, owner_in(r.rows@, scid, direction)).contains((scid, direction)),
{
    let node = owner_in(r.rows@, scid, direction);
    lemma_last_row(r.rows@, scid);
    lemma_owned(r.rows@, node, scid, direction);
}

/// The owners of a channel are those of one of its rows.
proof fn lemma_last_row(rows: Seq<ChannelRow>, scid: Scid)
    requires
        owners_in(rows, scid) is Some,
    ensures
        exists|i: int|
            0 <= i < rows.len() && (#[trigger] rows[i]) == (
                scid,
                owner_in(rows, scid, 0),
                owner_in(rows, scid, 1),
            ),
    decreases rows.len(),
{
    if rows.last().0 == scid {
        assert(rows[rows.len() - 1] == rows.last());
    } else {
        let init = rows.drop_last();
        lemma_last_row(init, scid);
        let i = choose|i: int|
            0 <= i < init.len() && (#[trigger] init[i]) == (
                scid,
                owner_in(init, scid, 0),
                owner_in(init, scid, 1),
            );
        assert(rows[i] == init[i]);
    }
}

/// The two directions of a channel belong to two different nodes.
pub proof fn directions_belong_to_different_nodes(r: &ChannelRegistry, scid: Scid)
    requires
        r.wf(),
        owners_in(r.rows@, scid) is Some,
    ensures
        owner_in(r.rows@, scid, 0) != owner_in(r.rows@, scid, 1),
{
    lemma_last_row(r.rows@, scid);
}

/// Two registries that were sampled among as many nodes, with as many
/// channels and the same seed, give every side to the same node.
pub proof fn same_seed_gives_same_owners(
    a: &ChannelRegistry,
    b: &ChannelRegistry,
    seed: u64,
    n: u64,
    count: nat,
)
    requires
        a.wf(),
        b.wf(),
        a.rows@ == sampled(seed, n, count),
        b.rows@ == sampled(seed, n, count),
    ensures
        a.scids@ == b.scids@,
        forall|scid: Scid, direction: Direction| #[trigger]
            owner_in(a.rows@, scid, direction) == owner_in(b.rows@, scid, direction),
        forall|node: NodeId| #[trigger] owned_in(a.rows@, node) == owned_in(b.rows@, node),
{
}

/// The channel graph of a topology that had no channels gives every node
/// the sides that the registry gives it.
pub proof fn graph_matches_registry(
    rows: Seq<ChannelRow>,
    ids: Seq<NodeId>,
    node: NodeId,
    scid: Scid,
    direction: Direction,
)
    requires
        ids.no_duplicates(),
        ids.contains(node),
        rows_within(rows, ids),
        direction <= 1,
    ensures
        owned_in(rows, node).contains((scid, direction)) <==> graph::sides(
            row_arcs(rows, ids),
            ids.index_of(node),
        ).contains((scid, direction)),
{
    let arcs = row_arcs(rows, ids);
    let v = ids.index_of(node);
    lemma_owned(rows, node, scid, direction);
    graph::sides_are_channel_ends(arcs, v, scid, direction);
    assert forall|i: int| 0 <= i < rows.len() implies ((#[trigger] arcs[i]).0 == v <==> rows[i].1
        == node) && (arcs[i].1 == v <==> rows[i].2 == node) && arcs[i].2 == rows[i].0 by {
        assert(ids.contains(rows[i].1) && ids.contains(rows[i].2));
        assert(ids[ids.index_of(rows[i].1)] == rows[i].1);
        assert(ids[ids.index_of(rows[i].2)] == rows[i].2);
        assert(ids[v] == node);
    }
    if owned_in(rows, node).contains((scid, direction)) {
        let i = choose|i: int|
            0 <= i < rows.len() && (#[trigger] rows[i]).0 == scid && side_owner(rows[i], direction)
                == node;
        assert(arcs[i].2 == scid);
    }
    if exists|i: int| 0 <= i < arcs.len() && (#[trigger] arcs[i]).0 == v && arcs[i].2 == scid {
        let i = choose|i: int|
            0 <= i < arcs.len() && (#[trigger] arcs[i]).0 == v && arcs[i].2 == scid;
        assert(rows[i].0 == scid);
    }
    if exists|i: int| 0 <= i < arcs.len() && (#[trigger] arcs[i]).1 == v && arcs[i].2 == scid {
        let i = choose|i: int|
            0 <= i < arcs.len() && (#[trigger] arcs[i]).1 == v && arcs[i].2 == scid;
        assert(rows[i].0 == scid);
    }
}

/// The owners of a channel are those of the last row that lists it: the
/// first of the two sends the updates of direction 0, the second those of
/// direction 1. A channel that no row lists has none.
pub proof fn last_row_gives_the_owners(rows: Seq<ChannelRow>, scid: Scid, j: int)
    requires
        0 <= j < rows.len(),
        forall|m: int| j < m < rows.len() ==> (#[trigger] rows[m]).0 != scid,
    ensures
        rows[j].0 == scid ==> owners_in(rows, scid) == Some((rows[j].1, rows[j].2)),
        rows[j].0 == scid ==> owner_in(rows, scid, 0) == rows[j].1,
        rows[j].0 == scid ==> owner_in(rows, scid, 1) == rows[j].2,
        j == 0 && rows[j].0 != scid ==> owners_in(rows, scid) is None,
    decreases rows.len(),
{
    if j < rows.len() - 1 {
        let init = rows.drop_last();
        assert(rows[rows.len() - 1].0 != scid);
        assert forall|m: int| j < m < init.len() implies (#[trigger] init[m]).0 != scid by {
            assert(init[m] == rows[m]);
        }
        last_row_gives_the_owners(init, scid, j);
        assert(init[j] == rows[j]);
    } else if rows[j].0 != scid && j == 0 {
        reveal_with_fuel(owners_in, 2);
    }
}

/// A node owns a side of a channel where, and only where, a row names it
/// there: as often as the rows do, and in their order.
pub proof fn owned_sides_are_those_of_the_rows(
    a: Seq<ChannelRow>,
    b: Seq<ChannelRow>,
    node: NodeId,
)
    ensures
        owned_in(a + b, node) == owned_in(a, node) + owned_in(b, node),
        a.len() == 0 ==> owned_in(a, node).len() == 0,
        a.len() == 1 && a[0].1 == node && a[0].2 != node ==> owned_in(a, node) == seq![
            (a[0].0, 0u8),
        ],
        a.len() == 1 && a[0].1 != node && a[0].2 == node ==> owned_in(a, node) == seq![
            (a[0].0, 1u8),
        ],
        a.len() == 1 && a[0].1 != node && a[0].2 != node ==> owned_in(a, node).len() == 0,
    decreases b.len(),
{
    if b.len() == 0 {
        assert(a + b =~= a);
        assert(owned_in(a, node) + owned_in(b, node) =~= owned_in(a, node));
    } else {
        owned_sides_are_those_of_the_rows(a, b.drop_last(), node);
        assert((a + b).drop_last() =~= a + b.drop_last());
        assert(owned_in(a + b, node) =~= owned_in(a, node) + owned_in(b, node));
    }
    if a.len() == 1 {
        assert(owned_in(a.drop_last(), node) =~= Seq::<(Scid, Direction)>::empty());
        if a[0].1 == node && a[0].2 != node {
            assert(owned_in(a, node) =~= seq![(a[0].0, 0u8)]);
        }
        if a[0].1 != node && a[0].2 == node {
            assert(owned_in(a, node) =~= seq![(a[0].0, 1u8)]);
        }
    }
}

/// The nodes that own something are the ends of the rows.
pub proof fn owning_nodes_are_the_ends(rows: Seq<ChannelRow>, node: NodeId)
    ensures
        owning_nodes(rows).contains(node) <==> exists|i: int|
            0 <= i < rows.len() && ((#[trigger] rows[i]).1 == node || rows[i].2 == node),
    decreases rows.len(),
{
    if rows.len() > 0 {
        let init = rows.drop_last();
        owning_nodes_are_the_ends(init, node);
        if exists|i: int|
            0 <= i < rows.len() && ((#[trigger] rows[i]).1 == node || rows[i].2 == node) {
            let i = choose|i: int|
                0 <= i < rows.len() && ((#[trigger] rows[i]).1 == node || rows[i].2 == node);
            if i < init.len() {
                assert(init[i] == rows[i]);
            }
        }
        if owning_nodes(init).contains(node) {
            let i = choose|i: int|
                0 <= i < init.len() && ((#[trigger] init[i]).1 == node || init[i].2 == node);
            assert(rows[i] == init[i]);
        }
        assert(rows[rows.len() - 1] == rows.last());
    }
}

/// A side is drawn by its channel's place in the list and by a coin.
pub proof fn side_is_drawn_by_place_and_coin(scids: Seq<Scid>, r: ChaCha8Rng)
    ensures
        ({
            let (i, r1) = rng::index_draw(r, scids.len() as usize);
            let (heads, r2) = rng::coin_draw(r1);
            let (scid, direction, next) = side_draw(scids, r);
            &&& scid == scids[i as int]
            &&& direction == 1 <==> heads
            &&& direction == 0 <==> !heads
            &&& next == r2
        }),
{
}

/// Sampled channels are numbered from zero, in order, and a longer sample
/// begins with the shorter one.
pub proof fn sampled_channels_are_numbered(seed: u64, n: u64, count: nat, i: int)
    requires
        0 <= i < count <= u64::MAX,
    ensures
        sampled(seed, n, count).len() == count,
        sampled(seed, n, count)[i].0 == i,
        sampled(seed, n, count)[i] == sampled(seed, n, (i + 1) as nat)[i],
{
    lemma_channel_draws(rng::seeded(seed ^ CHANNEL_SUBSEED), n, count, i);
}

proof fn lemma_channel_draws(r: ChaCha8Rng, n: u64, count: nat, i: int)
    requires
        0 <= i < count <= u64::MAX,
    ensures
        channel_draws(r, n, count).0.len() == count,
        channel_draws(r, n, count).0[i].0 == i,
        channel_draws(r, n, count).0[i] == channel_draws(r, n, (i + 1) as nat).0[i],
        channel_draws(r, n, (i + 1) as nat).0.len() == i + 1,
    decreases count,
{
    let before = channel_draws(r, n, (count - 1) as nat).0;
    if count > 1 {
        lemma_channel_draws(
            r,
            n,
            (count - 1) as nat,
            if i < count - 1 {
                i
            } else {
                count - 2
            },
        );
    } else {
        reveal_with_fuel(channel_draws, 2);
    }
    assert(before.len() == count - 1);
}

/// The ends of a sampled channel are two different nodes: the one drawn
/// first and the first draw that differs from it. Heads puts the one
/// drawn first in front.
pub proof fn sampled_channel_joins_two_nodes(r: ChaCha8Rng, n: u64, scid: Scid)
    requires
        n >= 2,
        forall|g: ChaCha8Rng, m: u64| m > 0 ==> (#[trigger] rng::below_draw(g, m)).0 < m,
    ensures
        ({
            let (a, r1) = rng::below_draw(r, n);
            let (b, r2) = rng::below_draw(r1, n);
            let (row, next) = channel_draw(r, n, scid);
            &&& row.0 == scid
            &&& row.1 != row.2
            &&& row.1 < n && row.2 < n
            &&& row.1 == a || row.2 == a
            &&& a != b ==> {
                let (heads, r3) = rng::coin_draw(r2);
                &&& heads ==> row.1 == a && row.2 == b
                &&& !heads ==> row.1 == b && row.2 == a
                &&& next == r3
            }
        }),
{
    let (a, r1) = rng::below_draw(r, n);
    lemma_other_end(r1, n, a, DRAW_BUDGET as nat);
}

proof fn lemma_other_end(r: ChaCha8Rng, n: u64, a: u64, budget: nat)
    requires
        n >= 2,
        a < n,
        forall|g: ChaCha8Rng, m: u64| m > 0 ==> (#[trigger] rng::below_draw(g, m)).0 < m,
    ensures
        other_end(r, n, a, budget).0 != a,
        other_end(r, n, a, budget).0 < n,
    decreases budget,
{
    if budget > 0 {
        let (b, next) = rng::below_draw(r, n);
        if b == a {
            lemma_other_end(next, n, a, (budget - 1) as nat);
        }
    }
}

/// The other end of a channel is the first draw that differs from the
/// one end; where none does within the budget, it is the next node, and
/// after the last the first.
pub proof fn other_end_is_the_first_that_differs(r: ChaCha8Rng, n: u64, a: u64, budget: nat)
    requires
        n >= 2,
        a < n,
    ensures
        other_end(r, n, a, 0).0 == (a + 1) % (n as int),
        ({
            let (b, next) = rng::below_draw(r, n);
            &&& b != a ==> other_end(r, n, a, budget + 1) == (b, next)
            &&& b == a ==> other_end(r, n, a, budget + 1) == other_end(next, n, a, budget)
        }),
{
    if a + 1 < n {
        vstd::arithmetic::div_mod::lemma_small_mod((a + 1) as nat, n as nat);
    } else {
        vstd::arithmetic::div_mod::lemma_mod_self_0(n as int);
    }
}

} // verus!
