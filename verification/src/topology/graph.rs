//! The peer graph and the channel graph over one set of vertices.
//!
//! Vertices are dense, `0..n` in the order of insertion. An edge of the
//! peer graph joins two nodes that exchange gossip directly. An edge of
//! the channel graph is one channel: it leads from the owner of direction
//! 0 to the owner of direction 1 and carries the channel's id. The two
//! graphs are independent: a channel does not make two nodes peers.

use petgraph::graph::{DiGraph, UnGraph};
use std::collections::HashMap;
use vstd::prelude::*;

use crate::config::NodeAlgoKind;
use crate::graphs;
use crate::message::{Direction, NodeId, NodeIdx, Scid};

verus! {

broadcast use vstd::std_specs::hash::group_hash_axioms;

/// What is known of one vertex.
#[derive(Clone, Copy, Debug, PartialEq, Eq, Structural)]
pub struct NodeMeta {
    /// Stable identifier, which may be sparse.
    pub id: NodeId,
    /// Position of the vertex, dense from 0.
    pub idx: NodeIdx,
    pub algo: NodeAlgo,
}

/// The algorithm that a node runs.
#[derive(Clone, Copy, Debug, PartialEq, Eq, Structural)]
pub enum NodeAlgo {
    Flooding,
    Cln { stagger_ms: u64 },
    Lnd { stagger_ms: u64, trickle_ms: u64, min_batch_size: usize },
    /// Set reconciliation: nothing is forwarded on receipt, state spreads
    /// through sketches of all three kinds.
    Sketch {
        stagger_ms: u64,
        capacity_chan_updates: u32,
        capacity_node_anns: u32,
        capacity_chan_anns: u32,
    },
}

/// The node algorithm that an entry of a mix stands for.
pub open spec fn algo_of(k: NodeAlgoKind) -> NodeAlgo {
    match k {
        NodeAlgoKind::Cln { stagger_ms } => NodeAlgo::Cln { stagger_ms },
        NodeAlgoKind::Lnd { stagger_ms, trickle_ms, min_batch_size } => NodeAlgo::Lnd {
            stagger_ms,
            trickle_ms,
            min_batch_size,
        },
        NodeAlgoKind::Sketch {
            stagger_ms,
            capacity_chan_updates,
            capacity_node_anns,
            capacity_chan_anns,
            peer_offset_max_ms,
        } => NodeAlgo::Sketch {
            stagger_ms,
            capacity_chan_updates,
            capacity_node_anns,
            capacity_chan_anns,
        },
    }
}

impl From<&NodeAlgoKind> for NodeAlgo {
    fn from(k: &NodeAlgoKind) -> (r: Self) {
        match *k {
            NodeAlgoKind::Cln { stagger_ms } => NodeAlgo::Cln { stagger_ms },
            NodeAlgoKind::Lnd { stagger_ms, trickle_ms, min_batch_size } => NodeAlgo::Lnd {
                stagger_ms,
                trickle_ms,
                min_batch_size,
            },
            NodeAlgoKind::Sketch {
                stagger_ms,
                capacity_chan_updates,
                capacity_node_anns,
                capacity_chan_anns,
                peer_offset_max_ms: _,
            } => NodeAlgo::Sketch {
                stagger_ms,
                capacity_chan_updates,
                capacity_node_anns,
                capacity_chan_anns,
            },
        }
    }
}

impl vstd::std_specs::convert::FromSpecImpl<&NodeAlgoKind> for NodeAlgo {
    open spec fn obeys_from_spec() -> bool {
        true
    }

    open spec fn from_spec(k: &NodeAlgoKind) -> Self {
        algo_of(*k)
    }
}

/// The two graphs and the nodes at their vertices.
pub struct Topology {
    pub nodes: Vec<NodeMeta>,
    pub peers: UnGraph<(), ()>,
    pub channels: DiGraph<(), Scid>,
    /// Vertex of each id.
    pub id_to_nidx: HashMap<NodeId, usize>,
}

/// Every end of every edge is below `n`.
pub open spec fn links_within(es: Seq<(int, int)>, n: int) -> bool {
    forall|i: int| 0 <= i < es.len() ==> 0 <= (#[trigger] es[i]).0 < n && 0 <= es[i].1 < n
}

/// Every end of every channel is below `n`, and the two differ.
pub open spec fn arcs_within(es: Seq<(int, int, u64)>, n: int) -> bool {
    forall|i: int|
        0 <= i < es.len() ==> 0 <= (#[trigger] es[i]).0 < n && 0 <= es[i].1 < n && es[i].0
            != es[i].1
}

impl Topology {
    /// Ids of the nodes, by vertex.
    pub open spec fn ids(&self) -> Seq<NodeId> {
        self.nodes@.map_values(|m: NodeMeta| m.id)
    }

    /// Edges of the peer graph, as they were added.
    pub open spec fn links(&self) -> Seq<(int, int)> {
        graphs::links(self.peers)
    }

    /// Channels, as they were added: owner of direction 0, owner of
    /// direction 1, id.
    pub open spec fn arcs(&self) -> Seq<(int, int, u64)> {
        graphs::arcs(self.channels)
    }

    /// Every id stands at one vertex, and is found there.
    pub open spec fn indexed(&self) -> bool {
        &&& forall|i: int|
            0 <= i < self.nodes@.len() ==> self.id_to_nidx@.dom().contains(
                (#[trigger] self.nodes@[i]).id,
            ) && self.id_to_nidx@[self.nodes@[i].id] == i
        &&& forall|id: u64| #[trigger]
            self.id_to_nidx@.dom().contains(id) ==> self.id_to_nidx@[id] < self.nodes@.len()
                && self.nodes@[self.id_to_nidx@[id] as int].id == id
    }

    /// The graphs share the vertices, and no id is used twice.
    pub open spec fn wf(&self) -> bool {
        &&& self.nodes@.len() <= u32::MAX
        &&& graphs::size(self.peers) == self.nodes@.len()
        &&& graphs::arc_size(self.channels) == self.nodes@.len()
        &&& forall|i: int| 0 <= i < self.nodes@.len() ==> (#[trigger] self.nodes@[i]).idx == i
        &&& self.indexed()
        &&& links_within(self.links(), self.nodes@.len() as int)
        &&& arcs_within(self.arcs(), self.nodes@.len() as int)
        &&& self.links().len() <= u32::MAX
        &&& self.arcs().len() <= u32::MAX
    }

    /// The id is a node's.
    pub open spec fn has(&self, id: NodeId) -> bool {
        self.ids().contains(id)
    }

    /// Vertex of the node with this id.
    pub open spec fn at(&self, id: NodeId) -> int {
        self.ids().index_of(id)
    }

    /// Each id stands at its own vertex.
    pub proof fn lemma_at(&self)
        requires
            self.wf(),
        ensures
            forall|i: int|
                0 <= i < self.nodes@.len() ==> self.has((#[trigger] self.nodes@[i]).id) && self.at(
                    self.nodes@[i].id,
                ) == i,
            forall|id: u64| #[trigger]
                self.has(id) ==> 0 <= self.at(id) < self.nodes@.len() && self.nodes@[self.at(id)].id
                    == id,
            self.ids().no_duplicates(),
    {
        assert forall|i: int| 0 <= i < self.nodes@.len() implies self.has(
            (#[trigger] self.nodes@[i]).id,
        ) && self.at(self.nodes@[i].id) == i by {
            let id = self.nodes@[i].id;
            assert(self.ids()[i] == id);
            let j = self.at(id);
            assert(self.ids()[j] == id);
            assert(self.nodes@[j].id == id);
        }
        assert forall|i: int, j: int|
            0 <= i < self.ids().len() && 0 <= j < self.ids().len() && i != j implies self.ids()[i]
            != self.ids()[j] by {
            assert(self.nodes@[i].id == self.ids()[i]);
            assert(self.nodes@[j].id == self.ids()[j]);
        }
        assert forall|id: u64| #[trigger] self.has(id) implies 0 <= self.at(id) < self.nodes@.len()
            && self.nodes@[self.at(id)].id == id by {
            assert(self.ids()[self.at(id)] == id);
        }
    }

    /// A topology of `n` nodes with the ids `0..n`, all of one algorithm,
    /// with no peers and no channels.
    pub fn empty(n: usize, default_algo: NodeAlgo) -> (r: Self)
        requires
            n <= u32::MAX,
        ensures
            r.wf(),
            r.nodes@ == Seq::new(
                n as nat,
                |i: int| NodeMeta { id: i as u64, idx: i as u32, algo: default_algo },
            ),
            r.links() == Seq::<(int, int)>::empty(),
            r.arcs() == Seq::<(int, int, u64)>::empty(),
    {
        let mut topo = Self::with_capacity(n);
        for i in 0..n
            invariant
                n <= u32::MAX,
                topo.wf(),
                topo.nodes@ == Seq::new(
                    i as nat,
                    |j: int| NodeMeta { id: j as u64, idx: j as u32, algo: default_algo },
                ),
                topo.links() == Seq::<(int, int)>::empty(),
                topo.arcs() == Seq::<(int, int, u64)>::empty(),
        {
            proof {
                assert forall|j: int| 0 <= j < topo.ids().len() implies topo.ids()[j] != i as u64 by {
                    assert(topo.ids()[j] == topo.nodes@[j].id);
                }
            }
            topo.add_node(i as u64, default_algo);
        }
        topo
    }

    /// A topology without nodes. `n_hint` is the number of nodes to make
    /// room for.
    pub fn with_capacity(n_hint: usize) -> (r: Self)
        ensures
            r.wf(),
            r.nodes@ == Seq::<NodeMeta>::empty(),
            r.links() == Seq::<(int, int)>::empty(),
            r.arcs() == Seq::<(int, int, u64)>::empty(),
    {
        Self {
            nodes: Vec::with_capacity(n_hint),
            peers: graphs::undirected(n_hint),
            channels: graphs::directed(n_hint),
            id_to_nidx: HashMap::new(),
        }
    }

    /// Adds a node, whose id must be new, and returns its vertex.
    pub fn add_node(&mut self, id: NodeId, algo: NodeAlgo) -> (r: usize)
        requires
            old(self).wf(),
            !old(self).has(id),
            old(self).nodes@.len() < u32::MAX,
        ensures
            final(self).wf(),
            r == old(self).nodes@.len(),
            final(self).nodes@ == old(self).nodes@.push(
                NodeMeta { id, idx: old(self).nodes@.len() as u32, algo },
            ),
            final(self).links() == old(self).links(),
            final(self).arcs() == old(self).arcs(),
    {
        let nx: usize = graphs::add_vertex(&mut self.peers);
        graphs::add_arc_vertex(&mut self.channels);
        proof {
            if self.id_to_nidx@.dom().contains(id) {
                let i = self.id_to_nidx@[id] as int;
                assert(self.ids()[i] == id);
            }
        }
        self.nodes.push(NodeMeta { id, idx: nx as u32, algo });
        self.id_to_nidx.insert(id, nx);
        nx
    }

    /// Number of nodes.
    pub fn len(&self) -> (r: usize)
        requires
            self.wf(),
        ensures
            r == self.nodes@.len(),
    {
        graphs::vertex_count(&self.peers)
    }

    /// Whether there are no nodes.
    pub fn is_empty(&self) -> (r: bool)
        requires
            self.wf(),
        ensures
            r == (self.nodes@.len() == 0),
    {
        graphs::vertex_count(&self.peers) == 0
    }

    /// Vertex of a node.
    pub fn nidx(&self, id: NodeId) -> (r: usize)
        requires
            self.wf(),
            self.has(id),
        ensures
            r == self.at(id),
            r < self.nodes@.len(),
    {
        proof {
            self.lemma_at();
            assert(self.nodes@[self.at(id)].id == id);
        }
        match self.id_to_nidx.get(&id) {
            Some(nx) => *nx,
            None => 0,
        }
    }

    /// Vertex of a node, `None` where the id is unknown.
    pub fn nidx_opt(&self, id: NodeId) -> (r: Option<usize>)
        requires
            self.wf(),
        ensures
            r == if self.has(id) {
                Some(self.at(id) as usize)
            } else {
                None::<usize>
            },
    {
        proof {
            self.lemma_at();
            if self.has(id) {
                assert(self.nodes@[self.at(id)].id == id);
            }
            if self.id_to_nidx@.dom().contains(id) {
                assert(self.ids()[self.id_to_nidx@[id] as int] == id);
            }
        }
        match self.id_to_nidx.get(&id) {
            Some(nx) => Some(*nx),
            None => None,
        }
    }

    /// What is known of a node.
    pub fn node_meta(&self, id: NodeId) -> (r: &NodeMeta)
        requires
            self.wf(),
            self.has(id),
        ensures
            *r == self.nodes@[self.at(id)],
            r.id == id,
    {
        proof {
            self.lemma_at();
        }
        let nx: usize = self.nidx(id);
        &self.nodes[nx]
    }

    /// Access to what is known of a node. The topology stays well formed
    /// where its id and position are left as they are.
    pub fn node_meta_mut(&mut self, id: NodeId) -> (r: &mut NodeMeta)
        requires
            old(self).wf(),
            old(self).has(id),
        ensures
            *r == old(self).nodes@[old(self).at(id)],
            final(self).nodes@ == old(self).nodes@.update(old(self).at(id), *final(r)),
            final(self).links() == old(self).links(),
            final(self).arcs() == old(self).arcs(),
            final(r).id == r.id && final(r).idx == r.idx ==> final(self).wf(),
    {
        let nx: usize = self.nidx(id);
        &mut self.nodes[nx]
    }

    /// Ids of all nodes, by vertex.
    pub fn node_ids(&self) -> (r: Vec<NodeId>)
        ensures
            r@ == self.ids(),
    {
        let mut out: Vec<NodeId> = Vec::new();
        for i in 0..self.nodes.len()
            invariant
                out@ == self.ids().take(i as int),
        {
            out.push(self.nodes[i].id);
        }
        out
    }

    /// Ids of a node's peers, in the order of [`graphs::neighbours`].
    pub fn peer_ids(&self, id: NodeId) -> (r: Vec<NodeId>)
        requires
            self.wf(),
            self.has(id),
        ensures
            r@ == graphs::neighbours(self.links(), self.at(id)).map_values(
                |v: int| self.nodes@[v].id,
            ),
    {
        let nx: usize = self.nidx(id);
        let near: Vec<usize> = self.peers_at(nx);
        let mut out: Vec<NodeId> = Vec::new();
        let ghost want = graphs::neighbours(self.links(), self.at(id)).map_values(
            |v: int| self.nodes@[v].id,
        );
        for i in 0..near.len()
            invariant
                want == graphs::neighbours(self.links(), nx as int).map_values(
                    |v: int| self.nodes@[v].id,
                ),
                graphs::as_ints(near@) == graphs::neighbours(self.links(), nx as int),
                forall|j: int| 0 <= j < near@.len() ==> (#[trigger] near@[j]) < self.nodes@.len(),
                out@ == want.take(i as int),
        {
            assert(graphs::as_ints(near@)[i as int] == near@[i as int]);
            out.push(self.nodes[near[i]].id);
        }
        assert(graphs::as_ints(near@).len() == want.len());
        out
    }

    /// Vertices of the peers of the node at a vertex.
    pub fn peers_at(&self, nx: usize) -> (r: Vec<usize>)
        requires
            self.wf(),
            nx < self.nodes@.len(),
        ensures
            graphs::as_ints(r@) == graphs::neighbours(self.links(), nx as int),
            forall|j: int| 0 <= j < r@.len() ==> (#[trigger] r@[j]) < self.nodes@.len(),
    {
        let near: Vec<usize> = graphs::neighbours_of(&self.peers, nx);
        proof {
            graphs::lemma_neighbours(self.links(), nx as int);
            assert forall|j: int| 0 <= j < near@.len() implies (#[trigger] near@[j])
                < self.nodes@.len() by {
                let ns = graphs::neighbours(self.links(), nx as int);
                assert(graphs::as_ints(near@)[j] == near@[j]);
                assert(ns[j] == near@[j] as int);
                assert(ns.contains(near@[j] as int));
                assert(graphs::linked(self.links(), nx as int, near@[j] as int));
            }
        }
        near
    }

    /// Makes two nodes peers. A second edge between the same two is
    /// added beside the first.
    pub fn add_peer_edge(&mut self, a: NodeId, b: NodeId)
        requires
            old(self).wf(),
            old(self).has(a),
            old(self).has(b),
            old(self).links().len() < u32::MAX,
        ensures
            final(self).wf(),
            final(self).nodes@ == old(self).nodes@,
            final(self).links() == old(self).links().push((old(self).at(a), old(self).at(b))),
            final(self).arcs() == old(self).arcs(),
    {
        let na: usize = self.nidx(a);
        let nb: usize = self.nidx(b);
        graphs::add_link(&mut self.peers, na, nb);
    }

    /// Adds a channel between two distinct nodes.
    pub fn add_channel(&mut self, scid: Scid, dir0_owner: NodeId, dir1_owner: NodeId)
        requires
            old(self).wf(),
            old(self).has(dir0_owner),
            old(self).has(dir1_owner),
            dir0_owner != dir1_owner,
            old(self).arcs().len() < u32::MAX,
        ensures
            final(self).wf(),
            final(self).nodes@ == old(self).nodes@,
            final(self).links() == old(self).links(),
            final(self).arcs() == old(self).arcs().push(
                (old(self).at(dir0_owner), old(self).at(dir1_owner), scid),
            ),
    {
        proof {
            self.lemma_at();
        }
        let n0: usize = self.nidx(dir0_owner);
        let n1: usize = self.nidx(dir1_owner);
        graphs::add_arc(&mut self.channels, n0, n1, scid);
    }

    /// The channel sides that a node owns: the channels that leave it,
    /// which it owns in direction 0, before those that enter it, which it
    /// owns in direction 1; the latest first in each.
    pub fn channels_for(&self, node: NodeId) -> (r: Vec<(Scid, Direction)>)
        requires
            self.wf(),
            self.has(node),
        ensures
            r@ == sides(self.arcs(), self.at(node)),
    {
        let nx: usize = self.nidx(node);
        let outgoing: Vec<u64> = graphs::labels_out(&self.channels, nx);
        let incoming: Vec<u64> = graphs::labels_in(&self.channels, nx);
        let mut out: Vec<(Scid, Direction)> = Vec::new();
        for i in 0..outgoing.len()
            invariant
                out@ == outgoing@.take(i as int).map_values(|s: u64| (s, 0u8)),
        {
            out.push((outgoing[i], 0u8));
        }
        assert(outgoing@.take(outgoing@.len() as int) == outgoing@);
        for i in 0..incoming.len()
            invariant
                out@ == outgoing@.map_values(|s: u64| (s, 0u8)) + incoming@.take(
                    i as int,
                ).map_values(|s: u64| (s, 1u8)),
        {
            out.push((incoming[i], 1u8));
        }
        assert(incoming@.take(incoming@.len() as int) == incoming@);
        out
    }
}

/// The channel sides at a vertex, with their directions.
pub open spec fn sides(es: Seq<(int, int, u64)>, v: int) -> Seq<(u64, u8)> {
    graphs::leaving(es, v).map_values(|s: u64| (s, 0u8)) + graphs::entering(es, v).map_values(
        |s: u64| (s, 1u8),
    )
}

/// The node at a vertex owns a channel in direction 0 where the channel
/// leaves the vertex, and in direction 1 where it enters it: these are
/// all the sides that [`Topology::channels_for`] lists.
pub proof fn sides_are_channel_ends(es: Seq<(int, int, u64)>, v: int, scid: u64, direction: u8)
    ensures
        sides(es, v).contains((scid, direction)) <==> {
            ||| direction == 0 && exists|i: int|
                0 <= i < es.len() && (#[trigger] es[i]).0 == v && es[i].2 == scid
            ||| direction == 1 && exists|i: int|
                0 <= i < es.len() && (#[trigger] es[i]).1 == v && es[i].2 == scid
        },
{
    lemma_leaving(es, v, scid);
    lemma_entering(es, v, scid);
    let ls = graphs::leaving(es, v);
    let en = graphs::entering(es, v);
    let all = sides(es, v);
    if all.contains((scid, direction)) {
        let p = all.index_of((scid, direction));
        if p < ls.len() {
            assert(all[p] == (ls[p], 0u8));
            assert(ls.contains(scid));
        } else {
            assert(all[p] == (en[p - ls.len()], 1u8));
            assert(en.contains(scid));
        }
    }
    if direction == 0 && ls.contains(scid) {
        let p = ls.index_of(scid);
        assert(all[p] == (scid, 0u8));
    }
    if direction == 1 && en.contains(scid) {
        let p = en.index_of(scid);
        assert(all[ls.len() + p] == (scid, 1u8));
    }
}

proof fn lemma_leaving(es: Seq<(int, int, u64)>, v: int, scid: u64)
    ensures
        graphs::leaving(es, v).contains(scid) <==> exists|i: int|
            0 <= i < es.len() && (#[trigger] es[i]).0 == v && es[i].2 == scid,
    decreases es.len(),
{
    if es.len() > 0 {
        let init = es.drop_last();
        lemma_leaving(init, v, scid);
        let old_list = graphs::leaving(init, v);
        let new_list = graphs::leaving(es, v);
        if es.last().0 == v {
            assert(new_list[0] == es.last().2);
            assert(new_list.subrange(1, new_list.len() as int) =~= old_list);
            if old_list.contains(scid) {
                assert(new_list[old_list.index_of(scid) + 1] == scid);
            }
            if new_list.contains(scid) && es.last().2 != scid {
                assert(old_list[new_list.index_of(scid) - 1] == scid);
            }
        }
        if exists|i: int| 0 <= i < init.len() && (#[trigger] init[i]).0 == v && init[i].2 == scid {
            let i = choose|i: int|
                0 <= i < init.len() && (#[trigger] init[i]).0 == v && init[i].2 == scid;
            assert(es[i] == init[i]);
        }
        if exists|i: int| 0 <= i < es.len() && (#[trigger] es[i]).0 == v && es[i].2 == scid {
            let i = choose|i: int|
                0 <= i < es.len() && (#[trigger] es[i]).0 == v && es[i].2 == scid;
            if i < init.len() {
                assert(init[i] == es[i]);
            }
        }
        assert(es[es.len() - 1] == es.last());
    }
}

proof fn lemma_entering(es: Seq<(int, int, u64)>, v: int, scid: u64)
    ensures
        graphs::entering(es, v).contains(scid) <==> exists|i: int|
            0 <= i < es.len() && (#[trigger] es[i]).1 == v && es[i].2 == scid,
    decreases es.len(),
{
    if es.len() > 0 {
        let init = es.drop_last();
        lemma_entering(init, v, scid);
        let old_list = graphs::entering(init, v);
        let new_list = graphs::entering(es, v);
        if es.last().1 == v {
            assert(new_list[0] == es.last().2);
            assert(new_list.subrange(1, new_list.len() as int) =~= old_list);
            if old_list.contains(scid) {
                assert(new_list[old_list.index_of(scid) + 1] == scid);
            }
            if new_list.contains(scid) && es.last().2 != scid {
                assert(old_list[new_list.index_of(scid) - 1] == scid);
            }
        }
        if exists|i: int| 0 <= i < init.len() && (#[trigger] init[i]).1 == v && init[i].2 == scid {
            let i = choose|i: int|
                0 <= i < init.len() && (#[trigger] init[i]).1 == v && init[i].2 == scid;
            assert(es[i] == init[i]);
        }
        if exists|i: int| 0 <= i < es.len() && (#[trigger] es[i]).1 == v && es[i].2 == scid {
            let i = choose|i: int|
                0 <= i < es.len() && (#[trigger] es[i]).1 == v && es[i].2 == scid;
            if i < init.len() {
                assert(init[i] == es[i]);
            }
        }
        assert(es[es.len() - 1] == es.last());
    }
}

} // verus!
