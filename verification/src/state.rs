//! Per-node gossip state, and the difference of two states.
//!
//! Each node holds three containers over the shared key registry:
//! channel updates and node announcements with a timestamp per key, and
//! channel announcements as plain presence. The containers are dense
//! arrays indexed by the registry's dense index. A presence bit is kept
//! apart from the timestamp because 0 is a legitimate timestamp.
//!
//! [`compute_diff`] compares two nodes over one kind. A key held by one
//! side only counts once; a key that both hold at different timestamps
//! counts twice, as each `(key, timestamp)` pair is an element of its own
//! in a set sketch. The messages it hands back are only those that are
//! strictly newer on the named side.

use std::sync::Arc;

use fixedbitset::FixedBitSet;
use vstd::prelude::*;

use crate::bitset;
use crate::keys;
use crate::keys::{ChanAnnKeys, KeyRegistry, KindKeys};
use crate::message;
use crate::message::{Direction, Gossip, GossipKind, NodeId, NodeIdx, Scid, SketchKind};
use crate::time::SimDuration;

verus! {

/// Dense state of a timestamped kind.
pub struct DenseTsMap {
    keys: Arc<KindKeys>,
    present: FixedBitSet,
    ts: Vec<u32>,
}

impl DenseTsMap {
    /// The registry's keys of this kind.
    pub closed spec fn registry(&self) -> KindKeys {
        *self.keys
    }

    /// The stored timestamp at each dense index.
    pub closed spec fn slots(&self) -> Seq<Option<u32>> {
        Seq::new(
            self.ts@.len(),
            |i: int|
                if bitset::bits(self.present)[i] {
                    Some(self.ts@[i])
                } else {
                    None
                },
        )
    }

    /// A slot per registered key; only the slot that the registry finds
    /// for a key is ever filled.
    pub closed spec fn wf(&self) -> bool {
        &&& self.keys.wf()
        &&& self.ts@.len() == self.keys.keys().len()
        &&& bitset::bits(self.present).len() == self.ts@.len()
        &&& forall|i: int|
            0 <= i < self.ts@.len() && #[trigger] bitset::bits(self.present)[i]
                ==> self.keys.position(self.keys.keys()[i]) == i
    }
}

impl View for DenseTsMap {
    type V = Map<u64, u32>;

    /// The stored timestamp of each key that is held.
    closed spec fn view(&self) -> Map<u64, u32> {
        Map::new(
            |k: u64|
                self.registry().universe().contains(k) && self.slots()[self.registry().position(
                    k,
                )] is Some,
            |k: u64| self.slots()[self.registry().position(k)]->0,
        )
    }
}

impl DenseTsMap {
    pub(crate) fn new(keys: Arc<KindKeys>) -> (r: Self)
        requires
            keys.wf(),
        ensures
            r.wf(),
            r.registry() == *keys,
            r@ == Map::<u64, u32>::empty(),
    {
        let k: usize = keys.len();
        let mut ts: Vec<u32> = Vec::new();
        for i in 0..k
            invariant
                ts@.len() == i,
        {
            ts.push(0);
        }
        let r = DenseTsMap { keys, present: FixedBitSet::with_capacity(k), ts };
        proof {
            r.keys.lemma_positions();
            assert(r@ =~= Map::<u64, u32>::empty());
        }
        r
    }

    /// The stored timestamp of `key`, or `None` if it is not held.
    pub fn get_ts(&self, key: u64) -> (r: Option<u32>)
        requires
            self.wf(),
            self.registry().universe().contains(key),
        ensures
            r == (if self@.contains_key(key) {
                Some(self@[key])
            } else {
                None
            }),
    {
        let i: usize = self.keys.idx(key);
        if self.present.contains(i) {
            Some(self.ts[i])
        } else {
            None
        }
    }

    /// The stored timestamp of `key` and the size of that version, or
    /// `None` if it is not held.
    pub fn get(&self, key: u64) -> (r: Option<(u32, u16)>)
        requires
            self.wf(),
            self.registry().universe().contains(key),
        ensures
            r == (if self@.contains_key(key) {
                Some(
                    (
                        self@[key],
                        keys::size_in(
                            self.registry().versions(self.registry().position(key)),
                            self@[key],
                        ),
                    ),
                )
            } else {
                None
            }),
    {
        let i: usize = self.keys.idx(key);
        if self.present.contains(i) {
            let ts: u32 = self.ts[i];
            Some((ts, self.keys.size_of(i, ts)))
        } else {
            None
        }
    }

    /// Record `key` as held at timestamp `ts`, overwriting what was
    /// stored.
    pub fn insert(&mut self, key: u64, ts: u32)
        requires
            old(self).wf(),
            old(self).registry().universe().contains(key),
        ensures
            final(self).wf(),
            final(self).registry() == old(self).registry(),
            final(self)@ == old(self)@.insert(key, ts),
    {
        let i: usize = self.keys.idx(key);
        proof {
            self.keys.lemma_positions();
        }
        self.present.insert(i);
        self.ts.set(i, ts);
        assert(self@ =~= old(self)@.insert(key, ts));
    }

    /// Whether `key` is held.
    pub fn contains(&self, key: u64) -> (r: bool)
        requires
            self.wf(),
            self.registry().universe().contains(key),
        ensures
            r == self@.contains_key(key),
    {
        let i: usize = self.keys.idx(key);
        self.present.contains(i)
    }
}

/// Dense state of channel announcements.
pub struct DenseChanAnns {
    keys: Arc<ChanAnnKeys>,
    present: FixedBitSet,
}

impl DenseChanAnns {
    /// The registry's scids.
    pub closed spec fn registry(&self) -> ChanAnnKeys {
        *self.keys
    }

    /// The presence of each dense index, as timestamp 0.
    pub closed spec fn slots(&self) -> Seq<Option<u32>> {
        Seq::new(
            bitset::bits(self.present).len(),
            |i: int|
                if bitset::bits(self.present)[i] {
                    Some(0u32)
                } else {
                    None
                },
        )
    }

    pub closed spec fn wf(&self) -> bool {
        &&& self.keys.wf()
        &&& bitset::bits(self.present).len() == self.keys.keys().len()
        &&& forall|i: int|
            0 <= i < self.keys.keys().len() && #[trigger] bitset::bits(self.present)[i]
                ==> self.keys.position(self.keys.keys()[i]) == i
    }
}

impl View for DenseChanAnns {
    type V = Set<u64>;

    /// The scids that are held.
    closed spec fn view(&self) -> Set<u64> {
        Set::new(
            |k: u64|
                self.registry().universe().contains(k) && self.slots()[self.registry().position(
                    k,
                )] is Some,
        )
    }
}

impl DenseChanAnns {
    pub(crate) fn new(keys: Arc<ChanAnnKeys>) -> (r: Self)
        requires
            keys.wf(),
        ensures
            r.wf(),
            r.registry() == *keys,
            r@ == Set::<u64>::empty(),
    {
        let k: usize = keys.len();
        let r = DenseChanAnns { keys, present: FixedBitSet::with_capacity(k) };
        proof {
            r.keys.lemma_positions();
            assert(r@ =~= Set::<u64>::empty());
        }
        r
    }

    /// Whether `key` is held.
    pub fn contains(&self, key: u64) -> (r: bool)
        requires
            self.wf(),
            self.registry().universe().contains(key),
        ensures
            r == self@.contains(key),
    {
        let i: usize = self.keys.idx(key);
        self.present.contains(i)
    }

    /// The size of the announcement of `key`, or `None` if it is not
    /// held.
    pub fn get(&self, key: u64) -> (r: Option<u16>)
        requires
            self.wf(),
            self.registry().universe().contains(key),
        ensures
            r == (if self@.contains(key) {
                Some(self.registry().size(self.registry().position(key)))
            } else {
                None
            }),
    {
        let i: usize = self.keys.idx(key);
        if self.present.contains(i) {
            Some(self.keys.size_at(i))
        } else {
            None
        }
    }

    /// Mark `key` as held; `true` where it was not held before.
    pub fn insert_present(&mut self, key: u64) -> (r: bool)
        requires
            old(self).wf(),
            old(self).registry().universe().contains(key),
        ensures
            final(self).wf(),
            final(self).registry() == old(self).registry(),
            r == !old(self)@.contains(key),
            final(self)@ == old(self)@.insert(key),
    {
        let i: usize = self.keys.idx(key);
        proof {
            self.keys.lemma_positions();
        }
        let was = self.present.put(i);
        assert(self@ =~= old(self)@.insert(key));
        !was
    }
}

/// Per-node dedup state.
pub struct NodeState {
    /// Dense index of the node, which orders the two sides of a
    /// difference.
    pub idx: NodeIdx,
    pub chan_updates: DenseTsMap,
    pub node_anns: DenseTsMap,
    pub chan_anns: DenseChanAnns,
}

impl NodeState {
    pub open spec fn wf(&self) -> bool {
        &&& self.chan_updates.wf()
        &&& self.node_anns.wf()
        &&& self.chan_anns.wf()
    }

    /// The two states are over the same registry.
    pub open spec fn shares_keys(&self, other: &NodeState) -> bool {
        &&& self.chan_updates.registry() == other.chan_updates.registry()
        &&& self.node_anns.registry() == other.node_anns.registry()
        &&& self.chan_anns.registry() == other.chan_anns.registry()
    }

    /// The state is over the given registry.
    pub open spec fn over(&self, keys: &KeyRegistry) -> bool {
        &&& self.chan_updates.registry() == keys.update_keys()
        &&& self.node_anns.registry() == keys.node_keys()
        &&& self.chan_anns.registry() == keys.announcement_keys()
    }

    /// The registry's keys of one kind by dense index.
    pub open spec fn keys(&self, kind: SketchKind) -> Seq<u64> {
        match kind {
            SketchKind::ChanUpdates => self.chan_updates.registry().keys(),
            SketchKind::NodeAnns => self.node_anns.registry().keys(),
            SketchKind::ChanAnns => self.chan_anns.registry().keys(),
        }
    }

    /// The registry's keys of one kind as a set.
    pub open spec fn universe(&self, kind: SketchKind) -> Set<u64> {
        match kind {
            SketchKind::ChanUpdates => self.chan_updates.registry().universe(),
            SketchKind::NodeAnns => self.node_anns.registry().universe(),
            SketchKind::ChanAnns => self.chan_anns.registry().universe(),
        }
    }

    /// The dense index of a key.
    pub open spec fn position(&self, kind: SketchKind, key: u64) -> int {
        match kind {
            SketchKind::ChanUpdates => self.chan_updates.registry().position(key),
            SketchKind::NodeAnns => self.node_anns.registry().position(key),
            SketchKind::ChanAnns => self.chan_anns.registry().position(key),
        }
    }

    /// The size that the registry gives for one dense index at `ts`.
    pub open spec fn size(&self, kind: SketchKind, i: int, ts: u32) -> u16 {
        match kind {
            SketchKind::ChanUpdates => keys::size_in(
                self.chan_updates.registry().versions(i),
                ts,
            ),
            SketchKind::NodeAnns => keys::size_in(self.node_anns.registry().versions(i), ts),
            SketchKind::ChanAnns => self.chan_anns.registry().size(i),
        }
    }

    /// What is stored at each dense index.
    pub open spec fn slots(&self, kind: SketchKind) -> Seq<Option<u32>> {
        match kind {
            SketchKind::ChanUpdates => self.chan_updates.slots(),
            SketchKind::NodeAnns => self.node_anns.slots(),
            SketchKind::ChanAnns => self.chan_anns.slots(),
        }
    }

    /// The keys that are held with their timestamps, 0 for channel
    /// announcements.
    pub open spec fn held(&self, kind: SketchKind) -> Map<u64, u32> {
        match kind {
            SketchKind::ChanUpdates => self.chan_updates@,
            SketchKind::NodeAnns => self.node_anns@,
            SketchKind::ChanAnns => Map::new(|k: u64| self.chan_anns@.contains(k), |k: u64| 0u32),
        }
    }

    /// The message that stands for the entry at one dense index.
    pub open spec fn gossip_at(&self, kind: SketchKind, i: int) -> Gossip {
        let ts = self.slots(kind)[i]->0;
        synthesised(kind, self.keys(kind)[i], ts, self.size(kind, i, ts))
    }

    /// The messages that stand for the entries at some dense indices.
    pub open spec fn gossips_at(&self, kind: SketchKind, at: Seq<int>) -> Seq<Gossip> {
        Seq::new(at.len(), |j: int| self.gossip_at(kind, at[j]))
    }

    /// Held keys are those whose slot is filled, each key in one slot.
    pub proof fn lemma_held(&self, kind: SketchKind)
        requires
            self.wf(),
        ensures
            self.slots(kind).len() == self.keys(kind).len(),
            self.keys(kind).len() <= u32::MAX,
            forall|k: u64| #[trigger]
                self.universe(kind).contains(k) ==> 0 <= self.position(kind, k) < self.keys(
                    kind,
                ).len() && self.keys(kind)[self.position(kind, k)] == k,
            forall|k: u64| #[trigger]
                self.held(kind).contains_key(k) <==> self.universe(kind).contains(k)
                    && self.slots(kind)[self.position(kind, k)] is Some,
            forall|k: u64| #[trigger]
                self.held(kind).contains_key(k) ==> self.slots(kind)[self.position(kind, k)]
                    == Some(self.held(kind)[k]),
            forall|i: int|
                0 <= i < self.keys(kind).len() && #[trigger] self.slots(kind)[i] is Some ==> {
                    &&& self.position(kind, self.keys(kind)[i]) == i
                    &&& self.held(kind).contains_key(self.keys(kind)[i])
                    &&& self.held(kind)[self.keys(kind)[i]] == self.slots(kind)[i]->0
                },
    {
        self.chan_updates.keys.lemma_positions();
        self.node_anns.keys.lemma_positions();
        self.chan_anns.keys.lemma_positions();
        assert forall|i: int|
            0 <= i < self.keys(kind).len() && #[trigger] self.slots(kind)[i] is Some implies {
            &&& self.position(kind, self.keys(kind)[i]) == i
            &&& self.held(kind).contains_key(self.keys(kind)[i])
            &&& self.held(kind)[self.keys(kind)[i]] == self.slots(kind)[i]->0
        } by {
            assert(self.universe(kind).contains(self.keys(kind)[i]));
        }
    }

    /// Whether `key` is one of the registry's keys of one kind.
    pub fn knows(&self, kind: SketchKind, key: u64) -> (r: bool)
        ensures
            r == self.universe(kind).contains(key),
    {
        match kind {
            SketchKind::ChanUpdates => self.chan_updates.keys.has(key),
            SketchKind::NodeAnns => self.node_anns.keys.has(key),
            SketchKind::ChanAnns => self.chan_anns.keys.has(key),
        }
    }

    /// How many keys of one kind the registry has.
    pub fn key_count(&self, kind: SketchKind) -> (r: usize)
        ensures
            r == self.keys(kind).len(),
    {
        match kind {
            SketchKind::ChanUpdates => self.chan_updates.keys.len(),
            SketchKind::NodeAnns => self.node_anns.keys.len(),
            SketchKind::ChanAnns => self.chan_anns.keys.len(),
        }
    }

    /// The empty state of one node.
    pub fn new(keys: &KeyRegistry, idx: NodeIdx) -> (r: Self)
        requires
            keys.wf(),
        ensures
            r.wf(),
            r.over(keys),
            r.idx == idx,
            forall|kind: SketchKind| #[trigger] r.keys(kind) == keys.keys(kind),
            forall|kind: SketchKind| #[trigger] r.universe(kind) == keys.keys(kind).to_set(),
            forall|kind: SketchKind, i: int|
                0 <= i < keys.keys(kind).len() ==> r.universe(kind).contains(
                    #[trigger] keys.keys(kind)[i],
                ),
            forall|kind: SketchKind, i: int, ts: u32|
                0 <= i < keys.keys(kind).len() ==> #[trigger] r.size(kind, i, ts) == keys::size_in(
                    keys.versions(kind, i),
                    ts,
                ),
            forall|kind: SketchKind| #[trigger] r.held(kind) == Map::<u64, u32>::empty(),
    {
        proof {
            keys.lemma_parts();
        }
        let r = NodeState {
            idx,
            chan_updates: DenseTsMap::new(keys.chan_updates.clone()),
            node_anns: DenseTsMap::new(keys.node_anns.clone()),
            chan_anns: DenseChanAnns::new(keys.chan_anns.clone()),
        };
        assert forall|kind: SketchKind| #[trigger] r.held(kind) == Map::<u64, u32>::empty() by {
            assert(r.held(kind) =~= Map::<u64, u32>::empty());
        }
        proof {
            r.chan_updates.keys.lemma_positions();
            r.node_anns.keys.lemma_positions();
            r.chan_anns.keys.lemma_positions();
            assert forall|kind: SketchKind| #[trigger] r.universe(kind) == keys.keys(
                kind,
            ).to_set() by {
                assert forall|k: u64| #[trigger] r.universe(kind).contains(k) implies keys.keys(
                    kind,
                ).contains(k) by {
                    assert(keys.keys(kind)[r.position(kind, k)] == k);
                }
                assert(r.universe(kind) =~= keys.keys(kind).to_set());
            }
        }
        r
    }
}

/// One empty state per node, all over the same registry.
pub fn build_registry(keys: &KeyRegistry, n: usize) -> (r: Vec<NodeState>)
    requires
        keys.wf(),
        n <= u32::MAX,
    ensures
        r@.len() == n,
        forall|i: int|
            0 <= i < n ==> {
                &&& (#[trigger] r@[i]).wf()
                &&& r@[i].over(keys)
                &&& r@[i].idx == i
                &&& forall|kind: SketchKind| #[trigger] r@[i].keys(kind) == keys.keys(kind)
                &&& forall|kind: SketchKind| #[trigger]
                    r@[i].universe(kind) == keys.keys(kind).to_set()
                &&& forall|kind: SketchKind, j: int|
                    0 <= j < keys.keys(kind).len() ==> r@[i].universe(kind).contains(
                        #[trigger] keys.keys(kind)[j],
                    )
                &&& forall|kind: SketchKind, j: int, ts: u32|
                    0 <= j < keys.keys(kind).len() ==> #[trigger] r@[i].size(kind, j, ts)
                        == keys::size_in(keys.versions(kind, j), ts)
                &&& forall|kind: SketchKind| #[trigger]
                    r@[i].held(kind) == Map::<u64, u32>::empty()
            },
{
    let mut out: Vec<NodeState> = Vec::new();
    for i in 0..n
        invariant
            keys.wf(),
            n <= u32::MAX,
            out@.len() == i,
            forall|j: int|
                0 <= j < i ==> {
                    &&& (#[trigger] out@[j]).wf()
                    &&& out@[j].over(keys)
                    &&& out@[j].idx == j
                    &&& forall|kind: SketchKind| #[trigger] out@[j].keys(kind) == keys.keys(kind)
                    &&& forall|kind: SketchKind| #[trigger]
                        out@[j].universe(kind) == keys.keys(kind).to_set()
                    &&& forall|kind: SketchKind, k: int|
                        0 <= k < keys.keys(kind).len() ==> out@[j].universe(kind).contains(
                            #[trigger] keys.keys(kind)[k],
                        )
                    &&& forall|kind: SketchKind, k: int, ts: u32|
                        0 <= k < keys.keys(kind).len() ==> #[trigger] out@[j].size(kind, k, ts)
                            == keys::size_in(keys.versions(kind, k), ts)
                    &&& forall|kind: SketchKind| #[trigger]
                        out@[j].held(kind) == Map::<u64, u32>::empty()
                },
    {
        out.push(NodeState::new(keys, i as NodeIdx));
    }
    out
}

// ---------------------------------------------------------------------
// Messages made from stored entries
// ---------------------------------------------------------------------

/// The channel update that stands for a stored entry.
pub open spec fn chan_update_of(
    scid: Scid,
    direction: Direction,
    timestamp: u32,
    size_bytes: u16,
) -> Gossip {
    Gossip {
        id: message::derived_id(
            None,
            GossipKind::ChannelUpdate,
            Some(scid),
            direction,
            timestamp,
        ),
        origin: None,
        kind: GossipKind::ChannelUpdate,
        size_bytes,
        scid: Some(scid),
        direction,
        timestamp,
    }
}

/// The node announcement that stands for a stored entry.
pub open spec fn node_ann_of(origin: NodeId, timestamp: u32, size_bytes: u16) -> Gossip {
    Gossip {
        id: message::derived_id(
            Some(origin),
            GossipKind::NodeAnnouncement,
            None,
            0,
            timestamp,
        ),
        origin: Some(origin),
        kind: GossipKind::NodeAnnouncement,
        size_bytes,
        scid: None,
        direction: 0,
        timestamp,
    }
}

/// The channel announcement that stands for a stored entry.
pub open spec fn chan_ann_of(scid: Scid, size_bytes: u16) -> Gossip {
    Gossip {
        id: message::derived_id(None, GossipKind::ChannelAnnouncement, Some(scid), 0, 0),
        origin: None,
        kind: GossipKind::ChannelAnnouncement,
        size_bytes,
        scid: Some(scid),
        direction: 0,
        timestamp: 0,
    }
}

/// The message of one kind that stands for a stored entry.
pub open spec fn synthesised(kind: SketchKind, key: u64, ts: u32, size: u16) -> Gossip {
    match kind {
        SketchKind::ChanUpdates => chan_update_of(key / 2, (key % 2) as u8, ts, size),
        SketchKind::NodeAnns => node_ann_of(key, ts, size),
        SketchKind::ChanAnns => chan_ann_of(key, size),
    }
}

pub fn synth_chan_update(
    scid: Scid,
    direction: Direction,
    timestamp: u32,
    size_bytes: u16,
) -> (r: Gossip)
    ensures
        r == chan_update_of(scid, direction, timestamp, size_bytes),
{
    Gossip {
        id: Gossip::derive_id(
            None,
            GossipKind::ChannelUpdate,
            Some(scid),
            direction,
            timestamp,
        ),
        origin: None,
        kind: GossipKind::ChannelUpdate,
        size_bytes,
        scid: Some(scid),
        direction,
        timestamp,
    }
}

pub fn synth_node_ann(origin_id: NodeId, timestamp: u32, size_bytes: u16) -> (r: Gossip)
    ensures
        r == node_ann_of(origin_id, timestamp, size_bytes),
{
    Gossip {
        id: Gossip::derive_id(
            Some(origin_id),
            GossipKind::NodeAnnouncement,
            None,
            0,
            timestamp,
        ),
        origin: Some(origin_id),
        kind: GossipKind::NodeAnnouncement,
        size_bytes,
        scid: None,
        direction: 0,
        timestamp,
    }
}

pub fn synth_chan_ann(scid: Scid, size_bytes: u16) -> (r: Gossip)
    ensures
        r == chan_ann_of(scid, size_bytes),
{
    Gossip {
        id: Gossip::derive_id(None, GossipKind::ChannelAnnouncement, Some(scid), 0, 0),
        origin: None,
        kind: GossipKind::ChannelAnnouncement,
        size_bytes,
        scid: Some(scid),
        direction: 0,
        timestamp: 0,
    }
}

/// The message of one kind that stands for a stored entry.
pub(crate) fn synth(kind: SketchKind, key: u64, ts: u32, size: u16) -> (r: Gossip)
    ensures
        r == synthesised(kind, key, ts, size),
{
    match kind {
        SketchKind::ChanUpdates => {
            let (scid, direction) = keys::unpack_cu_key(key);
            synth_chan_update(scid, direction, ts, size)
        },
        SketchKind::NodeAnns => synth_node_ann(key, ts, size),
        SketchKind::ChanAnns => synth_chan_ann(key, size),
    }
}

// ---------------------------------------------------------------------
// Difference
// ---------------------------------------------------------------------

/// Which side of a difference should hand back its newer messages.
#[derive(Copy, Clone, Debug, PartialEq, Eq, Structural)]
pub enum WhichSide {
    A,
    B,
    Both,
}

impl WhichSide {
    pub open spec fn wants_a(self) -> bool {
        self == WhichSide::A || self == WhichSide::Both
    }

    pub open spec fn wants_b(self) -> bool {
        self == WhichSide::B || self == WhichSide::Both
    }

    /// The same request with the sides exchanged.
    pub open spec fn mirrored(self) -> WhichSide {
        match self {
            WhichSide::A => WhichSide::B,
            WhichSide::B => WhichSide::A,
            WhichSide::Both => WhichSide::Both,
        }
    }

    fn want_a(self) -> (r: bool)
        ensures
            r == self.wants_a(),
    {
        match self {
            WhichSide::A => true,
            WhichSide::B => false,
            WhichSide::Both => true,
        }
    }

    fn want_b(self) -> (r: bool)
        ensures
            r == self.wants_b(),
    {
        match self {
            WhichSide::A => false,
            WhichSide::B => true,
            WhichSide::Both => true,
        }
    }
}

/// Result of a difference. The counts are always filled; `a_newer` and
/// `b_newer` only for the sides that were asked for.
pub struct DiffResult {
    /// Keys that only `a` holds.
    pub a_only_count: usize,
    /// Keys that only `b` holds.
    pub b_only_count: usize,
    /// Keys that both hold at the same timestamp.
    pub intersection: usize,
    /// Size of the symmetric difference over `(key, timestamp)` pairs,
    /// the quantity that a sketch's capacity bounds.
    pub difference: usize,
    /// Messages strictly newer on `a`'s side.
    pub a_newer: Vec<Gossip>,
    /// Messages strictly newer on `b`'s side.
    pub b_newer: Vec<Gossip>,
}

/// Filled in `a` and empty in `b`.
pub open spec fn is_only(a: Seq<Option<u32>>, b: Seq<Option<u32>>) -> spec_fn(int) -> bool {
    |i: int| a[i] is Some && b[i] is None
}

/// Filled in both, with the same timestamp.
pub open spec fn is_same(a: Seq<Option<u32>>, b: Seq<Option<u32>>) -> spec_fn(int) -> bool {
    |i: int| a[i] is Some && b[i] is Some && a[i]->0 == b[i]->0
}

/// Filled in both, with a later timestamp in `a`.
pub open spec fn is_newer(a: Seq<Option<u32>>, b: Seq<Option<u32>>) -> spec_fn(int) -> bool {
    |i: int| a[i] is Some && b[i] is Some && a[i]->0 > b[i]->0
}

/// Filled in `a`, and in `b` either empty or earlier.
pub open spec fn is_ahead(a: Seq<Option<u32>>, b: Seq<Option<u32>>) -> spec_fn(int) -> bool {
    |i: int| a[i] is Some && (b[i] is None || a[i]->0 > b[i]->0)
}

/// Dense indices that only `a` fills.
pub open spec fn only_in(a: Seq<Option<u32>>, b: Seq<Option<u32>>) -> Seq<int> {
    bitset::select(a.len(), is_only(a, b))
}

/// Dense indices that both fill with the same timestamp.
pub open spec fn same_in(a: Seq<Option<u32>>, b: Seq<Option<u32>>) -> Seq<int> {
    bitset::select(a.len(), is_same(a, b))
}

/// Dense indices that both fill and `a` with a later timestamp.
pub open spec fn newer_in(a: Seq<Option<u32>>, b: Seq<Option<u32>>) -> Seq<int> {
    bitset::select(a.len(), is_newer(a, b))
}

/// Dense indices where `a` is ahead of `b`.
pub open spec fn ahead_in(a: Seq<Option<u32>>, b: Seq<Option<u32>>) -> Seq<int> {
    bitset::select(a.len(), is_ahead(a, b))
}

/// Size of the symmetric difference over `(key, timestamp)` pairs: a key
/// on one side only counts once, one at two timestamps twice.
pub open spec fn diff_size(a: Seq<Option<u32>>, b: Seq<Option<u32>>) -> nat {
    only_in(a, b).len() + only_in(b, a).len() + 2 * (newer_in(a, b).len() + newer_in(b, a).len())
}

/// The indices where `a` is ahead in the order in which they are handed
/// back: ascending for the side that is walked first; for the other the
/// later timestamps before the lone keys.
pub open spec fn newer_order(walked_first: bool, a: Seq<Option<u32>>, b: Seq<Option<u32>>) -> Seq<
    int,
> {
    if walked_first {
        ahead_in(a, b)
    } else {
        newer_in(a, b) + only_in(a, b)
    }
}

proof fn lemma_take_filter(s: Seq<int>, j: int, p: spec_fn(int) -> bool)
    requires
        0 <= j < s.len(),
    ensures
        s.take(j + 1).filter(p) == if p(s[j]) {
            s.take(j).filter(p).push(s[j])
        } else {
            s.take(j).filter(p)
        },
{
    reveal(Seq::filter);
    assert(s.take(j + 1).drop_last() =~= s.take(j));
}

/// Walking the filled slots of `a` meets what a predicate on filled
/// slots selects.
proof fn lemma_filled_filter(
    a: Seq<Option<u32>>,
    filled: spec_fn(int) -> bool,
    p: spec_fn(int) -> bool,
)
    requires
        forall|i: int| 0 <= i < a.len() ==> #[trigger] filled(i) == (a[i] is Some),
        forall|i: int| 0 <= i < a.len() && #[trigger] p(i) ==> a[i] is Some,
    ensures
        bitset::select(a.len(), filled).filter(p) == bitset::select(a.len(), p),
{
    bitset::lemma_select_filter(a.len(), filled, p);
    bitset::lemma_select_ext(a.len(), |i: int| filled(i) && p(i), p);
}

/// The message at dense index `i` of a timestamped kind.
spec fn ts_gossip(kind: SketchKind, m: DenseTsMap, i: int) -> Gossip {
    synthesised(
        kind,
        m.registry().keys()[i],
        m.slots()[i]->0,
        keys::size_in(m.registry().versions(i), m.slots()[i]->0),
    )
}

spec fn ts_gossips(kind: SketchKind, m: DenseTsMap, at: Seq<int>) -> Seq<Gossip> {
    Seq::new(at.len(), |j: int| ts_gossip(kind, m, at[j]))
}

/// The difference of two containers of a timestamped kind, `la` walked
/// first.
fn diff_timestamped(la: &DenseTsMap, lb: &DenseTsMap, kind: SketchKind, which: WhichSide) -> (r:
    DiffResult)
    requires
        la.wf(),
        lb.wf(),
        la.registry() == lb.registry(),
        2 * la.registry().keys().len() <= usize::MAX,
    ensures
        r.a_only_count == only_in(la.slots(), lb.slots()).len(),
        r.b_only_count == only_in(lb.slots(), la.slots()).len(),
        r.intersection == same_in(la.slots(), lb.slots()).len(),
        r.difference == diff_size(la.slots(), lb.slots()),
        r.a_newer@ == (if which.wants_a() {
            ts_gossips(kind, *la, newer_order(true, la.slots(), lb.slots()))
        } else {
            Seq::empty()
        }),
        r.b_newer@ == (if which.wants_b() {
            ts_gossips(kind, *lb, newer_order(false, lb.slots(), la.slots()))
        } else {
            Seq::empty()
        }),
{
    let want_a = which.want_a();
    let want_b = which.want_b();
    let ghost sa = la.slots();
    let ghost sb = lb.slots();
    let ghost n = sa.len();
    let mut a_only_count: usize = 0;
    let mut b_only_count: usize = 0;
    let mut intersection: usize = 0;
    let mut difference: usize = 0;
    let mut a_newer: Vec<Gossip> = Vec::new();
    let mut b_newer: Vec<Gossip> = Vec::new();

    let filled: Vec<usize> = bitset::ones(&la.present);
    let ghost walk = bitset::positions(filled@);
    let ghost held = |i: int| bitset::bits(la.present)[i];
    proof {
        assert(sb.len() == n);
        bitset::lemma_select_members(n, held);
        assert(walk == bitset::select(n, held));
        lemma_filled_filter(sa, held, is_only(sa, sb));
        lemma_filled_filter(sa, held, is_same(sa, sb));
        lemma_filled_filter(sa, held, is_newer(sa, sb));
        lemma_filled_filter(sa, held, is_newer(sb, sa));
        lemma_filled_filter(sa, held, is_ahead(sa, sb));
        assert(walk.take(walk.len() as int) =~= walk);
        reveal(Seq::filter);
        assert(walk.take(0) =~= Seq::<int>::empty());
    }
    let n_filled: usize = filled.len();
    for j in 0..n_filled
        invariant
            la.wf(),
            lb.wf(),
            la.registry() == lb.registry(),
            2 * n <= usize::MAX,
            sa == la.slots(),
            sb == lb.slots(),
            n == sa.len(),
            n == sb.len(),
            walk == bitset::positions(filled@),
            walk.len() == n_filled,
            n_filled <= n,
            want_a == which.wants_a(),
            want_b == which.wants_b(),
            forall|k: int| 0 <= k < walk.len() ==> 0 <= #[trigger] walk[k] < n && sa[walk[k]] is Some,
            a_only_count == walk.take(j as int).filter(is_only(sa, sb)).len(),
            intersection == walk.take(j as int).filter(is_same(sa, sb)).len(),
            difference == walk.take(j as int).filter(is_only(sa, sb)).len() + 2 * (walk.take(
                j as int,
            ).filter(is_newer(sa, sb)).len() + walk.take(j as int).filter(is_newer(sb, sa)).len()),
            a_only_count + intersection <= j,
            difference <= 2 * j,
            a_newer@ == (if which.wants_a() {
                ts_gossips(kind, *la, walk.take(j as int).filter(is_ahead(sa, sb)))
            } else {
                Seq::empty()
            }),
            b_newer@ == (if which.wants_b() {
                ts_gossips(kind, *lb, walk.take(j as int).filter(is_newer(sb, sa)))
            } else {
                Seq::empty()
            }),
    {
        let i: usize = filled[j];
        proof {
            assert(walk[j as int] == i);
            lemma_take_filter(walk, j as int, is_only(sa, sb));
            lemma_take_filter(walk, j as int, is_same(sa, sb));
            lemma_take_filter(walk, j as int, is_newer(sa, sb));
            lemma_take_filter(walk, j as int, is_newer(sb, sa));
            lemma_take_filter(walk, j as int, is_ahead(sa, sb));
        }
        let ghost a_before = a_newer@;
        let ghost b_before = b_newer@;
        let ts_a: u32 = la.ts[i];
        assert(sa[i as int] == Some(ts_a));
        if lb.present.contains(i) {
            let ts_b: u32 = lb.ts[i];
            assert(sb[i as int] == Some(ts_b));
            if ts_a == ts_b {
                intersection = intersection + 1;
            } else {
                // Two elements to reconcile: the key at either timestamp.
                difference = difference + 2;
                if ts_a > ts_b {
                    if want_a {
                        a_newer.push(
                            synth(kind, la.keys.key_at(i), ts_a, la.keys.size_of(i, ts_a)),
                        );
                    }
                } else if want_b {
                    b_newer.push(synth(kind, la.keys.key_at(i), ts_b, la.keys.size_of(i, ts_b)));
                }
            }
        } else {
            assert(sb[i as int] is None);
            a_only_count = a_only_count + 1;
            difference = difference + 1;
            if want_a {
                a_newer.push(synth(kind, la.keys.key_at(i), ts_a, la.keys.size_of(i, ts_a)));
            }
        }
        proof {
            if which.wants_a() {
                assert(a_newer@ =~= ts_gossips(
                    kind,
                    *la,
                    walk.take(j + 1).filter(is_ahead(sa, sb)),
                ));
            }
            if which.wants_b() {
                assert(b_newer@ =~= ts_gossips(
                    kind,
                    *lb,
                    walk.take(j + 1).filter(is_newer(sb, sa)),
                ));
            }
        }
    }

    let lone: Vec<usize> = bitset::difference(&lb.present, &la.present);
    let ghost walk_b = bitset::positions(lone@);
    let ghost b_first = b_newer@;
    let ghost diff_first = difference as nat;
    proof {
        bitset::lemma_select_ext(
            n,
            |i: int|
                bitset::bits(lb.present)[i] && !(i < bitset::bits(la.present).len()
                    && bitset::bits(la.present)[i]),
            is_only(sb, sa),
        );
        assert(walk_b == only_in(sb, sa));
        bitset::lemma_select_members(n, is_only(sb, sa));
        lemma_only_disjoint(sa, sb);
        if which.wants_b() {
            assert(b_newer@ =~= b_first + ts_gossips(kind, *lb, walk_b.take(0)));
        } else {
            assert(b_newer@ =~= Seq::<Gossip>::empty());
        }
    }
    let n_lone: usize = lone.len();
    for j in 0..n_lone
        invariant
            lb.wf(),
            la.wf(),
            la.registry() == lb.registry(),
            2 * n <= usize::MAX,
            sb == lb.slots(),
            n == sb.len(),
            walk_b == bitset::positions(lone@),
            walk_b.len() == n_lone,
            diff_first + n_lone <= 2 * n,
            want_b == which.wants_b(),
            forall|k: int|
                0 <= k < walk_b.len() ==> 0 <= #[trigger] walk_b[k] < n && sb[walk_b[k]] is Some,
            b_only_count == j,
            difference == diff_first + j,
            b_newer@ == (if which.wants_b() {
                b_first + ts_gossips(kind, *lb, walk_b.take(j as int))
            } else {
                Seq::empty()
            }),
    {
        let i: usize = lone[j];
        assert(walk_b[j as int] == i);
        b_only_count = b_only_count + 1;
        difference = difference + 1;
        if want_b {
            let ts_b: u32 = lb.ts[i];
            assert(sb[i as int] == Some(ts_b));
            b_newer.push(synth(kind, la.keys.key_at(i), ts_b, la.keys.size_of(i, ts_b)));
            assert(b_newer@ =~= b_first + ts_gossips(kind, *lb, walk_b.take(j + 1)));
        }
    }
    proof {
        assert(walk_b.take(n_lone as int) =~= walk_b);
        if which.wants_b() {
            assert(b_newer@ =~= ts_gossips(kind, *lb, newer_in(sb, sa) + only_in(sb, sa)));
        }
    }
    DiffResult { a_only_count, b_only_count, intersection, difference, a_newer, b_newer }
}

/// The slots fall into those only `a` fills, those only `b` fills, and
/// those that both fill, equal or not: twice their number bounds the
/// difference.
proof fn lemma_only_disjoint(a: Seq<Option<u32>>, b: Seq<Option<u32>>)
    requires
        a.len() == b.len(),
    ensures
        diff_size(a, b) <= 2 * a.len(),
        only_in(a, b).len() + only_in(b, a).len() + newer_in(a, b).len() + newer_in(b, a).len()
            + same_in(a, b).len() <= a.len(),
    decreases a.len(),
{
    lemma_slots_bound(a, b, a.len());
}

proof fn lemma_slots_bound(a: Seq<Option<u32>>, b: Seq<Option<u32>>, n: nat)
    requires
        a.len() == b.len(),
        n <= a.len(),
    ensures
        bitset::select(n, is_only(a, b)).len() + bitset::select(n, is_only(b, a)).len()
            + bitset::select(n, is_newer(a, b)).len() + bitset::select(n, is_newer(b, a)).len()
            + bitset::select(n, is_same(a, b)).len() <= n,
    decreases n,
{
    if n > 0 {
        lemma_slots_bound(a, b, (n - 1) as nat);
    }
}

/// The difference of two containers of channel announcements, `la`
/// walked first.
fn diff_chan_anns(la: &DenseChanAnns, lb: &DenseChanAnns, which: WhichSide) -> (r: DiffResult)
    requires
        la.wf(),
        lb.wf(),
        la.registry() == lb.registry(),
        2 * la.registry().keys().len() <= usize::MAX,
    ensures
        r.a_only_count == only_in(la.slots(), lb.slots()).len(),
        r.b_only_count == only_in(lb.slots(), la.slots()).len(),
        r.intersection == same_in(la.slots(), lb.slots()).len(),
        r.difference == diff_size(la.slots(), lb.slots()),
        r.a_newer@ == (if which.wants_a() {
            ca_gossips(*la, newer_order(true, la.slots(), lb.slots()))
        } else {
            Seq::empty()
        }),
        r.b_newer@ == (if which.wants_b() {
            ca_gossips(*lb, newer_order(false, lb.slots(), la.slots()))
        } else {
            Seq::empty()
        }),
{
    let want_a = which.want_a();
    let want_b = which.want_b();
    let ghost sa = la.slots();
    let ghost sb = lb.slots();
    let ghost n = sa.len();
    let mut a_only_count: usize = 0;
    let mut b_only_count: usize = 0;
    let mut intersection: usize = 0;
    let mut difference: usize = 0;
    let mut a_newer: Vec<Gossip> = Vec::new();
    let mut b_newer: Vec<Gossip> = Vec::new();

    let filled: Vec<usize> = bitset::ones(&la.present);
    let ghost walk = bitset::positions(filled@);
    let ghost held = |i: int| bitset::bits(la.present)[i];
    proof {
        assert(sb.len() == n);
        bitset::lemma_select_members(n, held);
        assert(walk == bitset::select(n, held));
        lemma_filled_filter(sa, held, is_only(sa, sb));
        lemma_filled_filter(sa, held, is_same(sa, sb));
        bitset::lemma_select_ext(n, is_ahead(sa, sb), is_only(sa, sb));
        lemma_none_newer(sa, sb, n);
        lemma_none_newer(sb, sa, n);
        assert(walk.take(walk.len() as int) =~= walk);
        reveal(Seq::filter);
        assert(walk.take(0) =~= Seq::<int>::empty());
    }
    let n_filled: usize = filled.len();
    for j in 0..n_filled
        invariant
            la.wf(),
            lb.wf(),
            la.registry() == lb.registry(),
            2 * n <= usize::MAX,
            sa == la.slots(),
            sb == lb.slots(),
            n == sa.len(),
            n == sb.len(),
            walk == bitset::positions(filled@),
            walk.len() == n_filled,
            n_filled <= n,
            want_a == which.wants_a(),
            forall|k: int| 0 <= k < walk.len() ==> 0 <= #[trigger] walk[k] < n && sa[walk[k]] is Some,
            a_only_count == walk.take(j as int).filter(is_only(sa, sb)).len(),
            intersection == walk.take(j as int).filter(is_same(sa, sb)).len(),
            difference == a_only_count,
            a_only_count + intersection <= j,
            a_newer@ == (if which.wants_a() {
                ca_gossips(*la, walk.take(j as int).filter(is_only(sa, sb)))
            } else {
                Seq::empty()
            }),
    {
        let i: usize = filled[j];
        proof {
            assert(walk[j as int] == i);
            lemma_take_filter(walk, j as int, is_only(sa, sb));
            lemma_take_filter(walk, j as int, is_same(sa, sb));
        }
        if lb.present.contains(i) {
            assert(sb[i as int] is Some);
            intersection = intersection + 1;
        } else {
            assert(sb[i as int] is None);
            a_only_count = a_only_count + 1;
            difference = difference + 1;
            if want_a {
                a_newer.push(synth_chan_ann(la.keys.key_at(i), la.keys.size_at(i)));
            }
        }
        proof {
            if which.wants_a() {
                assert(a_newer@ =~= ca_gossips(*la, walk.take(j + 1).filter(is_only(sa, sb))));
            }
        }
    }

    let lone: Vec<usize> = bitset::difference(&lb.present, &la.present);
    let ghost walk_b = bitset::positions(lone@);
    proof {
        bitset::lemma_select_ext(
            n,
            |i: int|
                bitset::bits(lb.present)[i] && !(i < bitset::bits(la.present).len()
                    && bitset::bits(la.present)[i]),
            is_only(sb, sa),
        );
        assert(walk_b == only_in(sb, sa));
        bitset::lemma_select_members(n, is_only(sb, sa));
        lemma_only_disjoint(sa, sb);
        assert(b_newer@ =~= ca_gossips(*lb, walk_b.take(0)));
    }
    let n_lone: usize = lone.len();
    let ghost diff_first = difference as nat;
    for j in 0..n_lone
        invariant
            lb.wf(),
            la.wf(),
            la.registry() == lb.registry(),
            2 * n <= usize::MAX,
            sb == lb.slots(),
            n == sb.len(),
            walk_b == bitset::positions(lone@),
            walk_b.len() == n_lone,
            diff_first + n_lone <= 2 * n,
            want_b == which.wants_b(),
            forall|k: int|
                0 <= k < walk_b.len() ==> 0 <= #[trigger] walk_b[k] < n && sb[walk_b[k]] is Some,
            b_only_count == j,
            difference == diff_first + j,
            b_newer@ == (if which.wants_b() {
                ca_gossips(*lb, walk_b.take(j as int))
            } else {
                Seq::empty()
            }),
    {
        let i: usize = lone[j];
        assert(walk_b[j as int] == i);
        b_only_count = b_only_count + 1;
        difference = difference + 1;
        if want_b {
            b_newer.push(synth_chan_ann(la.keys.key_at(i), la.keys.size_at(i)));
            assert(b_newer@ =~= ca_gossips(*lb, walk_b.take(j + 1)));
        }
    }
    proof {
        assert(walk_b.take(n_lone as int) =~= walk_b);
        assert(newer_in(sb, sa) + only_in(sb, sa) =~= only_in(sb, sa));
    }
    DiffResult { a_only_count, b_only_count, intersection, difference, a_newer, b_newer }
}

spec fn ca_gossips(m: DenseChanAnns, at: Seq<int>) -> Seq<Gossip> {
    Seq::new(
        at.len(),
        |j: int| chan_ann_of(m.registry().keys()[at[j]], m.registry().size(at[j])),
    )
}

/// Where every filled slot holds the same timestamp, none is newer.
proof fn lemma_none_newer(a: Seq<Option<u32>>, b: Seq<Option<u32>>, n: nat)
    requires
        a.len() == b.len(),
        n <= a.len(),
        forall|i: int| 0 <= i < a.len() && (#[trigger] a[i]) is Some ==> a[i]->0 == 0,
        forall|i: int| 0 <= i < b.len() && (#[trigger] b[i]) is Some ==> b[i]->0 == 0,
    ensures
        bitset::select(n, is_newer(a, b)).len() == 0,
    decreases n,
{
    if n > 0 {
        lemma_none_newer(a, b, (n - 1) as nat);
        assert(a[n - 1] is Some ==> a[n - 1]->0 == 0);
        assert(b[n - 1] is Some ==> b[n - 1]->0 == 0);
    }
}

/// No count of a difference exceeds twice the number of slots.
pub proof fn lemma_slot_counts(a: Seq<Option<u32>>, b: Seq<Option<u32>>)
    requires
        a.len() == b.len(),
    ensures
        diff_size(a, b) <= 2 * a.len(),
        only_in(a, b).len() <= a.len(),
        only_in(b, a).len() <= a.len(),
        same_in(a, b).len() <= a.len(),
{
    lemma_only_disjoint(a, b);
}

/// At most one message per slot is handed back.
pub proof fn lemma_newer_order_len(a: Seq<Option<u32>>, b: Seq<Option<u32>>, walked_first: bool)
    requires
        a.len() == b.len(),
    ensures
        newer_order(walked_first, a, b).len() <= a.len(),
{
    lemma_only_disjoint(a, b);
    bitset::lemma_select_members(a.len(), is_ahead(a, b));
}

/// The slots whose messages are handed back are filled.
pub proof fn lemma_newer_order_filled(
    a: Seq<Option<u32>>,
    b: Seq<Option<u32>>,
    walked_first: bool,
    j: int,
)
    requires
        a.len() == b.len(),
        0 <= j < newer_order(walked_first, a, b).len(),
    ensures
        0 <= newer_order(walked_first, a, b)[j] < a.len(),
        a[newer_order(walked_first, a, b)[j]] is Some,
{
    bitset::lemma_select_members(a.len(), is_ahead(a, b));
    bitset::lemma_select_members(a.len(), is_newer(a, b));
    bitset::lemma_select_members(a.len(), is_only(a, b));
    if walked_first {
        assert(is_ahead(a, b)(ahead_in(a, b)[j]));
    } else if j < newer_in(a, b).len() {
        assert(is_newer(a, b)(newer_in(a, b)[j]));
    } else {
        assert(is_only(a, b)(only_in(a, b)[j - newer_in(a, b).len()]));
    }
}

/// Compute the symmetric difference of `a` and `b` over `kind`. The side
/// with the smaller node index is walked first.
pub fn compute_diff(a: &NodeState, b: &NodeState, kind: SketchKind, which: WhichSide) -> (r:
    DiffResult)
    requires
        a.wf(),
        b.wf(),
        a.shares_keys(b),
        2 * a.keys(kind).len() <= usize::MAX,
    ensures
        r.a_only_count == only_in(a.slots(kind), b.slots(kind)).len(),
        r.b_only_count == only_in(b.slots(kind), a.slots(kind)).len(),
        r.intersection == same_in(a.slots(kind), b.slots(kind)).len(),
        r.difference == diff_size(a.slots(kind), b.slots(kind)),
        r.a_newer@ == (if which.wants_a() {
            a.gossips_at(kind, newer_order(a.idx <= b.idx, a.slots(kind), b.slots(kind)))
        } else {
            Seq::empty()
        }),
        r.b_newer@ == (if which.wants_b() {
            b.gossips_at(kind, newer_order(b.idx < a.idx, b.slots(kind), a.slots(kind)))
        } else {
            Seq::empty()
        }),
{
    let swapped: bool = a.idx > b.idx;
    let (first, second) = if swapped {
        (b, a)
    } else {
        (a, b)
    };
    let inner_which: WhichSide = if swapped {
        match which {
            WhichSide::A => WhichSide::B,
            WhichSide::B => WhichSide::A,
            WhichSide::Both => WhichSide::Both,
        }
    } else {
        which
    };
    let res = match kind {
        SketchKind::ChanUpdates => diff_timestamped(
            &first.chan_updates,
            &second.chan_updates,
            kind,
            inner_which,
        ),
        SketchKind::NodeAnns => diff_timestamped(
            &first.node_anns,
            &second.node_anns,
            kind,
            inner_which,
        ),
        SketchKind::ChanAnns => diff_chan_anns(&first.chan_anns, &second.chan_anns, inner_which),
    };
    proof {
        let sf = first.slots(kind);
        let ss = second.slots(kind);
        first.lemma_held(kind);
        second.lemma_held(kind);
        lemma_same_symmetric(sf, ss);
        assert(inner_which.wants_a() ==> res.a_newer@ =~= first.gossips_at(
            kind,
            newer_order(true, sf, ss),
        ));
        assert(inner_which.wants_b() ==> res.b_newer@ =~= second.gossips_at(
            kind,
            newer_order(false, ss, sf),
        ));
    }
    // Back to the caller's view of the sides.
    if swapped {
        DiffResult {
            a_only_count: res.b_only_count,
            b_only_count: res.a_only_count,
            intersection: res.intersection,
            difference: res.difference,
            a_newer: res.b_newer,
            b_newer: res.a_newer,
        }
    } else {
        res
    }
}

/// What two states hold in common does not depend on who asks.
proof fn lemma_same_symmetric(a: Seq<Option<u32>>, b: Seq<Option<u32>>)
    requires
        a.len() == b.len(),
    ensures
        same_in(a, b) == same_in(b, a),
{
    bitset::lemma_select_ext(a.len(), is_same(a, b), is_same(b, a));
}

// ---------------------------------------------------------------------
// Origination
// ---------------------------------------------------------------------

/// The second of `now` in the 32 bits of a gossip timestamp.
pub open spec fn stamp_of(now: SimDuration) -> u32 {
    (now.secs % 0x1_0000_0000) as u32
}

/// The message that a node sends out when it originates `msg`.
pub open spec fn stamped(msg: Gossip, self_id: NodeId, now: SimDuration) -> Gossip {
    let origin = match msg.kind {
        GossipKind::NodeAnnouncement => Some(self_id),
        _ => None,
    };
    let timestamp = match msg.kind {
        GossipKind::ChannelAnnouncement => msg.timestamp,
        _ => stamp_of(now),
    };
    Gossip {
        id: message::derived_id(origin, msg.kind, msg.scid, msg.direction, timestamp),
        origin,
        timestamp,
        ..msg
    }
}

/// The key that a node stores when it originates `msg`.
pub open spec fn origin_key(msg: Gossip, self_id: NodeId) -> u64 {
    match msg.kind {
        GossipKind::NodeAnnouncement => self_id,
        _ => msg.key(),
    }
}

/// `new` is `old` with `key` of one kind held at `ts` and nothing else
/// changed.
pub open spec fn state_with(
    old_state: NodeState,
    new_state: NodeState,
    kind: SketchKind,
    key: u64,
    ts: u32,
) -> bool {
    &&& new_state.wf()
    &&& new_state.idx == old_state.idx
    &&& new_state.shares_keys(&old_state)
    &&& new_state.held(kind) == old_state.held(kind).insert(key, ts)
    &&& forall|k: SketchKind|
        k != kind ==> #[trigger] new_state.held(k) == old_state.held(k)
}

/// Store what `msg` originates and make its timestamp, origin and id
/// final. Returns whether the message should go out: a channel that was
/// announced before is not announced again.
pub fn originate_stamp(
    state: &mut NodeState,
    self_id: NodeId,
    msg: &mut Gossip,
    now: SimDuration,
) -> (r: bool)
    requires
        old(state).wf(),
        old(msg).kind == GossipKind::NodeAnnouncement || old(msg).is_keyed(),
        old(state).universe(SketchKind::of_gossip(old(msg).kind)).contains(
            origin_key(*old(msg), self_id),
        ),
    ensures
        r == !(old(msg).kind == GossipKind::ChannelAnnouncement && old(state).held(
            SketchKind::ChanAnns,
        ).contains_key(old(msg).scid->0)),
        r ==> *final(msg) == stamped(*old(msg), self_id, now),
        !r ==> *final(msg) == (Gossip { origin: None, ..*old(msg) }),
        r ==> state_with(
            *old(state),
            *final(state),
            SketchKind::of_gossip(old(msg).kind),
            origin_key(*old(msg), self_id),
            if old(msg).kind == GossipKind::ChannelAnnouncement {
                0
            } else {
                stamp_of(now)
            },
        ),
        final(state).wf(),
        final(state).idx == old(state).idx,
        final(state).shares_keys(old(state)),
        !r ==> forall|k: SketchKind| #[trigger] final(state).held(k) == old(state).held(k),
{
    let secs: u64 = now.as_secs();
    assert(secs as u32 == secs % 0x1_0000_0000) by (bit_vector);
    let now_secs: u32 = #[verifier::truncate]
    (secs as u32);
    match msg.kind {
        GossipKind::ChannelUpdate => {
            let scid: u64 = msg.scid.unwrap();
            msg.origin = None;
            msg.timestamp = now_secs;
            state.chan_updates.insert(keys::pack_cu_key(scid, msg.direction), now_secs);
        },
        GossipKind::NodeAnnouncement => {
            msg.origin = Some(self_id);
            msg.timestamp = now_secs;
            state.node_anns.insert(self_id, now_secs);
        },
        GossipKind::ChannelAnnouncement => {
            let scid: u64 = msg.scid.unwrap();
            msg.origin = None;
            let fresh = state.chan_anns.insert_present(scid);
            if !fresh {
                // Already announced: drop.
                assert(state.chan_anns@ =~= old(state).chan_anns@);
                assert forall|k: SketchKind| #[trigger] state.held(k) == old(state).held(k) by {
                    assert(state.held(k) =~= old(state).held(k));
                }
                return false;
            }
            assert(state.held(SketchKind::ChanAnns) =~= old(state).held(
                SketchKind::ChanAnns,
            ).insert(scid, 0));
        },
    }
    proof {
        assert forall|k: SketchKind|
            k != SketchKind::of_gossip(old(msg).kind) implies #[trigger] state.held(k) == old(
            state,
        ).held(k) by {
            assert(state.held(k) =~= old(state).held(k));
        }
    }
    msg.id = Gossip::derive_id(msg.origin, msg.kind, msg.scid, msg.direction, msg.timestamp);
    true
}

// ---------------------------------------------------------------------
// Laws
// ---------------------------------------------------------------------

/// The keys held by `a` whose slot satisfies `p` are as many as the
/// slots that `p` selects.
proof fn lemma_selected_keys(a: &NodeState, kind: SketchKind, p: spec_fn(int) -> bool)
    requires
        a.wf(),
        forall|i: int| 0 <= i < a.slots(kind).len() && #[trigger] p(i) ==> a.slots(kind)[i] is Some,
    ensures
        ({
            let s = Set::new(
                |k: u64| a.held(kind).contains_key(k) && p(a.position(kind, k)),
            );
            s.finite() && s.len() == bitset::select(a.slots(kind).len(), p).len()
        }),
{
    a.lemma_held(kind);
    let n = a.slots(kind).len();
    let at = bitset::select(n, p);
    bitset::lemma_select_members(n, p);
    let ks = at.map_values(|i: int| a.keys(kind)[i]);
    let s = Set::new(|k: u64| a.held(kind).contains_key(k) && p(a.position(kind, k)));
    assert forall|j: int, k: int| 0 <= j < k < ks.len() implies ks[j] != ks[k] by {
        assert(p(at[j]) && p(at[k]));
        assert(at[j] < at[k]);
        assert(a.slots(kind)[at[j]] is Some);
        assert(a.slots(kind)[at[k]] is Some);
        assert(a.position(kind, a.keys(kind)[at[j]]) == at[j]);
        assert(a.position(kind, a.keys(kind)[at[k]]) == at[k]);
    }
    assert(ks.no_duplicates());
    ks.unique_seq_to_set();
    assert forall|k: u64| s.contains(k) implies ks.to_set().contains(k) by {
        let i = a.position(kind, k);
        assert(a.universe(kind).contains(k));
        assert(p(i));
        assert(at.contains(i));
        let j = at.index_of(i);
        assert(ks[j] == k);
    }
    assert forall|k: u64| ks.to_set().contains(k) implies s.contains(k) by {
        let j = ks.index_of(k);
        assert(p(at[j]));
        assert(a.slots(kind)[at[j]] is Some);
    }
    assert(s =~= ks.to_set());
}

/// The counts of a difference are counts of keys: those held by one side
/// only, those held by both at one timestamp; and the difference adds
/// two for each key that the sides hold at different timestamps.
pub proof fn diff_counts_keys(a: &NodeState, b: &NodeState, kind: SketchKind)
    requires
        a.wf(),
        b.wf(),
        a.shares_keys(b),
    ensures
        ({
            let ha = a.held(kind);
            let hb = b.held(kind);
            let a_only = Set::new(|k: u64| ha.contains_key(k) && !hb.contains_key(k));
            let b_only = Set::new(|k: u64| hb.contains_key(k) && !ha.contains_key(k));
            let same = Set::new(
                |k: u64| ha.contains_key(k) && hb.contains_key(k) && ha[k] == hb[k],
            );
            let apart = Set::new(
                |k: u64| ha.contains_key(k) && hb.contains_key(k) && ha[k] != hb[k],
            );
            &&& a_only.finite() && only_in(a.slots(kind), b.slots(kind)).len() == a_only.len()
            &&& b_only.finite() && only_in(b.slots(kind), a.slots(kind)).len() == b_only.len()
            &&& same.finite() && same_in(a.slots(kind), b.slots(kind)).len() == same.len()
            &&& apart.finite() && diff_size(a.slots(kind), b.slots(kind)) == a_only.len()
                + b_only.len() + 2 * apart.len()
        }),
{
    let sa = a.slots(kind);
    let sb = b.slots(kind);
    let ha = a.held(kind);
    let hb = b.held(kind);
    a.lemma_held(kind);
    b.lemma_held(kind);
    lemma_selected_keys(a, kind, is_only(sa, sb));
    lemma_selected_keys(b, kind, is_only(sb, sa));
    lemma_selected_keys(a, kind, is_same(sa, sb));
    let differs = |i: int| sa[i] is Some && sb[i] is Some && sa[i]->0 != sb[i]->0;
    lemma_selected_keys(a, kind, differs);
    bitset::lemma_select_split(sa.len(), differs, is_newer(sa, sb), is_newer(sb, sa));
    assert(Set::new(|k: u64| ha.contains_key(k) && !hb.contains_key(k)) =~= Set::new(
        |k: u64| a.held(kind).contains_key(k) && is_only(sa, sb)(a.position(kind, k)),
    ));
    assert(Set::new(|k: u64| hb.contains_key(k) && !ha.contains_key(k)) =~= Set::new(
        |k: u64| b.held(kind).contains_key(k) && is_only(sb, sa)(b.position(kind, k)),
    ));
    assert(Set::new(|k: u64| ha.contains_key(k) && hb.contains_key(k) && ha[k] == hb[k])
        =~= Set::new(
        |k: u64| a.held(kind).contains_key(k) && is_same(sa, sb)(a.position(kind, k)),
    ));
    assert(Set::new(|k: u64| ha.contains_key(k) && hb.contains_key(k) && ha[k] != hb[k])
        =~= Set::new(|k: u64| a.held(kind).contains_key(k) && differs(a.position(kind, k))));
}

/// Exchanging the sides of a difference exchanges its result: the sizes
/// agree, and between two different nodes each side hands back the same
/// messages in the same order.
pub proof fn diff_sides_exchange(a: &NodeState, b: &NodeState, kind: SketchKind, which: WhichSide)
    requires
        a.wf(),
        b.wf(),
        a.shares_keys(b),
    ensures
        diff_size(a.slots(kind), b.slots(kind)) == diff_size(b.slots(kind), a.slots(kind)),
        same_in(a.slots(kind), b.slots(kind)) == same_in(b.slots(kind), a.slots(kind)),
        which.wants_a() == which.mirrored().wants_b(),
        which.wants_b() == which.mirrored().wants_a(),
        a.idx != b.idx ==> newer_order(a.idx <= b.idx, a.slots(kind), b.slots(kind))
            == newer_order(a.idx < b.idx, a.slots(kind), b.slots(kind)),
{
    a.lemma_held(kind);
    b.lemma_held(kind);
    lemma_same_symmetric(a.slots(kind), b.slots(kind));
}

/// Which node is walked first changes the order of the messages handed
/// back, never which they are.
pub proof fn diff_ignores_node_order(a: &NodeState, b: &NodeState, kind: SketchKind)
    requires
        a.wf(),
        b.wf(),
        a.shares_keys(b),
    ensures
        a.gossips_at(kind, newer_order(true, a.slots(kind), b.slots(kind))).to_multiset()
            == a.gossips_at(kind, newer_order(false, a.slots(kind), b.slots(kind))).to_multiset(),
{
    a.lemma_held(kind);
    b.lemma_held(kind);
    lemma_orders_agree(a, kind, a.slots(kind), b.slots(kind), a.slots(kind).len());
}

proof fn lemma_gossips_push(a: &NodeState, kind: SketchKind, at: Seq<int>, i: int)
    ensures
        a.gossips_at(kind, at.push(i)).to_multiset() == a.gossips_at(kind, at).to_multiset().insert(
            a.gossip_at(kind, i),
        ),
{
    assert(a.gossips_at(kind, at.push(i)) =~= a.gossips_at(kind, at).push(a.gossip_at(kind, i)));
    a.gossips_at(kind, at).to_multiset_ensures();
}

proof fn lemma_gossips_concat(a: &NodeState, kind: SketchKind, x: Seq<int>, y: Seq<int>)
    ensures
        a.gossips_at(kind, x + y).to_multiset() == a.gossips_at(kind, x).to_multiset().add(
            a.gossips_at(kind, y).to_multiset(),
        ),
{
    assert(a.gossips_at(kind, x + y) =~= a.gossips_at(kind, x) + a.gossips_at(kind, y));
    vstd::seq_lib::lemma_multiset_commutative(a.gossips_at(kind, x), a.gossips_at(kind, y));
}

proof fn lemma_orders_agree(
    a: &NodeState,
    kind: SketchKind,
    sa: Seq<Option<u32>>,
    sb: Seq<Option<u32>>,
    n: nat,
)
    requires
        sa.len() == sb.len(),
        n <= sa.len(),
    ensures
        a.gossips_at(kind, bitset::select(n, is_ahead(sa, sb))).to_multiset() == a.gossips_at(
            kind,
            bitset::select(n, is_newer(sa, sb)) + bitset::select(n, is_only(sa, sb)),
        ).to_multiset(),
    decreases n,
{
    let ahead = bitset::select(n, is_ahead(sa, sb));
    let newer = bitset::select(n, is_newer(sa, sb));
    let only = bitset::select(n, is_only(sa, sb));
    lemma_gossips_concat(a, kind, newer, only);
    if n == 0 {
        assert(newer + only =~= ahead);
    } else {
        let m = (n - 1) as nat;
        lemma_orders_agree(a, kind, sa, sb, m);
        let newer0 = bitset::select(m, is_newer(sa, sb));
        let only0 = bitset::select(m, is_only(sa, sb));
        let ahead0 = bitset::select(m, is_ahead(sa, sb));
        lemma_gossips_concat(a, kind, newer0, only0);
        lemma_gossips_push(a, kind, newer0, n - 1);
        lemma_gossips_push(a, kind, only0, n - 1);
        lemma_gossips_push(a, kind, ahead0, n - 1);
        assert(a.gossips_at(kind, ahead).to_multiset() =~= a.gossips_at(
            kind,
            newer + only,
        ).to_multiset());
    }
}

/// A side hands back one message for each key where it is ahead, made
/// from what it stores, and none for any other key: superseded versions
/// are never sent.
pub proof fn newer_messages_are_exact(
    a: &NodeState,
    b: &NodeState,
    kind: SketchKind,
    walked_first: bool,
)
    requires
        a.wf(),
        b.wf(),
        a.shares_keys(b),
    ensures
        ({
            let ha = a.held(kind);
            let hb = b.held(kind);
            let at = newer_order(walked_first, a.slots(kind), b.slots(kind));
            let ahead = |k: u64| ha.contains_key(k) && (!hb.contains_key(k) || ha[k] > hb[k]);
            &&& forall|j: int|
                0 <= j < at.len() ==> {
                    &&& ahead(a.keys(kind)[#[trigger] at[j]])
                    &&& a.gossips_at(kind, at)[j] == synthesised(
                        kind,
                        a.keys(kind)[at[j]],
                        ha[a.keys(kind)[at[j]]],
                        a.size(kind, at[j], ha[a.keys(kind)[at[j]]]),
                    )
                }
            &&& forall|k: u64| #[trigger] ahead(k) ==> at.contains(a.position(kind, k))
            &&& at.no_duplicates()
        }),
{
    let sa = a.slots(kind);
    let sb = b.slots(kind);
    let ha = a.held(kind);
    let hb = b.held(kind);
    a.lemma_held(kind);
    b.lemma_held(kind);
    bitset::lemma_select_members(sa.len(), is_ahead(sa, sb));
    bitset::lemma_select_members(sa.len(), is_newer(sa, sb));
    bitset::lemma_select_members(sa.len(), is_only(sa, sb));
    let at = newer_order(walked_first, sa, sb);
    let newer = newer_in(sa, sb);
    let only = only_in(sa, sb);
    let ahead = |k: u64| ha.contains_key(k) && (!hb.contains_key(k) || ha[k] > hb[k]);
    assert forall|j: int| 0 <= j < at.len() implies ahead(a.keys(kind)[#[trigger] at[j]]) by {
        assert(is_ahead(sa, sb)(at[j])) by {
            if !walked_first {
                if j < newer.len() {
                    assert(at[j] == newer[j]);
                } else {
                    assert(at[j] == only[j - newer.len()]);
                }
            }
        }
        assert(0 <= at[j] < sa.len());
        assert(sa[at[j]] is Some);
    }
    assert forall|k: u64| #[trigger] ahead(k) implies at.contains(a.position(kind, k)) by {
        let i = a.position(kind, k);
        assert(a.universe(kind).contains(k));
        assert(is_ahead(sa, sb)(i));
        if !walked_first {
            if is_newer(sa, sb)(i) {
                let j = newer.index_of(i);
                assert(at[j] == i);
            } else {
                assert(is_only(sa, sb)(i));
                let j = only.index_of(i);
                assert(at[newer.len() + j] == i);
            }
        }
    }
    assert(at.no_duplicates()) by {
        if !walked_first {
            assert forall|i: int, j: int| 0 <= i < j < at.len() implies at[i] != at[j] by {
                if i < newer.len() && j >= newer.len() {
                    assert(is_newer(sa, sb)(newer[i]));
                    assert(is_only(sa, sb)(only[j - newer.len()]));
                }
            }
        }
    }
}

/// The id of a message made from a stored entry is the one its content
/// derives, and its key is the stored key, so that every node names the
/// same message the same way.
pub proof fn synthesised_matches_entry(kind: SketchKind, key: u64, ts: u32, size: u16)
    ensures
        synthesised(kind, key, ts, size).has_derived_id(),
        synthesised(kind, key, ts, size).kind == kind.gossip_kind(),
        synthesised(kind, key, ts, size).is_keyed(),
        synthesised(kind, key, ts, size).key() == key,
        synthesised(kind, key, ts, size).size_bytes == size,
        kind != SketchKind::ChanAnns ==> synthesised(kind, key, ts, size).timestamp == ts,
{
    keys::unpack_pack(key);
}

/// A node that originates a message and a node that makes it again from
/// its stored entry name it alike.
pub proof fn originated_matches_synthesised(
    msg: Gossip,
    self_id: NodeId,
    now: SimDuration,
    size: u16,
)
    requires
        msg.kind == GossipKind::NodeAnnouncement || msg.is_keyed(),
        msg.kind == GossipKind::ChannelUpdate ==> msg.direction <= 1 && msg.scid->0
            < 0x8000_0000_0000_0000,
        msg.kind == GossipKind::NodeAnnouncement ==> msg.scid is None && msg.direction == 0,
        msg.kind == GossipKind::ChannelAnnouncement ==> msg.direction == 0 && msg.timestamp == 0,
    ensures
        stamped(msg, self_id, now).id == synthesised(
            SketchKind::of_gossip(msg.kind),
            origin_key(msg, self_id),
            stamp_of(now),
            size,
        ).id,
{
    if msg.kind == GossipKind::ChannelUpdate {
        keys::pack_unpack(msg.scid->0, msg.direction);
    }
}

/// A message leaves its origin as it was scheduled: kind, channel, side
/// and size stay. A node announcement carries its sender, the others
/// none; updates and node announcements carry the second in which they
/// are sent, a channel announcement the version it came with. The id is
/// the one derived from all this.
pub proof fn stamping_keeps_the_message(msg: Gossip, self_id: NodeId, now: SimDuration)
    ensures
        ({
            let out = stamped(msg, self_id, now);
            &&& out.kind == msg.kind
            &&& out.scid == msg.scid
            &&& out.direction == msg.direction
            &&& out.size_bytes == msg.size_bytes
            &&& msg.kind == GossipKind::NodeAnnouncement ==> out.origin == Some(self_id)
            &&& msg.kind != GossipKind::NodeAnnouncement ==> out.origin is None
            &&& msg.kind == GossipKind::ChannelAnnouncement ==> out.timestamp == msg.timestamp
            &&& msg.kind != GossipKind::ChannelAnnouncement && now.secs <= u32::MAX
                ==> out.timestamp == now.secs
            &&& out.has_derived_id()
        }),
        ({
            let key = origin_key(msg, self_id);
            &&& msg.kind == GossipKind::NodeAnnouncement ==> key == self_id
            &&& msg.kind == GossipKind::ChannelAnnouncement && msg.scid is Some ==> key
                == msg.scid->0
            &&& msg.kind == GossipKind::ChannelUpdate && msg.scid is Some && msg.scid->0
                < 0x8000_0000_0000_0000 && msg.direction <= 1 ==> key == 2 * msg.scid->0
                + msg.direction
        }),
        (now.secs - stamp_of(now)) % 0x1_0000_0000 == 0,
{
}

/// The message that an entry stands for names the entry's subject: the
/// channel and the side of an update, the node of a node announcement,
/// the channel of a channel announcement, and nothing besides.
pub proof fn entry_names_its_subject(scid: Scid, direction: Direction, v: NodeId, ts: u32, size: u16)
    requires
        scid < 0x8000_0000_0000_0000,
        direction <= 1,
    ensures
        ({
            let cu = synthesised(
                SketchKind::ChanUpdates,
                (2 * scid + direction) as u64,
                ts,
                size,
            );
            let na = synthesised(SketchKind::NodeAnns, v, ts, size);
            let ca = synthesised(SketchKind::ChanAnns, scid, ts, size);
            &&& cu.kind == GossipKind::ChannelUpdate && cu.scid == Some(scid) && cu.direction
                == direction && cu.origin is None && cu.timestamp == ts && cu.size_bytes == size
            &&& na.kind == GossipKind::NodeAnnouncement && na.origin == Some(v) && na.scid is None
                && na.direction == 0 && na.timestamp == ts && na.size_bytes == size
            &&& ca.kind == GossipKind::ChannelAnnouncement && ca.scid == Some(scid) && ca.direction
                == 0 && ca.origin is None && ca.timestamp == 0 && ca.size_bytes == size
            &&& cu.has_derived_id() && na.has_derived_id() && ca.has_derived_id()
        }),
{
}

/// An originated message is entered under its own key, at its own
/// version, and nothing else of the state changes.
pub proof fn origination_enters_one_key(
    old_state: NodeState,
    new_state: NodeState,
    kind: SketchKind,
    key: u64,
    ts: u32,
    other: SketchKind,
    k: u64,
)
    requires
        state_with(old_state, new_state, kind, key, ts),
    ensures
        new_state.held(kind).contains_key(key) && new_state.held(kind)[key] == ts,
        other != kind || k != key ==> (new_state.held(other).contains_key(k) <==> old_state.held(
            other,
        ).contains_key(k)) && new_state.held(other)[k] == old_state.held(other)[k],
        new_state.wf(),
        new_state.idx == old_state.idx,
        new_state.shares_keys(&old_state),
{
}

/// A message held has the size that the registry gives to its version: an
/// update or a node announcement that of its second, a channel
/// announcement that of its channel.
pub proof fn held_messages_have_their_registered_size(s: &NodeState, i: int, ts: u32, j: int)
    ensures
        ({
            let versions = s.chan_updates.registry().versions(i);
            keys::ascending(versions) && 0 <= j < versions.len() && versions[j].0 == ts ==> s.size(
                SketchKind::ChanUpdates,
                i,
                ts,
            ) == versions[j].1
        }),
        ({
            let versions = s.node_anns.registry().versions(i);
            keys::ascending(versions) && 0 <= j < versions.len() && versions[j].0 == ts ==> s.size(
                SketchKind::NodeAnns,
                i,
                ts,
            ) == versions[j].1
        }),
        s.size(SketchKind::ChanAnns, i, ts) == s.chan_anns.registry().size(i),
        forall|kind: SketchKind|
            ({
                let g = #[trigger] s.gossip_at(kind, i);
                let held = s.slots(kind)[i]->0;
                &&& g.key() == s.keys(kind)[i]
                &&& g.size_bytes == s.size(kind, i, held)
                &&& kind != SketchKind::ChanAnns ==> g.timestamp == held
            }),
{
    let cu = s.chan_updates.registry().versions(i);
    let na = s.node_anns.registry().versions(i);
    if keys::ascending(cu) && 0 <= j < cu.len() {
        keys::size_is_that_of_the_version(cu, ts, j);
    }
    if keys::ascending(na) && 0 <= j < na.len() {
        keys::size_is_that_of_the_version(na, ts, j);
    }
    assert forall|kind: SketchKind|
        ({
            let g = #[trigger] s.gossip_at(kind, i);
            let held = s.slots(kind)[i]->0;
            &&& g.key() == s.keys(kind)[i]
            &&& g.size_bytes == s.size(kind, i, held)
            &&& kind != SketchKind::ChanAnns ==> g.timestamp == held
        }) by {
        let held = s.slots(kind)[i]->0;
        synthesised_matches_entry(kind, s.keys(kind)[i], held, s.size(kind, i, held));
    }
}

} // verus!
