//! Wire-format types shared by every node kind.
//!
//! `Gossip` is one logical Lightning gossip message. Its `id` is derived
//! from its content (see [`Gossip::derive_id`]), so that two nodes which
//! independently emit the same BOLT 7 message produce the same `MsgId`
//! and the metrics layer can correlate convergence across nodes.
//!
//! `WireMessage` is what flows between nodes: one gossip, a batch of
//! gossips partitioned by kind, a set sketch, or an inventory of keys.

use std::sync::Arc;

use vstd::bytes::*;
use vstd::prelude::*;

use crate::hashing;

verus! {

/// Stable node identifier. Dense insertion order for synthetic
/// topologies, a seeded hash of the pubkey for loaded ones.
pub type NodeId = u64;

/// Stable, content-derived gossip identifier (see
/// [`Gossip::derive_id`]).
pub type MsgId = u64;

/// Stand-in for a BOLT 7 short-channel-id.
pub type Scid = u64;

/// Channel side (BOLT 7 `channel_flags` bit 0). Always 0 or 1.
pub type Direction = u8;

/// Dense per-node index in `0..n_nodes`, equal to the node's position in
/// the topology. Distinct from `NodeId`, which can be a sparse hash.
pub type NodeIdx = u32;

/// Hash subseed of [`Gossip::derive_id`], distinct from those of node
/// and channel identifiers so that the three live in different hash
/// spaces.
pub const MSGID_SUBSEED: u64 = 0x4D534749445F5355;

/// The three BOLT 7 gossip message kinds.
#[derive(Copy, Clone, Debug, PartialEq, Eq, Structural)]
pub enum GossipKind {
    NodeAnnouncement,
    ChannelAnnouncement,
    ChannelUpdate,
}

impl GossipKind {
    /// The byte that stands for the kind in a hashed identity.
    pub open spec fn code(self) -> u8 {
        match self {
            GossipKind::NodeAnnouncement => 1,
            GossipKind::ChannelAnnouncement => 2,
            GossipKind::ChannelUpdate => 3,
        }
    }

    /// See [`GossipKind::code`].
    pub fn as_u8(self) -> (r: u8)
        ensures
            r == self.code(),
    {
        match self {
            GossipKind::NodeAnnouncement => 1,
            GossipKind::ChannelAnnouncement => 2,
            GossipKind::ChannelUpdate => 3,
        }
    }
}

impl Default for GossipKind {
    fn default() -> (r: Self)
        ensures
            r == GossipKind::NodeAnnouncement,
    {
        GossipKind::NodeAnnouncement
    }
}

/// One logical gossip message.
#[derive(Copy, Clone, Debug, PartialEq, Eq, Structural)]
pub struct Gossip {
    /// Content-derived id from [`Gossip::derive_id`].
    pub id: MsgId,
    /// Set only for `NodeAnnouncement`, where it is the message
    /// identity; channel messages imply their origin by the scid.
    pub origin: Option<NodeId>,
    pub kind: GossipKind,
    /// On-the-wire size, used for bandwidth metrics.
    pub size_bytes: u16,
    /// Set for `ChannelUpdate` and `ChannelAnnouncement`.
    pub scid: Option<Scid>,
    /// Channel side, meaningful for `ChannelUpdate`; 0 for the others.
    pub direction: Direction,
    /// Seconds since the start of the simulation, set by the
    /// originating node. Unused for `ChannelAnnouncement`.
    pub timestamp: u32,
}

/// The identity of a message as the 22 bytes that are hashed: origin,
/// kind, scid, direction, timestamp, integers little-endian, an absent
/// origin or scid as zero.
pub open spec fn identity_bytes(
    origin: Option<NodeId>,
    kind: GossipKind,
    scid: Option<Scid>,
    direction: Direction,
    timestamp: u32,
) -> Seq<u8> {
    spec_u64_to_le_bytes(origin.unwrap_or(0)) + seq![kind.code()] + spec_u64_to_le_bytes(
        scid.unwrap_or(0),
    ) + seq![direction] + spec_u32_to_le_bytes(timestamp)
}

/// The id that [`Gossip::derive_id`] gives to an identity.
pub open spec fn derived_id(
    origin: Option<NodeId>,
    kind: GossipKind,
    scid: Option<Scid>,
    direction: Direction,
    timestamp: u32,
) -> MsgId {
    hashing::xxh3_64(MSGID_SUBSEED, identity_bytes(origin, kind, scid, direction, timestamp))
}

impl Gossip {
    /// Whether the message's id is the one derived from its content.
    pub open spec fn has_derived_id(self) -> bool {
        self.id == derived_id(self.origin, self.kind, self.scid, self.direction, self.timestamp)
    }

    /// Stable, content-derived `MsgId`: any node that produces a gossip
    /// with the same identity tuple gets the same id.
    pub fn derive_id(
        origin: Option<NodeId>,
        kind: GossipKind,
        scid: Option<Scid>,
        direction: Direction,
        timestamp: u32,
    ) -> (r: MsgId)
        ensures
            r == derived_id(origin, kind, scid, direction, timestamp),
    {
        let mut buf: Vec<u8> = u64_to_le_bytes(origin.unwrap_or(0));
        buf.push(kind.as_u8());
        let mut scid_bytes: Vec<u8> = u64_to_le_bytes(scid.unwrap_or(0));
        buf.append(&mut scid_bytes);
        buf.push(direction);
        let mut ts_bytes: Vec<u8> = u32_to_le_bytes(timestamp);
        buf.append(&mut ts_bytes);
        assert(buf@ =~= identity_bytes(origin, kind, scid, direction, timestamp));
        hashing::hash_with_seed(MSGID_SUBSEED, buf.as_slice())
    }
}

/// Set reconciliation works one kind at a time. The variants line up
/// one to one with [`GossipKind`].
#[derive(Copy, Clone, Debug, PartialEq, Eq, Structural)]
pub enum SketchKind {
    ChanUpdates,
    NodeAnns,
    ChanAnns,
}

impl Default for SketchKind {
    fn default() -> (r: Self)
        ensures
            r == SketchKind::ChanUpdates,
    {
        SketchKind::ChanUpdates
    }
}

impl SketchKind {
    /// The sketch kind whose container holds gossips of kind `g`.
    pub open spec fn of_gossip(g: GossipKind) -> SketchKind {
        match g {
            GossipKind::ChannelUpdate => SketchKind::ChanUpdates,
            GossipKind::NodeAnnouncement => SketchKind::NodeAnns,
            GossipKind::ChannelAnnouncement => SketchKind::ChanAnns,
        }
    }

    /// The gossip kind whose container this sketch covers.
    pub open spec fn gossip_kind(self) -> GossipKind {
        match self {
            SketchKind::ChanUpdates => GossipKind::ChannelUpdate,
            SketchKind::NodeAnns => GossipKind::NodeAnnouncement,
            SketchKind::ChanAnns => GossipKind::ChannelAnnouncement,
        }
    }

    /// The number under which the kind appears in output rows.
    pub open spec fn code(self) -> u8 {
        match self {
            SketchKind::ChanUpdates => 0,
            SketchKind::NodeAnns => 1,
            SketchKind::ChanAnns => 2,
        }
    }

    /// The label under which the kind appears in output rows.
    pub open spec fn label(self) -> &'static str {
        match self {
            SketchKind::ChanUpdates => "chan_updates",
            SketchKind::NodeAnns => "node_anns",
            SketchKind::ChanAnns => "chan_anns",
        }
    }

    /// Map a `GossipKind` to the `SketchKind` whose container holds it.
    pub fn from_gossip(g: GossipKind) -> (r: Self)
        ensures
            r == SketchKind::of_gossip(g),
    {
        match g {
            GossipKind::ChannelUpdate => SketchKind::ChanUpdates,
            GossipKind::NodeAnnouncement => SketchKind::NodeAnns,
            GossipKind::ChannelAnnouncement => SketchKind::ChanAnns,
        }
    }

    /// Inverse of [`Self::from_gossip`].
    pub fn to_gossip(self) -> (r: GossipKind)
        ensures
            r == self.gossip_kind(),
    {
        match self {
            SketchKind::ChanUpdates => GossipKind::ChannelUpdate,
            SketchKind::NodeAnns => GossipKind::NodeAnnouncement,
            SketchKind::ChanAnns => GossipKind::ChannelAnnouncement,
        }
    }

    /// See [`SketchKind::code`].
    pub fn as_u8(self) -> (r: u8)
        ensures
            r == self.code(),
    {
        match self {
            SketchKind::ChanUpdates => 0,
            SketchKind::NodeAnns => 1,
            SketchKind::ChanAnns => 2,
        }
    }

    /// See [`SketchKind::label`].
    pub fn as_label(self) -> (r: &'static str)
        ensures
            r == self.label(),
    {
        match self {
            SketchKind::ChanUpdates => "chan_updates",
            SketchKind::NodeAnns => "node_anns",
            SketchKind::ChanAnns => "chan_anns",
        }
    }
}

/// Minisketch-style summary of a node's state for one kind. The
/// difference of two nodes' states can be recovered exactly while its
/// size is at most `capacity`, and recovery fails beyond that.
#[derive(Copy, Clone, Debug, PartialEq, Eq, Structural)]
pub struct Sketch {
    /// Sender-local sequence number.
    pub id: MsgId,
    /// Sender's `NodeId`.
    pub from: NodeId,
    pub kind: SketchKind,
    /// Largest symmetric difference the sketch can resolve.
    pub capacity: u32,
    /// Wire size in bytes.
    pub size_bytes: u16,
}

/// Bytes one state key occupies in an inventory.
pub const INVENTORY_KEY_BYTES: u64 = 8;

/// A request for the messages behind a list of state keys of one kind.
#[derive(Clone, Debug)]
pub struct InventoryMsg {
    /// Requesting node.
    pub from: NodeId,
    pub kind: GossipKind,
    pub keys: Vec<u64>,
    /// Wire size in bytes.
    pub size_bytes: u64,
}

impl InventoryMsg {
    /// An inventory whose size is that of its keys.
    pub fn new(from: NodeId, kind: GossipKind, keys: Vec<u64>) -> (r: InventoryMsg)
        requires
            keys@.len() * INVENTORY_KEY_BYTES <= u64::MAX,
        ensures
            r.from == from,
            r.kind == kind,
            r.keys == keys,
            r.size_bytes == keys@.len() * INVENTORY_KEY_BYTES,
    {
        let size_bytes: u64 = keys.len() as u64 * INVENTORY_KEY_BYTES;
        InventoryMsg { from, kind, keys, size_bytes }
    }
}

/// Sum of the wire sizes of `gs`.
pub open spec fn total_size(gs: Seq<Gossip>) -> nat
    decreases gs.len(),
{
    if gs.len() == 0 {
        0
    } else {
        total_size(gs.drop_last()) + gs.last().size_bytes as nat
    }
}

/// The gossips of `gs` that are of kind `kind`, in order.
pub open spec fn of_kind(gs: Seq<Gossip>, kind: GossipKind) -> Seq<Gossip> {
    gs.filter(|g: Gossip| g.kind == kind)
}

/// Splitting a sequence splits its size.
pub proof fn lemma_total_size_add(a: Seq<Gossip>, b: Seq<Gossip>)
    ensures
        total_size(a + b) == total_size(a) + total_size(b),
    decreases b.len(),
{
    if b.len() == 0 {
        assert(a + b =~= a);
    } else {
        assert((a + b).drop_last() =~= a + b.drop_last());
        lemma_total_size_add(a, b.drop_last());
    }
}

/// Every prefix is at most as large as the whole, and each gossip adds
/// at most `u16::MAX`.
pub proof fn lemma_total_size_prefix(gs: Seq<Gossip>, n: int)
    requires
        0 <= n <= gs.len(),
    ensures
        total_size(gs.take(n)) <= total_size(gs),
        total_size(gs) <= gs.len() * 0xffff,
        n < gs.len() ==> total_size(gs.take(n + 1)) == total_size(gs.take(n)) + gs[n].size_bytes,
    decreases gs.len() - n,
{
    assert(gs.take(n) + gs.skip(n) =~= gs);
    lemma_total_size_add(gs.take(n), gs.skip(n));
    lemma_total_size_bound(gs);
    if n < gs.len() {
        assert(gs.take(n + 1).drop_last() =~= gs.take(n));
    }
}

/// Each gossip adds at most `u16::MAX`.
pub proof fn lemma_total_size_bound(gs: Seq<Gossip>)
    ensures
        total_size(gs) <= gs.len() * 0xffff,
    decreases gs.len(),
{
    if gs.len() > 0 {
        lemma_total_size_bound(gs.drop_last());
    }
}

/// Sum of the wire sizes of a slice of gossips.
pub fn sum_sizes(gs: &[Gossip]) -> (r: u64)
    requires
        total_size(gs@) <= u64::MAX,
    ensures
        r == total_size(gs@),
{
    let mut sum: u64 = 0;
    let n: usize = gs.len();
    for i in 0..n
        invariant
            n == gs@.len(),
            total_size(gs@) <= u64::MAX,
            sum == total_size(gs@.take(i as int)),
    {
        proof {
            lemma_total_size_prefix(gs@, i as int);
            lemma_total_size_prefix(gs@, i + 1);
        }
        sum = sum + gs[i].size_bytes as u64;
    }
    assert(gs@.take(n as int) =~= gs@);
    sum
}

/// A bundle of gossips partitioned by kind, the payload of
/// [`WireMessage::Batch`].
#[derive(Clone, Debug)]
pub struct GossipBatch {
    pub chan_updates: Vec<Gossip>,
    pub node_anns: Vec<Gossip>,
    pub chan_anns: Vec<Gossip>,
}

impl Default for GossipBatch {
    fn default() -> (r: Self)
        ensures
            r.gossips() == Seq::<Gossip>::empty(),
            r.chan_updates@.len() == 0,
            r.node_anns@.len() == 0,
            r.chan_anns@.len() == 0,
    {
        let r = GossipBatch {
            chan_updates: Vec::new(),
            node_anns: Vec::new(),
            chan_anns: Vec::new(),
        };
        assert(r.gossips() =~= Seq::<Gossip>::empty());
        r
    }
}

impl GossipBatch {
    /// Every gossip, channel updates first, then node announcements,
    /// then channel announcements.
    pub open spec fn gossips(&self) -> Seq<Gossip> {
        self.chan_updates@ + self.node_anns@ + self.chan_anns@
    }

    /// The slot for one kind.
    pub open spec fn slot(&self, kind: GossipKind) -> Seq<Gossip> {
        match kind {
            GossipKind::ChannelUpdate => self.chan_updates@,
            GossipKind::NodeAnnouncement => self.node_anns@,
            GossipKind::ChannelAnnouncement => self.chan_anns@,
        }
    }

    /// Each slot holds gossips of its own kind only.
    pub open spec fn partitioned(&self) -> bool {
        forall|kind: GossipKind, i: int|
            0 <= i < self.slot(kind).len() ==> (#[trigger] self.slot(kind)[i]).kind == kind
    }

    /// Every gossip of the batch in slot order. Receivers that do not
    /// care about the kind use this.
    pub fn iter(&self) -> (r: Vec<Gossip>)
        ensures
            r@ == self.gossips(),
    {
        let mut out: Vec<Gossip> = Vec::new();
        push_all(&mut out, self.chan_updates.as_slice());
        push_all(&mut out, self.node_anns.as_slice());
        push_all(&mut out, self.chan_anns.as_slice());
        assert(out@ =~= self.gossips());
        out
    }

    pub fn len(&self) -> (r: usize)
        requires
            self.gossips().len() <= usize::MAX,
        ensures
            r == self.gossips().len(),
    {
        self.chan_updates.len() + self.node_anns.len() + self.chan_anns.len()
    }

    pub fn is_empty(&self) -> (r: bool)
        ensures
            r == (self.gossips().len() == 0),
    {
        self.chan_updates.is_empty() && self.node_anns.is_empty() && self.chan_anns.is_empty()
    }

    /// Sum of the wire sizes over all kinds.
    pub fn wire_size(&self) -> (r: u64)
        requires
            total_size(self.gossips()) <= u64::MAX,
        ensures
            r == total_size(self.gossips()),
    {
        proof {
            lemma_total_size_add(self.chan_updates@ + self.node_anns@, self.chan_anns@);
            lemma_total_size_add(self.chan_updates@, self.node_anns@);
        }
        sum_sizes(self.chan_updates.as_slice()) + sum_sizes(self.node_anns.as_slice()) + sum_sizes(
            self.chan_anns.as_slice(),
        )
    }

    /// Append one gossip to the slot of its kind.
    fn push(&mut self, g: Gossip)
        ensures
            final(self).slot(g.kind) == old(self).slot(g.kind).push(g),
            forall|kind: GossipKind|
                kind != g.kind ==> #[trigger] final(self).slot(kind) == old(self).slot(kind),
    {
        match g.kind {
            GossipKind::ChannelUpdate => self.chan_updates.push(g),
            GossipKind::NodeAnnouncement => self.node_anns.push(g),
            GossipKind::ChannelAnnouncement => self.chan_anns.push(g),
        }
    }

    /// Build a batch by partitioning a mixed list by kind, keeping the
    /// order within each kind.
    pub fn from_mixed(gossips: Vec<Gossip>) -> (r: Self)
        ensures
            forall|kind: GossipKind| #[trigger] r.slot(kind) == of_kind(gossips@, kind),
            r.partitioned(),
    {
        let mut out = GossipBatch::default();
        let n: usize = gossips.len();
        assert(gossips@.take(0) =~= Seq::<Gossip>::empty());
        proof {
            reveal(Seq::filter);
        }
        for i in 0..n
            invariant
                n == gossips@.len(),
                forall|kind: GossipKind| #[trigger]
                    out.slot(kind) == of_kind(gossips@.take(i as int), kind),
        {
            proof {
                lemma_of_kind_take(gossips@, i as int);
            }
            out.push(gossips[i]);
        }
        assert(gossips@.take(n as int) =~= gossips@);
        proof {
            lemma_of_kind_members(gossips@);
        }
        out
    }

    /// Build a batch from gossips that are all of kind `kind`.
    pub fn from_mixed_for_kind(gossips: Vec<Gossip>, kind: GossipKind) -> (r: Self)
        requires
            forall|i: int| 0 <= i < gossips@.len() ==> (#[trigger] gossips@[i]).kind == kind,
        ensures
            r.slot(kind) == gossips@,
            forall|k: GossipKind| k != kind ==> #[trigger] r.slot(k) == Seq::<Gossip>::empty(),
            r.gossips() == gossips@,
            r.partitioned(),
    {
        let mut out = GossipBatch::default();
        match kind {
            GossipKind::ChannelUpdate => {
                out.chan_updates = gossips;
            },
            GossipKind::NodeAnnouncement => {
                out.node_anns = gossips;
            },
            GossipKind::ChannelAnnouncement => {
                out.chan_anns = gossips;
            },
        }
        assert(out.gossips() =~= gossips@);
        out
    }

    /// A batch that holds a single gossip in the slot of its kind.
    pub fn from_one(g: Gossip) -> (r: Self)
        ensures
            r.slot(g.kind) == seq![g],
            forall|k: GossipKind| k != g.kind ==> #[trigger] r.slot(k) == Seq::<Gossip>::empty(),
            r.gossips() == seq![g],
            r.partitioned(),
    {
        let mut out = GossipBatch::default();
        out.push(g);
        assert(out.slot(g.kind) =~= seq![g]);
        assert(out.slot(GossipKind::ChannelUpdate) == out.chan_updates@);
        assert(out.slot(GossipKind::NodeAnnouncement) == out.node_anns@);
        assert(out.slot(GossipKind::ChannelAnnouncement) == out.chan_anns@);
        assert(out.gossips() =~= seq![g]);
        out
    }
}

/// Append a slice of gossips to a vector.
fn push_all(out: &mut Vec<Gossip>, gs: &[Gossip])
    ensures
        final(out)@ == old(out)@ + gs@,
{
    let n: usize = gs.len();
    for i in 0..n
        invariant
            n == gs@.len(),
            out@ == old(out)@ + gs@.take(i as int),
    {
        out.push(gs[i]);
        assert(out@ =~= old(out)@ + gs@.take(i + 1));
    }
    assert(gs@.take(n as int) =~= gs@);
}

proof fn lemma_of_kind_take(gs: Seq<Gossip>, i: int)
    requires
        0 <= i < gs.len(),
    ensures
        forall|kind: GossipKind| #[trigger]
            of_kind(gs.take(i + 1), kind) == if gs[i].kind == kind {
                of_kind(gs.take(i), kind).push(gs[i])
            } else {
                of_kind(gs.take(i), kind)
            },
{
    reveal(Seq::filter);
    assert(gs.take(i + 1).drop_last() =~= gs.take(i));
}

proof fn lemma_of_kind_members(gs: Seq<Gossip>)
    ensures
        forall|kind: GossipKind, i: int|
            0 <= i < of_kind(gs, kind).len() ==> (#[trigger] of_kind(gs, kind)[i]).kind == kind,
{
    broadcast use vstd::seq_lib::group_filter_ensures;

}

/// What travels between two nodes.
#[derive(Clone, Debug)]
pub enum WireMessage {
    Single(Gossip),
    /// Immutable after construction and shared between recipients.
    Batch(Arc<GossipBatch>),
    /// Carries no gossips: receivers compute the difference against
    /// their own state and answer with a `Batch`.
    Sketch(Sketch),
    /// Asks for the gossips behind a list of keys.
    Inventory(InventoryMsg),
}

impl WireMessage {
    /// The gossips that the message carries.
    pub open spec fn gossips(&self) -> Seq<Gossip> {
        match self {
            WireMessage::Single(g) => seq![*g],
            WireMessage::Batch(b) => b.gossips(),
            WireMessage::Sketch(_) => Seq::empty(),
            WireMessage::Inventory(_) => Seq::empty(),
        }
    }

    /// The message's size on the wire.
    pub open spec fn bytes(&self) -> nat {
        match self {
            WireMessage::Single(g) => g.size_bytes as nat,
            WireMessage::Batch(b) => total_size(b.gossips()),
            WireMessage::Sketch(s) => s.size_bytes as nat,
            WireMessage::Inventory(i) => i.size_bytes as nat,
        }
    }

    /// The inner gossips regardless of variant; none for `Sketch` and
    /// `Inventory`, which are protocol metadata.
    pub fn iter_gossips(&self) -> (r: Vec<Gossip>)
        ensures
            r@ == self.gossips(),
    {
        match self {
            WireMessage::Single(g) => {
                let mut v: Vec<Gossip> = Vec::new();
                v.push(*g);
                assert(v@ =~= seq![*g]);
                v
            },
            WireMessage::Batch(b) => b.iter(),
            WireMessage::Sketch(_) => Vec::new(),
            WireMessage::Inventory(_) => Vec::new(),
        }
    }

    /// On-the-wire byte size, used for bandwidth metrics.
    pub fn wire_size(&self) -> (r: u64)
        requires
            self.bytes() <= u64::MAX,
        ensures
            r == self.bytes(),
    {
        match self {
            WireMessage::Single(g) => g.size_bytes as u64,
            WireMessage::Batch(b) => b.wire_size(),
            WireMessage::Sketch(s) => s.size_bytes as u64,
            WireMessage::Inventory(i) => i.size_bytes,
        }
    }
}

/// `to_gossip` and `from_gossip` undo each other.
pub proof fn sketch_kind_round_trip(s: SketchKind, g: GossipKind)
    ensures
        SketchKind::of_gossip(s.gossip_kind()) == s,
        SketchKind::of_gossip(g).gossip_kind() == g,
{
}

/// Partitioning by kind neither loses, invents nor duplicates a gossip:
/// the three kinds of a list together hold the same gossips, as many of
/// them, and of the same total size.
pub proof fn partition_preserves_gossips(gs: Seq<Gossip>)
    ensures
        ({
            let parts = of_kind(gs, GossipKind::ChannelUpdate) + of_kind(
                gs,
                GossipKind::NodeAnnouncement,
            ) + of_kind(gs, GossipKind::ChannelAnnouncement);
            &&& parts.to_multiset() == gs.to_multiset()
            &&& parts.len() == gs.len()
            &&& total_size(parts) == total_size(gs)
        }),
    decreases gs.len(),
{
    reveal(Seq::filter);
    let cu = of_kind(gs, GossipKind::ChannelUpdate);
    let na = of_kind(gs, GossipKind::NodeAnnouncement);
    let ca = of_kind(gs, GossipKind::ChannelAnnouncement);
    lemma_total_size_add(cu + na, ca);
    lemma_total_size_add(cu, na);
    vstd::seq_lib::lemma_multiset_commutative(cu + na, ca);
    vstd::seq_lib::lemma_multiset_commutative(cu, na);
    if gs.len() == 0 {
        assert(cu + na + ca =~= gs);
    } else {
        let init = gs.drop_last();
        let g = gs.last();
        partition_preserves_gossips(init);
        let cu0 = of_kind(init, GossipKind::ChannelUpdate);
        let na0 = of_kind(init, GossipKind::NodeAnnouncement);
        let ca0 = of_kind(init, GossipKind::ChannelAnnouncement);
        lemma_total_size_add(cu0 + na0, ca0);
        lemma_total_size_add(cu0, na0);
        vstd::seq_lib::lemma_multiset_commutative(cu0 + na0, ca0);
        vstd::seq_lib::lemma_multiset_commutative(cu0, na0);
        assert(gs =~= init.push(g));
        init.to_multiset_ensures();
        cu0.to_multiset_ensures();
        na0.to_multiset_ensures();
        ca0.to_multiset_ensures();
        assert(cu0.push(g).drop_last() =~= cu0);
        assert(na0.push(g).drop_last() =~= na0);
        assert(ca0.push(g).drop_last() =~= ca0);
        assert((cu + na + ca).to_multiset() =~= gs.to_multiset());
    }
}

/// Two identities are hashed as the same bytes only where they agree,
/// an absent origin or scid counting as zero.
pub proof fn identity_bytes_injective(
    origin1: Option<NodeId>,
    kind1: GossipKind,
    scid1: Option<Scid>,
    direction1: Direction,
    timestamp1: u32,
    origin2: Option<NodeId>,
    kind2: GossipKind,
    scid2: Option<Scid>,
    direction2: Direction,
    timestamp2: u32,
)
    requires
        identity_bytes(origin1, kind1, scid1, direction1, timestamp1) == identity_bytes(
            origin2,
            kind2,
            scid2,
            direction2,
            timestamp2,
        ),
    ensures
        origin1.unwrap_or(0) == origin2.unwrap_or(0),
        kind1 == kind2,
        scid1.unwrap_or(0) == scid2.unwrap_or(0),
        direction1 == direction2,
        timestamp1 == timestamp2,
{
    vstd::bytes::lemma_auto_spec_u64_to_from_le_bytes();
    vstd::bytes::lemma_auto_spec_u32_to_from_le_bytes();
    let a = identity_bytes(origin1, kind1, scid1, direction1, timestamp1);
    let b = identity_bytes(origin2, kind2, scid2, direction2, timestamp2);
    assert(a.subrange(0, 8) =~= spec_u64_to_le_bytes(origin1.unwrap_or(0)));
    assert(b.subrange(0, 8) =~= spec_u64_to_le_bytes(origin2.unwrap_or(0)));
    assert(a[8] == kind1.code());
    assert(b[8] == kind2.code());
    assert(a.subrange(9, 17) =~= spec_u64_to_le_bytes(scid1.unwrap_or(0)));
    assert(b.subrange(9, 17) =~= spec_u64_to_le_bytes(scid2.unwrap_or(0)));
    assert(a[17] == direction1);
    assert(b[17] == direction2);
    assert(a.subrange(18, 22) =~= spec_u32_to_le_bytes(timestamp1));
    assert(b.subrange(18, 22) =~= spec_u32_to_le_bytes(timestamp2));
}

/// The messages of one kind among two lists are those of the first and
/// then those of the second; of a single message it is itself or nothing.
pub proof fn kinds_are_picked_in_order(a: Seq<Gossip>, b: Seq<Gossip>, kind: GossipKind)
    ensures
        of_kind(a + b, kind) == of_kind(a, kind) + of_kind(b, kind),
        a.len() == 0 ==> of_kind(a, kind).len() == 0,
        a.len() == 1 && a[0].kind == kind ==> of_kind(a, kind) == a,
        a.len() == 1 && a[0].kind != kind ==> of_kind(a, kind).len() == 0,
{
    Seq::filter_distributes_over_add(a, b, |g: Gossip| g.kind == kind);
    reveal_with_fuel(Seq::filter, 2);
    if a.len() == 1 && a[0].kind == kind {
        assert(of_kind(a, kind) =~= a);
    }
}

/// The size of a list is the sum of the sizes of its messages: two lists
/// weigh what each weighs, and one message its own size.
pub proof fn sizes_add_up(a: Seq<Gossip>, b: Seq<Gossip>)
    ensures
        total_size(a + b) == total_size(a) + total_size(b),
        a.len() == 0 ==> total_size(a) == 0,
        a.len() == 1 ==> total_size(a) == a[0].size_bytes,
{
    lemma_total_size_add(a, b);
    reveal_with_fuel(total_size, 2);
}

/// A wire message of gossip weighs what its messages weigh, and carries
/// each of them once; sketches and inventories carry none.
pub proof fn wire_weighs_what_it_carries(wire: WireMessage)
    ensures
        wire matches WireMessage::Single(g) ==> wire.gossips() == seq![g] && wire.bytes()
            == g.size_bytes,
        wire matches WireMessage::Batch(b) ==> wire.gossips() == b.chan_updates@ + b.node_anns@
            + b.chan_anns@ && wire.bytes() == total_size(b.chan_updates@) + total_size(b.node_anns@)
            + total_size(b.chan_anns@),
        wire matches WireMessage::Sketch(s) ==> wire.gossips().len() == 0 && wire.bytes()
            == s.size_bytes,
        wire matches WireMessage::Inventory(i) ==> wire.gossips().len() == 0 && wire.bytes()
            == i.size_bytes,
{
    if let WireMessage::Batch(b) = wire {
        lemma_total_size_add(b.chan_updates@ + b.node_anns@, b.chan_anns@);
        lemma_total_size_add(b.chan_updates@, b.node_anns@);
    }
}

/// The id of a message is the hash of its identity: who it is from, its
/// kind, its channel and side, and its version, laid out in this order.
pub proof fn id_is_the_hash_of_the_identity(g: Gossip)
    ensures
        g.has_derived_id() <==> g.id == hashing::xxh3_64(
            MSGID_SUBSEED,
            identity_bytes(g.origin, g.kind, g.scid, g.direction, g.timestamp),
        ),
        ({
            let b = identity_bytes(g.origin, g.kind, g.scid, g.direction, g.timestamp);
            &&& b.len() == 22
            &&& b.subrange(0, 8) == spec_u64_to_le_bytes(g.origin.unwrap_or(0))
            &&& b[8] == g.kind.code()
            &&& b.subrange(9, 17) == spec_u64_to_le_bytes(g.scid.unwrap_or(0))
            &&& b[17] == g.direction
            &&& b.subrange(18, 22) == spec_u32_to_le_bytes(g.timestamp)
        }),
{
    let b = identity_bytes(g.origin, g.kind, g.scid, g.direction, g.timestamp);
    vstd::bytes::lemma_auto_spec_u64_to_from_le_bytes();
    vstd::bytes::lemma_auto_spec_u32_to_from_le_bytes();
    assert(b.subrange(0, 8) =~= spec_u64_to_le_bytes(g.origin.unwrap_or(0)));
    assert(b.subrange(9, 17) =~= spec_u64_to_le_bytes(g.scid.unwrap_or(0)));
    assert(b.subrange(18, 22) =~= spec_u32_to_le_bytes(g.timestamp));
}

/// The kinds are told apart by their codes and their labels, and each
/// kind of sketch stands for one kind of message.
pub proof fn kinds_have_their_codes()
    ensures
        GossipKind::NodeAnnouncement.code() == 1,
        GossipKind::ChannelAnnouncement.code() == 2,
        GossipKind::ChannelUpdate.code() == 3,
        SketchKind::ChanUpdates.code() == 0,
        SketchKind::NodeAnns.code() == 1,
        SketchKind::ChanAnns.code() == 2,
        SketchKind::of_gossip(GossipKind::ChannelUpdate) == SketchKind::ChanUpdates,
        SketchKind::of_gossip(GossipKind::NodeAnnouncement) == SketchKind::NodeAnns,
        SketchKind::of_gossip(GossipKind::ChannelAnnouncement) == SketchKind::ChanAnns,
        SketchKind::ChanUpdates.gossip_kind() == GossipKind::ChannelUpdate,
        SketchKind::NodeAnns.gossip_kind() == GossipKind::NodeAnnouncement,
        SketchKind::ChanAnns.gossip_kind() == GossipKind::ChannelAnnouncement,
{
}

} // verus!
