//! Snapshots of the Lightning Network.
//!
//! A snapshot is a list of node pubkeys and a list of channels between
//! them, as text. Nodes and channels get 64-bit ids by hashing that text
//! under a seed; two different texts with one id are an error, and so is
//! a channel of an unknown node. Rows are taken one by one, as they are
//! read. Repeated pubkeys count once, and channels of a node with itself
//! are left out.

use std::collections::HashMap;
use vstd::prelude::*;

use crate::channels;
use crate::hashing;
use crate::message::{NodeId, Scid};

verus! {

broadcast use vstd::std_specs::hash::group_hash_axioms;

/// Sub-seed of node ids.
pub const NODE_SUBSEED: u64 = 0x4E4F44455F535542;

/// Sub-seed of channel ids.
pub const SCID_SUBSEED: u64 = 0x534349445F535542;

/// Channel ids leave the top bit clear, so that a direction can be packed
/// beside them.
pub const SCID_MASK: u64 = 0x7FFF_FFFF_FFFF_FFFF;

/// The id of a pubkey.
pub open spec fn node_id(seed: u64, pubkey: Seq<char>) -> NodeId {
    hashing::xxh3_64(seed ^ NODE_SUBSEED, vstd::utf8::encode_utf8(pubkey))
}

/// The id of a channel, from its number in decimal.
pub open spec fn scid_id(seed: u64, scid: Seq<char>) -> Scid {
    hashing::xxh3_64(seed ^ SCID_SUBSEED, vstd::utf8::encode_utf8(scid)) & SCID_MASK
}

/// Hashes a pubkey to its node id: equal seeds and pubkeys give equal ids.
pub fn hash_pubkey(seed: u64, pubkey: &str) -> (r: NodeId)
    ensures
        r == node_id(seed, pubkey@),
{
    hashing::hash_with_seed(seed ^ NODE_SUBSEED, pubkey.as_bytes())
}

/// Hashes a channel's number, in decimal, to its id, which is below
/// 2^63.
pub fn hash_scid_string(seed: u64, scid_str: &str) -> (r: Scid)
    ensures
        r == scid_id(seed, scid_str@),
        r <= SCID_MASK,
{
    let h: u64 = hashing::hash_with_seed(seed ^ SCID_SUBSEED, scid_str.as_bytes());
    assert(h & 0x7FFF_FFFF_FFFF_FFFF <= 0x7FFF_FFFF_FFFF_FFFF) by (bit_vector);
    h & SCID_MASK
}

/// A channel as it stands in a snapshot.
#[derive(Debug)]
pub struct SnapshotChannel {
    pub scid: String,
    pub node_1: String,
    pub node_2: String,
}

/// A loaded snapshot.
#[derive(Debug)]
pub struct LnSnapshot {
    /// Node ids, in the order of their first rows.
    pub nodes: Vec<NodeId>,
    /// Channels in the order of their rows.
    pub channels: Vec<(Scid, NodeId, NodeId)>,
    /// The pubkey of each node id.
    pub pubkey_of: HashMap<NodeId, String>,
}

/// Why a snapshot cannot be loaded.
#[derive(Debug)]
pub enum LoadError {
    /// Two pubkeys have one id.
    PubkeyHashCollision { a: String, b: String, seed: u64 },
    /// Two channel numbers have one id.
    ScidHashCollision { a: String, b: String, seed: u64 },
    /// A channel names a pubkey that is not among the nodes. `row` is its
    /// line in the file, with the header as line 1.
    UnknownPubkey { path: String, row: usize, pubkey: String },
}

/// What an error says.
pub enum Fault {
    PubkeyHashCollision { a: Seq<char>, b: Seq<char>, seed: u64 },
    ScidHashCollision { a: Seq<char>, b: Seq<char>, seed: u64 },
    UnknownPubkey { path: Seq<char>, row: nat, pubkey: Seq<char> },
}

impl View for LoadError {
    type V = Fault;

    open spec fn view(&self) -> Fault {
        match self {
            LoadError::PubkeyHashCollision { a, b, seed } => Fault::PubkeyHashCollision {
                a: a@,
                b: b@,
                seed: *seed,
            },
            LoadError::ScidHashCollision { a, b, seed } => Fault::ScidHashCollision {
                a: a@,
                b: b@,
                seed: *seed,
            },
            LoadError::UnknownPubkey { path, row, pubkey } => Fault::UnknownPubkey {
                path: path@,
                row: *row as nat,
                pubkey: pubkey@,
            },
        }
    }
}

/// What has been loaded.
#[verifier::ext_equal]
pub struct Loaded {
    pub nodes: Seq<NodeId>,
    pub names: Map<NodeId, Seq<char>>,
    pub channels: Seq<(Scid, NodeId, NodeId)>,
    pub numbers: Map<Scid, Seq<char>>,
    /// Channel rows so far.
    pub rows: nat,
}

/// Nothing loaded.
pub open spec fn unloaded() -> Loaded {
    Loaded {
        nodes: Seq::empty(),
        names: Map::empty(),
        channels: Seq::empty(),
        numbers: Map::empty(),
        rows: 0,
    }
}

/// One more node row.
pub open spec fn with_node(l: Loaded, seed: u64, pubkey: Seq<char>) -> Result<Loaded, Fault> {
    let id = node_id(seed, pubkey);
    if !l.names.dom().contains(id) {
        Ok(Loaded { nodes: l.nodes.push(id), names: l.names.insert(id, pubkey), ..l })
    } else if l.names[id] == pubkey {
        Ok(l)
    } else {
        Err(Fault::PubkeyHashCollision { a: l.names[id], b: pubkey, seed })
    }
}

/// The pubkey is that of a loaded node.
pub open spec fn known(l: Loaded, seed: u64, pubkey: Seq<char>) -> bool {
    l.names.dom().contains(node_id(seed, pubkey)) && l.names[node_id(seed, pubkey)] == pubkey
}

/// One more channel row: its number and the pubkeys of its ends, in a
/// file at `path`.
pub open spec fn with_channel(
    l: Loaded,
    seed: u64,
    path: Seq<char>,
    scid: Seq<char>,
    node_1: Seq<char>,
    node_2: Seq<char>,
) -> Result<Loaded, Fault> {
    let id = scid_id(seed, scid);
    let n1 = node_id(seed, node_1);
    let n2 = node_id(seed, node_2);
    if l.numbers.dom().contains(id) && l.numbers[id] != scid {
        Err(Fault::ScidHashCollision { a: l.numbers[id], b: scid, seed })
    } else if !known(l, seed, node_1) {
        Err(Fault::UnknownPubkey { path, row: l.rows + 2, pubkey: node_1 })
    } else if !known(l, seed, node_2) {
        Err(Fault::UnknownPubkey { path, row: l.rows + 2, pubkey: node_2 })
    } else {
        Ok(
            Loaded {
                channels: if n1 != n2 {
                    l.channels.push((id, n1, n2))
                } else {
                    l.channels
                },
                numbers: l.numbers.insert(id, scid),
                rows: l.rows + 1,
                ..l
            },
        )
    }
}

/// What is loaded after all node rows, or the first error.
pub open spec fn all_nodes(seed: u64, pubkeys: Seq<Seq<char>>) -> Result<Loaded, Fault>
    decreases pubkeys.len(),
{
    if pubkeys.len() == 0 {
        Ok(unloaded())
    } else {
        match all_nodes(seed, pubkeys.drop_last()) {
            Ok(l) => with_node(l, seed, pubkeys.last()),
            Err(e) => Err(e),
        }
    }
}

/// What is loaded after all channel rows, or the first error.
pub open spec fn all_channels(
    l: Loaded,
    seed: u64,
    path: Seq<char>,
    rows: Seq<SnapshotChannel>,
) -> Result<Loaded, Fault>
    decreases rows.len(),
{
    if rows.len() == 0 {
        Ok(l)
    } else {
        match all_channels(l, seed, path, rows.drop_last()) {
            Ok(before) => with_channel(
                before,
                seed,
                path,
                rows.last().scid@,
                rows.last().node_1@,
                rows.last().node_2@,
            ),
            Err(e) => Err(e),
        }
    }
}

/// The texts of a map.
pub open spec fn map_texts(m: Map<u64, String>) -> Map<u64, Seq<char>> {
    m.map_values(|s: String| s@)
}

impl Loaded {
    /// Ids are the hashes of the texts they stand for, nodes are distinct
    /// and named, and channels join two different nodes.
    pub open spec fn wf(self, seed: u64) -> bool {
        &&& self.nodes.no_duplicates()
        &&& forall|id: NodeId| #[trigger]
            self.names.dom().contains(id) <==> self.nodes.contains(id)
        &&& forall|id: NodeId| #[trigger]
            self.names.dom().contains(id) ==> node_id(seed, self.names[id]) == id
        &&& forall|id: Scid| #[trigger]
            self.numbers.dom().contains(id) ==> scid_id(seed, self.numbers[id]) == id
        &&& channels::rows_within(self.channels, self.nodes)
        &&& self.channels.len() <= self.rows
    }
}

/// Takes the rows of a snapshot one by one.
pub struct SnapshotBuilder {
    seed: u64,
    nodes: Vec<NodeId>,
    pubkey_of: HashMap<NodeId, String>,
    channels: Vec<(Scid, NodeId, NodeId)>,
    scid_seen: HashMap<Scid, String>,
    rows: usize,
}

impl SnapshotBuilder {
    /// What has been loaded.
    pub closed spec fn loaded(&self) -> Loaded {
        Loaded {
            nodes: self.nodes@,
            names: map_texts(self.pubkey_of@),
            channels: self.channels@,
            numbers: map_texts(self.scid_seen@),
            rows: self.rows as nat,
        }
    }

    /// The seed of the ids.
    pub closed spec fn seeded_by(&self) -> u64 {
        self.seed
    }

    /// What has been loaded is consistent.
    pub open spec fn wf(&self) -> bool {
        self.loaded().wf(self.seeded_by())
    }

    /// Nothing loaded yet.
    pub fn new(seed: u64) -> (r: Self)
        ensures
            r.wf(),
            r.seeded_by() == seed,
            r.loaded() == unloaded(),
    {
        let r = SnapshotBuilder {
            seed,
            nodes: Vec::new(),
            pubkey_of: HashMap::new(),
            channels: Vec::new(),
            scid_seen: HashMap::new(),
            rows: 0,
        };
        assert(r.loaded().names =~= unloaded().names);
        assert(r.loaded().numbers =~= unloaded().numbers);
        r
    }

    /// Takes a node row.
    pub fn add_node(&mut self, pubkey: String) -> (r: Result<(), LoadError>)
        requires
            old(self).wf(),
        ensures
            final(self).wf(),
            final(self).seeded_by() == old(self).seeded_by(),
            match with_node(old(self).loaded(), old(self).seeded_by(), pubkey@) {
                Ok(l) => r is Ok && final(self).loaded() == l,
                Err(e) => r matches Err(error) && error@ == e && final(self).loaded() == old(
                    self,
                ).loaded(),
            },
    {
        let id: NodeId = hash_pubkey(self.seed, pubkey.as_str());
        let ghost before = self.loaded();
        match self.pubkey_of.get(&id) {
            Some(existing) => {
                if *existing == pubkey {
                    Ok(())
                } else {
                    Err(
                        LoadError::PubkeyHashCollision {
                            a: existing.clone(),
                            b: pubkey,
                            seed: self.seed,
                        },
                    )
                }
            },
            None => {
                let ghost key = pubkey@;
                self.nodes.push(id);
                self.pubkey_of.insert(id, pubkey);
                proof {
                    let now = self.loaded();
                    assert(now.names =~= before.names.insert(id, key));
                    assert(before.nodes.push(id).no_duplicates()) by {
                        assert(!before.names.dom().contains(id));
                        assert(!before.nodes.contains(id));
                    }
                    lemma_push_contains(before.nodes, id);
                    assert(channels::rows_within(now.channels, now.nodes)) by {
                        assert forall|i: int| 0 <= i < now.channels.len() implies now.nodes.contains(
                            (#[trigger] now.channels[i]).1,
                        ) && now.nodes.contains(now.channels[i].2) && now.channels[i].1
                            != now.channels[i].2 by {
                            assert(before.nodes.contains(before.channels[i].1));
                        }
                    }
                }
                Ok(())
            },
        }
    }

    /// The id of a node by its pubkey, `None` where the pubkey is unknown.
    fn resolve(&self, pubkey: &String) -> (r: Option<NodeId>)
        requires
            self.wf(),
        ensures
            r == if known(self.loaded(), self.seeded_by(), pubkey@) {
                Some(node_id(self.seeded_by(), pubkey@))
            } else {
                None::<NodeId>
            },
    {
        let id: NodeId = hash_pubkey(self.seed, pubkey.as_str());
        match self.pubkey_of.get(&id) {
            Some(existing) => if *existing == *pubkey {
                Some(id)
            } else {
                None
            },
            None => None,
        }
    }

    /// Takes a channel row of the file at `path`.
    pub fn add_channel(&mut self, row: SnapshotChannel, path: &str) -> (r: Result<(), LoadError>)
        requires
            old(self).wf(),
            old(self).loaded().rows + 2 <= usize::MAX,
        ensures
            final(self).wf(),
            final(self).seeded_by() == old(self).seeded_by(),
            match with_channel(
                old(self).loaded(),
                old(self).seeded_by(),
                path@,
                row.scid@,
                row.node_1@,
                row.node_2@,
            ) {
                Ok(l) => r is Ok && final(self).loaded() == l,
                Err(e) => r matches Err(error) && error@ == e && final(self).loaded() == old(
                    self,
                ).loaded(),
            },
    {
        let SnapshotChannel { scid, node_1, node_2 } = row;
        let id: Scid = hash_scid_string(self.seed, scid.as_str());
        let ghost before = self.loaded();
        match self.scid_seen.get(&id) {
            Some(existing) => {
                if !(*existing == scid) {
                    return Err(
                        LoadError::ScidHashCollision {
                            a: existing.clone(),
                            b: scid,
                            seed: self.seed,
                        },
                    );
                }
            },
            None => {},
        }
        let n1: NodeId = match self.resolve(&node_1) {
            Some(n) => n,
            None => {
                return Err(
                    LoadError::UnknownPubkey {
                        path: path.to_owned(),
                        row: self.rows + 2,
                        pubkey: node_1,
                    },
                );
            },
        };
        let n2: NodeId = match self.resolve(&node_2) {
            Some(n) => n,
            None => {
                return Err(
                    LoadError::UnknownPubkey {
                        path: path.to_owned(),
                        row: self.rows + 2,
                        pubkey: node_2,
                    },
                );
            },
        };
        let ghost number = scid@;
        self.scid_seen.insert(id, scid);
        if n1 != n2 {
            self.channels.push((id, n1, n2));
        }
        self.rows = self.rows + 1;
        proof {
            let now = self.loaded();
            assert(now.numbers =~= before.numbers.insert(id, number));
            assert(before.nodes.contains(n1) && before.nodes.contains(n2)) by {
                assert(before.names.dom().contains(n1));
                assert(before.names.dom().contains(n2));
            }
        }
        Ok(())
    }

    /// The snapshot of what was loaded.
    pub fn finish(self) -> (r: LnSnapshot)
        requires
            self.wf(),
        ensures
            r.nodes@ == self.loaded().nodes,
            r.channels@ == self.loaded().channels,
            map_texts(r.pubkey_of@) == self.loaded().names,
    {
        let SnapshotBuilder { seed: _, nodes, pubkey_of, channels, scid_seen: _, rows: _ } = self;
        LnSnapshot { nodes, channels, pubkey_of }
    }
}

proof fn lemma_push_contains(s: Seq<u64>, x: u64)
    ensures
        forall|y: u64| #[trigger] s.push(x).contains(y) <==> s.contains(y) || y == x,
{
    assert forall|y: u64| #[trigger] s.push(x).contains(y) <==> s.contains(y) || y == x by {
        if s.contains(y) {
            assert(s.push(x)[s.index_of(y)] == y);
        }
        if y == x {
            assert(s.push(x)[s.len() as int] == x);
        }
        if s.push(x).contains(y) && y != x {
            assert(s[s.push(x).index_of(y)] == y);
        }
    }
}

/// Pubkeys as texts.
pub open spec fn texts(v: Seq<String>) -> Seq<Seq<char>> {
    v.map_values(|s: String| s@)
}

/// Loads a snapshot from all of its rows, the channels from the file at
/// `channels_path`.
pub fn load(
    pubkeys: Vec<String>,
    channels: Vec<SnapshotChannel>,
    channels_path: &str,
    seed: u64,
) -> (r: Result<LnSnapshot, LoadError>)
    requires
        channels@.len() + 2 <= usize::MAX,
    ensures
        match all_nodes(seed, texts(pubkeys@)) {
            Ok(l) => match all_channels(l, seed, channels_path@, channels@) {
                Ok(done) => r matches Ok(snap) && snap.nodes@ == done.nodes && snap.channels@
                    == done.channels && map_texts(snap.pubkey_of@) == done.names && done.wf(seed),
                Err(e) => r matches Err(error) && error@ == e,
            },
            Err(e) => r matches Err(error) && error@ == e,
        },
{
    let mut builder = SnapshotBuilder::new(seed);
    let ghost names = texts(pubkeys@);
    let ghost rows = channels@;
    assert(names.take(0) =~= Seq::<Seq<char>>::empty());
    let mut i: usize = 0;
    while i < pubkeys.len()
        invariant
            i <= pubkeys@.len(),
            names == texts(pubkeys@),
            builder.wf(),
            builder.seeded_by() == seed,
            builder.loaded().rows == 0,
            all_nodes(seed, names.take(i as int)) == Ok::<Loaded, Fault>(builder.loaded()),
        decreases pubkeys@.len() - i,
    {
        proof {
            assert(names.take(i + 1).drop_last() =~= names.take(i as int));
            assert(names.take(i + 1).last() == pubkeys@[i as int]@);
        }
        match builder.add_node(pubkeys[i].clone()) {
            Ok(()) => {},
            Err(e) => {
                proof {
                    lemma_nodes_stop(seed, names, (i + 1) as nat);
                }
                return Err(e);
            },
        }
        i = i + 1;
    }
    assert(names.take(names.len() as int) =~= names);
    let ghost base = builder.loaded();
    assert(rows.take(0) =~= Seq::<SnapshotChannel>::empty());
    let mut j: usize = 0;
    while j < channels.len()
        invariant
            j <= channels@.len(),
            rows == channels@,
            rows.len() + 2 <= usize::MAX,
            builder.wf(),
            builder.seeded_by() == seed,
            builder.loaded().rows == j,
            all_nodes(seed, names) == Ok::<Loaded, Fault>(base),
            names == texts(pubkeys@),
            all_channels(base, seed, channels_path@, rows.take(j as int)) == Ok::<Loaded, Fault>(
                builder.loaded(),
            ),
        decreases channels@.len() - j,
    {
        proof {
            assert(rows.take(j + 1).drop_last() =~= rows.take(j as int));
            assert(rows.take(j + 1).last() == rows[j as int]);
        }
        let row = SnapshotChannel {
            scid: channels[j].scid.clone(),
            node_1: channels[j].node_1.clone(),
            node_2: channels[j].node_2.clone(),
        };
        match builder.add_channel(row, channels_path) {
            Ok(()) => {},
            Err(e) => {
                proof {
                    lemma_channels_stop(base, seed, channels_path@, rows, (j + 1) as nat);
                }
                return Err(e);
            },
        }
        j = j + 1;
    }
    assert(rows.take(rows.len() as int) =~= rows);
    Ok(builder.finish())
}

/// An error in the first rows is the error of all of them.
proof fn lemma_nodes_stop(seed: u64, pubkeys: Seq<Seq<char>>, upto: nat)
    requires
        upto <= pubkeys.len(),
        all_nodes(seed, pubkeys.take(upto as int)) is Err,
    ensures
        all_nodes(seed, pubkeys) == all_nodes(seed, pubkeys.take(upto as int)),
    decreases pubkeys.len(),
{
    if upto == pubkeys.len() {
        assert(pubkeys.take(upto as int) =~= pubkeys);
    } else {
        let init = pubkeys.drop_last();
        assert(init.take(upto as int) =~= pubkeys.take(upto as int));
        lemma_nodes_stop(seed, init, upto);
    }
}

proof fn lemma_channels_stop(
    l: Loaded,
    seed: u64,
    path: Seq<char>,
    rows: Seq<SnapshotChannel>,
    upto: nat,
)
    requires
        upto <= rows.len(),
        all_channels(l, seed, path, rows.take(upto as int)) is Err,
    ensures
        all_channels(l, seed, path, rows) == all_channels(
            l,
            seed,
            path,
            rows.take(upto as int),
        ),
    decreases rows.len(),
{
    if upto == rows.len() {
        assert(rows.take(upto as int) =~= rows);
    } else {
        let init = rows.drop_last();
        assert(init.take(upto as int) =~= rows.take(upto as int));
        lemma_channels_stop(l, seed, path, init, upto);
    }
}

/// In what is loaded every channel joins two different loaded nodes, no
/// node occurs twice, and every node's pubkey hashes back to its id.
pub proof fn loaded_snapshot_is_closed(l: Loaded, seed: u64, i: int, j: int)
    requires
        l.wf(seed),
        0 <= i < l.channels.len(),
        0 <= j < l.nodes.len(),
    ensures
        l.nodes.contains(l.channels[i].1),
        l.nodes.contains(l.channels[i].2),
        l.channels[i].1 != l.channels[i].2,
        l.names.dom().contains(l.nodes[j]),
        node_id(seed, l.names[l.nodes[j]]) == l.nodes[j],
        forall|k: int| 0 <= k < l.nodes.len() && k != j ==> l.nodes[k] != l.nodes[j],
{
    assert(l.nodes.contains(l.nodes[j]));
}

/// The nodes of a snapshot are those of its keys, each once, each known
/// by the key it came from. They can be loaded where no two different
/// keys fall on one id, and the fault names two keys that do.
pub proof fn nodes_are_those_of_the_keys(seed: u64, keys: Seq<Seq<char>>, id: NodeId)
    ensures
        all_nodes(seed, keys) matches Ok(l) ==> {
            &&& l.nodes.no_duplicates()
            &&& l.nodes.contains(id) <==> exists|i: int|
                0 <= i < keys.len() && node_id(seed, #[trigger] keys[i]) == id
            &&& forall|i: int|
                0 <= i < keys.len() ==> l.names.dom().contains(node_id(seed, #[trigger] keys[i]))
                    && l.names[node_id(seed, keys[i])] == keys[i]
            &&& l.names.dom().contains(id) <==> l.nodes.contains(id)
            &&& l.channels.len() == 0
            &&& l.rows == 0
        },
        all_nodes(seed, keys) is Ok <==> forall|i: int, j: int|
            0 <= i < keys.len() && 0 <= j < keys.len() && node_id(seed, #[trigger] keys[i])
                == node_id(seed, #[trigger] keys[j]) ==> keys[i] == keys[j],
        all_nodes(seed, keys) matches Err(e) ==> (e matches Fault::PubkeyHashCollision {
            a,
            b,
            seed: s,
        } && s == seed && a != b && node_id(seed, a) == node_id(seed, b) && keys.contains(a)
            && keys.contains(b)),
    decreases keys.len(),
{
    if keys.len() > 0 {
        let init = keys.drop_last();
        let last = keys.last();
        let own = node_id(seed, last);
        nodes_are_those_of_the_keys(seed, init, id);
        nodes_are_those_of_the_keys(seed, init, own);
        assert(keys[keys.len() - 1] == last);
        assert(keys.contains(last));
        assert(forall|i: int| 0 <= i < init.len() ==> #[trigger] keys[i] == init[i]);
        assert(forall|i: int| 0 <= i < init.len() ==> keys[i] == #[trigger] init[i]);
        assert forall|x: Seq<char>| init.contains(x) implies #[trigger] keys.contains(x) by {
            let i = init.index_of(x);
            assert(keys[i] == x);
        }
        match all_nodes(seed, init) {
            Ok(l) => {
                if l.names.dom().contains(own) {
                    assert(l.nodes.contains(own));
                    let i = choose|i: int|
                        0 <= i < init.len() && node_id(seed, #[trigger] init[i]) == own;
                    assert(l.names[own] == init[i]);
                    assert(init.contains(init[i]));
                    assert(keys[i] == init[i]);
                    if init[i] != last {
                        assert(node_id(seed, keys[i]) == node_id(seed, keys[keys.len() - 1]));
                    }
                } else {
                    assert(!l.nodes.contains(own));
                    let now = l.nodes.push(own);
                    assert(now[l.nodes.len() as int] == own);
                    if l.nodes.contains(id) {
                        let p = l.nodes.index_of(id);
                        assert(now[p] == id);
                    }
                    if now.contains(id) && id != own {
                        let p = now.index_of(id);
                        assert(l.nodes[p] == id);
                    }
                    assert forall|i: int| 0 <= i < init.len() implies node_id(
                        seed,
                        #[trigger] init[i],
                    ) != own by {
                    }
                }
                if l.nodes.contains(id) {
                    let i = choose|i: int|
                        0 <= i < init.len() && node_id(seed, #[trigger] init[i]) == id;
                    assert(node_id(seed, keys[i]) == id);
                }
                if exists|i: int| 0 <= i < keys.len() && node_id(seed, #[trigger] keys[i]) == id {
                    let i = choose|i: int|
                        0 <= i < keys.len() && node_id(seed, #[trigger] keys[i]) == id;
                    if i < init.len() {
                        assert(node_id(seed, init[i]) == id);
                    }
                }
            },
            Err(_) => {
                let (i, j) = choose|i: int, j: int|
                    0 <= i < init.len() && 0 <= j < init.len() && node_id(seed, #[trigger] init[i])
                        == node_id(seed, #[trigger] init[j]) && init[i] != init[j];
                assert(keys[i] == init[i] && keys[j] == init[j]);
            },
        }
    } else {
        assert(forall|x: NodeId| !unloaded().nodes.contains(x));
    }
}

/// A channel row is loaded behind the rows before it. It needs both of
/// its ends among the nodes, and a number whose id belongs to no other
/// number; the fault says which end is missing, in which line of the
/// file, or which two numbers collide. A channel from a node to itself is
/// counted as a row but not kept.
pub proof fn channel_needs_both_its_ends(
    l: Loaded,
    seed: u64,
    path: Seq<char>,
    rows: Seq<SnapshotChannel>,
    row: SnapshotChannel,
)
    requires
        all_channels(l, seed, path, rows) is Ok,
    ensures
        ({
            let before = all_channels(l, seed, path, rows)->Ok_0;
            let now = all_channels(l, seed, path, rows.push(row));
            let n1 = node_id(seed, row.node_1@);
            let n2 = node_id(seed, row.node_2@);
            let id = scid_id(seed, row.scid@);
            let has1 = l.names.dom().contains(n1) && l.names[n1] == row.node_1@;
            let has2 = l.names.dom().contains(n2) && l.names[n2] == row.node_2@;
            let taken = before.numbers.dom().contains(id) && before.numbers[id] != row.scid@;
            &&& before.nodes == l.nodes && before.names == l.names
            &&& before.rows == l.rows + rows.len()
            &&& rows.len() == 0 ==> before == l
            &&& now is Ok <==> has1 && has2 && !taken
            &&& now matches Ok(done) ==> {
                &&& done.channels == if n1 == n2 {
                    before.channels
                } else {
                    before.channels.push((id, n1, n2))
                }
                &&& done.numbers.dom().contains(id) && done.numbers[id] == row.scid@
                &&& forall|other: Scid|
                    other != id ==> (#[trigger] done.numbers.dom().contains(other)
                        <==> before.numbers.dom().contains(other)) && done.numbers[other]
                        == before.numbers[other]
            }
            &&& taken ==> now == Err::<Loaded, Fault>(
                Fault::ScidHashCollision { a: before.numbers[id], b: row.scid@, seed },
            )
            &&& !taken && !(has1 && has2) ==> now == Err::<Loaded, Fault>(
                Fault::UnknownPubkey {
                    path,
                    row: l.rows + rows.len() + 2,
                    pubkey: if has1 {
                        row.node_2@
                    } else {
                        row.node_1@
                    },
                },
            )
        }),
    decreases rows.len(),
{
    assert(rows.push(row).drop_last() =~= rows);
    if rows.len() > 0 {
        channel_needs_both_its_ends(l, seed, path, rows.drop_last(), rows.last());
        assert(rows.drop_last().push(rows.last()) =~= rows);
    }
}

/// The first fault ends the loading: what follows does not change it.
pub proof fn first_fault_stands(
    l: Loaded,
    seed: u64,
    path: Seq<char>,
    rows: Seq<SnapshotChannel>,
    row: SnapshotChannel,
    keys: Seq<Seq<char>>,
    key: Seq<char>,
)
    ensures
        all_channels(l, seed, path, rows) is Err ==> all_channels(l, seed, path, rows.push(row))
            == all_channels(l, seed, path, rows),
        all_nodes(seed, keys) is Err ==> all_nodes(seed, keys.push(key)) == all_nodes(seed, keys),
        all_nodes(seed, keys) is Ok && all_nodes(seed, keys.push(key)) is Ok ==> all_nodes(
            seed,
            keys.push(key),
        )->Ok_0.nodes.take(all_nodes(seed, keys)->Ok_0.nodes.len() as int) == all_nodes(
            seed,
            keys,
        )->Ok_0.nodes,
{
    assert(rows.push(row).drop_last() =~= rows);
    assert(keys.push(key).drop_last() =~= keys);
    if all_nodes(seed, keys) is Ok && all_nodes(seed, keys.push(key)) is Ok {
        let before = all_nodes(seed, keys)->Ok_0.nodes;
        assert(all_nodes(seed, keys.push(key))->Ok_0.nodes.take(before.len() as int) =~= before);
    }
}

/// Ids are hashes of the text, under the run's seed; a channel's id
/// leaves the top bit free, for the side.
pub proof fn ids_are_hashes_of_the_text(seed: u64, text: Seq<char>)
    ensures
        node_id(seed, text) == hashing::xxh3_64(
            seed ^ NODE_SUBSEED,
            vstd::utf8::encode_utf8(text),
        ),
        scid_id(seed, text) < 0x8000_0000_0000_0000,
        ({
            let hash = hashing::xxh3_64(seed ^ SCID_SUBSEED, vstd::utf8::encode_utf8(text));
            scid_id(seed, text) == hash || scid_id(seed, text) == hash - 0x8000_0000_0000_0000
        }),
{
    let hash = hashing::xxh3_64(seed ^ SCID_SUBSEED, vstd::utf8::encode_utf8(text));
    let mask = SCID_MASK;
    assert(hash & mask < 0x8000_0000_0000_0000 && (hash & mask == hash || hash & mask == hash
        - 0x8000_0000_0000_0000)) by (bit_vector)
        requires
            mask == 0x7fff_ffff_ffff_ffffu64,
    ;
}

} // verus!
