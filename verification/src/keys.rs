//! The shared, immutable key registry.
//!
//! The set of keys that any node can ever hold is fixed once the event
//! schedule is built: every gossip originates from a scheduled event or
//! reproduces one that did. The registry gives each key a dense index,
//! in order of first appearance, and keeps for every key the sizes of
//! its versions, so that per-node state needs neither keys nor sizes.

use std::sync::Arc;

use nohash_hasher::IntMap;
use vstd::prelude::*;

use crate::intmap;
use crate::message::{Direction, Gossip, GossipKind, NodeId, Scid, SketchKind};
use crate::time::SimDuration;

verus! {

/// An event of the schedule: when it fires, the node that originates,
/// and the gossip it originates.
pub type ScheduledEvent = (SimDuration, NodeId, Gossip);

/// The packed form of a channel side: the scid above one direction bit,
/// the scid's top bit falling off.
pub open spec fn cu_key(scid: Scid, direction: Direction) -> u64 {
    ((2 * scid) % 0x1_0000_0000_0000_0000 + direction % 2) as u64
}

/// Pack a channel side into a `u64`: the direction in bit 0, the scid
/// above it. Scids are below `2^63`, so nothing is lost.
pub fn pack_cu_key(scid: Scid, direction: Direction) -> (r: u64)
    ensures
        r == cu_key(scid, direction),
{
    proof {
        assert((scid << 1) == (2 * scid) % 0x1_0000_0000_0000_0000) by (bit_vector);
        assert((direction as u64 & 1) == direction % 2) by (bit_vector);
        let hi: u64 = scid << 1;
        let lo: u64 = direction as u64 & 1;
        assert((hi | lo) == hi + lo) by (bit_vector)
            requires
                hi == scid << 1,
                lo == direction as u64 & 1,
        ;
    }
    (scid << 1) | (direction as u64 & 1)
}

/// Inverse of [`pack_cu_key`].
pub fn unpack_cu_key(packed: u64) -> (r: (Scid, Direction))
    ensures
        r.0 == packed / 2,
        r.1 == packed % 2,
{
    proof {
        assert(packed >> 1 == packed / 2) by (bit_vector);
        assert((packed & 1) == packed % 2) by (bit_vector);
    }
    (packed >> 1, (packed & 1) as Direction)
}

/// Packing is undone by unpacking, for scids of 63 bits.
pub proof fn pack_unpack(scid: Scid, direction: Direction)
    requires
        scid < 0x8000_0000_0000_0000,
        direction <= 1,
    ensures
        cu_key(scid, direction) / 2 == scid,
        cu_key(scid, direction) % 2 == direction,
{
}

/// Unpacking is undone by packing, for every key.
pub proof fn unpack_pack(packed: u64)
    ensures
        cu_key(packed / 2, (packed % 2) as u8) == packed,
{
}

impl Gossip {
    /// The message names what its kind is keyed by: a scid for channel
    /// messages, an origin for node announcements.
    pub open spec fn is_keyed(self) -> bool {
        match self.kind {
            GossipKind::ChannelUpdate => self.scid is Some,
            GossipKind::NodeAnnouncement => self.origin is Some,
            GossipKind::ChannelAnnouncement => self.scid is Some,
        }
    }

    /// The key under which a node stores the message.
    pub open spec fn key(self) -> u64 {
        match self.kind {
            GossipKind::ChannelUpdate => cu_key(self.scid->0, self.direction),
            GossipKind::NodeAnnouncement => self.origin->0,
            GossipKind::ChannelAnnouncement => self.scid->0,
        }
    }

    /// See [`Gossip::key`].
    pub fn state_key(&self) -> (r: u64)
        requires
            self.is_keyed(),
        ensures
            r == self.key(),
    {
        match self.kind {
            GossipKind::ChannelUpdate => pack_cu_key(self.scid.unwrap(), self.direction),
            GossipKind::NodeAnnouncement => self.origin.unwrap(),
            GossipKind::ChannelAnnouncement => self.scid.unwrap(),
        }
    }
}

// ---------------------------------------------------------------------
// Versions of one key
// ---------------------------------------------------------------------

/// Timestamps strictly ascend.
pub open spec fn ascending(g: Seq<(u32, u16)>) -> bool {
    forall|i: int, j: int| 0 <= i < j < g.len() ==> (#[trigger] g[i]).0 < (#[trigger] g[j]).0
}

/// Timestamps ascend, equal ones next to each other.
pub open spec fn ordered(g: Seq<(u32, u16)>) -> bool {
    forall|i: int, j: int| 0 <= i <= j < g.len() ==> (#[trigger] g[i]).0 <= (#[trigger] g[j]).0
}

/// `out` holds one version of each timestamp of `all`, ascending. Where
/// `all` holds a timestamp more than once, any of its sizes may stand.
pub open spec fn versions_of(out: Seq<(u32, u16)>, all: Seq<(u32, u16)>) -> bool {
    &&& ascending(out)
    &&& forall|i: int| 0 <= i < out.len() ==> all.contains(#[trigger] out[i])
    &&& forall|j: int| 0 <= j < all.len() ==> has_ts(out, (#[trigger] all[j]).0)
}

/// Some version bears the timestamp `ts`.
pub open spec fn has_ts(g: Seq<(u32, u16)>, ts: u32) -> bool {
    exists|i: int| 0 <= i < g.len() && (#[trigger] g[i]).0 == ts
}

/// The position of the version with timestamp `ts`.
pub open spec fn ts_position(g: Seq<(u32, u16)>, ts: u32) -> int {
    choose|i: int| 0 <= i < g.len() && (#[trigger] g[i]).0 == ts
}

/// The size that a list of versions gives for `ts`: that of the version
/// with this timestamp; for want of one, that of the oldest; 0 where
/// there is no version. A sole version stands for every timestamp.
pub open spec fn size_in(g: Seq<(u32, u16)>, ts: u32) -> u16 {
    if g.len() == 0 {
        0
    } else if g.len() > 1 && has_ts(g, ts) {
        g[ts_position(g, ts)].1
    } else {
        g[0].1
    }
}

/// Sorts by timestamp with the standard library's
/// `slice::sort_unstable_by_key`: the result is ordered and holds the
/// same items; the order of equal timestamps is left open.
#[verifier::external_body]
fn sort_by_ts(v: &mut Vec<(u32, u16)>)
    ensures
        ordered(final(v)@),
        final(v)@.to_multiset() == old(v)@.to_multiset(),
{
    v.sort_unstable_by_key(|&(ts, _)| ts)
}

/// Version table of one timestamped kind in compressed rows: the
/// versions of dense index `i` are `values[offsets[i]..offsets[i + 1]]`,
/// ascending by timestamp.
pub struct VersionTable {
    values: Vec<(u32, u16)>,
    offsets: Vec<u32>,
}

/// Sum of the lengths of the groups.
pub open spec fn total_len(groups: Seq<Vec<(u32, u16)>>) -> nat
    decreases groups.len(),
{
    if groups.len() == 0 {
        0
    } else {
        total_len(groups.drop_last()) + groups.last()@.len()
    }
}

proof fn lemma_total_len_take(groups: Seq<Vec<(u32, u16)>>, n: int)
    requires
        0 <= n < groups.len(),
    ensures
        total_len(groups.take(n + 1)) == total_len(groups.take(n)) + groups[n]@.len(),
        total_len(groups.take(n + 1)) <= total_len(groups),
    decreases groups.len(),
{
    assert(groups.take(n + 1).drop_last() =~= groups.take(n));
    if n + 1 == groups.len() {
        assert(groups.take(n + 1) =~= groups);
    } else {
        lemma_total_len_take(groups.drop_last(), n);
        assert(groups.drop_last().take(n + 1) =~= groups.take(n + 1));
        assert(groups.drop_last().take(n) =~= groups.take(n));
    }
}

fn copy_versions(v: &Vec<(u32, u16)>) -> (r: Vec<(u32, u16)>)
    ensures
        r@ == v@,
{
    let mut out: Vec<(u32, u16)> = Vec::new();
    let n: usize = v.len();
    for k in 0..n
        invariant
            n == v@.len(),
            out@ == v@.take(k as int),
    {
        out.push(v[k]);
        assert(out@ =~= v@.take(k + 1));
    }
    assert(v@.take(n as int) =~= v@);
    out
}

/// `x` is the first of its timestamp in `v`.
spec fn first_of_its_ts(v: Seq<(u32, u16)>, x: (u32, u16)) -> bool {
    exists|j: int|
        0 <= j < v.len() && #[trigger] v[j] == x && forall|m: int|
            0 <= m < j ==> (#[trigger] v[m]).0 != x.0
}

/// Drop all but the first of each run of equal timestamps.
fn dedup_by_ts(v: &Vec<(u32, u16)>) -> (r: Vec<(u32, u16)>)
    requires
        ordered(v@),
    ensures
        versions_of(r@, v@),
        r@.len() <= v@.len(),
        forall|i: int| 0 <= i < r@.len() ==> first_of_its_ts(v@, #[trigger] r@[i]),
{
    let mut out: Vec<(u32, u16)> = Vec::new();
    let n: usize = v.len();
    for k in 0..n
        invariant
            n == v@.len(),
            ordered(v@),
            versions_of(out@, v@.take(k as int)),
            out@.len() <= k,
            k > 0 ==> out@.len() > 0 && out@.last().0 == v@[k - 1].0,
            forall|i: int| 0 <= i < out@.len() ==> first_of_its_ts(v@, #[trigger] out@[i]),
    {
        let item: (u32, u16) = v[k];
        let m: usize = out.len();
        let ghost before = out@;
        assert(v@.take(k + 1)[k as int] == item);
        assert forall|x: (u32, u16)| v@.take(k as int).contains(x) implies v@.take(
            k + 1,
        ).contains(x) by {
            let p = v@.take(k as int).index_of(x);
            assert(v@.take(k + 1)[p] == x);
        }
        if m == 0 || out[m - 1].0 != item.0 {
            assert(first_of_its_ts(v@, item)) by {
                assert(v@[k as int] == item);
                assert forall|p: int| 0 <= p < k implies (#[trigger] v@[p]).0 != item.0 by {
                    assert(v@[p].0 <= v@[k - 1].0 <= v@[k as int].0);
                }
            }
            out.push(item);
            assert(v@.take(k + 1).contains(item));
            assert(out@.last() == item);
            assert(has_ts(out@, item.0));
        } else {
            assert(has_ts(out@, item.0)) by {
                assert(out@[m - 1].0 == item.0);
            }
        }
        assert forall|j: int| 0 <= j < v@.take(k + 1).len() implies has_ts(
            out@,
            (#[trigger] v@.take(k + 1)[j]).0,
        ) by {
            if j < k {
                assert(v@.take(k as int)[j] == v@.take(k + 1)[j]);
                assert(has_ts(before, v@.take(k as int)[j].0));
                let i = ts_position(before, v@.take(k as int)[j].0);
                assert(before[i].0 == v@.take(k as int)[j].0);
                assert(out@[i] == before[i]);
            }
        }
    }
    assert(v@.take(n as int) =~= v@);
    out
}

/// What is a choice of versions of a rearranged list is one of the list.
proof fn lemma_versions_of_permuted(out: Seq<(u32, u16)>, a: Seq<(u32, u16)>, b: Seq<(u32, u16)>)
    requires
        versions_of(out, a),
        a.to_multiset() == b.to_multiset(),
    ensures
        versions_of(out, b),
{
    a.to_multiset_ensures();
    b.to_multiset_ensures();
    assert forall|i: int| 0 <= i < out.len() implies b.contains(#[trigger] out[i]) by {
        assert(a.contains(out[i]));
        assert(a.to_multiset().count(out[i]) > 0);
    }
    assert forall|j: int| 0 <= j < b.len() implies has_ts(out, (#[trigger] b[j]).0) by {
        assert(b.contains(b[j]));
        assert(b.to_multiset().count(b[j]) > 0);
        assert(a.contains(b[j]));
        let p = a.index_of(b[j]);
        assert(has_ts(out, a[p].0));
    }
}

impl VersionTable {
    /// All versions, those of one dense index after those of the one
    /// before.
    pub closed spec fn stored(&self) -> Seq<(u32, u16)> {
        self.values@
    }

    /// Where the versions of each dense index begin, and where the last
    /// ones end.
    pub closed spec fn bounds(&self) -> Seq<u32> {
        self.offsets@
    }

    /// Number of dense indices.
    pub open spec fn rows(&self) -> nat {
        (self.bounds().len() - 1) as nat
    }

    /// The versions of one dense index.
    pub open spec fn group(&self, i: int) -> Seq<(u32, u16)> {
        self.stored().subrange(self.bounds()[i] as int, self.bounds()[i + 1] as int)
    }

    /// The rows tile what is stored, and each is ascending.
    pub open spec fn wf(&self) -> bool {
        &&& self.bounds().len() >= 1
        &&& self.bounds()[0] == 0
        &&& self.bounds().last() == self.stored().len()
        &&& forall|i: int|
            0 <= i < self.rows() ==> #[trigger] self.bounds()[i] <= self.bounds()[i + 1]
                <= self.stored().len()
        &&& forall|i: int| 0 <= i < self.rows() ==> ascending(#[trigger] self.group(i))
    }

    /// Build the table from one list of versions per dense index. Two
    /// versions of the same second collapse to one.
    pub fn from_groups(groups: Vec<Vec<(u32, u16)>>) -> (r: Self)
        requires
            total_len(groups@) <= u32::MAX,
        ensures
            r.wf(),
            r.bounds().len() == groups@.len() + 1,
            r.bounds()[0] == 0,
            r.bounds().last() == r.stored().len(),
            forall|i: int|
                0 <= i < groups@.len() ==> #[trigger] r.bounds()[i] <= r.bounds()[i + 1],
            forall|i: int|
                0 <= i < groups@.len() ==> versions_of(#[trigger] r.group(i), groups@[i]@),
    {
        let mut values: Vec<(u32, u16)> = Vec::new();
        let mut offsets: Vec<u32> = Vec::new();
        offsets.push(0);
        let n: usize = groups.len();
        assert(groups@.take(0) =~= Seq::<Vec<(u32, u16)>>::empty());
        for k in 0..n
            invariant
                n == groups@.len(),
                total_len(groups@) <= u32::MAX,
                offsets@.len() == k + 1,
                offsets@[0] == 0,
                offsets@[k as int] == values@.len(),
                values@.len() <= total_len(groups@.take(k as int)),
                forall|i: int|
                    0 <= i < k ==> #[trigger] offsets@[i] <= offsets@[i + 1] <= values@.len(),
                forall|i: int|
                    0 <= i < k ==> versions_of(
                        values@.subrange(offsets@[i] as int, #[trigger] offsets@[i + 1] as int),
                        groups@[i]@,
                    ),
        {
            proof {
                lemma_total_len_take(groups@, k as int);
            }
            let mut sorted: Vec<(u32, u16)> = copy_versions(&groups[k]);
            sort_by_ts(&mut sorted);
            proof {
                sorted@.to_multiset_ensures();
                groups@[k as int]@.to_multiset_ensures();
            }
            let mut row: Vec<(u32, u16)> = dedup_by_ts(&sorted);
            let ghost row_view = row@;
            let ghost before = values@;
            let ghost offsets_before = offsets@;
            proof {
                lemma_versions_of_permuted(row@, sorted@, groups@[k as int]@);
            }
            values.append(&mut row);
            offsets.push(values.len() as u32);
            assert forall|i: int| 0 <= i < k + 1 implies versions_of(
                values@.subrange(offsets@[i] as int, #[trigger] offsets@[i + 1] as int),
                groups@[i]@,
            ) by {
                if i < k {
                    assert(offsets_before[i + 1] == offsets@[i + 1]);
                    assert(offsets_before[i] <= offsets_before[i + 1]);
                    assert(values@.subrange(offsets@[i] as int, offsets@[i + 1] as int)
                        =~= before.subrange(
                        offsets_before[i] as int,
                        offsets_before[i + 1] as int,
                    ));
                } else {
                    assert(values@.subrange(offsets@[i] as int, offsets@[i + 1] as int)
                        =~= row_view);
                }
            }
        }
        assert(groups@.take(n as int) =~= groups@);
        let r = VersionTable { values, offsets };
        assert forall|i: int| 0 <= i < groups@.len() implies versions_of(
            #[trigger] r.group(i),
            groups@[i]@,
        ) by {
            assert(offsets@[i + 1] == r.offsets@[i + 1]);
        }
        r
    }

    /// Exact size for dense index `idx` at timestamp `ts`.
    pub fn size_of(&self, idx: usize, ts: u32) -> (r: u16)
        requires
            self.wf(),
            idx < self.rows(),
        ensures
            r == size_in(self.group(idx as int), ts),
    {
        let n_offsets: usize = self.offsets.len();
        assert(idx + 1 < n_offsets);
        let lo: usize = self.offsets[idx] as usize;
        let hi: usize = self.offsets[idx + 1] as usize;
        let ghost g = self.group(idx as int);
        assert(ascending(g));
        if lo == hi {
            return 0;
        }
        if hi - lo == 1 {
            assert(g[0] == self.values@[lo as int]);
            return self.values[lo].1;
        }
        let mut a: usize = lo;
        let mut b: usize = hi;
        while a < b
            invariant
                lo <= a <= b <= hi <= self.values@.len(),
                hi - lo > 1,
                g == self.values@.subrange(lo as int, hi as int),
                g == self.group(idx as int),
                ascending(g),
                forall|i: int| 0 <= i < a - lo ==> (#[trigger] g[i]).0 < ts,
                forall|i: int| b - lo <= i < g.len() ==> (#[trigger] g[i]).0 > ts,
            decreases b - a,
        {
            let mid: usize = a + (b - a) / 2;
            let item: (u32, u16) = self.values[mid];
            assert(g[mid - lo] == item);
            if item.0 == ts {
                assert(has_ts(g, ts));
                let ghost p = ts_position(g, ts);
                assert(p == mid - lo) by {
                    assert(g[p].0 == ts);
                    if p < mid - lo {
                        assert(g[p].0 < g[mid - lo].0);
                    } else if p > mid - lo {
                        assert(g[mid - lo].0 < g[p].0);
                    }
                }
                return item.1;
            } else if item.0 < ts {
                a = mid + 1;
            } else {
                b = mid;
            }
        }
        assert(!has_ts(g, ts));
        assert(g[0] == self.values@[lo as int]);
        self.values[lo].1
    }
}

// ---------------------------------------------------------------------
// What the schedule says of the keys
// ---------------------------------------------------------------------

/// A key, with the timestamp and the size of one of its versions.
pub type Entry = (u64, u32, u16);

/// What an event adds to the registry. The timestamp is the firing
/// second, in 32 bits; a node announcement is keyed by its originator.
pub open spec fn event_entry(e: ScheduledEvent) -> Entry {
    (
        if e.2.kind == GossipKind::NodeAnnouncement {
            e.1
        } else {
            e.2.key()
        },
        (e.0.secs % 0x1_0000_0000) as u32,
        e.2.size_bytes,
    )
}

/// The entries of the events of one kind, in order.
pub open spec fn entries(events: Seq<ScheduledEvent>, kind: GossipKind) -> Seq<Entry>
    decreases events.len(),
{
    if events.len() == 0 {
        Seq::empty()
    } else if events.last().2.kind == kind {
        entries(events.drop_last(), kind).push(event_entry(events.last()))
    } else {
        entries(events.drop_last(), kind)
    }
}

/// The keys of the entries in order of first appearance, each once.
pub open spec fn distinct_keys(es: Seq<Entry>) -> Seq<u64>
    decreases es.len(),
{
    if es.len() == 0 {
        Seq::empty()
    } else {
        let d = distinct_keys(es.drop_last());
        if d.contains(es.last().0) {
            d
        } else {
            d.push(es.last().0)
        }
    }
}

/// The versions that the entries hold of `key`, in order.
pub open spec fn versions(es: Seq<Entry>, key: u64) -> Seq<(u32, u16)>
    decreases es.len(),
{
    if es.len() == 0 {
        Seq::empty()
    } else if es.last().0 == key {
        versions(es.drop_last(), key).push((es.last().1, es.last().2))
    } else {
        versions(es.drop_last(), key)
    }
}

/// The size that the last entry of `key` bears.
pub open spec fn last_size(es: Seq<Entry>, key: u64) -> u16
    decreases es.len(),
{
    if es.len() == 0 {
        0
    } else if es.last().0 == key {
        es.last().2
    } else {
        last_size(es.drop_last(), key)
    }
}

proof fn lemma_distinct_keys(es: Seq<Entry>)
    ensures
        distinct_keys(es).no_duplicates(),
        distinct_keys(es).len() <= es.len(),
        forall|i: int| 0 <= i < es.len() ==> distinct_keys(es).contains((#[trigger] es[i]).0),
    decreases es.len(),
{
    if es.len() > 0 {
        lemma_distinct_keys(es.drop_last());
        let d = distinct_keys(es.drop_last());
        let full = distinct_keys(es);
        assert forall|i: int| 0 <= i < es.len() implies full.contains((#[trigger] es[i]).0) by {
            if i < es.len() - 1 {
                assert(es.drop_last()[i] == es[i]);
                assert(d.contains(es[i].0));
                let p = d.index_of(es[i].0);
                assert(full[p] == es[i].0);
            } else if !d.contains(es.last().0) {
                assert(full[full.len() - 1] == es.last().0);
            }
        }
    }
}

proof fn lemma_versions_unused(es: Seq<Entry>, key: u64)
    requires
        !distinct_keys(es).contains(key),
    ensures
        versions(es, key).len() == 0,
    decreases es.len(),
{
    if es.len() > 0 {
        lemma_distinct_keys(es);
        assert(es[es.len() - 1].0 != key);
        let d = distinct_keys(es.drop_last());
        if d.contains(key) {
            let p = d.index_of(key);
            assert(distinct_keys(es)[p] == key);
        }
        lemma_versions_unused(es.drop_last(), key);
    }
}

proof fn lemma_entries_len(events: Seq<ScheduledEvent>, kind: GossipKind)
    ensures
        entries(events, kind).len() <= events.len(),
    decreases events.len(),
{
    if events.len() > 0 {
        lemma_entries_len(events.drop_last(), kind);
    }
}

/// `index` finds the position of each key of `keys`.
pub open spec fn indexes(index: Map<u64, u32>, keys: Seq<u64>) -> bool {
    &&& forall|k: u64| #[trigger]
        index.contains_key(k) ==> index[k] < keys.len() && keys[index[k] as int] == k
    &&& forall|i: int| 0 <= i < keys.len() ==> index.contains_key(#[trigger] keys[i])
}

proof fn lemma_total_len_push(groups: Seq<Vec<(u32, u16)>>, g: Vec<(u32, u16)>)
    ensures
        total_len(groups.push(g)) == total_len(groups) + g@.len(),
{
    assert(groups.push(g).drop_last() =~= groups);
}

proof fn lemma_total_len_update(groups: Seq<Vec<(u32, u16)>>, i: int, g: Vec<(u32, u16)>)
    requires
        0 <= i < groups.len(),
    ensures
        total_len(groups.update(i, g)) == total_len(groups) - groups[i]@.len() + g@.len(),
    decreases groups.len(),
{
    if i == groups.len() - 1 {
        assert(groups.update(i, g).drop_last() =~= groups.drop_last());
    } else {
        lemma_total_len_update(groups.drop_last(), i, g);
        assert(groups.update(i, g).drop_last() =~= groups.drop_last().update(i, g));
    }
}

/// Keys and versions of one timestamped kind, as far as the schedule
/// has been read.
struct KindBuilder {
    index: IntMap<u64, u32>,
    keys: Vec<u64>,
    groups: Vec<Vec<(u32, u16)>>,
}

impl KindBuilder {
    spec fn holds(&self, es: Seq<Entry>) -> bool {
        &&& self.keys@ == distinct_keys(es)
        &&& indexes(self.index@, self.keys@)
        &&& self.groups@.len() == self.keys@.len()
        &&& forall|i: int|
            0 <= i < self.keys@.len() ==> (#[trigger] self.groups@[i])@ == versions(
                es,
                self.keys@[i],
            )
        &&& total_len(self.groups@) == es.len()
    }

    fn new() -> (r: Self)
        ensures
            r.holds(Seq::empty()),
    {
        KindBuilder { index: IntMap::default(), keys: Vec::new(), groups: Vec::new() }
    }

    /// Add one version, and its key where it is new.
    fn record(&mut self, key: u64, ts: u32, size: u16, es: Ghost<Seq<Entry>>)
        requires
            old(self).holds(es@),
            es@.len() < u32::MAX,
        ensures
            final(self).holds(es@.push((key, ts, size))),
    {
        let ghost grown = es@.push((key, ts, size));
        proof {
            assert(grown.drop_last() =~= es@);
            lemma_distinct_keys(es@);
            lemma_distinct_keys(grown);
        }
        let found: Option<u32> = match intmap::map_get(&self.index, key) {
            Some(i) => Some(*i),
            None => None,
        };
        let idx: usize = match found {
            Some(i) => {
                assert(self.keys@[i as int] == key);
                i as usize
            },
            None => {
                assert(!self.keys@.contains(key)) by {
                    if self.keys@.contains(key) {
                        let p = self.keys@.index_of(key);
                        assert(self.index@.contains_key(self.keys@[p]));
                    }
                }
                proof {
                    lemma_versions_unused(es@, key);
                }
                let i: usize = self.keys.len();
                let ghost keys_before = self.keys@;
                let ghost groups_before = self.groups@;
                self.keys.push(key);
                let fresh: Vec<(u32, u16)> = Vec::new();
                proof {
                    lemma_total_len_push(groups_before, fresh);
                }
                self.groups.push(fresh);
                intmap::map_insert(&mut self.index, key, i as u32);
                assert forall|k: u64| #[trigger] self.index@.contains_key(k) implies self.index@[k]
                    < self.keys@.len() && self.keys@[self.index@[k] as int] == k by {}
                assert forall|j: int| 0 <= j < self.keys@.len() implies self.index@.contains_key(
                    #[trigger] self.keys@[j],
                ) by {
                    if j < i {
                        assert(keys_before[j] == self.keys@[j]);
                    }
                }
                i
            },
        };
        let ghost groups_mid = self.groups@;
        assert(self.keys@ =~= distinct_keys(grown));
        assert(self.groups@[idx as int]@ =~= versions(es@, key));
        self.groups[idx].push((ts, size));
        proof {
            lemma_total_len_update(groups_mid, idx as int, self.groups@[idx as int]);
            assert(self.groups@ =~= groups_mid.update(idx as int, self.groups@[idx as int]));
            assert forall|i: int| 0 <= i < self.keys@.len() implies (#[trigger] self.groups@[i])@
                == versions(grown, self.keys@[i]) by {
                if i == idx {
                    assert(self.groups@[i]@ =~= versions(grown, key));
                } else {
                    assert(self.groups@[i] == groups_mid[i]);
                    assert(self.keys@[i] != key);
                }
            }
        }
    }

    fn finish(self, es: Ghost<Seq<Entry>>) -> (r: KindKeys)
        requires
            self.holds(es@),
            es@.len() <= u32::MAX,
        ensures
            r.wf(),
            r.keys() == distinct_keys(es@),
            forall|i: int|
                0 <= i < r.keys().len() ==> versions_of(
                    #[trigger] r.versions(i),
                    versions(es@, r.keys()[i]),
                ),
    {
        proof {
            lemma_distinct_keys(es@);
        }
        let ghost groups = self.groups@;
        let r = KindKeys {
            index: self.index,
            key_by_idx: self.keys,
            versions: VersionTable::from_groups(self.groups),
        };
        assert forall|i: int| 0 <= i < r.keys().len() implies versions_of(
            #[trigger] r.versions(i),
            versions(es@, r.keys()[i]),
        ) by {
            assert(groups[i]@ == versions(es@, r.keys()[i]));
            assert(versions_of(r.versions.group(i), groups[i]@));
        }
        r
    }
}

/// Key data of one timestamped kind: the dense index of each key, the
/// key at each dense index, and the versions of each key.
pub struct KindKeys {
    index: IntMap<u64, u32>,
    key_by_idx: Vec<u64>,
    versions: VersionTable,
}

impl KindKeys {
    /// The key at each dense index.
    pub closed spec fn keys(&self) -> Seq<u64> {
        self.key_by_idx@
    }

    /// The versions of the key at one dense index.
    pub closed spec fn versions(&self, i: int) -> Seq<(u32, u16)> {
        self.versions.group(i)
    }

    /// The keys that have a dense index.
    pub closed spec fn universe(&self) -> Set<u64> {
        self.index@.dom()
    }

    /// The dense index of a key.
    pub closed spec fn position(&self, key: u64) -> int {
        self.index@[key] as int
    }

    pub closed spec fn wf(&self) -> bool {
        &&& indexes(self.index@, self.key_by_idx@)
        &&& self.key_by_idx@.len() <= u32::MAX
        &&& self.versions.wf()
        &&& self.versions.rows() == self.key_by_idx@.len()
    }

    /// The dense index finds a key, and every listed key has one.
    pub proof fn lemma_positions(&self)
        requires
            self.wf(),
        ensures
            forall|k: u64| #[trigger]
                self.universe().contains(k) ==> 0 <= self.position(k) < self.keys().len()
                    && self.keys()[self.position(k)] == k,
            forall|i: int|
                0 <= i < self.keys().len() ==> self.universe().contains(#[trigger] self.keys()[i]),
            self.keys().len() <= u32::MAX,
    {
        assert forall|k: u64| #[trigger] self.universe().contains(k) implies 0 <= self.position(k)
            < self.keys().len() && self.keys()[self.position(k)] == k by {
            assert(self.index@.contains_key(k));
        }
        assert forall|i: int| 0 <= i < self.keys().len() implies self.universe().contains(
            #[trigger] self.keys()[i],
        ) by {
            assert(self.index@.contains_key(self.key_by_idx@[i]));
        }
    }

    /// Whether `key` has a dense index.
    pub(crate) fn has(&self, key: u64) -> (r: bool)
        ensures
            r == self.universe().contains(key),
    {
        match intmap::map_get(&self.index, key) {
            Some(_) => true,
            None => false,
        }
    }

    /// The dense index of `key`.
    pub(crate) fn idx(&self, key: u64) -> (r: usize)
        requires
            self.wf(),
            self.universe().contains(key),
        ensures
            r == self.position(key),
            r < self.keys().len(),
            self.keys()[r as int] == key,
    {
        assert(self.index@.contains_key(key));
        match intmap::map_get(&self.index, key) {
            Some(i) => *i as usize,
            None => 0,
        }
    }

    /// The key at dense index `idx`.
    pub(crate) fn key_at(&self, idx: usize) -> (r: u64)
        requires
            idx < self.keys().len(),
        ensures
            r == self.keys()[idx as int],
    {
        self.key_by_idx[idx]
    }

    /// The size of the key at dense index `idx` at timestamp `ts`.
    pub(crate) fn size_of(&self, idx: usize, ts: u32) -> (r: u16)
        requires
            self.wf(),
            idx < self.keys().len(),
        ensures
            r == size_in(self.versions(idx as int), ts),
    {
        self.versions.size_of(idx, ts)
    }

    pub(crate) fn len(&self) -> (r: usize)
        ensures
            r == self.keys().len(),
    {
        self.key_by_idx.len()
    }
}

/// Key data of channel announcements, which carry one size per scid and
/// no timestamp.
pub struct ChanAnnKeys {
    index: IntMap<u64, u32>,
    key_by_idx: Vec<u64>,
    sizes: Vec<u16>,
}

impl ChanAnnKeys {
    /// The scid at each dense index.
    pub closed spec fn keys(&self) -> Seq<u64> {
        self.key_by_idx@
    }

    /// The size at one dense index.
    pub closed spec fn size(&self, i: int) -> u16 {
        self.sizes@[i]
    }

    /// The scids that have a dense index.
    pub closed spec fn universe(&self) -> Set<u64> {
        self.index@.dom()
    }

    /// The dense index of a scid.
    pub closed spec fn position(&self, key: u64) -> int {
        self.index@[key] as int
    }

    pub closed spec fn wf(&self) -> bool {
        &&& indexes(self.index@, self.key_by_idx@)
        &&& self.key_by_idx@.len() <= u32::MAX
        &&& self.sizes@.len() == self.key_by_idx@.len()
    }

    /// The dense index finds a scid, and every listed scid has one.
    pub proof fn lemma_positions(&self)
        requires
            self.wf(),
        ensures
            forall|k: u64| #[trigger]
                self.universe().contains(k) ==> 0 <= self.position(k) < self.keys().len()
                    && self.keys()[self.position(k)] == k,
            forall|i: int|
                0 <= i < self.keys().len() ==> self.universe().contains(#[trigger] self.keys()[i]),
            self.keys().len() <= u32::MAX,
    {
        assert forall|k: u64| #[trigger] self.universe().contains(k) implies 0 <= self.position(k)
            < self.keys().len() && self.keys()[self.position(k)] == k by {
            assert(self.index@.contains_key(k));
        }
        assert forall|i: int| 0 <= i < self.keys().len() implies self.universe().contains(
            #[trigger] self.keys()[i],
        ) by {
            assert(self.index@.contains_key(self.key_by_idx@[i]));
        }
    }

    /// Whether `key` has a dense index.
    pub(crate) fn has(&self, key: u64) -> (r: bool)
        ensures
            r == self.universe().contains(key),
    {
        match intmap::map_get(&self.index, key) {
            Some(_) => true,
            None => false,
        }
    }

    /// The dense index of `key`.
    pub(crate) fn idx(&self, key: u64) -> (r: usize)
        requires
            self.wf(),
            self.universe().contains(key),
        ensures
            r == self.position(key),
            r < self.keys().len(),
            self.keys()[r as int] == key,
    {
        assert(self.index@.contains_key(key));
        match intmap::map_get(&self.index, key) {
            Some(i) => *i as usize,
            None => 0,
        }
    }

    /// The scid at dense index `idx`.
    pub(crate) fn key_at(&self, idx: usize) -> (r: u64)
        requires
            idx < self.keys().len(),
        ensures
            r == self.keys()[idx as int],
    {
        self.key_by_idx[idx]
    }

    /// The size at dense index `idx`.
    pub(crate) fn size_at(&self, idx: usize) -> (r: u16)
        requires
            self.wf(),
            idx < self.keys().len(),
        ensures
            r == self.size(idx as int),
    {
        self.sizes[idx]
    }

    pub(crate) fn len(&self) -> (r: usize)
        ensures
            r == self.keys().len(),
    {
        self.key_by_idx.len()
    }
}

/// Build `key -> dense index` from a key list. Of a key that is listed
/// more than once the last position counts.
fn index_of(keys: &Vec<u64>) -> (r: IntMap<u64, u32>)
    requires
        keys@.len() <= u32::MAX,
    ensures
        indexes(r@, keys@),
{
    let mut m: IntMap<u64, u32> = IntMap::default();
    let n: usize = keys.len();
    for i in 0..n
        invariant
            n == keys@.len(),
            n <= u32::MAX,
            forall|k: u64| #[trigger]
                m@.contains_key(k) ==> m@[k] < i && keys@[m@[k] as int] == k,
            forall|j: int| 0 <= j < i ==> m@.contains_key(#[trigger] keys@[j]),
    {
        intmap::map_insert(&mut m, keys[i], i as u32);
    }
    m
}

/// The process-wide key registry, shared by every node's state.
pub struct KeyRegistry {
    pub(crate) chan_updates: Arc<KindKeys>,
    pub(crate) node_anns: Arc<KindKeys>,
    pub(crate) chan_anns: Arc<ChanAnnKeys>,
}

impl KeyRegistry {
    /// The keys of channel updates.
    pub closed spec fn update_keys(&self) -> KindKeys {
        *self.chan_updates
    }

    /// The keys of node announcements.
    pub closed spec fn node_keys(&self) -> KindKeys {
        *self.node_anns
    }

    /// The keys of channel announcements.
    pub closed spec fn announcement_keys(&self) -> ChanAnnKeys {
        *self.chan_anns
    }

    /// The keys of one kind by dense index.
    pub open spec fn keys(&self, kind: SketchKind) -> Seq<u64> {
        match kind {
            SketchKind::ChanUpdates => self.update_keys().keys(),
            SketchKind::NodeAnns => self.node_keys().keys(),
            SketchKind::ChanAnns => self.announcement_keys().keys(),
        }
    }

    /// The versions of the key at one dense index. A channel
    /// announcement has one, at timestamp 0.
    pub open spec fn versions(&self, kind: SketchKind, i: int) -> Seq<(u32, u16)> {
        match kind {
            SketchKind::ChanUpdates => self.update_keys().versions(i),
            SketchKind::NodeAnns => self.node_keys().versions(i),
            SketchKind::ChanAnns => seq![(0u32, self.announcement_keys().size(i))],
        }
    }

    pub open spec fn wf(&self) -> bool {
        &&& self.update_keys().wf()
        &&& self.node_keys().wf()
        &&& self.announcement_keys().wf()
    }

    pub(crate) proof fn lemma_parts(&self)
        ensures
            self.update_keys() == *self.chan_updates,
            self.node_keys() == *self.node_anns,
            self.announcement_keys() == *self.chan_anns,
    {
    }

    /// Derive the keys and their versions from the full event schedule.
    /// Dense indices go by first appearance, and a channel announcement
    /// takes the size that its scid was announced with last.
    pub fn build(events: &[ScheduledEvent]) -> (r: Self)
        requires
            events@.len() < u32::MAX,
            forall|i: int|
                0 <= i < events@.len() ==> (#[trigger] events@[i]).2.kind
                    == GossipKind::NodeAnnouncement || events@[i].2.is_keyed(),
        ensures
            r.wf(),
            forall|kind: SketchKind| #[trigger]
                r.keys(kind) == distinct_keys(entries(events@, kind.gossip_kind())),
            forall|kind: SketchKind, i: int|
                kind != SketchKind::ChanAnns && 0 <= i < r.keys(kind).len() ==> versions_of(
                    #[trigger] r.versions(kind, i),
                    versions(entries(events@, kind.gossip_kind()), r.keys(kind)[i]),
                ),
            forall|i: int|
                0 <= i < r.keys(SketchKind::ChanAnns).len() ==> #[trigger] r.versions(
                    SketchKind::ChanAnns,
                    i,
                ) == seq![
                    (
                        0u32,
                        last_size(
                            entries(events@, GossipKind::ChannelAnnouncement),
                            r.keys(SketchKind::ChanAnns)[i],
                        ),
                    ),
                ],
    {
        let mut cu = KindBuilder::new();
        let mut na = KindBuilder::new();
        let mut ca_index: IntMap<u64, u32> = IntMap::default();
        let mut ca_keys: Vec<u64> = Vec::new();
        let mut ca_sizes: Vec<u16> = Vec::new();
        let n: usize = events.len();
        assert(events@.take(0) =~= Seq::<ScheduledEvent>::empty());
        for k in 0..n
            invariant
                n == events@.len(),
                n < u32::MAX,
                forall|i: int|
                    0 <= i < events@.len() ==> (#[trigger] events@[i]).2.kind
                        == GossipKind::NodeAnnouncement || events@[i].2.is_keyed(),
                cu.holds(entries(events@.take(k as int), GossipKind::ChannelUpdate)),
                na.holds(entries(events@.take(k as int), GossipKind::NodeAnnouncement)),
                ca_keys@ == distinct_keys(
                    entries(events@.take(k as int), GossipKind::ChannelAnnouncement),
                ),
                indexes(ca_index@, ca_keys@),
                ca_sizes@.len() == ca_keys@.len(),
                forall|i: int|
                    0 <= i < ca_keys@.len() ==> #[trigger] ca_sizes@[i] == last_size(
                        entries(events@.take(k as int), GossipKind::ChannelAnnouncement),
                        ca_keys@[i],
                    ),
        {
            let (delay, node, g) = events[k];
            assert(events@[k as int] == (delay, node, g));
            let ghost past = events@.take(k as int);
            let ghost now = events@.take(k + 1);
            proof {
                assert(now.drop_last() =~= past);
                assert(now.last() == events@[k as int]);
                lemma_entries_len(past, GossipKind::ChannelUpdate);
                lemma_entries_len(past, GossipKind::NodeAnnouncement);
                lemma_entries_len(past, GossipKind::ChannelAnnouncement);
            }
            let secs: u64 = delay.as_secs();
            assert(secs as u32 == secs % 0x1_0000_0000) by (bit_vector);
            let ts: u32 = #[verifier::truncate]
            (secs as u32);
            match g.kind {
                GossipKind::ChannelUpdate => {
                    let key: u64 = g.state_key();
                    cu.record(
                        key,
                        ts,
                        g.size_bytes,
                        Ghost(entries(past, GossipKind::ChannelUpdate)),
                    );
                },
                GossipKind::NodeAnnouncement => {
                    na.record(
                        node,
                        ts,
                        g.size_bytes,
                        Ghost(entries(past, GossipKind::NodeAnnouncement)),
                    );
                },
                GossipKind::ChannelAnnouncement => {
                    let key: u64 = g.state_key();
                    let ghost es = entries(past, GossipKind::ChannelAnnouncement);
                    let ghost grown = entries(now, GossipKind::ChannelAnnouncement);
                    proof {
                        assert(grown == es.push((key, ts, g.size_bytes)));
                        assert(grown.drop_last() =~= es);
                        lemma_distinct_keys(es);
                        lemma_distinct_keys(grown);
                    }
                    let found: Option<u32> = match intmap::map_get(&ca_index, key) {
                        Some(i) => Some(*i),
                        None => None,
                    };
                    match found {
                        Some(i) => {
                            assert(ca_keys@[i as int] == key);
                            let ghost sizes_before = ca_sizes@;
                            ca_sizes.set(i as usize, g.size_bytes);
                            assert forall|j: int| 0 <= j < ca_keys@.len() implies #[trigger] ca_sizes@[j]
                                == last_size(grown, ca_keys@[j]) by {
                                if j != i {
                                    assert(ca_keys@[j] != key);
                                    assert(ca_sizes@[j] == sizes_before[j]);
                                }
                            }
                        },
                        None => {
                            assert(!ca_keys@.contains(key)) by {
                                if ca_keys@.contains(key) {
                                    let p = ca_keys@.index_of(key);
                                    assert(ca_index@.contains_key(ca_keys@[p]));
                                }
                            }
                            let ghost keys_before = ca_keys@;
                            let ghost sizes_before = ca_sizes@;
                            intmap::map_insert(&mut ca_index, key, ca_keys.len() as u32);
                            ca_keys.push(key);
                            ca_sizes.push(g.size_bytes);
                            assert forall|j: int| 0 <= j < ca_keys@.len() implies #[trigger] ca_sizes@[j]
                                == last_size(grown, ca_keys@[j]) by {
                                if j < keys_before.len() {
                                    assert(ca_keys@[j] == keys_before[j]);
                                    assert(keys_before.contains(keys_before[j]));
                                    assert(ca_keys@[j] != key);
                                    assert(ca_sizes@[j] == sizes_before[j]);
                                }
                            }
                            assert forall|j: int| 0 <= j < ca_keys@.len() implies ca_index@.contains_key(
                                #[trigger] ca_keys@[j],
                            ) by {
                                if j < keys_before.len() {
                                    assert(ca_keys@[j] == keys_before[j]);
                                }
                            }
                        },
                    }
                },
            }
        }
        assert(events@.take(n as int) =~= events@);
        proof {
            lemma_entries_len(events@, GossipKind::ChannelUpdate);
            lemma_entries_len(events@, GossipKind::NodeAnnouncement);
            lemma_entries_len(events@, GossipKind::ChannelAnnouncement);
            lemma_distinct_keys(entries(events@, GossipKind::ChannelAnnouncement));
        }
        let cu_keys = cu.finish(Ghost(entries(events@, GossipKind::ChannelUpdate)));
        let na_keys = na.finish(Ghost(entries(events@, GossipKind::NodeAnnouncement)));
        KeyRegistry {
            chan_updates: Arc::new(cu_keys),
            node_anns: Arc::new(na_keys),
            chan_anns: Arc::new(
                ChanAnnKeys { index: ca_index, key_by_idx: ca_keys, sizes: ca_sizes },
            ),
        }
    }

    /// Explicit key lists without versions: every recovered size is 0.
    pub fn from_keys(cu_keys: Vec<u64>, na_keys: Vec<u64>, ca_keys: Vec<u64>) -> (r: Self)
        requires
            cu_keys@.len() <= u32::MAX,
            na_keys@.len() <= u32::MAX,
            ca_keys@.len() <= u32::MAX,
        ensures
            r.wf(),
            r.keys(SketchKind::ChanUpdates) == cu_keys@,
            r.keys(SketchKind::NodeAnns) == na_keys@,
            r.keys(SketchKind::ChanAnns) == ca_keys@,
            forall|kind: SketchKind, i: int, ts: u32|
                0 <= i < r.keys(kind).len() ==> #[trigger] size_in(r.versions(kind, i), ts) == 0,
    {
        let mut ca_sizes: Vec<u16> = Vec::new();
        let ca_index = index_of(&ca_keys);
        let n: usize = ca_keys.len();
        for k in 0..n
            invariant
                ca_sizes@.len() == k,
                forall|i: int| 0 <= i < k ==> ca_sizes@[i] == 0,
        {
            ca_sizes.push(0);
        }
        KeyRegistry {
            chan_updates: Arc::new(unversioned(cu_keys)),
            node_anns: Arc::new(unversioned(na_keys)),
            chan_anns: Arc::new(
                ChanAnnKeys { index: ca_index, key_by_idx: ca_keys, sizes: ca_sizes },
            ),
        }
    }
}

/// Key data without versions.
fn unversioned(keys: Vec<u64>) -> (r: KindKeys)
    requires
        keys@.len() <= u32::MAX,
    ensures
        r.wf(),
        r.keys() == keys@,
        forall|i: int| 0 <= i < keys@.len() ==> #[trigger] r.versions(i).len() == 0,
{
    let index = index_of(&keys);
    let n: usize = keys.len();
    let mut groups: Vec<Vec<(u32, u16)>> = Vec::new();
    for k in 0..n
        invariant
            groups@.len() == k,
            forall|i: int| 0 <= i < k ==> (#[trigger] groups@[i])@.len() == 0,
            total_len(groups@) == 0,
    {
        let empty: Vec<(u32, u16)> = Vec::new();
        proof {
            lemma_total_len_push(groups@, empty);
        }
        groups.push(empty);
    }
    let ghost groups_view = groups@;
    let r = KindKeys { index, key_by_idx: keys, versions: VersionTable::from_groups(groups) };
    assert forall|i: int| 0 <= i < keys@.len() implies #[trigger] r.versions(i).len() == 0 by {
        assert(versions_of(r.versions.group(i), groups_view[i]@));
        if r.versions.group(i).len() > 0 {
            assert(groups_view[i]@.contains(r.versions.group(i)[0]));
        }
    }
    r
}

proof fn lemma_versions_members(es: Seq<Entry>, key: u64)
    ensures
        forall|v: (u32, u16)| #[trigger]
            versions(es, key).contains(v) <==> es.contains((key, v.0, v.1)),
    decreases es.len(),
{
    if es.len() > 0 {
        let init = es.drop_last();
        let last = es.last();
        lemma_versions_members(init, key);
        assert forall|v: (u32, u16)| #[trigger] versions(es, key).contains(v) <==> es.contains(
            (key, v.0, v.1),
        ) by {
            let e = (key, v.0, v.1);
            assert(es =~= init.push(last));
            if es.contains(e) {
                let p = es.index_of(e);
                if p < init.len() {
                    assert(init[p] == e);
                    assert(versions(init, key).contains(v));
                    let q = versions(init, key).index_of(v);
                    assert(versions(es, key)[q] == v);
                } else {
                    assert(versions(es, key).last() == v);
                }
            }
            if versions(es, key).contains(v) {
                let q = versions(es, key).index_of(v);
                if q < versions(init, key).len() {
                    assert(versions(init, key)[q] == v);
                    assert(versions(init, key).contains(v));
                    let p = init.index_of(e);
                    assert(es[p] == e);
                } else {
                    assert(es[es.len() - 1] == e);
                }
            }
        }
    }
}

proof fn lemma_entries_members(events: Seq<ScheduledEvent>, kind: GossipKind)
    ensures
        forall|i: int|
            0 <= i < events.len() && (#[trigger] events[i]).2.kind == kind ==> entries(
                events,
                kind,
            ).contains(event_entry(events[i])),
    decreases events.len(),
{
    if events.len() > 0 {
        let init = events.drop_last();
        lemma_entries_members(init, kind);
        assert forall|i: int|
            0 <= i < events.len() && (#[trigger] events[i]).2.kind == kind implies entries(
            events,
            kind,
        ).contains(event_entry(events[i])) by {
            let e = event_entry(events[i]);
            if i < init.len() {
                assert(init[i] == events[i]);
                let p = entries(init, kind).index_of(e);
                assert(entries(events, kind)[p] == e);
            } else {
                assert(entries(events, kind).last() == e);
            }
        }
    }
}

/// Every event's key has a dense index, and no key has two: the schedule
/// alone enumerates every key that a node will ever store.
pub proof fn schedule_covers_every_key(events: Seq<ScheduledEvent>, i: int)
    requires
        0 <= i < events.len(),
    ensures
        distinct_keys(entries(events, events[i].2.kind)).contains(event_entry(events[i]).0),
        distinct_keys(entries(events, events[i].2.kind)).no_duplicates(),
{
    let es = entries(events, events[i].2.kind);
    lemma_entries_members(events, events[i].2.kind);
    lemma_distinct_keys(es);
    let p = es.index_of(event_entry(events[i]));
    assert(es[p] == event_entry(events[i]));
}

/// The size recovered for a key at a timestamp is the size that the
/// schedule gives to that version, unless it gives it two.
pub proof fn recovered_size_is_exact(es: Seq<Entry>, out: Seq<(u32, u16)>, i: int)
    requires
        0 <= i < es.len(),
        versions_of(out, versions(es, es[i].0)),
        forall|j: int|
            0 <= j < es.len() && (#[trigger] es[j]).0 == es[i].0 && es[j].1 == es[i].1 ==> es[j].2
                == es[i].2,
    ensures
        size_in(out, es[i].1) == es[i].2,
{
    let (key, ts, size) = es[i];
    let all = versions(es, key);
    lemma_versions_members(es, key);
    assert(es.contains((key, ts, size)));
    assert(all.contains((ts, size)));
    let q = all.index_of((ts, size));
    assert(has_ts(out, all[q].0));
    let p = ts_position(out, ts);
    assert(out[p].0 == ts);
    assert(all.contains(out[p]));
    assert(es.contains((key, out[p].0, out[p].1)));
    let j = es.index_of((key, out[p].0, out[p].1));
    assert(es[j].2 == size);
}

/// What the schedule says of one kind is read off its events of that
/// kind, one by one and in order. Each is entered under its own subject,
/// with the second it falls in and its size: a channel update under its
/// channel and side, a channel announcement under its channel, a node
/// announcement under the node that sends it.
pub proof fn entries_follow_the_events(
    a: Seq<ScheduledEvent>,
    b: Seq<ScheduledEvent>,
    kind: GossipKind,
)
    ensures
        entries(a + b, kind) == entries(a, kind) + entries(b, kind),
        a.len() == 0 ==> entries(a, kind).len() == 0,
        a.len() == 1 && a[0].2.kind != kind ==> entries(a, kind).len() == 0,
        a.len() == 1 && a[0].2.kind == kind ==> entries(a, kind).len() == 1 && entries(a, kind)[0].2
            == a[0].2.size_bytes,
        a.len() == 1 && a[0].2.kind == kind && a[0].0.secs <= u32::MAX ==> entries(a, kind)[0].1
            == a[0].0.secs,
        a.len() == 1 && a[0].2.kind == kind && kind == GossipKind::NodeAnnouncement ==> entries(
            a,
            kind,
        )[0].0 == a[0].1,
        a.len() == 1 && a[0].2.kind == kind && kind == GossipKind::ChannelAnnouncement
            && a[0].2.scid is Some ==> entries(a, kind)[0].0 == a[0].2.scid->0,
        a.len() == 1 && a[0].2.kind == kind && kind == GossipKind::ChannelUpdate
            && a[0].2.scid is Some && a[0].2.scid->0 < 0x8000_0000_0000_0000 && a[0].2.direction <= 1
            ==> entries(a, kind)[0].0 == 2 * a[0].2.scid->0 + a[0].2.direction,
    decreases b.len(),
{
    if b.len() == 0 {
        assert(a + b =~= a);
        assert(entries(a, kind) + entries(b, kind) =~= entries(a, kind));
    } else {
        entries_follow_the_events(a, b.drop_last(), kind);
        assert((a + b).drop_last() =~= a + b.drop_last());
        assert(entries(a + b, kind) =~= entries(a, kind) + entries(b, kind));
    }
    if a.len() == 1 {
        reveal_with_fuel(entries, 2);
    }
}

/// The keys are those of the entries, each once, in the order in which
/// they first occur: more entries only add keys behind.
pub proof fn keys_are_listed_as_they_occur(a: Seq<Entry>, b: Seq<Entry>)
    ensures
        distinct_keys(a).no_duplicates(),
        forall|k: u64| #[trigger]
            distinct_keys(a).contains(k) <==> exists|i: int|
                0 <= i < a.len() && (#[trigger] a[i]).0 == k,
        distinct_keys(a).len() <= distinct_keys(a + b).len(),
        distinct_keys(a + b).take(distinct_keys(a).len() as int) == distinct_keys(a),
    decreases a.len(), b.len(),
{
    lemma_distinct_keys(a);
    assert forall|k: u64| #[trigger] distinct_keys(a).contains(k) implies exists|i: int|
        0 <= i < a.len() && (#[trigger] a[i]).0 == k by {
        if a.len() > 0 {
            let init = a.drop_last();
            keys_are_listed_as_they_occur(init, Seq::empty());
            if k == a.last().0 {
                assert(a[a.len() - 1].0 == k);
            } else {
                let before = distinct_keys(init);
                let p = distinct_keys(a).index_of(k);
                assert(p < before.len() ==> before[p] == k);
                assert(before.contains(k));
                let i = choose|i: int| 0 <= i < init.len() && (#[trigger] init[i]).0 == k;
                assert(a[i].0 == k);
            }
        }
    }
    assert forall|k: u64| (exists|i: int| 0 <= i < a.len() && (#[trigger] a[i]).0 == k) implies
        #[trigger] distinct_keys(a).contains(k) by {
        let i = choose|i: int| 0 <= i < a.len() && (#[trigger] a[i]).0 == k;
        assert(distinct_keys(a).contains(a[i].0));
    }
    if b.len() == 0 {
        assert(a + b =~= a);
        assert(distinct_keys(a).take(distinct_keys(a).len() as int) =~= distinct_keys(a));
    } else {
        keys_are_listed_as_they_occur(a, b.drop_last());
        assert((a + b).drop_last() =~= a + b.drop_last());
        assert(distinct_keys(a + b).take(distinct_keys(a).len() as int) =~= distinct_keys(
            a + b.drop_last(),
        ).take(distinct_keys(a).len() as int));
    }
}

/// The versions of a key are its entries, in order; the size that counts
/// where there are no versions is that of its last entry.
pub proof fn versions_follow_the_entries(a: Seq<Entry>, b: Seq<Entry>, key: u64)
    ensures
        versions(a + b, key) == versions(a, key) + versions(b, key),
        a.len() == 0 ==> versions(a, key).len() == 0,
        a.len() == 1 && a[0].0 != key ==> versions(a, key).len() == 0,
        a.len() == 1 && a[0].0 == key ==> versions(a, key) == seq![(a[0].1, a[0].2)],
        versions(b, key).len() > 0 ==> last_size(a + b, key) == versions(b, key).last().1,
        versions(b, key).len() == 0 ==> last_size(a + b, key) == last_size(a, key),
    decreases b.len(),
{
    if b.len() == 0 {
        assert(a + b =~= a);
        assert(versions(a, key) + versions(b, key) =~= versions(a, key));
    } else {
        versions_follow_the_entries(a, b.drop_last(), key);
        assert((a + b).drop_last() =~= a + b.drop_last());
        assert(versions(a + b, key) =~= versions(a, key) + versions(b, key));
    }
    if a.len() == 1 {
        reveal_with_fuel(versions, 2);
        if a[0].0 == key {
            assert(versions(a, key) =~= seq![(a[0].1, a[0].2)]);
        }
    }
}

/// The size at a timestamp is that of the version with this timestamp,
/// or of the first version where there is none.
pub proof fn size_is_that_of_the_version(g: Seq<(u32, u16)>, ts: u32, i: int)
    requires
        ascending(g),
        0 <= i < g.len(),
    ensures
        g[i].0 == ts ==> size_in(g, ts) == g[i].1,
        (forall|j: int| 0 <= j < g.len() ==> (#[trigger] g[j]).0 != ts) ==> size_in(g, ts)
            == g[0].1,
{
    if g[i].0 == ts {
        assert(has_ts(g, ts));
        let p = ts_position(g, ts);
        assert(g[p].0 == ts);
        if p < i {
            assert(g[p].0 < g[i].0);
        } else if i < p {
            assert(g[i].0 < g[p].0);
        }
    }
}

/// The versions kept of a key are its scheduled versions, one for each
/// second in which there is one, in order.
pub proof fn versions_are_kept_by_second(out: Seq<(u32, u16)>, all: Seq<(u32, u16)>, ts: u32)
    requires
        versions_of(out, all),
    ensures
        (exists|i: int| 0 <= i < out.len() && (#[trigger] out[i]).0 == ts) <==> (exists|j: int|
            0 <= j < all.len() && (#[trigger] all[j]).0 == ts),
        forall|i: int, j: int| 0 <= i < j < out.len() ==> (#[trigger] out[i]).0 < (
        #[trigger] out[j]).0,
        forall|i: int|
            0 <= i < out.len() ==> exists|j: int|
                0 <= j < all.len() && #[trigger] all[j] == #[trigger] out[i],
{
    assert forall|i: int| 0 <= i < out.len() implies exists|j: int|
        0 <= j < all.len() && #[trigger] all[j] == #[trigger] out[i] by {
        assert(all.contains(out[i]));
        let j = all.index_of(out[i]);
        assert(all[j] == out[i]);
    }
    if exists|j: int| 0 <= j < all.len() && (#[trigger] all[j]).0 == ts {
        let j = choose|j: int| 0 <= j < all.len() && (#[trigger] all[j]).0 == ts;
        assert(has_ts(out, all[j].0));
        let i = ts_position(out, ts);
        assert(out[i].0 == ts);
    }
    if exists|i: int| 0 <= i < out.len() && (#[trigger] out[i]).0 == ts {
        let i = choose|i: int| 0 <= i < out.len() && (#[trigger] out[i]).0 == ts;
        assert(all.contains(out[i]));
        let j = all.index_of(out[i]);
        assert(all[j].0 == ts);
    }
}

} // verus!
