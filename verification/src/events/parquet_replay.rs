//! Replay of a captured gossip trace.
//!
//! A trace row holds the time at which a message was first seen, its type
//! (1 channel announcement, 2 node announcement, 3 channel update), its
//! size, and the pubkey or channel number it is about. Rows ascend by
//! time; the first one is the start of the run, and rows past its end are
//! left out. Pubkeys and channel numbers are hashed as those of a snapshot
//! are, numbers by their decimal text.
//!
//! The trace is then shaped to the topology. A message about an entity
//! that the topology does not have goes to a random one that it has. No
//! entity emits more than one message of a class in ten minutes: an excess
//! message moves to a free window of its entity, failing that to a random
//! entity with a free window, and is dropped where there is none. Classes
//! are node announcements of a node, announcements of a channel, and
//! updates of each direction of a channel.
//!
//! The trace does not say which direction of a channel an update is for,
//! so directions alternate, channel by channel. A channel announcement is
//! originated by both owners.

use std::collections::{HashMap, HashSet};
use vstd::prelude::*;
use vstd::string::*;

use crate::channels;
use crate::channels::ChannelRegistry;
use crate::events::reshape;
use crate::events::reshape::ReshapeStats;
use crate::keys::ScheduledEvent;
use crate::message::{Direction, Gossip, GossipKind, NodeId, Scid};
use crate::time::SimDuration;
use crate::topology::ln_data;
use crate::topology::ln_data::{hash_pubkey, hash_scid_string};

verus! {

broadcast use vstd::std_specs::hash::group_hash_axioms;

/// Type of a channel announcement row.
pub const TYPE_CHANNEL_ANN: i16 = 1;

/// Type of a node announcement row.
pub const TYPE_NODE_ANN: i16 = 2;

/// Type of a channel update row.
pub const TYPE_CHANNEL_UPD: i16 = 3;

/// Length of a rate-limit window.
pub const WINDOW_SECS: u64 = 600;

/// Sub-seed of the draws that shape a trace.
pub const RESHAPE_SEED_SALT: u64 = 0x00C0_FFEE_DEAD_BEEF;

// ---------------------------------------------------------------------
// Directions
// ---------------------------------------------------------------------

/// Alternates the direction of each channel, from 0 on.
pub struct DirectionRotor {
    pub next: HashMap<Scid, Direction>,
}

/// The direction that is next for a channel.
pub open spec fn turn(m: Map<Scid, Direction>, scid: Scid) -> Direction {
    if m.dom().contains(scid) {
        m[scid]
    } else {
        0
    }
}

/// The directions after one more turn of a channel.
pub open spec fn turned(m: Map<Scid, Direction>, scid: Scid) -> Map<Scid, Direction> {
    m.insert(scid, (1 - turn(m, scid)) as u8)
}

impl DirectionRotor {
    /// Directions are 0 or 1.
    pub open spec fn wf(&self) -> bool {
        forall|s: Scid| #[trigger] self.next@.dom().contains(s) ==> self.next@[s] <= 1
    }

    /// The direction of the next update of a channel.
    pub fn next(&mut self, scid: Scid) -> (r: Direction)
        requires
            old(self).wf(),
        ensures
            final(self).wf(),
            r == turn(old(self).next@, scid),
            r <= 1,
            final(self).next@ == turned(old(self).next@, scid),
    {
        let d: Direction = match self.next.get(&scid) {
            Some(held) => *held,
            None => 0,
        };
        self.next.insert(scid, 1 - d);
        d
    }
}

impl Default for DirectionRotor {
    fn default() -> (r: Self)
        ensures
            r.wf(),
            r.next@ == Map::<Scid, Direction>::empty(),
    {
        DirectionRotor { next: HashMap::new() }
    }
}

/// Two updates of a channel in a row have different directions, whatever
/// other channels do in between.
pub proof fn directions_alternate(m: Map<Scid, Direction>, scid: Scid, other: Scid)
    requires
        turn(m, scid) <= 1,
        other != scid,
    ensures
        turn(turned(m, scid), scid) == 1 - turn(m, scid),
        turn(turned(turned(m, scid), scid), scid) == turn(m, scid),
        turn(turned(m, other), scid) == turn(m, scid),
{
}

// ---------------------------------------------------------------------
// Rows and events
// ---------------------------------------------------------------------

/// One row of a trace. What the trace leaves out is `None`.
#[derive(Debug)]
pub struct TraceRow {
    /// When the message was first seen, in microseconds.
    pub first_seen_us: Option<i64>,
    pub kind: Option<i16>,
    pub size: Option<i32>,
    /// Pubkey of a node announcement.
    pub orig_node: Option<String>,
    /// Channel number of the other types.
    pub scid: Option<u64>,
}

/// What a message is about.
#[derive(Debug, Clone, Copy, PartialEq, Eq, Structural)]
pub enum HomeEntity {
    /// An entity that the topology does not have.
    Unknown,
    Node(NodeId),
    Channel(Scid),
}

/// Kind of a message of a trace.
#[derive(Debug, Clone, Copy, PartialEq, Eq, Structural)]
pub enum LogicalKind {
    NodeAnnouncement,
    ChannelAnnouncement,
    ChannelUpdate { direction: Direction },
}

/// What the rate limit counts separately.
#[derive(Debug, Clone, Copy, PartialEq, Eq, Structural)]
pub enum BucketClass {
    NodeAnn,
    ChanAnn,
    ChanUpd0,
    ChanUpd1,
}

impl LogicalKind {
    /// Position of the kind in per-kind figures.
    pub open spec fn index(self) -> int {
        match self {
            LogicalKind::NodeAnnouncement => 0,
            LogicalKind::ChannelAnnouncement => 1,
            LogicalKind::ChannelUpdate { .. } => 2,
        }
    }

    /// The class of the kind.
    pub open spec fn class(self) -> BucketClass {
        match self {
            LogicalKind::NodeAnnouncement => BucketClass::NodeAnn,
            LogicalKind::ChannelAnnouncement => BucketClass::ChanAnn,
            LogicalKind::ChannelUpdate { direction } => if direction == 0 {
                BucketClass::ChanUpd0
            } else {
                BucketClass::ChanUpd1
            },
        }
    }

    /// See [`LogicalKind::index`].
    pub fn kind_idx(&self) -> (r: usize)
        ensures
            r == self.index(),
            r < 3,
    {
        match *self {
            LogicalKind::NodeAnnouncement => 0,
            LogicalKind::ChannelAnnouncement => 1,
            LogicalKind::ChannelUpdate { .. } => 2,
        }
    }

    /// See [`LogicalKind::class`].
    pub fn bucket_class(&self) -> (r: BucketClass)
        ensures
            r == self.class(),
    {
        match *self {
            LogicalKind::NodeAnnouncement => BucketClass::NodeAnn,
            LogicalKind::ChannelAnnouncement => BucketClass::ChanAnn,
            LogicalKind::ChannelUpdate { direction } => if direction == 0 {
                BucketClass::ChanUpd0
            } else {
                BucketClass::ChanUpd1
            },
        }
    }
}

/// One message of a trace.
#[derive(Debug)]
pub struct LogicalEvent {
    /// Time since the first row.
    pub delay: SimDuration,
    pub home: HomeEntity,
    pub kind: LogicalKind,
    pub size_bytes: u16,
    /// Pubkey or channel number as the trace has it.
    pub orig_id: String,
    pub was_orphan: bool,
    pub was_deferred: bool,
    pub was_reassigned: bool,
}

/// What an event says.
#[verifier::ext_equal]
pub struct Logical {
    pub delay: SimDuration,
    pub home: HomeEntity,
    pub kind: LogicalKind,
    pub size_bytes: u16,
    pub orig_id: Seq<char>,
    pub was_orphan: bool,
    pub was_deferred: bool,
    pub was_reassigned: bool,
}

impl View for LogicalEvent {
    type V = Logical;

    open spec fn view(&self) -> Logical {
        Logical {
            delay: self.delay,
            home: self.home,
            kind: self.kind,
            size_bytes: self.size_bytes,
            orig_id: self.orig_id@,
            was_orphan: self.was_orphan,
            was_deferred: self.was_deferred,
            was_reassigned: self.was_reassigned,
        }
    }
}

/// Every update is for direction 0 or 1.
pub open spec fn directed(events: Seq<Logical>) -> bool {
    forall|i: int|
        0 <= i < events.len() ==> ((#[trigger] events[i]).kind matches LogicalKind::ChannelUpdate {
            direction,
        } ==> direction <= 1)
}

/// Nothing has been done to the event since it was loaded: it bears no
/// mark but that of an unknown entity, and a known one fits its kind.
pub open spec fn untouched(e: Logical) -> bool {
    &&& e.was_orphan == (e.home is Unknown)
    &&& !e.was_deferred
    &&& !e.was_reassigned
    &&& e.home is Node ==> e.kind is NodeAnnouncement
    &&& e.home is Channel ==> !(e.kind is NodeAnnouncement)
}

/// Nothing has been done to any of the events.
pub open spec fn all_untouched(events: Seq<Logical>) -> bool {
    forall|i: int| 0 <= i < events.len() ==> untouched(#[trigger] events[i])
}

/// What a list of events says.
pub open spec fn logicals(v: Seq<LogicalEvent>) -> Seq<Logical> {
    v.map_values(|e: LogicalEvent| e@)
}

// ---------------------------------------------------------------------
// Decimal text
// ---------------------------------------------------------------------

/// A digit as a character.
pub open spec fn digit(d: int) -> char {
    (0x30 + d) as char
}

/// A number in decimal, without leading zeros.
pub open spec fn decimal(n: nat) -> Seq<char>
    decreases n,
{
    if n < 10 {
        seq![digit(n as int)]
    } else {
        decimal(n / 10).push(digit((n % 10) as int))
    }
}

/// Appends a digit.
fn push_digit(s: &mut String, d: u64)
    requires
        d < 10,
    ensures
        final(s)@ == old(s)@.push(digit(d as int)),
{
    let text: &str = match d {
        0 => "0",
        1 => "1",
        2 => "2",
        3 => "3",
        4 => "4",
        5 => "5",
        6 => "6",
        7 => "7",
        8 => "8",
        _ => "9",
    };
    proof {
        reveal_strlit("0");
        reveal_strlit("1");
        reveal_strlit("2");
        reveal_strlit("3");
        reveal_strlit("4");
        reveal_strlit("5");
        reveal_strlit("6");
        reveal_strlit("7");
        reveal_strlit("8");
        reveal_strlit("9");
        assert(text@ =~= seq![digit(d as int)]);
    }
    s.append(text);
    assert(s@ =~= old(s)@.push(digit(d as int)));
}

/// Writes a number in decimal.
pub fn to_decimal(n: u64) -> (r: String)
    ensures
        r@ == decimal(n as nat),
    decreases n,
{
    if n < 10 {
        let mut s: String = String::new();
        push_digit(&mut s, n);
        assert(s@ =~= seq![digit(n as int)]);
        s
    } else {
        let mut s: String = to_decimal(n / 10);
        push_digit(&mut s, n % 10);
        s
    }
}

// ---------------------------------------------------------------------
// Loading
// ---------------------------------------------------------------------

/// Counts of the rows of a trace.
#[derive(Debug, Clone, Copy, PartialEq, Eq, Structural)]
pub struct LoadStats {
    pub total_rows: usize,
    /// Rows whose size was too large and was cut.
    pub clamped_size: usize,
    /// Rows without the channel number that their type needs.
    pub bad_scid_at_load: usize,
    /// Rows without the pubkey that their type needs.
    pub bad_pk_at_load: usize,
    pub unknown_type: usize,
}

impl Default for LoadStats {
    fn default() -> (r: Self)
        ensures
            r == no_rows(),
    {
        LoadStats {
            total_rows: 0,
            clamped_size: 0,
            bad_scid_at_load: 0,
            bad_pk_at_load: 0,
            unknown_type: 0,
        }
    }
}

/// The counts before the first row.
pub open spec fn no_rows() -> LoadStats {
    LoadStats {
        total_rows: 0,
        clamped_size: 0,
        bad_scid_at_load: 0,
        bad_pk_at_load: 0,
        unknown_type: 0,
    }
}

/// What has been loaded of a trace.
#[verifier::ext_equal]
pub struct Load {
    /// Time of the first row.
    pub anchor: Option<i64>,
    pub turns: Map<Scid, Direction>,
    pub events: Seq<Logical>,
    pub clamped_size: nat,
    pub bad_scid_at_load: nat,
    pub bad_pk_at_load: nat,
    pub unknown_type: nat,
}

/// Nothing loaded.
pub open spec fn unloaded() -> Load {
    Load {
        anchor: None,
        turns: Map::empty(),
        events: Seq::empty(),
        clamped_size: 0,
        bad_scid_at_load: 0,
        bad_pk_at_load: 0,
        unknown_type: 0,
    }
}

/// What a trace is loaded against: the seed of the ids, the length of the
/// run in microseconds, the nodes and the channels of the topology.
#[verifier::ext_equal]
pub struct Frame {
    pub seed: u64,
    pub max_us: i64,
    pub nodes: Set<NodeId>,
    pub scids: Seq<Scid>,
}

/// A difference cut to 64 bits.
pub open spec fn clamped_difference(a: i64, b: i64) -> i64 {
    if a - b > i64::MAX {
        i64::MAX
    } else if a - b < i64::MIN {
        i64::MIN
    } else {
        (a - b) as i64
    }
}

/// A span of so many microseconds.
pub open spec fn micros(m: u64) -> SimDuration {
    SimDuration { secs: m / 1_000_000, nanos: ((m % 1_000_000) * 1000) as u32 }
}

/// The size of a message, at most what 16 bits hold.
pub open spec fn size_of(raw: i32) -> u16 {
    if raw <= 0 {
        0
    } else if raw > 0xFFFF {
        0xFFFF
    } else {
        raw as u16
    }
}

/// One more event.
pub open spec fn with_event(
    l: Load,
    delay: SimDuration,
    known: bool,
    home: HomeEntity,
    kind: LogicalKind,
    size_bytes: u16,
    orig_id: Seq<char>,
) -> Load {
    Load {
        events: l.events.push(
            Logical {
                delay,
                home: if known {
                    home
                } else {
                    HomeEntity::Unknown
                },
                kind,
                size_bytes,
                orig_id,
                was_orphan: !known,
                was_deferred: false,
                was_reassigned: false,
            },
        ),
        ..l
    }
}

/// What is loaded after one more row; `None` where the row is past the
/// end of the run, and with it all that follow.
pub open spec fn row_loaded(l: Load, f: Frame, row: TraceRow) -> Option<Load> {
    match row.first_seen_us {
        None => Some(l),
        Some(us) => {
            let anchor = match l.anchor {
                Some(a) => a,
                None => us,
            };
            let delay_us = clamped_difference(us, anchor);
            let l = Load { anchor: Some(anchor), ..l };
            if delay_us > f.max_us {
                None
            } else {
                let delay = micros(delay_us as u64);
                let kind = match row.kind {
                    Some(k) => k,
                    None => 0,
                };
                let raw = match row.size {
                    Some(s) => s,
                    None => 0,
                };
                let size = size_of(raw);
                let l = if raw > 0xFFFF {
                    Load { clamped_size: l.clamped_size + 1, ..l }
                } else {
                    l
                };
                if kind == TYPE_CHANNEL_UPD {
                    match row.scid {
                        None => Some(Load { bad_scid_at_load: l.bad_scid_at_load + 1, ..l }),
                        Some(number) => {
                            let text = decimal(number as nat);
                            let scid = ln_data::scid_id(f.seed, text);
                            let direction = turn(l.turns, scid);
                            Some(
                                with_event(
                                    Load { turns: turned(l.turns, scid), ..l },
                                    delay,
                                    f.scids.contains(scid),
                                    HomeEntity::Channel(scid),
                                    LogicalKind::ChannelUpdate { direction },
                                    size,
                                    text,
                                ),
                            )
                        },
                    }
                } else if kind == TYPE_NODE_ANN {
                    match row.orig_node {
                        None => Some(Load { bad_pk_at_load: l.bad_pk_at_load + 1, ..l }),
                        Some(pubkey) => {
                            let id = ln_data::node_id(f.seed, pubkey@);
                            Some(
                                with_event(
                                    l,
                                    delay,
                                    f.nodes.contains(id),
                                    HomeEntity::Node(id),
                                    LogicalKind::NodeAnnouncement,
                                    size,
                                    pubkey@,
                                ),
                            )
                        },
                    }
                } else if kind == TYPE_CHANNEL_ANN {
                    match row.scid {
                        None => Some(Load { bad_scid_at_load: l.bad_scid_at_load + 1, ..l }),
                        Some(number) => {
                            let text = decimal(number as nat);
                            let scid = ln_data::scid_id(f.seed, text);
                            Some(
                                with_event(
                                    l,
                                    delay,
                                    f.scids.contains(scid),
                                    HomeEntity::Channel(scid),
                                    LogicalKind::ChannelAnnouncement,
                                    size,
                                    text,
                                ),
                            )
                        },
                    }
                } else {
                    Some(Load { unknown_type: l.unknown_type + 1, ..l })
                }
            }
        },
    }
}

/// What is loaded after some rows, and whether one of them was past the
/// end of the run.
pub open spec fn rows_loaded(l: Load, f: Frame, rows: Seq<TraceRow>) -> (Load, bool)
    decreases rows.len(),
{
    if rows.len() == 0 {
        (l, false)
    } else {
        let (before, over) = rows_loaded(l, f, rows.drop_last());
        if over {
            (before, true)
        } else {
            match row_loaded(before, f, rows.last()) {
                Some(now) => (now, false),
                None => (before, true),
            }
        }
    }
}

/// What is loaded after some batches of rows, how many rows they held, and
/// whether the end of the run was passed. Nothing is read after that.
pub open spec fn batches_loaded(f: Frame, batches: Seq<Vec<TraceRow>>) -> (Load, nat, bool)
    decreases batches.len(),
{
    if batches.len() == 0 {
        (unloaded(), 0, false)
    } else {
        let (before, rows, over) = batches_loaded(f, batches.drop_last());
        if over {
            (before, rows, true)
        } else {
            let (now, over) = rows_loaded(before, f, batches.last()@);
            (now, rows + batches.last()@.len(), over)
        }
    }
}

impl SimDuration {
    /// Microseconds of the span, cut to what 63 bits hold.
    pub open spec fn capped_micros(self) -> int {
        let us = self.total_nanos() / 1000;
        if us > i64::MAX {
            i64::MAX as int
        } else {
            us as int
        }
    }
}

/// Reads a trace row by row.
pub struct TraceLoader {
    seed: u64,
    max_us: i64,
    nodes: HashSet<NodeId>,
    anchor: Option<i64>,
    rotor: DirectionRotor,
    events: Vec<LogicalEvent>,
    stats: LoadStats,
}

impl TraceLoader {
    /// What has been loaded.
    pub closed spec fn load(&self) -> Load {
        Load {
            anchor: self.anchor,
            turns: self.rotor.next@,
            events: logicals(self.events@),
            clamped_size: self.stats.clamped_size as nat,
            bad_scid_at_load: self.stats.bad_scid_at_load as nat,
            bad_pk_at_load: self.stats.bad_pk_at_load as nat,
            unknown_type: self.stats.unknown_type as nat,
        }
    }

    /// Number of rows of the batches so far.
    pub closed spec fn rows(&self) -> nat {
        self.stats.total_rows as nat
    }

    /// What the trace is loaded against.
    pub closed spec fn frame(&self, registry: &ChannelRegistry) -> Frame {
        Frame {
            seed: self.seed,
            max_us: self.max_us,
            nodes: self.nodes@,
            scids: registry.scids@,
        }
    }

    spec fn counts_within(&self, rows: nat) -> bool {
        &&& self.stats.clamped_size <= rows
        &&& self.stats.bad_scid_at_load <= rows
        &&& self.stats.bad_pk_at_load <= rows
        &&& self.stats.unknown_type <= rows
        &&& self.events@.len() <= rows
    }

    /// Directions are 0 or 1, and no count exceeds the number of rows.
    pub closed spec fn wf(&self) -> bool {
        self.rotor.wf() && self.max_us >= 0 && self.counts_within(self.rows()) && directed(
            self.load().events,
        ) && all_untouched(self.load().events)
    }

    /// Starts reading.
    pub fn new(seed: u64, snapshot_nodes: &Vec<NodeId>, max: SimDuration) -> (r: Self)
        requires
            max.wf(),
        ensures
            r.wf(),
            r.load() == unloaded(),
            r.rows() == 0,
            forall|registry: &ChannelRegistry|
                #![trigger r.frame(registry)]
                r.frame(registry) == (Frame {
                    seed,
                    max_us: max.capped_micros() as i64,
                    nodes: snapshot_nodes@.to_set(),
                    scids: registry.scids@,
                }),
    {
        let us: u128 = max.as_nanos() / 1000;
        let max_us: i64 = if us > 0x7FFF_FFFF_FFFF_FFFF {
            0x7FFF_FFFF_FFFF_FFFF
        } else {
            us as i64
        };
        let mut nodes: HashSet<NodeId> = HashSet::new();
        assert(nodes@ =~= snapshot_nodes@.take(0).to_set());
        for i in 0..snapshot_nodes.len()
            invariant
                nodes@ == snapshot_nodes@.take(i as int).to_set(),
        {
            nodes.insert(snapshot_nodes[i]);
            proof {
                let part = snapshot_nodes@.take(i as int);
                let x = snapshot_nodes@[i as int];
                assert(snapshot_nodes@.take(i + 1) =~= part.push(x));
                assert forall|y: u64| part.push(x).to_set().contains(y) == part.to_set().insert(
                    x,
                ).contains(y) by {
                    if part.contains(y) {
                        assert(part.push(x)[part.index_of(y)] == y);
                    }
                    if y == x {
                        assert(part.push(x)[part.len() as int] == x);
                    }
                    if part.push(x).contains(y) && y != x {
                        assert(part[part.push(x).index_of(y)] == y);
                    }
                }
                assert(part.push(x).to_set() =~= part.to_set().insert(x));
            }
        }
        assert(snapshot_nodes@.take(snapshot_nodes@.len() as int) =~= snapshot_nodes@);
        let r = TraceLoader {
            seed,
            max_us,
            nodes,
            anchor: None,
            rotor: DirectionRotor::default(),
            events: Vec::new(),
            stats: LoadStats::default(),
        };
        assert(r.load().events =~= Seq::empty());
        r
    }

    /// Adds an event.
    fn push_event(
        &mut self,
        delay: SimDuration,
        known: bool,
        home: HomeEntity,
        kind: LogicalKind,
        size_bytes: u16,
        orig_id: String,
    )
        ensures
            final(self).load() == with_event(
                old(self).load(),
                delay,
                known,
                home,
                kind,
                size_bytes,
                orig_id@,
            ),
            final(self).rotor == old(self).rotor,
            final(self).stats == old(self).stats,
            final(self).events@.len() == old(self).events@.len() + 1,
            final(self).seed == old(self).seed,
            final(self).max_us == old(self).max_us,
            final(self).nodes == old(self).nodes,
    {
        let e = LogicalEvent {
            delay,
            home: if known {
                home
            } else {
                HomeEntity::Unknown
            },
            kind,
            size_bytes,
            orig_id,
            was_orphan: !known,
            was_deferred: false,
            was_reassigned: false,
        };
        self.events.push(e);
        assert(self.load().events =~= old(self).load().events.push(e@));
    }

    /// Takes a row. Returns whether it is past the end of the run; it is
    /// then not taken.
    fn take_row(&mut self, row: &TraceRow, registry: &ChannelRegistry, Ghost(limit): Ghost<nat>) -> (
        over: bool)
        requires
            registry.wf(),
            old(self).rotor.wf(),
            old(self).max_us >= 0,
            old(self).counts_within(limit),
            limit < usize::MAX,
            directed(old(self).load().events),
            all_untouched(old(self).load().events),
        ensures
            directed(final(self).load().events),
            all_untouched(final(self).load().events),
            final(self).rotor.wf(),
            final(self).counts_within(limit + 1),
            final(self).rows() == old(self).rows(),
            final(self).frame(registry) == old(self).frame(registry),
            match row_loaded(old(self).load(), old(self).frame(registry), *row) {
                Some(l) => !over && final(self).load() == l,
                None => over && final(self).load() == old(self).load(),
            },
    {
        let us: i64 = match row.first_seen_us {
            Some(us) => us,
            None => {
                return false;
            },
        };
        let anchor: i64 = match self.anchor {
            Some(a) => a,
            None => us,
        };
        self.anchor = Some(anchor);
        let wide: i128 = us as i128 - anchor as i128;
        let delay_us: i64 = if wide > 0x7FFF_FFFF_FFFF_FFFF {
            0x7FFF_FFFF_FFFF_FFFF
        } else if wide < -0x8000_0000_0000_0000 {
            -0x8000_0000_0000_0000
        } else {
            wide as i64
        };
        if delay_us > self.max_us {
            return true;
        }
        let delay: SimDuration = SimDuration::from_micros(
            #[verifier::truncate]
            (delay_us as u64),
        );
        let kind: i16 = match row.kind {
            Some(k) => k,
            None => 0,
        };
        let raw: i32 = match row.size {
            Some(s) => s,
            None => 0,
        };
        let size: u16 = if raw <= 0 {
            0
        } else if raw > 0xFFFF {
            self.stats.clamped_size = self.stats.clamped_size + 1;
            0xFFFF
        } else {
            raw as u16
        };
        if kind == TYPE_CHANNEL_UPD {
            match row.scid {
                Some(number) => {
                    let text: String = to_decimal(number);
                    let scid: Scid = hash_scid_string(self.seed, text.as_str());
                    let known: bool = registry.knows_scid(scid);
                    let direction: Direction = self.rotor.next(scid);
                    self.push_event(
                        delay,
                        known,
                        HomeEntity::Channel(scid),
                        LogicalKind::ChannelUpdate { direction },
                        size,
                        text,
                    );
                },
                None => {
                    self.stats.bad_scid_at_load = self.stats.bad_scid_at_load + 1;
                },
            }
        } else if kind == TYPE_NODE_ANN {
            match &row.orig_node {
                Some(pubkey) => {
                    let id: NodeId = hash_pubkey(self.seed, pubkey.as_str());
                    let known: bool = self.nodes.contains(&id);
                    self.push_event(
                        delay,
                        known,
                        HomeEntity::Node(id),
                        LogicalKind::NodeAnnouncement,
                        size,
                        pubkey.clone(),
                    );
                },
                None => {
                    self.stats.bad_pk_at_load = self.stats.bad_pk_at_load + 1;
                },
            }
        } else if kind == TYPE_CHANNEL_ANN {
            match row.scid {
                Some(number) => {
                    let text: String = to_decimal(number);
                    let scid: Scid = hash_scid_string(self.seed, text.as_str());
                    let known: bool = registry.knows_scid(scid);
                    self.push_event(
                        delay,
                        known,
                        HomeEntity::Channel(scid),
                        LogicalKind::ChannelAnnouncement,
                        size,
                        text,
                    );
                },
                None => {
                    self.stats.bad_scid_at_load = self.stats.bad_scid_at_load + 1;
                },
            }
        } else {
            self.stats.unknown_type = self.stats.unknown_type + 1;
        }
        false
    }

    /// Takes a batch of rows. Returns whether one of them is past the end
    /// of the run; that row and those after it are not taken.
    pub fn take_batch(&mut self, rows: &Vec<TraceRow>, registry: &ChannelRegistry) -> (over: bool)
        requires
            registry.wf(),
            old(self).wf(),
            old(self).rows() + rows@.len() < usize::MAX,
        ensures
            final(self).wf(),
            final(self).rows() == old(self).rows() + rows@.len(),
            final(self).frame(registry) == old(self).frame(registry),
            (final(self).load(), over) == rows_loaded(
                old(self).load(),
                old(self).frame(registry),
                rows@,
            ),
    {
        let ghost start = self.load();
        let ghost f = self.frame(registry);
        let ghost base = self.rows();
        self.stats.total_rows = self.stats.total_rows + rows.len();
        assert(rows@.take(0) =~= Seq::<TraceRow>::empty());
        let mut i: usize = 0;
        while i < rows.len()
            invariant
                registry.wf(),
                i <= rows@.len(),
                self.rotor.wf(),
                self.max_us >= 0,
                directed(self.load().events),
                all_untouched(self.load().events),
                self.counts_within(base + i as nat),
                self.rows() == base + rows@.len(),
                base + rows@.len() < usize::MAX,
                base == old(self).rows(),
                f == old(self).frame(registry),
                start == old(self).load(),
                self.frame(registry) == f,
                (self.load(), false) == rows_loaded(start, f, rows@.take(i as int)),
            decreases rows@.len() - i,
        {
            proof {
                assert(rows@.take(i + 1).drop_last() =~= rows@.take(i as int));
                assert(rows@.take(i + 1).last() == rows@[i as int]);
            }
            let over: bool = self.take_row(&rows[i], registry, Ghost(base + i as nat));
            if over {
                proof {
                    lemma_rows_over(start, f, rows@, (i + 1) as nat);
                }
                return true;
            }
            i = i + 1;
        }
        assert(rows@.take(rows@.len() as int) =~= rows@);
        false
    }

    /// What was loaded.
    pub fn finish(self) -> (r: (Vec<LogicalEvent>, LoadStats))
        requires
            self.wf(),
        ensures
            directed(logicals(r.0@)),
            all_untouched(logicals(r.0@)),
            logicals(r.0@) == self.load().events,
            r.1.total_rows == self.rows(),
            r.1.clamped_size == self.load().clamped_size,
            r.1.bad_scid_at_load == self.load().bad_scid_at_load,
            r.1.bad_pk_at_load == self.load().bad_pk_at_load,
            r.1.unknown_type == self.load().unknown_type,
    {
        (self.events, self.stats)
    }
}

/// Once a row is past the end of the run, nothing more is loaded.
proof fn lemma_rows_over(l: Load, f: Frame, rows: Seq<TraceRow>, upto: nat)
    requires
        upto <= rows.len(),
        rows_loaded(l, f, rows.take(upto as int)).1,
    ensures
        rows_loaded(l, f, rows) == rows_loaded(l, f, rows.take(upto as int)),
    decreases rows.len(),
{
    if upto == rows.len() {
        assert(rows.take(upto as int) =~= rows);
    } else {
        let init = rows.drop_last();
        assert(init.take(upto as int) =~= rows.take(upto as int));
        lemma_rows_over(l, f, init, upto);
    }
}

proof fn lemma_batches_over(f: Frame, batches: Seq<Vec<TraceRow>>, upto: nat)
    requires
        upto <= batches.len(),
        batches_loaded(f, batches.take(upto as int)).2,
    ensures
        batches_loaded(f, batches) == batches_loaded(f, batches.take(upto as int)),
    decreases batches.len(),
{
    if upto == batches.len() {
        assert(batches.take(upto as int) =~= batches);
    } else {
        let init = batches.drop_last();
        assert(init.take(upto as int) =~= batches.take(upto as int));
        lemma_batches_over(f, init, upto);
    }
}

/// Sum of the lengths of the batches.
pub open spec fn row_count(batches: Seq<Vec<TraceRow>>) -> nat
    decreases batches.len(),
{
    if batches.len() == 0 {
        0
    } else {
        row_count(batches.drop_last()) + batches.last()@.len()
    }
}

proof fn lemma_row_count(batches: Seq<Vec<TraceRow>>, upto: nat)
    requires
        upto <= batches.len(),
    ensures
        row_count(batches.take(upto as int)) <= row_count(batches),
    decreases batches.len(),
{
    if upto == batches.len() {
        assert(batches.take(upto as int) =~= batches);
    } else {
        let init = batches.drop_last();
        assert(init.take(upto as int) =~= batches.take(upto as int));
        lemma_row_count(init, upto);
    }
}

/// A captured trace to replay.
pub struct ParquetReplay {
    /// Seed of the topology's ids.
    pub seed: u64,
    /// The nodes of the topology.
    pub snapshot_nodes: Vec<NodeId>,
}

impl ParquetReplay {
    /// What the trace is loaded against in a run of length `max`.
    pub open spec fn frame(&self, max: SimDuration, registry: &ChannelRegistry) -> Frame {
        Frame {
            seed: self.seed,
            max_us: max.capped_micros() as i64,
            nodes: self.snapshot_nodes@.to_set(),
            scids: registry.scids@,
        }
    }

    /// Loads the events of a trace from its batches of rows.
    pub fn load_logical(
        &self,
        batches: &Vec<Vec<TraceRow>>,
        max: SimDuration,
        registry: &ChannelRegistry,
    ) -> (r: (Vec<LogicalEvent>, LoadStats))
        requires
            registry.wf(),
            max.wf(),
            row_count(batches@) < usize::MAX,
        ensures
            ({
                let (l, rows, _over) = batches_loaded(self.frame(max, registry), batches@);
                &&& logicals(r.0@) == l.events
                &&& r.1.total_rows == rows
                &&& r.1.clamped_size == l.clamped_size
                &&& r.1.bad_scid_at_load == l.bad_scid_at_load
                &&& r.1.bad_pk_at_load == l.bad_pk_at_load
                &&& r.1.unknown_type == l.unknown_type
            }),
            directed(logicals(r.0@)),
            all_untouched(logicals(r.0@)),
    {
        let mut loader = TraceLoader::new(self.seed, &self.snapshot_nodes, max);
        let ghost f = self.frame(max, registry);
        assert(loader.frame(registry) == f);
        assert(batches@.take(0) =~= Seq::<Vec<TraceRow>>::empty());
        let mut i: usize = 0;
        while i < batches.len()
            invariant
                registry.wf(),
                i <= batches@.len(),
                row_count(batches@) < usize::MAX,
                loader.wf(),
                f == self.frame(max, registry),
                loader.frame(registry) == f,
                loader.rows() == row_count(batches@.take(i as int)),
                (loader.load(), loader.rows(), false) == batches_loaded(
                    f,
                    batches@.take(i as int),
                ),
            decreases batches@.len() - i,
        {
            proof {
                assert(batches@.take(i + 1).drop_last() =~= batches@.take(i as int));
                assert(batches@.take(i + 1).last() == batches@[i as int]);
                lemma_row_count(batches@, (i + 1) as nat);
            }
            let over: bool = loader.take_batch(&batches[i], registry);
            if over {
                proof {
                    lemma_batches_over(f, batches@, (i + 1) as nat);
                }
                return loader.finish();
            }
            i = i + 1;
        }
        assert(batches@.take(batches@.len() as int) =~= batches@);
        loader.finish()
    }
}

// ---------------------------------------------------------------------
// Emission
// ---------------------------------------------------------------------

/// A message that its originator has yet to stamp.
pub open spec fn unstamped(
    kind: GossipKind,
    origin: Option<NodeId>,
    scid: Option<Scid>,
    direction: Direction,
    size_bytes: u16,
) -> Gossip {
    Gossip { id: 0, origin, kind, size_bytes, scid, direction, timestamp: 0 }
}

/// What an event injects: a node announcement at its node, a channel
/// update at the owner of its direction, a channel announcement at both
/// owners.
pub open spec fn injected(e: Logical, rows: Seq<channels::ChannelRow>) -> Seq<ScheduledEvent> {
    match (e.kind, e.home) {
        (LogicalKind::NodeAnnouncement, HomeEntity::Node(n)) => seq![
            (
                e.delay,
                n,
                unstamped(GossipKind::NodeAnnouncement, Some(n), None, 0, e.size_bytes),
            ),
        ],
        (LogicalKind::ChannelUpdate { direction }, HomeEntity::Channel(s)) => seq![
            (
                e.delay,
                channels::owner_in(rows, s, direction),
                unstamped(GossipKind::ChannelUpdate, None, Some(s), direction, e.size_bytes),
            ),
        ],
        (LogicalKind::ChannelAnnouncement, HomeEntity::Channel(s)) => seq![
            (
                e.delay,
                channels::owner_in(rows, s, 0),
                unstamped(GossipKind::ChannelAnnouncement, None, Some(s), 0, e.size_bytes),
            ),
            (
                e.delay,
                channels::owner_in(rows, s, 1),
                unstamped(GossipKind::ChannelAnnouncement, None, Some(s), 0, e.size_bytes),
            ),
        ],
        _ => Seq::empty(),
    }
}

/// What some events inject, in turn.
pub open spec fn injected_all(events: Seq<Logical>, rows: Seq<channels::ChannelRow>) -> Seq<
    ScheduledEvent,
>
    decreases events.len(),
{
    if events.len() == 0 {
        Seq::empty()
    } else {
        injected_all(events.drop_last(), rows) + injected(events.last(), rows)
    }
}

/// The channels that the events are about are known.
pub open spec fn channels_known(events: Seq<Logical>, scids: Seq<Scid>) -> bool {
    forall|i: int|
        0 <= i < events.len() ==> ((#[trigger] events[i]).home matches HomeEntity::Channel(s)
            ==> scids.contains(s))
}

/// Makes a message that its originator has yet to stamp.
fn make_unstamped(
    kind: GossipKind,
    origin: Option<NodeId>,
    scid: Option<Scid>,
    direction: Direction,
    size_bytes: u16,
) -> (r: Gossip)
    ensures
        r == unstamped(kind, origin, scid, direction, size_bytes),
{
    Gossip { id: 0, origin, kind, size_bytes, scid, direction, timestamp: 0 }
}

/// Turns events into what is injected.
pub fn emit_tuples(events: &Vec<LogicalEvent>, registry: &ChannelRegistry) -> (r: Vec<
    ScheduledEvent,
>)
    requires
        registry.wf(),
        directed(logicals(events@)),
        channels_known(logicals(events@), registry.scids@),
    ensures
        r@ == injected_all(logicals(events@), registry.rows@),
{
    let ghost given = logicals(events@);
    let ghost rows = registry.rows@;
    let mut out: Vec<ScheduledEvent> = Vec::new();
    assert(given.take(0) =~= Seq::<Logical>::empty());
    for i in 0..events.len()
        invariant
            registry.wf(),
            given == logicals(events@),
            rows == registry.rows@,
            directed(given),
            channels_known(given, registry.scids@),
            out@ == injected_all(given.take(i as int), rows),
    {
        let e: &LogicalEvent = &events[i];
        let ghost before = out@;
        proof {
            assert(given[i as int] == e@);
            assert(given.take(i + 1).drop_last() =~= given.take(i as int));
            assert(given.take(i + 1).last() == e@);
        }
        match e.kind {
            LogicalKind::NodeAnnouncement => match e.home {
                HomeEntity::Node(n) => {
                    out.push(
                        (
                            e.delay,
                            n,
                            make_unstamped(
                                GossipKind::NodeAnnouncement,
                                Some(n),
                                None,
                                0,
                                e.size_bytes,
                            ),
                        ),
                    );
                },
                _ => {},
            },
            LogicalKind::ChannelUpdate { direction } => match e.home {
                HomeEntity::Channel(s) => {
                    proof {
                        registry.lemma_listed(s);
                    }
                    let owner: NodeId = registry.owner(s, direction);
                    out.push(
                        (
                            e.delay,
                            owner,
                            make_unstamped(
                                GossipKind::ChannelUpdate,
                                None,
                                Some(s),
                                direction,
                                e.size_bytes,
                            ),
                        ),
                    );
                },
                _ => {},
            },
            LogicalKind::ChannelAnnouncement => match e.home {
                HomeEntity::Channel(s) => {
                    proof {
                        registry.lemma_listed(s);
                    }
                    let msg: Gossip = make_unstamped(
                        GossipKind::ChannelAnnouncement,
                        None,
                        Some(s),
                        0,
                        e.size_bytes,
                    );
                    out.push((e.delay, registry.owner(s, 0), msg));
                    out.push((e.delay, registry.owner(s, 1), msg));
                },
                _ => {},
            },
        }
        assert(out@ =~= before + injected(e@, rows));
    }
    assert(given.take(given.len() as int) =~= given);
    out
}

/// Number of windows of a run: at least one, so that short runs have some
/// traffic.
pub open spec fn windows_of(max: SimDuration) -> usize {
    if max.secs / WINDOW_SECS >= 1 {
        (max.secs / WINDOW_SECS) as usize
    } else {
        1
    }
}

/// A trace turned into a schedule, with what became of its rows.
pub struct Replayed {
    pub schedule: Vec<ScheduledEvent>,
    pub load: LoadStats,
    pub reshape: ReshapeStats,
}

impl ParquetReplay {
    /// Events shaped to the topology in a run of length `max`.
    pub open spec fn shaping(
        &self,
        events: Seq<Logical>,
        max: SimDuration,
        registry: &ChannelRegistry,
    ) -> reshape::Shaping {
        reshape::shaped_all(
            reshape::unshaped(
                self.snapshot_nodes@,
                registry.scids@,
                windows_of(max),
                self.seed,
            ),
            events,
            windows_of(max),
            max.secs,
        )
    }

    /// The events of a trace in a run of length `max`, shaped to the
    /// topology.
    pub open spec fn shaped(
        &self,
        batches: Seq<Vec<TraceRow>>,
        max: SimDuration,
        registry: &ChannelRegistry,
    ) -> reshape::Shaping {
        self.shaping(batches_loaded(self.frame(max, registry), batches).0.events, max, registry)
    }

    /// Shapes the events that were loaded of a trace, and turns them into
    /// a schedule. Everything scheduled is inside the run, and channel
    /// messages are originated by owners of the channel.
    pub fn replay(
        &self,
        events: Vec<LogicalEvent>,
        load: LoadStats,
        max: SimDuration,
        registry: &ChannelRegistry,
    ) -> (r: Replayed)
        requires
            registry.wf(),
            max.wf(),
            directed(logicals(events@)),
            max.secs / 600 <= usize::MAX,
        ensures
            r.schedule@ == injected_all(
                self.shaping(logicals(events@), max, registry).out,
                registry.rows@,
            ),
            r.reshape@ == self.shaping(logicals(events@), max, registry).tallies,
            r.load == load,
            forall|i: int|
                0 <= i < r.schedule@.len() ==> (#[trigger] r.schedule@[i]).0.total_nanos()
                    <= max.total_nanos(),
            reshape::rate_limited(self.shaping(logicals(events@), max, registry).out),
            reshape::accounted(
                logicals(events@),
                self.shaping(logicals(events@), max, registry).out,
                self.snapshot_nodes@,
                registry.scids@,
                windows_of(max),
            ),
    {
        let secs: u64 = max.as_secs();
        let windows: usize = if secs / WINDOW_SECS >= 1 {
            (secs / WINDOW_SECS) as usize
        } else {
            1
        };
        let (kept, stats) = reshape::reshape(
            events,
            registry,
            &self.snapshot_nodes,
            windows,
            max,
            self.seed,
        );
        let ghost out = logicals(kept@);
        proof {
            assert forall|i: int| 0 <= i < out.len() implies ((#[trigger] out[i]).home matches
                HomeEntity::Channel(s) ==> registry.scids@.contains(s)) && out[i].delay.total_nanos()
                <= max.total_nanos() by {
                assert(kept@[i]@ == out[i]);
                let w = reshape::window_of(out[i].delay);
                assert(w < windows);
            }
        }
        let schedule: Vec<ScheduledEvent> = emit_tuples(&kept, registry);
        proof {
            lemma_injected_delays(out, registry.rows@, max.total_nanos());
        }
        Replayed { schedule, load, reshape: stats }
    }

    /// Loads a trace from its batches of rows, shapes it, and turns it
    /// into a schedule: see [`ParquetReplay::replay`].
    pub fn schedule(
        &self,
        batches: &Vec<Vec<TraceRow>>,
        max: SimDuration,
        registry: &ChannelRegistry,
    ) -> (r: Replayed)
        requires
            registry.wf(),
            max.wf(),
            row_count(batches@) < usize::MAX,
            max.secs / 600 <= usize::MAX,
        ensures
            r.schedule@ == injected_all(self.shaped(batches@, max, registry).out, registry.rows@),
            r.reshape@ == self.shaped(batches@, max, registry).tallies,
            ({
                let (l, rows, _over) = batches_loaded(self.frame(max, registry), batches@);
                &&& r.load.total_rows == rows
                &&& r.load.clamped_size == l.clamped_size
                &&& r.load.bad_scid_at_load == l.bad_scid_at_load
                &&& r.load.bad_pk_at_load == l.bad_pk_at_load
                &&& r.load.unknown_type == l.unknown_type
            }),
            forall|i: int|
                0 <= i < r.schedule@.len() ==> (#[trigger] r.schedule@[i]).0.total_nanos()
                    <= max.total_nanos(),
            reshape::rate_limited(self.shaped(batches@, max, registry).out),
            reshape::accounted(
                batches_loaded(self.frame(max, registry), batches@).0.events,
                self.shaped(batches@, max, registry).out,
                self.snapshot_nodes@,
                registry.scids@,
                windows_of(max),
            ),
            all_untouched(batches_loaded(self.frame(max, registry), batches@).0.events),
    {
        let (events, load) = self.load_logical(batches, max, registry);
        self.replay(events, load, max, registry)
    }
}

/// What is injected is due when its event is.
proof fn lemma_injected_delays(events: Seq<Logical>, rows: Seq<channels::ChannelRow>, limit: nat)
    requires
        forall|i: int|
            0 <= i < events.len() ==> (#[trigger] events[i]).delay.total_nanos() <= limit,
    ensures
        forall|i: int|
            0 <= i < injected_all(events, rows).len() ==> (#[trigger] injected_all(
                events,
                rows,
            )[i]).0.total_nanos() <= limit,
    decreases events.len(),
{
    if events.len() > 0 {
        let init = events.drop_last();
        assert forall|i: int| 0 <= i < init.len() implies (#[trigger] init[i]).delay.total_nanos()
            <= limit by {
            assert(init[i] == events[i]);
        }
        lemma_injected_delays(init, rows, limit);
        let before = injected_all(init, rows);
        let last = injected(events.last(), rows);
        assert(events[events.len() - 1].delay.total_nanos() <= limit);
        assert forall|i: int| 0 <= i < injected_all(events, rows).len() implies (
        #[trigger] injected_all(events, rows)[i]).0.total_nanos() <= limit by {
            if i < before.len() {
                assert(injected_all(events, rows)[i] == before[i]);
            } else {
                assert(injected_all(events, rows)[i] == last[i - before.len()]);
                assert(last[i - before.len()].0 == events.last().delay);
            }
        }
    }
}

/// Both owners of a channel originate its announcement, at the same time.
pub proof fn announcements_come_from_both_owners(
    e: Logical,
    rows: Seq<channels::ChannelRow>,
    scid: Scid,
)
    requires
        e.kind == LogicalKind::ChannelAnnouncement,
        e.home == HomeEntity::Channel(scid),
    ensures
        injected(e, rows).len() == 2,
        injected(e, rows)[0].0 == injected(e, rows)[1].0,
        injected(e, rows)[0].2 == injected(e, rows)[1].2,
        injected(e, rows)[0].1 == channels::owner_in(rows, scid, 0),
        injected(e, rows)[1].1 == channels::owner_in(rows, scid, 1),
{
}

/// What an event injects is of the event's kind, at the event's time and
/// of its size, at the node or at the owners of the channel that it is
/// about: a node announcement and a channel update once, a channel
/// announcement once for each side. Nothing is stamped yet, and an event
/// without a place injects nothing.
pub proof fn injection_is_of_the_events_kind(e: Logical, rows: Seq<channels::ChannelRow>)
    ensures
        ({
            let out = injected(e, rows);
            &&& forall|i: int|
                0 <= i < out.len() ==> {
                    &&& (#[trigger] out[i]).0 == e.delay
                    &&& out[i].2.size_bytes == e.size_bytes
                    &&& out[i].2.timestamp == 0
                    &&& out[i].2.id == 0
                    &&& out[i].2.kind == match e.kind {
                        LogicalKind::NodeAnnouncement => GossipKind::NodeAnnouncement,
                        LogicalKind::ChannelAnnouncement => GossipKind::ChannelAnnouncement,
                        LogicalKind::ChannelUpdate { .. } => GossipKind::ChannelUpdate,
                    }
                    &&& e.home matches HomeEntity::Node(n) ==> out[i].2.origin == Some(n)
                        && out[i].2.scid is None && out[i].2.direction == 0 && out[i].1 == n
                    &&& e.home matches HomeEntity::Channel(s) ==> out[i].2.scid == Some(s)
                        && out[i].2.origin is None
                }
            &&& e.kind is NodeAnnouncement ==> out.len() == if e.home is Node {
                1nat
            } else {
                0nat
            }
            &&& e.kind is ChannelAnnouncement ==> out.len() == if e.home is Channel {
                2nat
            } else {
                0nat
            }
            &&& e.kind is ChannelUpdate ==> out.len() == if e.home is Channel {
                1nat
            } else {
                0nat
            }
            &&& e.kind matches LogicalKind::ChannelUpdate { direction } ==> (
            e.home matches HomeEntity::Channel(s) ==> out[0].2.direction == direction && (
            direction <= 1 ==> forall|j: int|
                0 <= j < rows.len() && (#[trigger] rows[j]).0 == s && (forall|m: int|
                    j < m < rows.len() ==> (#[trigger] rows[m]).0 != s) ==> out[0].1 == if direction
                    == 0 {
                    rows[j].1
                } else {
                    rows[j].2
                }))
            &&& e.kind is ChannelAnnouncement ==> (e.home matches HomeEntity::Channel(s)
                ==> out[0].2.direction == 0 && out[1].2.direction == 0 && forall|j: int|
                0 <= j < rows.len() && (#[trigger] rows[j]).0 == s && (forall|m: int|
                    j < m < rows.len() ==> (#[trigger] rows[m]).0 != s) ==> out[0].1 == rows[j].1
                    && out[1].1 == rows[j].2)
        }),
{
    if let HomeEntity::Channel(s) = e.home {
        assert forall|j: int|
            0 <= j < rows.len() && (#[trigger] rows[j]).0 == s && (forall|m: int|
                j < m < rows.len() ==> (#[trigger] rows[m]).0 != s) implies channels::owner_in(
            rows,
            s,
            0,
        ) == rows[j].1 && channels::owner_in(rows, s, 1) == rows[j].2 by {
            channels::last_row_gives_the_owners(rows, s, j);
        }
    }
}

/// Events are injected one after another, in their order.
pub proof fn injections_follow_each_other(
    a: Seq<Logical>,
    b: Seq<Logical>,
    rows: Seq<channels::ChannelRow>,
)
    ensures
        injected_all(a + b, rows) == injected_all(a, rows) + injected_all(b, rows),
        a.len() == 0 ==> injected_all(a, rows).len() == 0,
        a.len() == 1 ==> injected_all(a, rows) == injected(a[0], rows),
    decreases b.len(),
{
    if b.len() == 0 {
        assert(a + b =~= a);
        assert(injected_all(a, rows) + injected_all(b, rows) =~= injected_all(a, rows));
    } else {
        injections_follow_each_other(a, b.drop_last(), rows);
        assert((a + b).drop_last() =~= a + b.drop_last());
        assert(injected_all(a + b, rows) =~= injected_all(a, rows) + injected_all(b, rows));
    }
    if a.len() == 1 {
        reveal_with_fuel(injected_all, 2);
        assert(injected_all(a, rows) =~= injected(a[0], rows));
    }
}

/// Reads digits as a number.
pub open spec fn read_digits(s: Seq<char>) -> nat
    decreases s.len(),
{
    if s.len() == 0 {
        0
    } else {
        (10 * read_digits(s.drop_last()) + (s.last() as u32 - 0x30)) as nat
    }
}

/// A number is written so that it reads back: in digits, without leading
/// zeros.
pub proof fn decimal_reads_back(n: nat)
    ensures
        read_digits(decimal(n)) == n,
        decimal(n).len() > 0,
        forall|i: int|
            0 <= i < decimal(n).len() ==> 0x30 <= (#[trigger] decimal(n)[i]) as u32 <= 0x39,
        n > 0 ==> decimal(n)[0] as u32 > 0x30,
    decreases n,
{
    let d = digit((n % 10) as int);
    assert(d as u32 == 0x30 + n % 10);
    if n < 10 {
        reveal_with_fuel(read_digits, 2);
        assert(seq![d].drop_last().len() == 0);
    } else {
        decimal_reads_back(n / 10);
        assert(decimal(n).drop_last() =~= decimal(n / 10));
        assert(decimal(n).last() == d);
    }
}

/// A row without a time is passed over. The time of the first row with
/// one is time zero; a row later than the run stops the loading, and any
/// other row is counted once: as an event behind those before it, or
/// under what is wrong with it.
pub proof fn row_is_counted_once(l: Load, f: Frame, row: TraceRow, us: i64)
    requires
        row.first_seen_us == Some(us),
        f.max_us >= 0,
    ensures
        ({
            let zero = match l.anchor {
                Some(a) => a,
                None => us,
            };
            let now = row_loaded(l, f, row);
            &&& now is None <==> us - zero > f.max_us && f.max_us < i64::MAX
            &&& now matches Some(u) ==> {
                &&& u.anchor == Some(zero)
                &&& u.events.len() + u.bad_scid_at_load + u.bad_pk_at_load + u.unknown_type
                    == l.events.len() + l.bad_scid_at_load + l.bad_pk_at_load + l.unknown_type + 1
                &&& u.events.len() >= l.events.len()
                &&& u.bad_scid_at_load >= l.bad_scid_at_load
                &&& u.bad_pk_at_load >= l.bad_pk_at_load
                &&& u.unknown_type >= l.unknown_type
                &&& u.events.take(l.events.len() as int) == l.events
                &&& u.clamped_size == l.clamped_size + if row.size matches Some(n) && n > 0xffff {
                    1nat
                } else {
                    0nat
                }
                &&& u.unknown_type > l.unknown_type <==> row.kind != Some(TYPE_CHANNEL_ANN)
                    && row.kind != Some(TYPE_NODE_ANN) && row.kind != Some(TYPE_CHANNEL_UPD)
                &&& u.bad_pk_at_load > l.bad_pk_at_load <==> row.kind == Some(TYPE_NODE_ANN)
                    && row.orig_node is None
                &&& u.bad_scid_at_load > l.bad_scid_at_load <==> (row.kind == Some(
                    TYPE_CHANNEL_ANN,
                ) || row.kind == Some(TYPE_CHANNEL_UPD)) && row.scid is None
                &&& row.kind != Some(TYPE_CHANNEL_UPD) ==> u.turns == l.turns
            }
        }),
{
    if let Some(u) = row_loaded(l, f, row) {
        assert(u.events.take(l.events.len() as int) =~= l.events);
    }
}

/// A row without a time changes nothing.
pub proof fn row_without_time_is_passed_over(l: Load, f: Frame, row: TraceRow)
    requires
        row.first_seen_us is None,
    ensures
        row_loaded(l, f, row) == Some(l),
{
}

/// An event says what its row says: its time after time zero, its size
/// as far as sixteen bits go, its type, and the node or channel that its
/// row names, or none where the topology does not have it. A channel's
/// updates take their directions in turn.
pub proof fn event_says_what_its_row_says(l: Load, f: Frame, row: TraceRow, us: i64)
    requires
        row.first_seen_us == Some(us),
        f.max_us >= 0,
        row_loaded(l, f, row) is Some,
        row_loaded(l, f, row)->0.events.len() == l.events.len() + 1,
    ensures
        ({
            let zero = match l.anchor {
                Some(a) => a,
                None => us,
            };
            let u = row_loaded(l, f, row)->0;
            let e = u.events.last();
            &&& 0 <= us - zero <= i64::MAX ==> e.delay.total_nanos() == 1000 * (us - zero)
                && e.delay.wf()
            &&& row.size is None ==> e.size_bytes == 0
            &&& row.size matches Some(n) ==> {
                &&& 0 <= n <= 0xffff ==> e.size_bytes == n
                &&& n < 0 ==> e.size_bytes == 0
                &&& n > 0xffff ==> e.size_bytes == 0xffff
            }
            &&& !e.was_deferred && !e.was_reassigned
            &&& e.was_orphan <==> e.home is Unknown
            &&& row.kind == Some(TYPE_NODE_ANN) ==> {
                let id = ln_data::node_id(f.seed, row.orig_node->0@);
                &&& e.kind is NodeAnnouncement
                &&& e.orig_id == row.orig_node->0@
                &&& f.nodes.contains(id) ==> e.home == HomeEntity::Node(id)
                &&& !f.nodes.contains(id) ==> e.home is Unknown
            }
            &&& row.kind != Some(TYPE_NODE_ANN) ==> {
                let scid = ln_data::scid_id(f.seed, decimal(row.scid->0 as nat));
                &&& e.kind is ChannelAnnouncement <==> row.kind == Some(TYPE_CHANNEL_ANN)
                &&& e.kind is ChannelUpdate <==> row.kind == Some(TYPE_CHANNEL_UPD)
                &&& read_digits(e.orig_id) == row.scid->0
                &&& f.scids.contains(scid) ==> e.home == HomeEntity::Channel(scid)
                &&& !f.scids.contains(scid) ==> e.home is Unknown
                &&& e.kind matches LogicalKind::ChannelUpdate { direction } ==> {
                    &&& !l.turns.dom().contains(scid) ==> direction == 0
                    &&& l.turns.dom().contains(scid) ==> direction == l.turns[scid]
                    &&& direction <= 1 ==> u.turns == l.turns.insert(scid, (1 - direction) as u8)
                }
            }
        }),
{
    if row.kind != Some(TYPE_NODE_ANN) {
        decimal_reads_back(row.scid->0 as nat);
    }
}

/// Rows are loaded one after another until one stops the loading; what
/// follows that one is not looked at.
pub proof fn rows_are_loaded_in_order(l: Load, f: Frame, a: Seq<TraceRow>, b: Seq<TraceRow>)
    ensures
        ({
            let (first, over) = rows_loaded(l, f, a);
            &&& over ==> rows_loaded(l, f, a + b) == (first, true)
            &&& !over ==> rows_loaded(l, f, a + b) == rows_loaded(first, f, b)
            &&& a.len() == 0 ==> first == l && !over
            &&& a.len() == 1 ==> over == (row_loaded(l, f, a[0]) is None) && (over ==> first == l)
                && (!over ==> Some(first) == row_loaded(l, f, a[0]))
        }),
    decreases b.len(),
{
    if b.len() == 0 {
        assert(a + b =~= a);
    } else {
        rows_are_loaded_in_order(l, f, a, b.drop_last());
        assert((a + b).drop_last() =~= a + b.drop_last());
    }
    if a.len() == 1 {
        reveal_with_fuel(rows_loaded, 2);
    }
}

/// A batch is loaded on top of the batches before it, and all its rows
/// count as read; nothing is read once the loading has stopped.
pub proof fn batches_are_loaded_in_order(f: Frame, before: Seq<Vec<TraceRow>>, batch: Vec<TraceRow>)
    ensures
        ({
            let (l, rows, over) = batches_loaded(f, before);
            let now = batches_loaded(f, before.push(batch));
            &&& before.len() == 0 ==> l == unloaded() && rows == 0 && !over
            &&& over ==> now == (l, rows, true)
            &&& !over ==> now.0 == rows_loaded(l, f, batch@).0 && now.1 == rows + batch@.len()
                && now.2 == rows_loaded(l, f, batch@).1
        }),
{
    assert(before.push(batch).drop_last() =~= before);
}

/// A run has as many windows as fit in it whole, and at least one.
pub proof fn windows_fit_in_the_run(max: SimDuration)
    requires
        max.secs / 600 <= usize::MAX,
    ensures
        windows_of(max) >= 1,
        windows_of(max) > 1 ==> 600 * windows_of(max) <= max.secs,
        max.secs < 600 * (windows_of(max) + 1),
{
}

/// A limit in microseconds is the whole microseconds of its time, as far
/// as they count.
pub proof fn limit_is_in_whole_microseconds(max: SimDuration)
    ensures
        max.total_nanos() <= 1000 * i64::MAX ==> 1000 * max.capped_micros() <= max.total_nanos()
            < 1000 * (max.capped_micros() + 1),
        max.total_nanos() > 1000 * i64::MAX ==> max.capped_micros() == i64::MAX,
{
}

/// A replay is loaded and shaped for its own run: with its seed, the nodes
/// of its snapshot, the channels of the registry and the limit and the
/// windows of the run.
pub proof fn replay_is_framed_by_its_run(
    p: &ParquetReplay,
    max: SimDuration,
    registry: &ChannelRegistry,
    events: Seq<Logical>,
    batches: Seq<Vec<TraceRow>>,
    id: NodeId,
)
    ensures
        p.frame(max, registry).seed == p.seed,
        p.frame(max, registry).max_us == max.capped_micros(),
        p.frame(max, registry).scids == registry.scids@,
        p.frame(max, registry).nodes.contains(id) <==> p.snapshot_nodes@.contains(id),
        p.shaping(events, max, registry) == reshape::shaped_all(
            reshape::unshaped(p.snapshot_nodes@, registry.scids@, windows_of(max), p.seed),
            events,
            windows_of(max),
            max.secs,
        ),
        p.shaped(batches, max, registry) == p.shaping(
            batches_loaded(p.frame(max, registry), batches).0.events,
            max,
            registry,
        ),
{
}

} // verus!
