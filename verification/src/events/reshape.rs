//! Shaping a trace to a topology: entities that exist, and a rate limit.

use rand_chacha::ChaCha8Rng;
use vstd::prelude::*;

use crate::channels::ChannelRegistry;
use crate::events::parquet_replay;
use crate::events::parquet_replay::{
    BucketClass, HomeEntity, Logical, LogicalEvent, LogicalKind, RESHAPE_SEED_SALT, WINDOW_SECS,
};
use crate::events::windows;
use crate::events::windows::{Capacity, Room};
use crate::message::{NodeId, Scid};
use crate::rng;
use crate::time::SimDuration;

verus! {

/// What became of the events of a trace, by kind: node announcements,
/// channel announcements, channel updates.
#[derive(Debug)]
pub struct ReshapeStats {
    /// Events that were kept.
    pub total_by_kind: Vec<usize>,
    /// Kept events that moved to another window of their entity.
    pub deferred_by_kind: Vec<usize>,
    /// Kept events that moved to another entity.
    pub reassigned_by_kind: Vec<usize>,
    /// Those of them whose entity the topology does not have.
    pub orphan_by_kind: Vec<usize>,
    /// Events that found no window.
    pub dropped_by_kind: Vec<usize>,
    /// What the trace says the moved events are about, one entry for each.
    pub excess_by_kind: Vec<Vec<String>>,
}

/// The figures of [`ReshapeStats`].
#[verifier::ext_equal]
pub struct Tallies {
    pub total: Seq<nat>,
    pub deferred: Seq<nat>,
    pub reassigned: Seq<nat>,
    pub orphan: Seq<nat>,
    pub dropped: Seq<nat>,
    pub excess: Seq<Seq<Seq<char>>>,
}

/// Counts as numbers.
pub open spec fn counts(v: Seq<usize>) -> Seq<nat> {
    v.map_values(|x: usize| x as nat)
}

/// Lists of texts.
pub open spec fn text_lists(v: Seq<Vec<String>>) -> Seq<Seq<Seq<char>>> {
    v.map_values(|l: Vec<String>| l@.map_values(|s: String| s@))
}

impl View for ReshapeStats {
    type V = Tallies;

    open spec fn view(&self) -> Tallies {
        Tallies {
            total: counts(self.total_by_kind@),
            deferred: counts(self.deferred_by_kind@),
            reassigned: counts(self.reassigned_by_kind@),
            orphan: counts(self.orphan_by_kind@),
            dropped: counts(self.dropped_by_kind@),
            excess: text_lists(self.excess_by_kind@),
        }
    }
}

/// Nothing counted.
pub open spec fn no_tallies() -> Tallies {
    Tallies {
        total: seq![0nat, 0nat, 0nat],
        deferred: seq![0nat, 0nat, 0nat],
        reassigned: seq![0nat, 0nat, 0nat],
        orphan: seq![0nat, 0nat, 0nat],
        dropped: seq![0nat, 0nat, 0nat],
        excess: seq![Seq::empty(), Seq::empty(), Seq::empty()],
    }
}

/// One more at position `k`.
pub open spec fn bumped(s: Seq<nat>, k: int) -> Seq<nat> {
    s.update(k, s[k] + 1)
}

impl Default for ReshapeStats {
    fn default() -> (r: Self)
        ensures
            r@ == no_tallies(),
            r.shaped(),
    {
        let mut excess: Vec<Vec<String>> = Vec::new();
        excess.push(Vec::new());
        excess.push(Vec::new());
        excess.push(Vec::new());
        let r = ReshapeStats {
            total_by_kind: vec![0, 0, 0],
            deferred_by_kind: vec![0, 0, 0],
            reassigned_by_kind: vec![0, 0, 0],
            orphan_by_kind: vec![0, 0, 0],
            dropped_by_kind: vec![0, 0, 0],
            excess_by_kind: excess,
        };
        assert(r@.total =~= no_tallies().total);
        assert(r@.deferred =~= no_tallies().deferred);
        assert(r@.reassigned =~= no_tallies().reassigned);
        assert(r@.orphan =~= no_tallies().orphan);
        assert(r@.dropped =~= no_tallies().dropped);
        assert forall|i: int| 0 <= i < 3 implies #[trigger] r@.excess[i] =~= Seq::<
            Seq<char>,
        >::empty() by {
            assert(r.excess_by_kind@[i]@ =~= Seq::<String>::empty());
        }
        assert(r@.excess =~= no_tallies().excess);
        r
    }
}

impl ReshapeStats {
    /// There is a figure for each kind.
    pub open spec fn shaped(&self) -> bool {
        &&& self.total_by_kind@.len() == 3
        &&& self.deferred_by_kind@.len() == 3
        &&& self.reassigned_by_kind@.len() == 3
        &&& self.orphan_by_kind@.len() == 3
        &&& self.dropped_by_kind@.len() == 3
        &&& self.excess_by_kind@.len() == 3
    }

    /// No count is above `n`.
    spec fn at_most(&self, n: int) -> bool {
        forall|k: int|
            0 <= k < 3 ==> #[trigger] self.total_by_kind@[k] <= n && self.deferred_by_kind@[k] <= n
                && self.reassigned_by_kind@[k] <= n && self.orphan_by_kind@[k] <= n
                && self.dropped_by_kind@[k] <= n
    }
}

/// Adds one at a position.
fn bump(v: &mut Vec<usize>, k: usize)
    requires
        k < old(v)@.len(),
        old(v)@[k as int] < usize::MAX,
    ensures
        final(v)@ == old(v)@.update(k as int, (old(v)@[k as int] + 1) as usize),
        counts(final(v)@) == bumped(counts(old(v)@), k as int),
{
    let now: usize = v[k] + 1;
    v.set(k, now);
    assert(counts(v@) =~= bumped(counts(old(v)@), k as int));
}

/// Where an event goes.
#[derive(Debug, Clone, Copy, PartialEq, Eq, Structural)]
pub struct Placement {
    pub entity: u64,
    pub window: usize,
    /// The window is another than the preferred one.
    pub moved: bool,
    /// The entity is another than the event's own.
    pub reassigned: bool,
}

/// Where an event goes that prefers window `pref`: on its own entity, or
/// on a random one where that is unknown, and from there to a random one
/// where no window is free; `None` where there is no room at all. With
/// the generator after the choice.
pub open spec fn settled(
    room: Room,
    home: Option<u64>,
    orphan: bool,
    pref: usize,
    r: ChaCha8Rng,
) -> (Option<Placement>, ChaCha8Rng) {
    let (first, r1) = match home {
        Some(e) => (Some(e), r),
        None => room.any_entity(r),
    };
    match first {
        None => (None, r1),
        Some(e) => if room.has_room(e) {
            let (window, moved, r2) = room.choice(e, pref, r1);
            (Some(Placement { entity: e, window, moved, reassigned: orphan }), r2)
        } else {
            match room.any_entity(r1) {
                (None, r2) => (None, r2),
                (Some(other), r2) => {
                    let (window, moved, r3) = room.choice(other, pref, r2);
                    (Some(Placement { entity: other, window, moved, reassigned: true }), r3)
                },
            }
        },
    }
}

/// Finds a window for an event, and takes it.
fn settle(
    cap: &mut Capacity,
    home: Option<u64>,
    orphan: bool,
    pref: usize,
    r: &mut ChaCha8Rng,
) -> (out: Option<Placement>)
    requires
        old(cap).wf(),
    ensures
        final(cap).wf(),
        final(cap).num_windows == old(cap).num_windows,
        (out, *final(r)) == settled(old(cap).room(), home, orphan, pref, *old(r)),
        out is None ==> final(cap).room() == old(cap).room() && old(cap).room().free.len() == 0,
        out matches Some(p) ==> {
            &&& p.moved == (p.window != if pref < old(cap).num_windows {
                pref as int
            } else {
                old(cap).num_windows - 1
            })
            &&& orphan ==> p.reassigned
            &&& home matches Some(e) ==> (p.entity != e ==> p.reassigned) && (p.entity == e
                ==> p.reassigned == orphan)
        },
        out matches Some(p) ==> final(cap).room() == old(cap).room().take(
            p.entity,
            p.window as int,
        ) && p.window < old(cap).num_windows && old(cap).room().has_room(p.entity) && !old(
            cap,
        ).room().used[p.entity][p.window as int],
{
    let first: u64 = match home {
        Some(e) => e,
        None => match cap.random_entity(r) {
            Some(e) => e,
            None => {
                return None;
            },
        },
    };
    match cap.try_place(first, pref, r) {
        Some((window, moved)) => Some(
            Placement { entity: first, window, moved, reassigned: orphan },
        ),
        None => match cap.random_entity(r) {
            Some(other) => match cap.try_place(other, pref, r) {
                Some((window, moved)) => Some(
                    Placement { entity: other, window, moved, reassigned: true },
                ),
                None => None,
            },
            None => None,
        },
    }
}

/// The window that an event would be in by its delay; the number of
/// windows where it is past the last.
pub open spec fn preferred(delay: SimDuration, windows: usize) -> usize {
    if delay.secs / WINDOW_SECS < windows {
        (delay.secs / WINDOW_SECS) as usize
    } else {
        windows
    }
}

/// The window of a delay.
pub open spec fn window_of(delay: SimDuration) -> int {
    delay.secs as int / 600
}

/// Width in microseconds of a window, as far as it is inside the run.
pub open spec fn width_us(window: int, max_secs: u64) -> u64 {
    let start = window * 600;
    let end = if start + 600 <= max_secs {
        start + 600
    } else {
        max_secs as int
    };
    if end > start {
        ((end - start) * 1_000_000) as u64
    } else {
        0
    }
}

/// A random time in a window, inside the run, and the generator after it.
pub open spec fn jittered(window: int, max_secs: u64, r: ChaCha8Rng) -> (SimDuration, ChaCha8Rng) {
    let width = width_us(window, max_secs);
    let (j, next) = if width > 0 {
        rng::below_draw(r, width)
    } else {
        (0, r)
    };
    (
        SimDuration {
            secs: (window * 600 + j / 1_000_000) as u64,
            nanos: ((j % 1_000_000) * 1000) as u32,
        },
        next,
    )
}

/// Draws a time in a window.
fn jitter(window: usize, max_secs: u64, r: &mut ChaCha8Rng) -> (d: SimDuration)
    requires
        (window + 1) * 600 <= u64::MAX,
    ensures
        (d, *final(r)) == jittered(window as int, max_secs, *old(r)),
        d.wf(),
        window_of(d) == window,
        window * 600 < max_secs ==> d.secs < max_secs,
        window * 600 >= max_secs ==> d.secs == window * 600 && d.nanos == 0,
{
    let start: u64 = window as u64 * 600;
    let end: u64 = if start + 600 <= max_secs {
        start + 600
    } else {
        max_secs
    };
    let width: u64 = if end > start {
        (end - start) * 1_000_000
    } else {
        0
    };
    let j: u64 = if width > 0 {
        rng::draw_below(r, width)
    } else {
        0
    };
    SimDuration { secs: start + j / 1_000_000, nanos: ((j % 1_000_000) * 1000) as u32 }
}

/// An event where it was placed.
pub open spec fn placed_event(ev: Logical, p: Placement, delay: SimDuration) -> Logical {
    Logical {
        delay,
        home: if ev.kind.class() == BucketClass::NodeAnn {
            HomeEntity::Node(p.entity)
        } else {
            HomeEntity::Channel(p.entity)
        },
        was_reassigned: ev.was_reassigned || p.reassigned,
        was_deferred: ev.was_deferred || (!p.reassigned && p.moved),
        ..ev
    }
}

/// The figures after one more kept event.
pub open spec fn kept(t: Tallies, ev: Logical, p: Placement) -> Tallies {
    let k = ev.kind.index();
    let e = placed_event(ev, p, ev.delay);
    Tallies {
        total: bumped(t.total, k),
        deferred: if !p.reassigned && p.moved {
            bumped(t.deferred, k)
        } else {
            t.deferred
        },
        reassigned: if p.reassigned {
            bumped(t.reassigned, k)
        } else {
            t.reassigned
        },
        orphan: if p.reassigned && ev.was_orphan {
            bumped(t.orphan, k)
        } else {
            t.orphan
        },
        dropped: t.dropped,
        excess: if e.was_deferred || e.was_reassigned || e.was_orphan {
            t.excess.update(k, t.excess[k].push(ev.orig_id))
        } else {
            t.excess
        },
    }
}

/// Position of a class.
pub open spec fn class_index(c: BucketClass) -> int {
    match c {
        BucketClass::NodeAnn => 0,
        BucketClass::ChanAnn => 1,
        BucketClass::ChanUpd0 => 2,
        BucketClass::ChanUpd1 => 3,
    }
}

/// The entity that an event is about.
pub open spec fn entity_of(home: HomeEntity) -> Option<u64> {
    match home {
        HomeEntity::Node(n) => Some(n),
        HomeEntity::Channel(s) => Some(s),
        HomeEntity::Unknown => None,
    }
}

/// The state of the shaping: what is free in each class, the generator,
/// the events kept so far, and the figures.
#[verifier::ext_equal]
pub struct Shaping {
    pub rooms: Seq<Room>,
    pub rng: ChaCha8Rng,
    pub out: Seq<Logical>,
    pub tallies: Tallies,
}

/// The state after one more event.
pub open spec fn shaped_one(s: Shaping, ev: Logical, windows: usize, max_secs: u64) -> Shaping {
    let c = class_index(ev.kind.class());
    let (placement, r) = settled(
        s.rooms[c],
        entity_of(ev.home),
        ev.was_orphan,
        preferred(ev.delay, windows),
        s.rng,
    );
    match placement {
        None => Shaping {
            rng: r,
            tallies: Tallies {
                dropped: bumped(s.tallies.dropped, ev.kind.index()),
                ..s.tallies
            },
            ..s
        },
        Some(p) => {
            let (delay, next) = jittered(p.window as int, max_secs, r);
            Shaping {
                rooms: s.rooms.update(c, s.rooms[c].take(p.entity, p.window as int)),
                rng: next,
                out: s.out.push(placed_event(ev, p, delay)),
                tallies: kept(s.tallies, ev, p),
            }
        },
    }
}

/// The state after some events.
pub open spec fn shaped_all(s: Shaping, events: Seq<Logical>, windows: usize, max_secs: u64) -> Shaping
    decreases events.len(),
{
    if events.len() == 0 {
        s
    } else {
        shaped_one(
            shaped_all(s, events.drop_last(), windows, max_secs),
            events.last(),
            windows,
            max_secs,
        )
    }
}

/// The state before the first event: every window of every entity of the
/// topology is free.
pub open spec fn unshaped(nodes: Seq<NodeId>, scids: Seq<Scid>, windows: usize, seed: u64) -> Shaping {
    Shaping {
        rooms: seq![
            Room::fresh(nodes, windows as nat),
            Room::fresh(scids, windows as nat),
            Room::fresh(scids, windows as nat),
            Room::fresh(scids, windows as nat),
        ],
        rng: rng::seeded(seed ^ RESHAPE_SEED_SALT),
        out: Seq::empty(),
        tallies: no_tallies(),
    }
}

/// Number of events of a kind.
pub open spec fn kind_count(events: Seq<Logical>, k: int) -> nat
    decreases events.len(),
{
    if events.len() == 0 {
        0
    } else {
        kind_count(events.drop_last(), k) + if events.last().kind.index() == k {
            1nat
        } else {
            0nat
        }
    }
}

/// An event is about an entity of the topology that fits its kind.
pub open spec fn resolved(e: Logical, nodes: Seq<NodeId>, scids: Seq<Scid>) -> bool {
    match e.kind {
        LogicalKind::NodeAnnouncement => e.home matches HomeEntity::Node(n) && nodes.contains(n),
        _ => e.home matches HomeEntity::Channel(s) && scids.contains(s),
    }
}

/// No two events of one class and entity are in one window.
pub open spec fn rate_limited(out: Seq<Logical>) -> bool {
    forall|i: int, j: int|
        0 <= i < j < out.len() && (#[trigger] out[i]).kind.class() == (
        #[trigger] out[j]).kind.class() && out[i].home == out[j].home ==> window_of(out[i].delay)
            != window_of(out[j].delay)
}

/// The event is inside its window, and inside a run of `max_secs` if its
/// window starts there.
pub open spec fn timely(e: Logical, windows: usize, max_secs: u64) -> bool {
    &&& e.delay.wf()
    &&& window_of(e.delay) < windows
    &&& window_of(e.delay) * 600 < max_secs ==> e.delay.secs < max_secs
    &&& window_of(e.delay) * 600 >= max_secs ==> e.delay.secs == window_of(e.delay) * 600
        && e.delay.nanos == 0
}

/// The window that an event is due in, the last one where it is due
/// later.
pub open spec fn due_window(delay: SimDuration, windows: usize) -> int {
    if window_of(delay) < windows {
        window_of(delay)
    } else {
        windows - 1
    }
}

/// `e` is what became of `ev`. Of an event as it was loaded, it is marked
/// as reassigned exactly where it is about another entity, and as
/// deferred exactly where only its window is another.
pub open spec fn outcome_of(ev: Logical, e: Logical, windows: usize) -> bool {
    &&& e.kind == ev.kind
    &&& e.size_bytes == ev.size_bytes
    &&& e.orig_id == ev.orig_id
    &&& e.was_orphan == ev.was_orphan
    &&& parquet_replay::untouched(ev) ==> {
        &&& e.was_reassigned == (e.home != ev.home)
        &&& e.was_deferred == (e.home == ev.home && window_of(e.delay) != due_window(
            ev.delay,
            windows,
        ))
    }
}

/// Some event of the class is in window `w` of entity `x`.
pub open spec fn occupied(out: Seq<Logical>, class: BucketClass, x: u64, w: int) -> bool {
    exists|j: int|
        0 <= j < out.len() && (#[trigger] out[j]).kind.class() == class && entity_of(out[j].home)
            == Some(x) && window_of(out[j].delay) == w
}

/// Every window of every entity of the class holds an event.
pub open spec fn class_full(
    out: Seq<Logical>,
    class: BucketClass,
    nodes: Seq<NodeId>,
    scids: Seq<Scid>,
    windows: usize,
) -> bool {
    forall|x: u64, w: int|
        (if class == BucketClass::NodeAnn {
            nodes.contains(x)
        } else {
            scids.contains(x)
        }) && 0 <= w < windows ==> #[trigger] occupied(out, class, x, w)
}

/// The `j`-th kept event comes from the `kept_at[j]`-th one given, in
/// order, and the class of an event that was not kept is full.
pub open spec fn kept_from(
    given: Seq<Logical>,
    out: Seq<Logical>,
    kept_at: Seq<int>,
    nodes: Seq<NodeId>,
    scids: Seq<Scid>,
    windows: usize,
) -> bool {
    &&& kept_at.len() == out.len()
    &&& forall|j: int|
        0 <= j < out.len() ==> 0 <= #[trigger] kept_at[j] < given.len() && outcome_of(
            given[kept_at[j]],
            out[j],
            windows,
        )
    &&& forall|i: int, j: int|
        0 <= i < j < out.len() ==> #[trigger] kept_at[i] < #[trigger] kept_at[j]
    &&& forall|i: int|
        0 <= i < given.len() && !kept_at.contains(i) ==> class_full(
            out,
            (#[trigger] given[i]).kind.class(),
            nodes,
            scids,
            windows,
        )
}

/// Every event given is kept, or its class is full.
pub open spec fn accounted(
    given: Seq<Logical>,
    out: Seq<Logical>,
    nodes: Seq<NodeId>,
    scids: Seq<Scid>,
    windows: usize,
) -> bool {
    exists|kept_at: Seq<int>| #[trigger] kept_from(given, out, kept_at, nodes, scids, windows)
}

/// Window `w` of entity `x` is taken in the class.
spec fn taken(rooms: Seq<Room>, class: BucketClass, x: u64, w: int) -> bool {
    let used = rooms[class_index(class)].used;
    used.dom().contains(x) && 0 <= w < used[x].len() && used[x][w]
}

/// The taken windows are those that hold a kept event.
spec fn all_occupied(rooms: Seq<Room>, out: Seq<Logical>) -> bool {
    forall|class: BucketClass, x: u64, w: int| #[trigger]
        taken(rooms, class, x, w) ==> occupied(out, class, x, w)
}

proof fn lemma_occupied_grows(out: Seq<Logical>, e: Logical)
    ensures
        forall|class: BucketClass, x: u64, w: int| #[trigger]
            occupied(out, class, x, w) ==> occupied(out.push(e), class, x, w),
        entity_of(e.home) matches Some(x) ==> occupied(
            out.push(e),
            e.kind.class(),
            x,
            window_of(e.delay),
        ),
{
    let more = out.push(e);
    assert(more[out.len() as int] == e);
    assert forall|class: BucketClass, x: u64, w: int| #[trigger]
        occupied(out, class, x, w) implies occupied(more, class, x, w) by {
        let j = choose|j: int|
            0 <= j < out.len() && (#[trigger] out[j]).kind.class() == class && entity_of(
                out[j].home,
            ) == Some(x) && window_of(out[j].delay) == w;
        assert(more[j] == out[j]);
    }
}

/// One more event is given, and kept.
proof fn lemma_kept(
    given: Seq<Logical>,
    out: Seq<Logical>,
    kept_at: Seq<int>,
    ev: Logical,
    e: Logical,
    nodes: Seq<NodeId>,
    scids: Seq<Scid>,
    windows: usize,
)
    requires
        kept_from(given, out, kept_at, nodes, scids, windows),
        outcome_of(ev, e, windows),
    ensures
        kept_from(
            given.push(ev),
            out.push(e),
            kept_at.push(given.len() as int),
            nodes,
            scids,
            windows,
        ),
{
    let more = given.push(ev);
    let at = kept_at.push(given.len() as int);
    lemma_occupied_grows(out, e);
    assert forall|j: int| 0 <= j < out.push(e).len() implies 0 <= #[trigger] at[j] < more.len()
        && outcome_of(more[at[j]], out.push(e)[j], windows) by {
        if j < out.len() {
            assert(at[j] == kept_at[j]);
        }
    }
    assert forall|i: int| 0 <= i < more.len() && !at.contains(i) implies class_full(
        out.push(e),
        (#[trigger] more[i]).kind.class(),
        nodes,
        scids,
        windows,
    ) by {
        assert(at[kept_at.len() as int] == given.len());
        if kept_at.contains(i) {
            assert(at[kept_at.index_of(i)] == i);
        }
        let class = given[i].kind.class();
        assert(class_full(out, class, nodes, scids, windows));
        assert forall|x: u64, w: int|
            (if class == BucketClass::NodeAnn {
                nodes.contains(x)
            } else {
                scids.contains(x)
            }) && 0 <= w < windows implies #[trigger] occupied(out.push(e), class, x, w) by {
            assert(occupied(out, class, x, w));
        }
    }
}

/// One more event is given, and dropped from a full class.
proof fn lemma_dropped(
    given: Seq<Logical>,
    out: Seq<Logical>,
    kept_at: Seq<int>,
    ev: Logical,
    nodes: Seq<NodeId>,
    scids: Seq<Scid>,
    windows: usize,
)
    requires
        kept_from(given, out, kept_at, nodes, scids, windows),
        class_full(out, ev.kind.class(), nodes, scids, windows),
    ensures
        kept_from(given.push(ev), out, kept_at, nodes, scids, windows),
{
    let more = given.push(ev);
    assert forall|i: int| 0 <= i < more.len() && !kept_at.contains(i) implies class_full(
        out,
        (#[trigger] more[i]).kind.class(),
        nodes,
        scids,
        windows,
    ) by {
        if i < given.len() {
            assert(class_full(out, given[i].kind.class(), nodes, scids, windows));
        }
    }
    assert forall|j: int| 0 <= j < out.len() implies 0 <= #[trigger] kept_at[j] < more.len()
        && outcome_of(more[kept_at[j]], out[j], windows) by {
        assert(more[kept_at[j]] == given[kept_at[j]]);
    }
}

/// The window that an event is in is taken.
spec fn holds_window(e: Logical, rooms: Seq<Room>) -> bool {
    let room = rooms[class_index(e.kind.class())];
    &&& entity_of(e.home) matches Some(x) && room.used.dom().contains(x) && window_of(e.delay)
        < room.used[x].len() && room.used[x][window_of(e.delay)]
}

/// Free windows of all classes.
struct Rooms {
    node: Capacity,
    chan_ann: Capacity,
    chan_upd0: Capacity,
    chan_upd1: Capacity,
}

impl Rooms {
    spec fn rooms(&self) -> Seq<Room> {
        seq![
            self.node.room(),
            self.chan_ann.room(),
            self.chan_upd0.room(),
            self.chan_upd1.room(),
        ]
    }

    spec fn wf(&self, windows: usize) -> bool {
        &&& self.node.wf() && self.node.num_windows == windows
        &&& self.chan_ann.wf() && self.chan_ann.num_windows == windows
        &&& self.chan_upd0.wf() && self.chan_upd0.num_windows == windows
        &&& self.chan_upd1.wf() && self.chan_upd1.num_windows == windows
    }

    fn settle_in(
        &mut self,
        class: BucketClass,
        home: Option<u64>,
        orphan: bool,
        pref: usize,
        r: &mut ChaCha8Rng,
        Ghost(windows): Ghost<usize>,
    ) -> (out: Option<Placement>)
        requires
            old(self).wf(windows),
        ensures
            final(self).wf(windows),
            (out, *final(r)) == settled(
                old(self).rooms()[class_index(class)],
                home,
                orphan,
                pref,
                *old(r),
            ),
            out is None ==> final(self).rooms() == old(self).rooms() && old(
                self,
            ).rooms()[class_index(class)].free.len() == 0,
            out matches Some(p) ==> {
                let room = old(self).rooms()[class_index(class)];
                &&& p.moved == (p.window != if pref < windows {
                    pref as int
                } else {
                    windows - 1
                })
                &&& orphan ==> p.reassigned
                &&& home matches Some(e) ==> (p.entity != e ==> p.reassigned) && (p.entity == e
                    ==> p.reassigned == orphan)
                &&& final(self).rooms() == old(self).rooms().update(
                    class_index(class),
                    room.take(p.entity, p.window as int),
                )
                &&& p.window < windows
                &&& room.has_room(p.entity)
                &&& !room.used[p.entity][p.window as int]
            },
    {
        let out: Option<Placement> = match class {
            BucketClass::NodeAnn => settle(&mut self.node, home, orphan, pref, r),
            BucketClass::ChanAnn => settle(&mut self.chan_ann, home, orphan, pref, r),
            BucketClass::ChanUpd0 => settle(&mut self.chan_upd0, home, orphan, pref, r),
            BucketClass::ChanUpd1 => settle(&mut self.chan_upd1, home, orphan, pref, r),
        };
        proof {
            match out {
                Some(p) => {
                    let room = old(self).rooms()[class_index(class)];
                    assert(self.rooms() =~= old(self).rooms().update(
                        class_index(class),
                        room.take(p.entity, p.window as int),
                    ));
                },
                None => {
                    assert(self.rooms() =~= old(self).rooms());
                },
            }
        }
        out
    }
}

/// Counts a kept event.
fn tally(stats: &mut ReshapeStats, ev: &LogicalEvent, p: Placement, Ghost(n): Ghost<int>)
    requires
        old(stats).shaped(),
        old(stats).at_most(n),
        n < usize::MAX,
    ensures
        final(stats).shaped(),
        final(stats).at_most(n + 1),
        final(stats)@ == kept(old(stats)@, ev@, p),
{
    let k: usize = ev.kind.kind_idx();
    assert(stats.total_by_kind@[k as int] <= n);
    if p.reassigned {
        bump(&mut stats.reassigned_by_kind, k);
        if ev.was_orphan {
            bump(&mut stats.orphan_by_kind, k);
        }
    } else if p.moved {
        bump(&mut stats.deferred_by_kind, k);
    }
    let deferred: bool = ev.was_deferred || (!p.reassigned && p.moved);
    let reassigned: bool = ev.was_reassigned || p.reassigned;
    if deferred || reassigned || ev.was_orphan {
        let ghost before = stats.excess_by_kind@;
        stats.excess_by_kind[k].push(ev.orig_id.clone());
        proof {
            let now = text_lists(stats.excess_by_kind@);
            let was = text_lists(before);
            assert(now[k as int] =~= was[k as int].push(ev.orig_id@));
            assert(now =~= was.update(k as int, was[k as int].push(ev.orig_id@)));
        }
    }
    bump(&mut stats.total_by_kind, k);
    proof {
        assert forall|j: int| 0 <= j < 3 implies #[trigger] stats.total_by_kind@[j] <= n + 1
            && stats.deferred_by_kind@[j] <= n + 1 && stats.reassigned_by_kind@[j] <= n + 1
            && stats.orphan_by_kind@[j] <= n + 1 && stats.dropped_by_kind@[j] <= n + 1 by {
            assert(old(stats).total_by_kind@[j] <= n);
        }
    }
}

/// The kept events all hold a window of their own.
proof fn lemma_keep(
    out: Seq<Logical>,
    rooms: Seq<Room>,
    e: Logical,
    c: int,
    p: Placement,
)
    requires
        rooms.len() == 4,
        forall|i: int| 0 <= i < out.len() ==> #[trigger] holds_window(out[i], rooms),
        rate_limited(out),
        c == class_index(e.kind.class()),
        rooms[c].used.dom().contains(p.entity),
        p.window < rooms[c].used[p.entity].len(),
        !rooms[c].used[p.entity][p.window as int],
        window_of(e.delay) == p.window,
        entity_of(e.home) == Some(p.entity),
        e.home == HomeEntity::Node(p.entity) <==> e.kind.class() == BucketClass::NodeAnn,
    ensures
        rate_limited(out.push(e)),
        forall|i: int|
            0 <= i < out.push(e).len() ==> #[trigger] holds_window(
                out.push(e)[i],
                rooms.update(c, rooms[c].take(p.entity, p.window as int)),
            ),
{
    let more = out.push(e);
    let now = rooms.update(c, rooms[c].take(p.entity, p.window as int));
    assert forall|i: int| 0 <= i < more.len() implies #[trigger] holds_window(more[i], now) by {
        if i < out.len() {
            assert(more[i] == out[i]);
            assert(holds_window(out[i], rooms));
        }
    }
    assert forall|i: int, j: int|
        0 <= i < j < more.len() && (#[trigger] more[i]).kind.class() == (
        #[trigger] more[j]).kind.class() && more[i].home == more[j].home implies window_of(
        more[i].delay,
    ) != window_of(more[j].delay) by {
        if j < out.len() {
            assert(out[i].kind.class() == out[j].kind.class());
        } else {
            assert(holds_window(out[i], rooms));
        }
    }
}

/// The taken windows stay those that hold a kept event.
proof fn lemma_taken(out: Seq<Logical>, rooms: Seq<Room>, e: Logical, c: int, p: Placement)
    requires
        rooms.len() == 4,
        all_occupied(rooms, out),
        c == class_index(e.kind.class()),
        window_of(e.delay) == p.window,
        entity_of(e.home) == Some(p.entity),
        rooms[c].used.dom().contains(p.entity),
        p.window < rooms[c].used[p.entity].len(),
    ensures
        all_occupied(
            rooms.update(c, rooms[c].take(p.entity, p.window as int)),
            out.push(e),
        ),
{
    let now = rooms.update(c, rooms[c].take(p.entity, p.window as int));
    lemma_occupied_grows(out, e);
    assert forall|class: BucketClass, x: u64, w: int| #[trigger]
        taken(now, class, x, w) implies occupied(out.push(e), class, x, w) by {
        if class != e.kind.class() || x != p.entity || w != p.window {
            assert(taken(rooms, class, x, w));
            assert(occupied(out, class, x, w));
        }
    }
}

/// A placement marks an event as it should.
proof fn lemma_outcome(ev: Logical, p: Placement, delay: SimDuration, windows: usize)
    requires
        window_of(delay) == p.window,
        p.moved == (p.window != due_window(ev.delay, windows)),
        ev.was_orphan ==> p.reassigned,
        entity_of(ev.home) matches Some(e) ==> (p.entity != e ==> p.reassigned) && (p.entity == e
            ==> p.reassigned == ev.was_orphan),
    ensures
        outcome_of(ev, placed_event(ev, p, delay), windows),
{
}

/// The entities of a class stay the same.
spec fn same_entities(rooms: Seq<Room>, nodes: Seq<NodeId>, scids: Seq<Scid>) -> bool {
    &&& rooms.len() == 4
    &&& forall|x: u64| #[trigger] rooms[0].used.dom().contains(x) <==> nodes.contains(x)
    &&& forall|c: int, x: u64|
        1 <= c < 4 ==> (#[trigger] rooms[c].used.dom().contains(x) <==> scids.contains(x))
}

/// Shapes the events of a trace to the nodes and channels of a topology:
/// every kept event is about an entity that exists, no two of one class
/// and entity are in one window, and every event is kept or counted as
/// dropped, the latter only where its whole class is full. The outcome is a function of the events, the entities, the
/// number of windows, the length of the run and the seed.
#[verifier::spinoff_prover]
#[verifier::rlimit(30)]
pub fn reshape(
    events: Vec<LogicalEvent>,
    registry: &ChannelRegistry,
    snapshot_nodes: &Vec<NodeId>,
    num_windows: usize,
    max_duration: SimDuration,
    seed: u64,
) -> (r: (Vec<LogicalEvent>, ReshapeStats))
    requires
        registry.wf(),
        num_windows * 600 <= u64::MAX,
    ensures
        ({
            let s = shaped_all(
                unshaped(snapshot_nodes@, registry.scids@, num_windows, seed),
                parquet_replay::logicals(events@),
                num_windows,
                max_duration.secs,
            );
            parquet_replay::logicals(r.0@) == s.out && r.1@ == s.tallies
        }),
        r.1.shaped(),
        rate_limited(parquet_replay::logicals(r.0@)),
        parquet_replay::directed(parquet_replay::logicals(events@)) ==> parquet_replay::directed(
            parquet_replay::logicals(r.0@),
        ),
        forall|i: int|
            0 <= i < r.0@.len() ==> resolved(
                (#[trigger] r.0@[i])@,
                snapshot_nodes@,
                registry.scids@,
            ) && timely(r.0@[i]@, num_windows, max_duration.secs),
        accounted(
            parquet_replay::logicals(events@),
            parquet_replay::logicals(r.0@),
            snapshot_nodes@,
            registry.scids@,
            num_windows,
        ),
        forall|k: int|
            0 <= k < 3 ==> #[trigger] r.1.total_by_kind@[k] + r.1.dropped_by_kind@[k] == kind_count(
                parquet_replay::logicals(events@),
                k,
            ) && r.1.total_by_kind@[k] == kind_count(parquet_replay::logicals(r.0@), k),
{
    let ghost nodes = snapshot_nodes@;
    let ghost scids = registry.scids@;
    let ghost given = parquet_replay::logicals(events@);
    let ghost start = unshaped(nodes, scids, num_windows, seed);
    let max_secs: u64 = max_duration.as_secs();
    let mut r: ChaCha8Rng = rng::from_seed(seed ^ RESHAPE_SEED_SALT);
    let mut caps = Rooms {
        node: Capacity::new(copy_ids(snapshot_nodes.as_slice()), num_windows),
        chan_ann: Capacity::new(copy_ids(registry.scids()), num_windows),
        chan_upd0: Capacity::new(copy_ids(registry.scids()), num_windows),
        chan_upd1: Capacity::new(copy_ids(registry.scids()), num_windows),
    };
    let mut stats = ReshapeStats::default();
    let mut out: Vec<LogicalEvent> = Vec::new();
    let ghost mut kept_at: Seq<int> = Seq::empty();
    proof {
        assert(caps.rooms() =~= start.rooms);
        assert(parquet_replay::logicals(out@) =~= Seq::<Logical>::empty());
        assert(given.take(0) =~= Seq::<Logical>::empty());
    }
    for i in 0..events.len()
        invariant
            num_windows * 600 <= u64::MAX,
            given == parquet_replay::logicals(events@),
            max_secs == max_duration.secs,
            caps.wf(num_windows),
            stats.shaped(),
            stats.at_most(i as int),
            (Shaping {
                rooms: caps.rooms(),
                rng: r,
                out: parquet_replay::logicals(out@),
                tallies: stats@,
            }) == shaped_all(start, given.take(i as int), num_windows, max_secs),
            same_entities(caps.rooms(), nodes, scids),
            all_occupied(caps.rooms(), parquet_replay::logicals(out@)),
            kept_from(
                given.take(i as int),
                parquet_replay::logicals(out@),
                kept_at,
                nodes,
                scids,
                num_windows,
            ),
            rate_limited(parquet_replay::logicals(out@)),
            parquet_replay::directed(given) ==> parquet_replay::directed(
                parquet_replay::logicals(out@),
            ),
            forall|j: int|
                0 <= j < parquet_replay::logicals(out@).len() ==> #[trigger] holds_window(
                    parquet_replay::logicals(out@)[j],
                    caps.rooms(),
                ),
            forall|j: int|
                0 <= j < out@.len() ==> resolved((#[trigger] out@[j])@, nodes, scids) && timely(
                    out@[j]@,
                    num_windows,
                    max_secs,
                ),
            forall|k: int|
                0 <= k < 3 ==> #[trigger] stats.total_by_kind@[k] + stats.dropped_by_kind@[k]
                    == kind_count(given.take(i as int), k) && stats.total_by_kind@[k]
                    == kind_count(parquet_replay::logicals(out@), k),
    {
        let ev: &LogicalEvent = &events[i];
        let ghost e = ev@;
        let ghost c = class_index(e.kind.class());
        let ghost rooms = caps.rooms();
        let ghost held = parquet_replay::logicals(out@);
        let ghost was = stats@;
        let ghost totals = stats.total_by_kind@;
        let ghost drops = stats.dropped_by_kind@;
        proof {
            assert(given[i as int] == e);
            assert(given.take(i + 1).drop_last() =~= given.take(i as int));
            assert(given.take(i + 1).last() == e);
            assert(given.take(i + 1) =~= given.take(i as int).push(e));
        }
        let class: BucketClass = ev.kind.bucket_class();
        let home: Option<u64> = match ev.home {
            HomeEntity::Node(n) => Some(n),
            HomeEntity::Channel(s) => Some(s),
            HomeEntity::Unknown => None,
        };
        let due: u64 = ev.delay.secs / WINDOW_SECS;
        let pref: usize = if due < num_windows as u64 {
            due as usize
        } else {
            num_windows
        };
        let kind_idx: usize = ev.kind.kind_idx();
        match caps.settle_in(class, home, ev.was_orphan, pref, &mut r, Ghost(num_windows)) {
            None => {
                proof {
                    assert(stats.total_by_kind@[kind_idx as int] <= i);
                }
                bump(&mut stats.dropped_by_kind, kind_idx);
                proof {
                    lemma_full(caps, num_windows, class, held, nodes, scids);
                    lemma_dropped(
                        given.take(i as int),
                        held,
                        kept_at,
                        e,
                        nodes,
                        scids,
                        num_windows,
                    );
                    assert(stats@ =~= Tallies {
                        dropped: bumped(was.dropped, kind_idx as int),
                        ..was
                    });
                    assert forall|k: int| 0 <= k < 3 implies #[trigger] stats.total_by_kind@[k]
                        + stats.dropped_by_kind@[k] == kind_count(given.take(i + 1), k)
                        && stats.total_by_kind@[k] == kind_count(held, k) by {
                        assert(totals[k] + drops[k] == kind_count(given.take(i as int), k));
                    }
                    assert forall|k: int| 0 <= k < 3 implies #[trigger] stats.total_by_kind@[k] <= i
                        + 1 && stats.deferred_by_kind@[k] <= i + 1 && stats.reassigned_by_kind@[k]
                        <= i + 1 && stats.orphan_by_kind@[k] <= i + 1 && stats.dropped_by_kind@[k]
                        <= i + 1 by {
                        assert(totals[k] <= i);
                    }
                }
            },
            Some(p) => {
                proof {
                    assert((p.window + 1) * 600 <= num_windows * 600);
                }
                let delay: SimDuration = jitter(p.window, max_secs, &mut r);
                tally(&mut stats, ev, p, Ghost(i as int));
                let kept_event = LogicalEvent {
                    delay,
                    home: match class {
                        BucketClass::NodeAnn => HomeEntity::Node(p.entity),
                        _ => HomeEntity::Channel(p.entity),
                    },
                    kind: ev.kind,
                    size_bytes: ev.size_bytes,
                    orig_id: ev.orig_id.clone(),
                    was_orphan: ev.was_orphan,
                    was_deferred: ev.was_deferred || (!p.reassigned && p.moved),
                    was_reassigned: ev.was_reassigned || p.reassigned,
                };
                let ghost new_event = kept_event@;
                out.push(kept_event);
                proof {
                    assert(new_event == placed_event(e, p, delay));
                    assert(parquet_replay::logicals(out@) =~= held.push(new_event));
                    assert(rooms[c].used.dom().contains(p.entity));
                    lemma_room_len(caps, num_windows, c);
                    lemma_keep(held, rooms, new_event, c, p);
                    lemma_outcome(e, p, delay, num_windows);
                    lemma_kept(
                        given.take(i as int),
                        held,
                        kept_at,
                        e,
                        new_event,
                        nodes,
                        scids,
                        num_windows,
                    );
                    kept_at = kept_at.push(i as int);
                    lemma_taken(held, rooms, new_event, c, p);
                    assert(held.push(new_event).drop_last() =~= held);
                    assert forall|k: int| 0 <= k < 3 implies #[trigger] stats.total_by_kind@[k]
                        + stats.dropped_by_kind@[k] == kind_count(given.take(i + 1), k)
                        && stats.total_by_kind@[k] == kind_count(held.push(new_event), k) by {
                        assert(totals[k] + drops[k] == kind_count(given.take(i as int), k));
                        assert(counts(stats.total_by_kind@)[k] == stats.total_by_kind@[k] as nat);
                        assert(counts(stats.dropped_by_kind@)[k] == stats.dropped_by_kind@[k]
                            as nat);
                        assert(was.total[k] == totals[k] as nat);
                        assert(was.dropped[k] == drops[k] as nat);
                    }
                    assert(resolved(new_event, nodes, scids)) by {
                        if c == 0 {
                            assert(rooms[0].used.dom().contains(p.entity));
                        } else {
                            assert(rooms[c].used.dom().contains(p.entity));
                        }
                    }
                    assert(timely(new_event, num_windows, max_secs));
                    assert forall|j: int| 0 <= j < out@.len() implies resolved(
                        (#[trigger] out@[j])@,
                        nodes,
                        scids,
                    ) && timely(out@[j]@, num_windows, max_secs) by {
                    }
                }
            },
        }
    }
    proof {
        assert(given.take(given.len() as int) =~= given);
    }
    (out, stats)
}

/// A class without a free window is full.
proof fn lemma_full(
    caps: Rooms,
    windows: usize,
    class: BucketClass,
    out: Seq<Logical>,
    nodes: Seq<NodeId>,
    scids: Seq<Scid>,
)
    requires
        caps.wf(windows),
        same_entities(caps.rooms(), nodes, scids),
        all_occupied(caps.rooms(), out),
        caps.rooms()[class_index(class)].free.len() == 0,
    ensures
        class_full(out, class, nodes, scids, windows),
{
    let c = class_index(class);
    let room = caps.rooms()[c];
    lemma_room_len(caps, windows, c);
    assert(room.wf());
    assert forall|x: u64, w: int|
        (if class == BucketClass::NodeAnn {
            nodes.contains(x)
        } else {
            scids.contains(x)
        }) && 0 <= w < windows implies #[trigger] occupied(out, class, x, w) by {
        assert(room.used.dom().contains(x));
        assert(!room.free.contains(x));
        assert(!room.has_room(x));
        assert(room.used[x][w]);
        assert(taken(caps.rooms(), class, x, w));
    }
}

proof fn lemma_room_len(caps: Rooms, windows: usize, c: int)
    requires
        caps.wf(windows),
        0 <= c < 4,
    ensures
        forall|x: u64| #[trigger]
            caps.rooms()[c].used.dom().contains(x) ==> caps.rooms()[c].used[x].len() == windows,
{
}

/// Copies a list of ids.
fn copy_ids(ids: &[u64]) -> (r: Vec<u64>)
    ensures
        r@ == ids@,
{
    let mut out: Vec<u64> = Vec::new();
    for i in 0..ids.len()
        invariant
            out@ == ids@.take(i as int),
    {
        out.push(ids[i]);
    }
    assert(ids@.take(ids@.len() as int) =~= ids@);
    out
}

/// An event stays with its own entity as long as that has a free window,
/// and in its own window as long as that is free. It goes elsewhere only
/// where its entity is full, or is not known, and is lost only where all
/// entities are full. Wherever it goes, the window was free. It counts
/// as reassigned where it left its entity or never had one.
pub proof fn event_keeps_its_place_while_free(
    room: Room,
    home: Option<u64>,
    orphan: bool,
    pref: usize,
    r: ChaCha8Rng,
)
    requires
        rng::draws_keep_to_their_range(),
        room.wf(),
        0 < room.windows <= usize::MAX,
        room.free.len() <= usize::MAX,
    ensures
        ({
            let (placed, _) = settled(room, home, orphan, pref, r);
            let wish = if pref < room.windows {
                pref as int
            } else {
                room.windows - 1
            };
            &&& placed matches Some(p) ==> {
                &&& room.used.dom().contains(p.entity)
                &&& p.window < room.windows
                &&& !room.used[p.entity][p.window as int]
                &&& p.moved <==> p.window != wish
                &&& !room.used[p.entity][wish] ==> p.window == wish
            }
            &&& placed is None ==> forall|e: u64, w: int|
                room.used.dom().contains(e) && 0 <= w < room.windows ==> #[trigger] room.used[e][w]
            &&& home matches Some(e) ==> (room.used.dom().contains(e) && (exists|w: int|
                0 <= w < room.windows && !#[trigger] room.used[e][w]) ==> placed is Some
                && placed->0.entity == e && placed->0.reassigned == orphan)
            &&& home matches Some(e) ==> (!room.used.dom().contains(e) || (forall|w: int|
                0 <= w < room.windows ==> #[trigger] room.used[e][w]) ==> (placed matches Some(p)
                ==> p.entity != e && p.reassigned))
            &&& home is None ==> (placed matches Some(p) ==> p.reassigned == orphan)
        }),
{
    windows::drawn_entity_has_a_free_window(room, r);
    let any = room.any_entity(r);
    if let Some(e) = any.0 {
        let w = choose|w: int| 0 <= w < room.windows && !#[trigger] room.used[e][w];
        assert(!windows::all_taken(room.used[e]));
        assert(room.has_room(e));
        windows::preferred_window_is_taken_while_free(room, e, pref, any.1);
    }
    if let Some(e) = home {
        if room.has_room(e) {
            windows::preferred_window_is_taken_while_free(room, e, pref, r);
        } else if room.used.dom().contains(e) {
            assert(windows::all_taken(room.used[e]));
        }
        if room.used.dom().contains(e) && exists|w: int|
            0 <= w < room.windows && !#[trigger] room.used[e][w] {
            let w = choose|w: int| 0 <= w < room.windows && !#[trigger] room.used[e][w];
            assert(!windows::all_taken(room.used[e]));
            assert(room.has_room(e));
        }
    }
}

/// The window that an event prefers is the one its time falls in; the
/// time it gets is the start of its window and a draw of microseconds
/// within the part of the window that the run covers.
pub proof fn time_is_drawn_within_the_window(
    delay: SimDuration,
    windows: usize,
    window: int,
    max_secs: u64,
    r: ChaCha8Rng,
)
    requires
        0 <= window,
        (window + 1) * 600 <= u64::MAX,
        max_secs <= 0xffff_ffff_ffff,
    ensures
        delay.secs < 600 * windows ==> 600 * preferred(delay, windows) <= delay.secs < 600 * (
        preferred(delay, windows) + 1),
        delay.secs >= 600 * windows ==> preferred(delay, windows) == windows,
        (window + 1) * 600 <= max_secs ==> width_us(window, max_secs) == 600_000_000,
        window * 600 < max_secs < (window + 1) * 600 ==> width_us(window, max_secs) == 1_000_000 * (
        max_secs - window * 600),
        max_secs <= window * 600 ==> width_us(window, max_secs) == 0,
        ({
            let width = width_us(window, max_secs);
            let (drawn, next) = rng::below_draw(r, width);
            &&& width > 0 && drawn < width ==> jittered(window, max_secs, r).0.total_nanos()
                == window * 600_000_000_000 + drawn * 1000 && jittered(window, max_secs, r).1
                == next
            &&& width == 0 ==> jittered(window, max_secs, r).0.total_nanos() == window
                * 600_000_000_000 && jittered(window, max_secs, r).1 == r
        }),
{
}

/// A kept event is the event itself, at its place and time, and keeps
/// its kind, its size and where it came from.
pub proof fn kept_event_stays_itself(ev: Logical, p: Placement, delay: SimDuration)
    requires
        parquet_replay::untouched(ev),
    ensures
        ({
            let e = placed_event(ev, p, delay);
            &&& e.delay == delay
            &&& e.kind == ev.kind
            &&& e.size_bytes == ev.size_bytes
            &&& e.orig_id == ev.orig_id
            &&& e.was_orphan == ev.was_orphan
            &&& ev.kind is NodeAnnouncement ==> e.home == HomeEntity::Node(p.entity)
            &&& !(ev.kind is NodeAnnouncement) ==> e.home == HomeEntity::Channel(p.entity)
            &&& e.was_reassigned == p.reassigned
            &&& e.was_deferred == (p.moved && !p.reassigned)
        }),
{
}

/// An event is either kept, behind those kept before it, or dropped, and
/// counted under its own kind alone: as kept or dropped, as deferred or
/// reassigned where it was, as an orphan where it was reassigned for want
/// of an entity. The trace id of one that did not keep its place is
/// noted. A dropped event takes no window.
pub proof fn event_is_kept_or_dropped_once(
    s: Shaping,
    ev: Logical,
    windows: usize,
    max_secs: u64,
    k: int,
)
    requires
        parquet_replay::untouched(ev),
        s.rooms.len() == 4,
        s.tallies.total.len() == 3,
        s.tallies.deferred.len() == 3,
        s.tallies.reassigned.len() == 3,
        s.tallies.orphan.len() == 3,
        s.tallies.dropped.len() == 3,
        s.tallies.excess.len() == 3,
        0 <= k < 3,
    ensures
        ({
            let u = shaped_one(s, ev, windows, max_secs);
            let e = u.out.last();
            let own = k == match ev.kind {
                LogicalKind::NodeAnnouncement => 0int,
                LogicalKind::ChannelAnnouncement => 1,
                LogicalKind::ChannelUpdate { .. } => 2,
            };
            let one = |b: bool|
                if own && b {
                    1nat
                } else {
                    0nat
                };
            let placed = u.out.len() == s.out.len() + 1;
            &&& placed || u.out == s.out
            &&& placed ==> u.out == s.out.push(e) && e.kind == ev.kind && e.size_bytes
                == ev.size_bytes && e.orig_id == ev.orig_id && e.was_orphan == ev.was_orphan
            &&& u.tallies.total[k] == s.tallies.total[k] + one(placed)
            &&& u.tallies.dropped[k] == s.tallies.dropped[k] + one(!placed)
            &&& u.tallies.deferred[k] == s.tallies.deferred[k] + one(placed && e.was_deferred)
            &&& u.tallies.reassigned[k] == s.tallies.reassigned[k] + one(
                placed && e.was_reassigned,
            )
            &&& u.tallies.orphan[k] == s.tallies.orphan[k] + one(
                placed && e.was_reassigned && ev.was_orphan,
            )
            &&& u.tallies.excess[k] == if own && placed && (e.was_deferred || e.was_reassigned
                || e.was_orphan) {
                s.tallies.excess[k].push(ev.orig_id)
            } else {
                s.tallies.excess[k]
            }
            &&& !placed ==> u.rooms == s.rooms
            &&& placed ==> forall|c: int|
                0 <= c < 4 && c != (match ev.kind {
                    LogicalKind::NodeAnnouncement => 0int,
                    LogicalKind::ChannelAnnouncement => 1,
                    LogicalKind::ChannelUpdate { direction } => if direction == 0 {
                        2
                    } else {
                        3
                    },
                }) ==> #[trigger] u.rooms[c] == s.rooms[c]
        }),
{
}

/// Events are placed one after another, in their order.
pub proof fn events_are_placed_in_order(
    s: Shaping,
    a: Seq<Logical>,
    b: Seq<Logical>,
    windows: usize,
    max_secs: u64,
    k: int,
)
    ensures
        shaped_all(s, a + b, windows, max_secs) == shaped_all(
            shaped_all(s, a, windows, max_secs),
            b,
            windows,
            max_secs,
        ),
        a.len() == 0 ==> shaped_all(s, a, windows, max_secs) == s,
        a.len() == 1 ==> shaped_all(s, a, windows, max_secs) == shaped_one(
            s,
            a[0],
            windows,
            max_secs,
        ),
        kind_count(a + b, k) == kind_count(a, k) + kind_count(b, k),
        a.len() == 1 ==> kind_count(a, k) == if k == (match a[0].kind {
            LogicalKind::NodeAnnouncement => 0int,
            LogicalKind::ChannelAnnouncement => 1,
            LogicalKind::ChannelUpdate { .. } => 2,
        }) {
            1nat
        } else {
            0nat
        },
    decreases b.len(),
{
    if b.len() == 0 {
        assert(a + b =~= a);
    } else {
        events_are_placed_in_order(s, a, b.drop_last(), windows, max_secs, k);
        assert((a + b).drop_last() =~= a + b.drop_last());
    }
    if a.len() == 1 {
        reveal_with_fuel(shaped_all, 2);
        reveal_with_fuel(kind_count, 2);
    }
}

/// At the start nothing is kept or counted; node announcements are placed
/// among the nodes, everything else among the channels, and each class
/// has windows of its own.
pub proof fn shaping_starts_empty(nodes: Seq<NodeId>, scids: Seq<Scid>, windows: usize, seed: u64)
    ensures
        ({
            let s = unshaped(nodes, scids, windows, seed);
            &&& s.out.len() == 0
            &&& s.rooms.len() == 4
            &&& s.rooms[0] == Room::fresh(nodes, windows as nat)
            &&& forall|c: int|
                1 <= c < 4 ==> #[trigger] s.rooms[c] == Room::fresh(scids, windows as nat)
            &&& forall|k: int|
                0 <= k < 3 ==> #[trigger] s.tallies.total[k] == 0 && s.tallies.deferred[k] == 0
                    && s.tallies.reassigned[k] == 0 && s.tallies.orphan[k] == 0
                    && s.tallies.dropped[k] == 0 && s.tallies.excess[k].len() == 0
        }),
{
}

/// Two kept events of one class and one entity fall in different windows
/// of ten minutes, and every kept event falls in one of the run's
/// windows, before the run ends where its window begins before that.
pub proof fn kept_events_are_apart_and_in_time(
    out: Seq<Logical>,
    i: int,
    j: int,
    windows: usize,
    max_secs: u64,
)
    requires
        rate_limited(out),
        0 <= i < j < out.len(),
        timely(out[i], windows, max_secs),
    ensures
        out[i].kind.class() == out[j].kind.class() && out[i].home == out[j].home
            ==> out[i].delay.secs / 600 != out[j].delay.secs / 600,
        out[i].delay.secs / 600 < windows,
        (out[i].delay.secs / 600) * 600 < max_secs ==> out[i].delay.secs < max_secs,
        out[i].delay.wf(),
{
}

/// Every kept event stands for one of the given, in their order, and
/// keeps its kind, size and origin; it is deferred where it stayed with
/// its entity but not in its window, and reassigned where it left its
/// entity. An event that is not kept found every window of its class
/// taken.
pub proof fn kept_events_stand_for_the_given(
    given: Seq<Logical>,
    out: Seq<Logical>,
    nodes: Seq<NodeId>,
    scids: Seq<Scid>,
    windows: usize,
    x: u64,
    w: int,
) -> (at: Seq<int>)
    requires
        accounted(given, out, nodes, scids, windows),
        0 <= w < windows,
    ensures
        at.len() == out.len(),
        forall|i: int, j: int| 0 <= i < j < at.len() ==> #[trigger] at[i] < #[trigger] at[j],
        forall|j: int|
            0 <= j < out.len() ==> {
                let ev = given[#[trigger] at[j]];
                let due = if ev.delay.secs / 600 < windows {
                    ev.delay.secs as int / 600
                } else {
                    windows - 1
                };
                &&& 0 <= at[j] < given.len()
                &&& out[j].kind == ev.kind
                &&& out[j].size_bytes == ev.size_bytes
                &&& out[j].orig_id == ev.orig_id
                &&& out[j].was_orphan == ev.was_orphan
                &&& parquet_replay::untouched(ev) ==> {
                    &&& out[j].was_reassigned <==> out[j].home != ev.home
                    &&& out[j].was_deferred <==> out[j].home == ev.home && out[j].delay.secs as int
                        / 600 != due
                }
            },
        forall|i: int|
            0 <= i < given.len() && !at.contains(i) && (if (#[trigger] given[i]).kind is
                NodeAnnouncement {
                nodes.contains(x)
            } else {
                scids.contains(x)
            }) ==> exists|j: int|
                #![trigger out[j]]
                0 <= j < out.len() && out[j].kind.class() == given[i].kind.class() && entity_of(
                    out[j].home,
                ) == Some(x) && out[j].delay.secs as int / 600 == w,
{
    let at = choose|at: Seq<int>| #[trigger] kept_from(given, out, at, nodes, scids, windows);
    assert forall|j: int| 0 <= j < out.len() implies 0 <= #[trigger] at[j] < given.len()
        && outcome_of(given[at[j]], out[j], windows) by {
    }
    assert forall|i: int|
        0 <= i < given.len() && !at.contains(i) && (if (#[trigger] given[i]).kind is
            NodeAnnouncement {
            nodes.contains(x)
        } else {
            scids.contains(x)
        }) implies exists|j: int|
        #![trigger out[j]]
        0 <= j < out.len() && out[j].kind.class() == given[i].kind.class() && entity_of(out[j].home)
            == Some(x) && out[j].delay.secs as int / 600 == w by {
        let class = given[i].kind.class();
        assert(class_full(out, class, nodes, scids, windows));
        assert(occupied(out, class, x, w));
        let j = choose|j: int|
            0 <= j < out.len() && (#[trigger] out[j]).kind.class() == class && entity_of(
                out[j].home,
            ) == Some(x) && window_of(out[j].delay) == w;
        assert(out[j].delay.secs as int / 600 == w);
    }
    at
}

/// A kept node announcement is at a node of the snapshot, and any other
/// kept event at a channel of the registry.
pub proof fn kept_events_have_a_place(e: Logical, nodes: Seq<NodeId>, scids: Seq<Scid>)
    requires
        resolved(e, nodes, scids),
    ensures
        e.kind is NodeAnnouncement ==> (e.home matches HomeEntity::Node(v) && nodes.contains(v)),
        !(e.kind is NodeAnnouncement) ==> (e.home matches HomeEntity::Channel(s) && scids.contains(
            s,
        )),
{
}

} // verus!
