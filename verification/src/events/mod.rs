//! What is originated, when, and by whom.
//!
//! A schedule is a list of (delay, originating node, message). The whole
//! list is built before a run and injected as simulated time passes.

pub mod oneshot;
pub mod parquet_replay;
pub mod pattern;
pub mod poisson;
pub mod ranking;
pub mod reshape;
pub mod windows;

use vstd::prelude::*;

use crate::channels::ChannelRegistry;
use crate::keys::ScheduledEvent;
use crate::message::{GossipKind, NodeId};
use crate::time::SimDuration;

verus! {

/// A source of events. `nodes` are the ids of all nodes by vertex,
/// `max_duration` is the length of the run, and the registry says who
/// owns a channel side.
pub trait EventSchedule {
    fn build(&self, nodes: &[NodeId], max_duration: SimDuration, registry: &ChannelRegistry) -> (r:
        Vec<ScheduledEvent>)
        requires
            registry.wf(),
    ;
}

/// When an event is due: seconds, then nanoseconds.
pub open spec fn due(e: ScheduledEvent) -> (u64, u32) {
    (e.0.secs, e.0.nanos)
}

/// One event is due no later than another.
pub open spec fn no_later(a: ScheduledEvent, b: ScheduledEvent) -> bool {
    a.0.secs < b.0.secs || (a.0.secs == b.0.secs && a.0.nanos <= b.0.nanos)
}

/// Events ascend by when they are due.
pub open spec fn in_order(events: Seq<ScheduledEvent>) -> bool {
    forall|i: int, j: int|
        0 <= i <= j < events.len() ==> no_later(#[trigger] events[i], #[trigger] events[j])
}

/// The events that are due at one time.
pub open spec fn due_at(events: Seq<ScheduledEvent>, at: (u64, u32)) -> Seq<ScheduledEvent> {
    events.filter(|e: ScheduledEvent| due(e) == at)
}

/// `slice::sort_by_key` by seconds and nanoseconds: a stable sort, so the
/// result is ordered, holds the same events, and keeps the order of
/// events that are due at one time.
#[verifier::external_body]
pub(crate) fn sort_events(events: &mut Vec<ScheduledEvent>)
    ensures
        in_order(final(events)@),
        final(events)@.to_multiset() == old(events)@.to_multiset(),
        forall|at: (u64, u32)| #[trigger]
            due_at(final(events)@, at) == due_at(old(events)@, at),
{
    events.sort_by_key(|e| (e.0.secs, e.0.nanos))
}

/// The same events, ordered by when they are due; those due at one time
/// in their former order.
pub open spec fn scheduled(sorted: Seq<ScheduledEvent>, events: Seq<ScheduledEvent>) -> bool {
    &&& in_order(sorted)
    &&& sorted.to_multiset() == events.to_multiset()
    &&& forall|at: (u64, u32)| #[trigger] due_at(sorted, at) == due_at(events, at)
}

/// Puts a schedule in order.
pub fn in_schedule_order(events: Vec<ScheduledEvent>) -> (r: Vec<ScheduledEvent>)
    ensures
        scheduled(r@, events@),
{
    let mut events = events;
    sort_events(&mut events);
    events
}

/// The events whose messages are of one kind.
pub open spec fn of_kind(events: Seq<ScheduledEvent>, kind: GossipKind) -> Seq<ScheduledEvent> {
    events.filter(|e: ScheduledEvent| e.2.kind == kind)
}

proof fn lemma_of_kind_push(events: Seq<ScheduledEvent>, e: ScheduledEvent, kind: GossipKind)
    ensures
        of_kind(events.push(e), kind).len() == of_kind(events, kind).len() + if e.2.kind == kind {
            1int
        } else {
            0
        },
{
    reveal(Seq::filter);
    assert(events.push(e).drop_last() =~= events);
}

/// The number of channel updates, of node announcements and of channel
/// announcements in a schedule.
pub fn count_kinds(events: &[ScheduledEvent]) -> (r: (u64, u64, u64))
    ensures
        r.0 == of_kind(events@, GossipKind::ChannelUpdate).len(),
        r.1 == of_kind(events@, GossipKind::NodeAnnouncement).len(),
        r.2 == of_kind(events@, GossipKind::ChannelAnnouncement).len(),
{
    let mut updates: u64 = 0;
    let mut node_anns: u64 = 0;
    let mut chan_anns: u64 = 0;
    proof {
        reveal(Seq::filter);
        assert(events@.take(0) =~= Seq::<ScheduledEvent>::empty());
    }
    for i in 0..events.len()
        invariant
            updates == of_kind(events@.take(i as int), GossipKind::ChannelUpdate).len(),
            node_anns == of_kind(events@.take(i as int), GossipKind::NodeAnnouncement).len(),
            chan_anns == of_kind(events@.take(i as int), GossipKind::ChannelAnnouncement).len(),
            updates + node_anns + chan_anns == i,
    {
        proof {
            let part = events@.take(i as int);
            let e = events@[i as int];
            assert(events@.take(i + 1) =~= part.push(e));
            lemma_of_kind_push(part, e, GossipKind::ChannelUpdate);
            lemma_of_kind_push(part, e, GossipKind::NodeAnnouncement);
            lemma_of_kind_push(part, e, GossipKind::ChannelAnnouncement);
        }
        match events[i].2.kind {
            GossipKind::ChannelUpdate => {
                updates = updates + 1;
            },
            GossipKind::NodeAnnouncement => {
                node_anns = node_anns + 1;
            },
            GossipKind::ChannelAnnouncement => {
                chan_anns = chan_anns + 1;
            },
        }
    }
    assert(events@.take(events@.len() as int) =~= events@);
    (updates, node_anns, chan_anns)
}

/// An event comes no later than another where its time is no greater.
pub proof fn events_are_ordered_by_time(a: ScheduledEvent, b: ScheduledEvent)
    requires
        a.0.wf(),
        b.0.wf(),
    ensures
        no_later(a, b) <==> a.0.total_nanos() <= b.0.total_nanos(),
        due(a) == due(b) <==> a.0.total_nanos() == b.0.total_nanos(),
{
}

/// A schedule holds every event once, in the order of their times, and
/// events of one time in the order in which they were given.
pub proof fn schedule_keeps_every_event_in_order(
    sorted: Seq<ScheduledEvent>,
    given: Seq<ScheduledEvent>,
    i: int,
    j: int,
    secs: u64,
    nanos: u32,
)
    requires
        scheduled(sorted, given),
        0 <= i <= j < sorted.len(),
        sorted[i].0.wf(),
        sorted[j].0.wf(),
    ensures
        sorted[i].0.total_nanos() <= sorted[j].0.total_nanos(),
        sorted.to_multiset() == given.to_multiset(),
        sorted.len() == given.len(),
        sorted.filter(|e: ScheduledEvent| e.0.secs == secs && e.0.nanos == nanos) == given.filter(
            |e: ScheduledEvent| e.0.secs == secs && e.0.nanos == nanos,
        ),
{
    sorted.to_multiset_ensures();
    given.to_multiset_ensures();
    assert(no_later(sorted[i], sorted[j]));
    let at = (secs, nanos);
    assert(due_at(sorted, at) == due_at(given, at));
    assert((|e: ScheduledEvent| e.0.secs == secs && e.0.nanos == nanos) =~= (|e: ScheduledEvent|
        due(e) == at));
}

} // verus!
