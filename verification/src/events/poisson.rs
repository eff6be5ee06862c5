//! A stream of updates of random channels at a mean rate.
//!
//! The times come from a Poisson process, whose inter-arrival times are
//! real numbers; here stands what is made at each of them.

use rand_chacha::ChaCha8Rng;
use vstd::prelude::*;

use crate::channels;
use crate::channels::ChannelRegistry;
use crate::keys::ScheduledEvent;
use crate::message::{Gossip, GossipKind};
use crate::rng;
use crate::time::SimDuration;

verus! {

/// Updates of random channel sides. Equal seeds give equal streams.
pub struct PoissonRandom {
    /// Bit pattern of the rate per second, a 64-bit float.
    pub rate_bits: u64,
    pub seed: u64,
    pub size_bytes: u16,
}

/// An update of a random channel side at `at`, originated by the side's
/// owner, and the generator after the draw.
pub open spec fn drawn_event(
    s: PoissonRandom,
    at: SimDuration,
    registry: &ChannelRegistry,
    r: ChaCha8Rng,
) -> (ScheduledEvent, ChaCha8Rng) {
    let (scid, direction, next) = channels::side_draw(registry.scids@, r);
    (
        (
            at,
            channels::owner_in(registry.rows@, scid, direction),
            Gossip {
                id: 0,
                origin: None,
                kind: GossipKind::ChannelUpdate,
                size_bytes: s.size_bytes,
                scid: Some(scid),
                direction,
                timestamp: 0,
            },
        ),
        next,
    )
}

impl PoissonRandom {
    /// The generator at the start of the stream.
    pub fn generator(&self) -> (r: ChaCha8Rng)
        ensures
            r == rng::seeded(self.seed),
    {
        rng::from_seed(self.seed)
    }

    /// The event at one arrival.
    pub fn event_at(
        &self,
        at: SimDuration,
        registry: &ChannelRegistry,
        rng: &mut ChaCha8Rng,
    ) -> (r: ScheduledEvent)
        requires
            registry.wf(),
            registry.rows@.len() > 0,
        ensures
            (r, *final(rng)) == drawn_event(*self, at, registry, *old(rng)),
            registry.scids@.contains(r.2.scid->0),
            r.2.direction <= 1,
    {
        let (scid, direction, origin) = registry.random_channel(rng);
        (
            at,
            origin,
            Gossip {
                id: 0,
                origin: None,
                kind: GossipKind::ChannelUpdate,
                size_bytes: self.size_bytes,
                scid: Some(scid),
                direction,
                timestamp: 0,
            },
        )
    }
}

/// An arrival is an update of the channel that is drawn, on the side that
/// the coin decides, sent at its time by the owner of that side, with the
/// size that is set and not yet stamped.
pub proof fn arrival_is_an_update_of_the_drawn_side(
    s: PoissonRandom,
    at: SimDuration,
    registry: &ChannelRegistry,
    r: ChaCha8Rng,
    j: int,
)
    ensures
        ({
            let ((when, sender, g), next) = drawn_event(s, at, registry, r);
            let (i, r1) = rng::index_draw(r, registry.scids@.len() as usize);
            let (heads, r2) = rng::coin_draw(r1);
            let scid = registry.scids@[i as int];
            &&& when == at
            &&& next == r2
            &&& g.kind == GossipKind::ChannelUpdate
            &&& g.scid == Some(scid)
            &&& g.direction == if heads {
                1u8
            } else {
                0u8
            }
            &&& g.size_bytes == s.size_bytes
            &&& g.origin is None && g.timestamp == 0 && g.id == 0
            &&& 0 <= j < registry.rows@.len() && registry.rows@[j].0 == scid && (forall|m: int|
                j < m < registry.rows@.len() ==> (#[trigger] registry.rows@[m]).0 != scid)
                ==> sender == if heads {
                registry.rows@[j].2
            } else {
                registry.rows@[j].1
            }
        }),
{
    let (i, r1) = rng::index_draw(r, registry.scids@.len() as usize);
    let scid = registry.scids@[i as int];
    if 0 <= j < registry.rows@.len() && registry.rows@[j].0 == scid && (forall|m: int|
        j < m < registry.rows@.len() ==> (#[trigger] registry.rows@[m]).0 != scid) {
        channels::last_row_gives_the_owners(registry.rows@, scid, j);
    }
}

} // verus!
