//! Latency of an edge of the peer graph.

use vstd::prelude::*;

use crate::time::SimDuration;

verus! {

/// How long a message takes from one node to another.
pub trait LatencyDist: Send + Sync {
    /// Latency of the next message from `src` to `dst`.
    fn sample(&mut self, src: u32, dst: u32) -> SimDuration;
}

/// The same latency for every message.
#[derive(Clone, Copy, Debug, PartialEq, Eq, Structural)]
pub struct Constant(pub SimDuration);

impl LatencyDist for Constant {
    fn sample(&mut self, src: u32, dst: u32) -> (r: SimDuration)
        ensures
            r == old(self).0,
            *final(self) == *old(self),
    {
        let _ = (src, dst);
        self.0
    }
}

} // verus!
