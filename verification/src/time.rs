//! Time spans measured from the start of a simulation.

use vstd::prelude::*;

verus! {

/// Nanoseconds in one second.
pub const NANOS_PER_SEC: u32 = 1_000_000_000;

/// A span of simulated time: whole seconds and the nanoseconds past
/// them.
#[derive(Copy, Clone, Debug, PartialEq, Eq, PartialOrd, Ord, Hash, Structural)]
pub struct SimDuration {
    pub secs: u64,
    pub nanos: u32,
}

impl SimDuration {
    /// The span as a count of nanoseconds.
    pub open spec fn total_nanos(self) -> nat {
        (self.secs as nat) * 1_000_000_000 + self.nanos as nat
    }

    /// The sub-second part is below one second.
    pub open spec fn wf(self) -> bool {
        self.nanos < NANOS_PER_SEC
    }

    /// The empty span.
    pub fn zero() -> (r: SimDuration)
        ensures
            r.wf(),
            r.total_nanos() == 0,
    {
        SimDuration { secs: 0, nanos: 0 }
    }

    pub fn from_secs(secs: u64) -> (r: SimDuration)
        ensures
            r.wf(),
            r.secs == secs,
            r.total_nanos() == secs * 1_000_000_000,
    {
        SimDuration { secs, nanos: 0 }
    }

    pub fn from_millis(millis: u64) -> (r: SimDuration)
        ensures
            r.wf(),
            r.total_nanos() == millis * 1_000_000,
    {
        SimDuration { secs: millis / 1000, nanos: ((millis % 1000) as u32) * 1_000_000 }
    }

    pub fn from_micros(micros: u64) -> (r: SimDuration)
        ensures
            r.wf(),
            r.total_nanos() == micros * 1000,
    {
        SimDuration { secs: micros / 1_000_000, nanos: ((micros % 1_000_000) as u32) * 1000 }
    }

    pub fn from_nanos(nanos: u64) -> (r: SimDuration)
        ensures
            r.wf(),
            r.total_nanos() == nanos,
    {
        SimDuration { secs: nanos / 1_000_000_000, nanos: (nanos % 1_000_000_000) as u32 }
    }

    /// The span `k` times over.
    pub fn times(&self, k: u32) -> (r: SimDuration)
        requires
            self.wf(),
            k * self.total_nanos() < 0x1_0000_0000_0000_0000 * 1_000_000_000,
        ensures
            r.wf(),
            r.total_nanos() == k * self.total_nanos(),
    {
        proof {
            assert(self.nanos * k <= 1_000_000_000 * 0xffff_ffff) by (nonlinear_arith)
                requires
                    self.nanos < 1_000_000_000,
            ;
            assert(k * self.total_nanos() == (k * self.secs) * 1_000_000_000 + self.nanos * k)
                by (nonlinear_arith)
                requires
                    self.total_nanos() == self.secs * 1_000_000_000 + self.nanos,
            ;
        }
        let nanos: u64 = self.nanos as u64 * k as u64;
        let carry: u64 = nanos / 1_000_000_000;
        proof {
            assert(k * self.secs + carry < 0x1_0000_0000_0000_0000);
            assert(self.secs * k as u64 == k * self.secs) by (nonlinear_arith);
        }
        SimDuration {
            secs: self.secs * k as u64 + carry,
            nanos: (nanos % 1_000_000_000) as u32,
        }
    }

    /// Whole seconds in the span.
    pub fn as_secs(&self) -> (r: u64)
        ensures
            r == self.secs,
    {
        self.secs
    }

    /// The span in nanoseconds.
    pub fn as_nanos(&self) -> (r: u128)
        ensures
            r == self.total_nanos(),
    {
        self.secs as u128 * 1_000_000_000 + self.nanos as u128
    }
}

/// The nanoseconds of `t` in 64 bits.
pub open spec fn low_nanos(t: SimDuration) -> u64 {
    (t.total_nanos() % 0x1_0000_0000_0000_0000) as u64
}

/// Nanoseconds from the start of the simulation to `t`, in 64 bits.
pub fn ns_since_epoch(t: SimDuration) -> (r: u64)
    ensures
        r == low_nanos(t),
{
    let ns: u128 = t.as_nanos();
    assert(ns as u64 == ns % 0x1_0000_0000_0000_0000) by (bit_vector);
    #[verifier::truncate]
    (ns as u64)
}

/// A well-formed span is fixed by its length: no two differ in their
/// fields and agree in nanoseconds.
pub proof fn duration_is_its_length(a: SimDuration, b: SimDuration)
    requires
        a.wf(),
        b.wf(),
        a.total_nanos() == b.total_nanos(),
    ensures
        a == b,
{
}

/// A time reads as its seconds and the nanoseconds past them, and the
/// later of two times is the one with more seconds, or with as many and
/// more nanoseconds. Times below 2^64 nanoseconds are recorded exactly.
pub proof fn times_read_as_seconds_and_nanoseconds(a: SimDuration, b: SimDuration)
    requires
        a.wf(),
        b.wf(),
    ensures
        a.total_nanos() / 1_000_000_000 == a.secs,
        a.total_nanos() % 1_000_000_000 == a.nanos,
        a.total_nanos() < b.total_nanos() <==> a.secs < b.secs || (a.secs == b.secs && a.nanos
            < b.nanos),
        a.total_nanos() <= u64::MAX ==> low_nanos(a) == a.total_nanos(),
        (a.total_nanos() - low_nanos(a)) % 0x1_0000_0000_0000_0000 == 0,
{
}

} // verus!
