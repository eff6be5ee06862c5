//! Reservoir sampling (Vitter's Algorithm R): a bounded uniform sample of
//! an arbitrarily long stream.
//!
//! The buffer fills with the first `capacity` items; after that the n-th
//! item replaces a random slot with probability `capacity / n`. Each
//! reservoir owns a seeded generator, so equal seeds and equal streams
//! give equal samples.

use rand_chacha::ChaCha8Rng;
use vstd::prelude::*;

use crate::rng;

verus! {

/// At most `capacity` items sampled from those observed.
#[derive(Debug)]
pub struct Reservoir<T> {
    buf: Vec<T>,
    capacity: usize,
    seen: u64,
    rng: ChaCha8Rng,
}

/// What a reservoir is: its samples, its bound, how many items it has
/// observed, and its generator.
#[verifier::ext_equal]
pub struct Sample<T> {
    pub items: Seq<T>,
    pub capacity: nat,
    pub seen: nat,
    pub rng: ChaCha8Rng,
}

/// A reservoir that has observed nothing.
pub open spec fn unsampled<T>(capacity: nat, seed: u64) -> Sample<T> {
    Sample { items: Seq::empty(), capacity, seen: 0, rng: rng::seeded(seed) }
}

/// A reservoir after one more observation.
pub open spec fn observed<T>(s: Sample<T>, x: T) -> Sample<T> {
    if s.items.len() < s.capacity {
        Sample { items: s.items.push(x), seen: s.seen + 1, ..s }
    } else {
        let (j, next) = rng::upto_draw(s.rng, s.seen as u64);
        Sample {
            items: if j < s.capacity {
                s.items.update(j as int, x)
            } else {
                s.items
            },
            capacity: s.capacity,
            seen: s.seen + 1,
            rng: next,
        }
    }
}

/// A reservoir after a stream of observations.
pub open spec fn after<T>(s: Sample<T>, xs: Seq<T>) -> Sample<T>
    decreases xs.len(),
{
    if xs.len() == 0 {
        s
    } else {
        observed(after(s, xs.drop_last()), xs.last())
    }
}

impl<T: Copy> View for Reservoir<T> {
    type V = Sample<T>;

    closed spec fn view(&self) -> Sample<T> {
        Sample {
            items: self.buf@,
            capacity: self.capacity as nat,
            seen: self.seen as nat,
            rng: self.rng,
        }
    }
}

impl<T> Sample<T> {
    /// The reservoir is as full as what it has observed allows.
    pub open spec fn wf(self) -> bool {
        self.items.len() == if self.seen < self.capacity {
            self.seen
        } else {
            self.capacity
        }
    }
}

impl<T: Copy> Reservoir<T> {
    pub fn new(capacity: usize, seed: u64) -> (r: Self)
        ensures
            r@ == unsampled::<T>(capacity as nat, seed),
            r@.wf(),
    {
        Reservoir {
            buf: Vec::with_capacity(capacity),
            capacity,
            seen: 0,
            rng: rng::from_seed(seed),
        }
    }

    /// Observe one item: fill the buffer until it is full, then replace
    /// the slot that is drawn among all observations, if there is one.
    pub fn observe(&mut self, x: T)
        requires
            old(self)@.wf(),
            old(self)@.seen < u64::MAX,
        ensures
            final(self)@ == observed(old(self)@, x),
            final(self)@.wf(),
    {
        if self.buf.len() < self.capacity {
            self.buf.push(x);
        } else {
            let j: u64 = rng::draw_upto(&mut self.rng, self.seen);
            if j < self.capacity as u64 {
                self.buf.set(j as usize, x);
            }
        }
        self.seen = self.seen + 1;
    }

    pub fn samples(&self) -> (r: &[T])
        ensures
            r@ == self@.items,
    {
        self.buf.as_slice()
    }

    pub fn seen(&self) -> (r: u64)
        ensures
            r == self@.seen,
    {
        self.seen
    }

    pub fn capacity(&self) -> (r: usize)
        ensures
            r == self@.capacity,
    {
        self.capacity
    }

    /// Consume the reservoir, returning its sample buffer.
    pub fn into_inner(self) -> (r: Vec<T>)
        ensures
            r@ == self@.items,
    {
        self.buf
    }
}

impl<T: Copy + Default> Default for Reservoir<T> {
    fn default() -> (r: Self)
        ensures
            r@ == unsampled::<T>(0, 0),
            r@.wf(),
    {
        Reservoir::new(0, 0)
    }
}

/// However long the stream, the sample holds as many items as were
/// observed, up to the capacity, and nothing but observed items.
pub proof fn sample_is_drawn_from_stream<T>(capacity: nat, seed: u64, xs: Seq<T>)
    requires
        xs.len() <= u64::MAX,
    ensures
        ({
            let s = after(unsampled::<T>(capacity, seed), xs);
            &&& s.wf()
            &&& s.capacity == capacity
            &&& s.seen == xs.len()
            &&& forall|i: int| 0 <= i < s.items.len() ==> xs.contains(#[trigger] s.items[i])
        }),
    decreases xs.len(),
{
    if xs.len() > 0 {
        let init = xs.drop_last();
        sample_is_drawn_from_stream(capacity, seed, init);
        let before = after(unsampled::<T>(capacity, seed), init);
        let s = after(unsampled::<T>(capacity, seed), xs);
        assert(xs[xs.len() - 1] == xs.last());
        assert forall|i: int| 0 <= i < s.items.len() implies xs.contains(#[trigger] s.items[i]) by {
            if s.items[i] != xs.last() {
                assert(i < before.items.len() && s.items[i] == before.items[i]);
                let p = init.index_of(before.items[i]);
                assert(init[p] == before.items[i]);
                assert(xs[p] == s.items[i]);
            }
        }
    }
}

/// While the stream is no longer than the capacity, the sample is the
/// stream.
pub proof fn warm_up_keeps_everything<T>(capacity: nat, seed: u64, xs: Seq<T>)
    requires
        xs.len() <= capacity,
    ensures
        after(unsampled::<T>(capacity, seed), xs).items == xs,
        after(unsampled::<T>(capacity, seed), xs).capacity == capacity,
    decreases xs.len(),
{
    if xs.len() > 0 {
        warm_up_keeps_everything(capacity, seed, xs.drop_last());
        assert(xs.drop_last().push(xs.last()) =~= xs);
    }
}

/// Once the sample is full, the next item takes the place that is drawn
/// among all the items seen so far and itself, if that place is in the
/// sample, and is passed over otherwise. All other places stay, and the
/// item is counted either way.
pub proof fn full_sample_gives_up_the_drawn_place<T>(s: Sample<T>, x: T)
    requires
        s.wf(),
    ensures
        observed(s, x).seen == s.seen + 1,
        observed(s, x).capacity == s.capacity,
        s.items.len() < s.capacity ==> observed(s, x).items == s.items.push(x) && observed(s, x).rng
            == s.rng,
        s.items.len() >= s.capacity ==> ({
            let (place, next) = rng::upto_draw(s.rng, s.seen as u64);
            &&& observed(s, x).rng == next
            &&& observed(s, x).items.len() == s.items.len()
            &&& forall|i: int|
                0 <= i < s.items.len() ==> #[trigger] observed(s, x).items[i] == if i == place {
                    x
                } else {
                    s.items[i]
                }
        }),
{
}

/// A stream is sampled item by item.
pub proof fn stream_is_sampled_in_order<T>(s: Sample<T>, xs: Seq<T>, ys: Seq<T>)
    ensures
        after(s, xs + ys) == after(after(s, xs), ys),
        xs.len() == 0 ==> after(s, xs) == s,
        xs.len() == 1 ==> after(s, xs) == observed(s, xs[0]),
    decreases ys.len(),
{
    if ys.len() == 0 {
        assert(xs + ys =~= xs);
    } else {
        stream_is_sampled_in_order(s, xs, ys.drop_last());
        assert((xs + ys).drop_last() =~= xs + ys.drop_last());
    }
    if xs.len() == 1 {
        reveal_with_fuel(after, 2);
    }
}

} // verus!
