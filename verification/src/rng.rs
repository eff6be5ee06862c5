//! Seeded random draws.
//!
//! A `ChaCha8Rng` is a deterministic generator: what it yields, and the
//! state it is left in, are functions of its state and of what was asked
//! for. The draws are named here as such functions, so that equal seeds
//! can be shown to give equal outcomes; what holds of every outcome is
//! stated beside the name.

use rand::seq::{IndexedRandom, SliceRandom};
use rand::{Rng, SeedableRng};
use rand_chacha::ChaCha8Rng;
use vstd::prelude::*;

use crate::config::NodeAlgoKind;

verus! {

/// `rand_chacha::ChaCha8Rng`, carried as an opaque value.
#[verifier::external_type_specification]
#[verifier::external_body]
pub struct ExChaCha8Rng(ChaCha8Rng);

/// The generator that a seed starts.
pub uninterp spec fn seeded(seed: u64) -> ChaCha8Rng;

/// `ChaCha8Rng::seed_from_u64`: a function of the seed.
#[verifier::external_body]
pub(crate) fn from_seed(seed: u64) -> (r: ChaCha8Rng)
    ensures
        r == seeded(seed),
{
    ChaCha8Rng::seed_from_u64(seed)
}

/// The draw of a number below `n`, and the generator after it.
pub uninterp spec fn below_draw(rng: ChaCha8Rng, n: u64) -> (u64, ChaCha8Rng);

/// `Rng::random_range` over `0..n`: some number of the range, a function
/// of the generator and `n`. It panics on an empty range, which
/// `requires` leaves out.
#[verifier::external_body]
pub(crate) fn draw_below(rng: &mut ChaCha8Rng, n: u64) -> (r: u64)
    requires
        n > 0,
    ensures
        r < n,
        (r, *final(rng)) == below_draw(*old(rng), n),
{
    rng.random_range(0..n)
}

/// The draw of a number up to `hi`, and the generator after it.
pub uninterp spec fn upto_draw(rng: ChaCha8Rng, hi: u64) -> (u64, ChaCha8Rng);

/// `Rng::random_range` over `0..=hi`: some number of the range, a
/// function of the generator and `hi`.
#[verifier::external_body]
pub(crate) fn draw_upto(rng: &mut ChaCha8Rng, hi: u64) -> (r: u64)
    ensures
        r <= hi,
        (r, *final(rng)) == upto_draw(*old(rng), hi),
{
    rng.random_range(0..=hi)
}

/// The draw of an index below `n`, and the generator after it.
pub uninterp spec fn index_draw(rng: ChaCha8Rng, n: usize) -> (usize, ChaCha8Rng);

/// `Rng::random_range` over `0..n` on `usize`: some index of the range, a
/// function of the generator and `n`. It panics on an empty range, which
/// `requires` leaves out.
#[verifier::external_body]
pub(crate) fn draw_index(rng: &mut ChaCha8Rng, n: usize) -> (r: usize)
    requires
        n > 0,
    ensures
        r < n,
        (r, *final(rng)) == index_draw(*old(rng), n),
{
    rng.random_range(0..n)
}

/// Indices are drawn from the range that they are asked of.
pub open spec fn draws_keep_to_their_range() -> bool {
    forall|rng: ChaCha8Rng, n: usize| n > 0 ==> (#[trigger] index_draw(rng, n)).0 < n
}

/// The toss of a coin, and the generator after it.
pub uninterp spec fn coin_draw(rng: ChaCha8Rng) -> (bool, ChaCha8Rng);

/// `Rng::random` for `bool`: a function of the generator.
#[verifier::external_body]
pub(crate) fn draw_coin(rng: &mut ChaCha8Rng) -> (r: bool)
    ensures
        (r, *final(rng)) == coin_draw(*old(rng)),
{
    rng.random::<bool>()
}

/// The draw of `amount` positions out of `len`, and the generator after
/// it.
pub uninterp spec fn positions_draw(
    rng: ChaCha8Rng,
    len: nat,
    amount: usize,
) -> (Seq<int>, ChaCha8Rng);

/// `IndexedRandom::choose_multiple`: the items at `amount` distinct
/// positions, or at all of them where there are fewer, in some order. The
/// positions, and the generator after the draw, are a function of the
/// generator, the number of items and `amount`.
#[verifier::external_body]
pub(crate) fn choose_multiple(rng: &mut ChaCha8Rng, items: &Vec<usize>, amount: usize) -> (r: Vec<
    usize,
>)
    ensures
        *final(rng) == positions_draw(*old(rng), items@.len(), amount).1,
        r@.len() == positions_draw(*old(rng), items@.len(), amount).0.len(),
        r@.len() == if amount <= items@.len() {
            amount as nat
        } else {
            items@.len()
        },
        forall|i: int|
            0 <= i < r@.len() ==> {
                let p = #[trigger] positions_draw(*old(rng), items@.len(), amount).0[i];
                0 <= p < items@.len() && r@[i] == items@[p]
            },
        forall|i: int, j: int|
            0 <= i < j < r@.len() ==> #[trigger] positions_draw(
                *old(rng),
                items@.len(),
                amount,
            ).0[i] != #[trigger] positions_draw(*old(rng), items@.len(), amount).0[j],
{
    items.choose_multiple(rng, amount).copied().collect()
}

/// The order into which `len` items are shuffled, by their former
/// positions, and the generator after it.
pub uninterp spec fn order_draw(rng: ChaCha8Rng, len: nat) -> (Seq<int>, ChaCha8Rng);

/// `SliceRandom::shuffle`: the same items in another order. The order,
/// and the generator after the shuffle, are a function of the generator
/// and the number of items.
#[verifier::external_body]
pub(crate) fn shuffle(rng: &mut ChaCha8Rng, items: &mut Vec<NodeAlgoKind>)
    ensures
        *final(rng) == order_draw(*old(rng), old(items)@.len()).1,
        final(items)@ == order_draw(*old(rng), old(items)@.len()).0.map_values(
            |p: int| old(items)@[p],
        ),
        final(items)@.len() == old(items)@.len(),
        final(items)@.to_multiset() == old(items)@.to_multiset(),
{
    items.shuffle(rng)
}

} // verus!
