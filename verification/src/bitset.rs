//! Presence bitsets, and the ascending list of the positions that a
//! predicate selects.

use fixedbitset::FixedBitSet;
use vstd::prelude::*;

verus! {

/// `fixedbitset::FixedBitSet`, carried as an opaque value; its bits are
/// named by [`bits`].
#[verifier::external_type_specification]
#[verifier::external_body]
pub struct ExFixedBitSet(FixedBitSet);

/// The bits of a set, position by position.
pub uninterp spec fn bits(set: FixedBitSet) -> Seq<bool>;

/// `FixedBitSet::with_capacity`: `capacity` bits, all clear.
pub assume_specification[ FixedBitSet::with_capacity ](capacity: usize) -> (r: FixedBitSet)
    ensures
        bits(r) == Seq::new(capacity as nat, |i: int| false),
;

/// `FixedBitSet::contains`: whether the bit is set; positions past the
/// end are not.
pub assume_specification[ FixedBitSet::contains ](set: &FixedBitSet, bit: usize) -> (r: bool)
    ensures
        r == (bit < bits(*set).len() && bits(*set)[bit as int]),
;

/// `FixedBitSet::insert`: sets one bit. It panics on a position past the
/// end, which `requires` leaves out.
pub assume_specification[ FixedBitSet::insert ](set: &mut FixedBitSet, bit: usize)
    requires
        bit < bits(*old(set)).len(),
    ensures
        bits(*final(set)) == bits(*old(set)).update(bit as int, true),
;

/// `FixedBitSet::put`: sets one bit and returns what it was. It panics
/// on a position past the end, which `requires` leaves out.
pub assume_specification[ FixedBitSet::put ](set: &mut FixedBitSet, bit: usize) -> (r: bool)
    requires
        bit < bits(*old(set)).len(),
    ensures
        r == bits(*old(set))[bit as int],
        bits(*final(set)) == bits(*old(set)).update(bit as int, true),
;

/// Collects `FixedBitSet::ones`: the set positions in ascending order.
#[verifier::external_body]
pub(crate) fn ones(set: &FixedBitSet) -> (r: Vec<usize>)
    ensures
        positions(r@) == select(bits(*set).len(), |i: int| bits(*set)[i]),
{
    set.ones().collect()
}

/// Collects `FixedBitSet::difference`: the positions set in `set` and
/// not in `other`, in ascending order.
#[verifier::external_body]
pub(crate) fn difference(set: &FixedBitSet, other: &FixedBitSet) -> (r: Vec<usize>)
    ensures
        positions(r@) == select(
            bits(*set).len(),
            |i: int| bits(*set)[i] && !(i < bits(*other).len() && bits(*other)[i]),
        ),
{
    set.difference(other).collect()
}

/// A list of machine positions as integers.
pub open spec fn positions(v: Seq<usize>) -> Seq<int> {
    v.map_values(|x: usize| x as int)
}

/// The numbers below `n` that satisfy `p`, in ascending order.
pub open spec fn select(n: nat, p: spec_fn(int) -> bool) -> Seq<int>
    decreases n,
{
    if n == 0 {
        Seq::empty()
    } else if p(n - 1) {
        select((n - 1) as nat, p).push(n - 1)
    } else {
        select((n - 1) as nat, p)
    }
}

/// Predicates that agree below `n` select the same numbers.
pub proof fn lemma_select_ext(n: nat, p: spec_fn(int) -> bool, q: spec_fn(int) -> bool)
    requires
        forall|i: int| 0 <= i < n ==> #[trigger] p(i) == q(i),
    ensures
        select(n, p) == select(n, q),
    decreases n,
{
    if n > 0 {
        lemma_select_ext((n - 1) as nat, p, q);
    }
}

/// The selected numbers are those below `n` that satisfy `p`, each once
/// and ascending.
pub proof fn lemma_select_members(n: nat, p: spec_fn(int) -> bool)
    ensures
        forall|k: int|
            0 <= k < select(n, p).len() ==> 0 <= #[trigger] select(n, p)[k] < n && p(
                select(n, p)[k],
            ),
        forall|j: int, k: int|
            0 <= j < k < select(n, p).len() ==> #[trigger] select(n, p)[j] < #[trigger] select(
                n,
                p,
            )[k],
        forall|i: int| 0 <= i < n && #[trigger] p(i) ==> select(n, p).contains(i),
        select(n, p).len() <= n,
    decreases n,
{
    if n > 0 {
        let m = (n - 1) as nat;
        lemma_select_members(m, p);
        assert forall|i: int| 0 <= i < n && #[trigger] p(i) implies select(n, p).contains(i) by {
            if i == n - 1 {
                assert(select(n, p)[select(n, p).len() - 1] == i);
            } else {
                assert(select(m, p).contains(i));
                let k = select(m, p).index_of(i);
                assert(select(m, p)[k] == i);
                assert(select(n, p)[k] == i);
            }
        }
    }
}

/// Filtering a selection is selecting by both predicates.
pub proof fn lemma_select_filter(n: nat, p: spec_fn(int) -> bool, q: spec_fn(int) -> bool)
    ensures
        select(n, p).filter(q) == select(n, |i: int| p(i) && q(i)),
    decreases n,
{
    reveal(Seq::filter);
    if n > 0 {
        let m = (n - 1) as nat;
        lemma_select_filter(m, p, q);
        if p(n - 1) {
            assert(select(n, p).drop_last() =~= select(m, p));
        }
    }
}

/// Two predicates that exclude each other and cover a third select, by
/// count, what the third does.
pub proof fn lemma_select_split(
    n: nat,
    p: spec_fn(int) -> bool,
    q: spec_fn(int) -> bool,
    r: spec_fn(int) -> bool,
)
    requires
        forall|i: int| 0 <= i < n ==> #[trigger] p(i) == (q(i) || r(i)) && !(q(i) && r(i)),
    ensures
        select(n, p).len() == select(n, q).len() + select(n, r).len(),
    decreases n,
{
    if n > 0 {
        assert(p(n - 1) == (q(n - 1) || r(n - 1)));
        lemma_select_split((n - 1) as nat, p, q, r);
    }
}

} // verus!
