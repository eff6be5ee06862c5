//! Sorted sequences.

use vstd::prelude::*;

verus! {

/// The order of `u64`.
pub open spec fn at_most() -> spec_fn(u64, u64) -> bool {
    |a: u64, b: u64| a <= b
}

/// The items of `s` in ascending order.
pub open spec fn ascending(s: Seq<u64>) -> Seq<u64> {
    s.sort_by(at_most())
}

/// `slice::sort_unstable`: the result is ordered and holds the same
/// items.
#[verifier::external_body]
fn std_sort(v: &mut Vec<u64>)
    ensures
        forall|i: int, j: int| 0 <= i < j < final(v)@.len() ==> final(v)@[i] <= final(v)@[j],
        final(v)@.to_multiset() == old(v)@.to_multiset(),
{
    v.sort_unstable()
}

/// Sort in place.
pub(crate) fn sort(v: &mut Vec<u64>)
    ensures
        final(v)@ == ascending(old(v)@),
{
    let ghost before = v@;
    std_sort(v);
    proof {
        before.lemma_sort_by_ensures(at_most());
        vstd::seq_lib::lemma_sorted_unique(v@, ascending(before), at_most());
    }
}

/// Sorting keeps the items, and orders them.
pub proof fn lemma_ascending(s: Seq<u64>)
    ensures
        ascending(s).len() == s.len(),
        ascending(s).to_multiset() == s.to_multiset(),
        forall|i: int, j: int|
            0 <= i <= j < s.len() ==> #[trigger] ascending(s)[i] <= #[trigger] ascending(s)[j],
        forall|x: u64| #[trigger] ascending(s).contains(x) <==> s.contains(x),
{
    s.lemma_sort_by_ensures(at_most());
    let t = ascending(s);
    s.to_multiset_ensures();
    t.to_multiset_ensures();
    assert forall|x: u64| #[trigger] t.contains(x) <==> s.contains(x) by {
        assert(t.to_multiset().count(x) > 0 <==> t.contains(x));
        assert(s.to_multiset().count(x) > 0 <==> s.contains(x));
    }
    assert forall|i: int, j: int| 0 <= i <= j < s.len() implies #[trigger] t[i] <= #[trigger] t[j] by {
        if i < j {
            assert(at_most()(t[i], t[j]));
        }
    }
}

} // verus!
