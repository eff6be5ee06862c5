//! The most frequent texts of a list.

use vstd::prelude::*;

verus! {

/// A text and how often it occurs.
pub type Run = (Seq<char>, nat);

/// The order of texts: by code points, the first difference decides, and
/// a prefix comes first.
pub open spec fn text_le(a: Seq<char>, b: Seq<char>) -> bool
    decreases a.len(),
{
    if a.len() == 0 {
        true
    } else if b.len() == 0 {
        false
    } else if a[0] != b[0] {
        (a[0] as u32) < (b[0] as u32)
    } else {
        text_le(a.skip(1), b.skip(1))
    }
}

/// Contents of a list of strings.
pub open spec fn texts(v: Seq<String>) -> Seq<Seq<char>> {
    v.map_values(|s: String| s@)
}

/// Contents of a list of counted strings.
pub open spec fn runs_of(v: Seq<(String, usize)>) -> Seq<Run> {
    v.map_values(|p: (String, usize)| (p.0@, p.1 as nat))
}

/// `slice::sort` on strings: the result is ordered and holds the same
/// texts.
#[verifier::external_body]
fn sort_texts(v: &mut Vec<String>)
    ensures
        texts(final(v)@).to_multiset() == texts(old(v)@).to_multiset(),
        forall|i: int, j: int|
            0 <= i <= j < final(v)@.len() ==> text_le(
                (#[trigger] final(v)@[i])@,
                (#[trigger] final(v)@[j])@,
            ),
{
    v.sort()
}

proof fn lemma_text_antisym(a: Seq<char>, b: Seq<char>)
    requires
        text_le(a, b),
        text_le(b, a),
    ensures
        a == b,
    decreases a.len(),
{
    if a.len() > 0 && b.len() > 0 {
        lemma_text_antisym(a.skip(1), b.skip(1));
        assert(a =~= seq![a[0]] + a.skip(1));
        assert(b =~= seq![b[0]] + b.skip(1));
    } else {
        assert(a =~= b);
    }
}

proof fn lemma_text_trans(a: Seq<char>, b: Seq<char>, c: Seq<char>)
    requires
        text_le(a, b),
        text_le(b, c),
    ensures
        text_le(a, c),
    decreases a.len(),
{
    if a.len() > 0 && b.len() > 0 && c.len() > 0 && a[0] == b[0] && b[0] == c[0] {
        lemma_text_trans(a.skip(1), b.skip(1), c.skip(1));
    }
}

/// The texts of a list, each once with its count, in ascending order.
pub open spec fn tallies(r: Seq<Run>, s: Seq<Seq<char>>) -> bool {
    &&& forall|i: int, j: int|
        0 <= i < j < r.len() ==> text_le((#[trigger] r[i]).0, (#[trigger] r[j]).0) && r[i].0
            != r[j].0
    &&& forall|i: int|
        0 <= i < r.len() ==> (#[trigger] r[i]).1 == s.to_multiset().count(r[i].0) && r[i].1 > 0
    &&& forall|x: Seq<char>| #[trigger]
        s.contains(x) ==> exists|i: int| 0 <= i < r.len() && (#[trigger] r[i]).0 == x
}

/// Count the texts of an ordered list.
fn tally_ordered(v: &Vec<String>) -> (r: Vec<(String, usize)>)
    requires
        forall|i: int, j: int|
            0 <= i <= j < v@.len() ==> text_le((#[trigger] v@[i])@, (#[trigger] v@[j])@),
    ensures
        tallies(runs_of(r@), texts(v@)),
        r@.len() <= v@.len(),
{
    let ghost all = texts(v@);
    let mut out: Vec<(String, usize)> = Vec::new();
    assert(all.take(0) =~= Seq::<Seq<char>>::empty());
    for i in 0..v.len()
        invariant
            all == texts(v@),
            forall|a: int, b: int|
                0 <= a <= b < v@.len() ==> text_le((#[trigger] v@[a])@, (#[trigger] v@[b])@),
            tallies(runs_of(out@), all.take(i as int)),
            out@.len() <= i,
            forall|k: int| 0 <= k < out@.len() ==> (#[trigger] out@[k]).1 <= i,
            i > 0 ==> out@.len() > 0 && out@[out@.len() - 1].0@ == v@[i - 1]@,
    {
        let ghost before = runs_of(out@);
        let ghost part = all.take(i as int);
        let ghost x = v@[i as int]@;
        let ghost more = all.take(i + 1);
        proof {
            assert(more =~= part.push(x));
            part.to_multiset_ensures();
            more.to_multiset_ensures();
            assert(more.to_multiset() =~= part.to_multiset().insert(x));
            assert forall|y: Seq<char>| #[trigger] more.contains(y) implies part.contains(y) || y
                == x by {
                let p = more.index_of(y);
                if p < part.len() {
                    assert(part[p] == y);
                }
            }
        }
        let last: usize = out.len();
        let same: bool = last > 0 && out[last - 1].0 == v[i];
        if same {
            let count: usize = out[last - 1].1 + 1;
            let text: String = v[i].clone();
            out.set(last - 1, (text, count));
            proof {
                let now = runs_of(out@);
                assert(now =~= before.update(last - 1, (x, count as nat)));
                assert(before[last - 1].0 == x);
                assert forall|k: int| 0 <= k < now.len() implies (#[trigger] now[k]).1
                    == more.to_multiset().count(now[k].0) && now[k].1 > 0 by {
                    assert(before[k].1 == part.to_multiset().count(before[k].0));
                    if k != last - 1 {
                        assert(before[k].0 != before[last - 1].0);
                    }
                }
                assert forall|a: int, b: int| 0 <= a < b < now.len() implies text_le(
                    (#[trigger] now[a]).0,
                    (#[trigger] now[b]).0,
                ) && now[a].0 != now[b].0 by {
                    assert(text_le(before[a].0, before[b].0) && before[a].0 != before[b].0);
                }
                assert forall|y: Seq<char>| #[trigger] more.contains(y) implies exists|k: int|
                    0 <= k < now.len() && (#[trigger] now[k]).0 == y by {
                    if part.contains(y) {
                        let k = choose|k: int| 0 <= k < before.len() && (#[trigger] before[k]).0
                            == y;
                        assert(now[k].0 == y);
                    } else {
                        assert(now[last - 1].0 == y);
                    }
                }
            }
        } else {
            proof {
                assert forall|k: int| 0 <= k < before.len() implies text_le(
                    (#[trigger] before[k]).0,
                    x,
                ) && before[k].0 != x by {
                    let top = before[before.len() - 1].0;
                    assert(top == v@[i - 1]@);
                    assert(text_le(top, x)) by {
                        assert(text_le(v@[i - 1]@, v@[i as int]@));
                    }
                    if k < before.len() - 1 {
                        assert(text_le(before[k].0, before[before.len() - 1].0));
                        lemma_text_trans(before[k].0, top, x);
                        if before[k].0 == x {
                            lemma_text_antisym(top, x);
                        }
                    }
                }
                assert(!part.contains(x)) by {
                    if part.contains(x) {
                        let k = choose|k: int| 0 <= k < before.len() && (#[trigger] before[k]).0
                            == x;
                        assert(before[k].0 != x);
                    }
                }
            }
            out.push((v[i].clone(), 1));
            proof {
                let now = runs_of(out@);
                assert(now =~= before.push((x, 1nat)));
                assert(part.to_multiset().count(x) == 0);
                assert forall|k: int| 0 <= k < now.len() implies (#[trigger] now[k]).1
                    == more.to_multiset().count(now[k].0) && now[k].1 > 0 by {
                    if k < before.len() {
                        assert(before[k].1 == part.to_multiset().count(before[k].0));
                        assert(before[k].0 != x);
                    }
                }
                assert forall|a: int, b: int| 0 <= a < b < now.len() implies text_le(
                    (#[trigger] now[a]).0,
                    (#[trigger] now[b]).0,
                ) && now[a].0 != now[b].0 by {
                    if b < before.len() {
                        assert(text_le(before[a].0, before[b].0) && before[a].0 != before[b].0);
                    } else {
                        assert(text_le(before[a].0, x) && before[a].0 != x);
                    }
                }
                assert forall|y: Seq<char>| #[trigger] more.contains(y) implies exists|k: int|
                    0 <= k < now.len() && (#[trigger] now[k]).0 == y by {
                    if part.contains(y) {
                        let k = choose|k: int| 0 <= k < before.len() && (#[trigger] before[k]).0
                            == y;
                        assert(now[k].0 == y);
                    } else {
                        assert(now[before.len() as int].0 == y);
                    }
                }
            }
        }
    }
    assert(all.take(all.len() as int) =~= all);
    out
}

/// One run comes before another: it is more frequent, or as frequent and
/// earlier in the order of texts.
pub open spec fn outranks(a: Run, b: Run) -> bool {
    a.1 > b.1 || (a.1 == b.1 && text_le(a.0, b.0) && a.0 != b.0)
}

/// `r` holds the `limit` most frequent texts of `s` with their counts, or
/// all of them where there are fewer, the most frequent first and equally
/// frequent ones in the order of texts.
pub open spec fn ranking(r: Seq<Run>, s: Seq<Seq<char>>, limit: nat) -> bool {
    &&& r.len() <= limit
    &&& forall|i: int, j: int|
        0 <= i < j < r.len() ==> outranks(#[trigger] r[i], #[trigger] r[j])
    &&& forall|i: int|
        0 <= i < r.len() ==> (#[trigger] r[i]).1 == s.to_multiset().count(r[i].0) && r[i].1 > 0
    &&& forall|x: Seq<char>| #[trigger]
        s.contains(x) ==> {
            ||| exists|i: int| 0 <= i < r.len() && (#[trigger] r[i]).0 == x
            ||| r.len() == limit && forall|i: int|
                0 <= i < r.len() ==> outranks(#[trigger] r[i], (x, s.to_multiset().count(x)))
        }
}

proof fn lemma_outranks_trans(a: Run, b: Run, c: Run)
    requires
        outranks(a, b),
        outranks(b, c),
    ensures
        outranks(a, c),
{
    if a.1 == b.1 && b.1 == c.1 {
        lemma_text_trans(a.0, b.0, c.0);
        if a.0 == c.0 {
            lemma_text_antisym(a.0, b.0);
        }
    }
}

/// The first of the best runs that are not taken.
fn best_left(runs: &Vec<(String, usize)>, taken: &Vec<bool>) -> (r: Option<usize>)
    requires
        taken@.len() == runs@.len(),
        forall|i: int, j: int|
            0 <= i < j < runs@.len() ==> text_le(
                (#[trigger] runs_of(runs@)[i]).0,
                (#[trigger] runs_of(runs@)[j]).0,
            ) && runs_of(runs@)[i].0 != runs_of(runs@)[j].0,
    ensures
        r is None ==> forall|i: int| 0 <= i < taken@.len() ==> #[trigger] taken@[i],
        r matches Some(b) ==> b < runs@.len() && !taken@[b as int] && forall|i: int|
            0 <= i < runs@.len() && !(#[trigger] taken@[i]) && i != b ==> outranks(
                runs_of(runs@)[b as int],
                runs_of(runs@)[i],
            ),
{
    let ghost all = runs_of(runs@);
    let mut best: Option<usize> = None;
    for i in 0..runs.len()
        invariant
            all == runs_of(runs@),
            taken@.len() == runs@.len(),
            forall|a: int, b: int|
                0 <= a < b < runs@.len() ==> text_le((#[trigger] all[a]).0, (#[trigger] all[b]).0)
                    && all[a].0 != all[b].0,
            best is None ==> forall|j: int| 0 <= j < i ==> #[trigger] taken@[j],
            best matches Some(b) ==> b < i && !taken@[b as int] && forall|j: int|
                0 <= j < i && !(#[trigger] taken@[j]) && j != b ==> outranks(all[b as int], all[j]),
    {
        if !taken[i] {
            match best {
                None => {
                    best = Some(i);
                },
                Some(b) => {
                    proof {
                        assert(text_le(all[b as int].0, all[i as int].0));
                        assert(all[b as int].1 == runs@[b as int].1 as nat);
                        assert(all[i as int].1 == runs@[i as int].1 as nat);
                    }
                    if runs[i].1 > runs[b].1 {
                        proof {
                            assert(outranks(all[i as int], all[b as int]));
                            assert forall|j: int|
                                0 <= j < i + 1 && !(#[trigger] taken@[j]) && j != i implies outranks(
                                all[i as int],
                                all[j],
                            ) by {
                                if j != b {
                                    assert(outranks(all[b as int], all[j]));
                                    lemma_outranks_trans(all[i as int], all[b as int], all[j]);
                                }
                            }
                        }
                        best = Some(i);
                    }
                },
            }
        }
    }
    best
}

/// The `limit` most frequent texts of a list.
pub fn top_sources(ids: &Vec<String>, limit: usize) -> (r: Vec<(String, usize)>)
    ensures
        ranking(runs_of(r@), texts(ids@), limit as nat),
{
    let ghost given = texts(ids@);
    let mut sorted: Vec<String> = Vec::new();
    for i in 0..ids.len()
        invariant
            texts(sorted@) == texts(ids@).take(i as int),
            sorted@.len() == i,
    {
        sorted.push(ids[i].clone());
        assert(texts(sorted@) =~= texts(ids@).take(i + 1));
    }
    assert(given.take(ids@.len() as int) =~= given);
    sort_texts(&mut sorted);
    let runs: Vec<(String, usize)> = tally_ordered(&sorted);
    let ghost all = runs_of(runs@);
    let ghost ordered = texts(sorted@);
    proof {
        given.to_multiset_ensures();
        ordered.to_multiset_ensures();
        assert forall|x: Seq<char>| #[trigger] given.contains(x) implies exists|i: int|
            0 <= i < all.len() && (#[trigger] all[i]).0 == x by {
            assert(given.to_multiset().count(x) > 0);
            assert(ordered.contains(x));
        }
    }
    let mut taken: Vec<bool> = Vec::new();
    for i in 0..runs.len()
        invariant
            taken@.len() == i,
            forall|j: int| 0 <= j < i ==> !(#[trigger] taken@[j]),
    {
        taken.push(false);
    }
    let mut out: Vec<(String, usize)> = Vec::new();
    let mut done: bool = false;
    while out.len() < limit && !done
        invariant
            all == runs_of(runs@),
            taken@.len() == runs@.len(),
            out@.len() <= limit,
            forall|a: int, b: int|
                0 <= a < b < all.len() ==> text_le((#[trigger] all[a]).0, (#[trigger] all[b]).0)
                    && all[a].0 != all[b].0,
            forall|i: int, j: int|
                0 <= i < j < out@.len() ==> outranks(
                    #[trigger] runs_of(out@)[i],
                    #[trigger] runs_of(out@)[j],
                ),
            forall|i: int, j: int|
                0 <= i < out@.len() && 0 <= j < all.len() && !taken@[j] ==> outranks(
                    #[trigger] runs_of(out@)[i],
                    #[trigger] all[j],
                ),
            forall|i: int| 0 <= i < out@.len() ==> all.contains(#[trigger] runs_of(out@)[i]),
            forall|j: int|
                0 <= j < all.len() && #[trigger] taken@[j] ==> exists|i: int|
                    0 <= i < out@.len() && #[trigger] runs_of(out@)[i] == all[j],
            done ==> forall|j: int| 0 <= j < taken@.len() ==> #[trigger] taken@[j],
        decreases limit - out@.len() + (if done {
                0int
            } else {
                1int
            }),
    {
        let ghost before = runs_of(out@);
        match best_left(&runs, &taken) {
            Some(b) => {
                let ghost was = taken@;
                out.push((runs[b].0.clone(), runs[b].1));
                taken.set(b, true);
                proof {
                    let now = runs_of(out@);
                    let e = all[b as int];
                    assert(now =~= before.push(e));
                    assert forall|i: int, j: int| 0 <= i < j < now.len() implies outranks(
                        #[trigger] now[i],
                        #[trigger] now[j],
                    ) by {
                        if j < before.len() {
                            assert(outranks(before[i], before[j]));
                        } else {
                            assert(outranks(before[i], all[b as int]));
                        }
                    }
                    assert forall|i: int, j: int|
                        0 <= i < now.len() && 0 <= j < all.len() && !taken@[j] implies outranks(
                        #[trigger] now[i],
                        #[trigger] all[j],
                    ) by {
                        assert(!was[j]);
                        if i < before.len() {
                            assert(outranks(before[i], all[j]));
                        }
                    }
                    assert forall|i: int| 0 <= i < now.len() implies all.contains(
                        #[trigger] now[i],
                    ) by {
                        if i < before.len() {
                            assert(all.contains(before[i]));
                        } else {
                            assert(all[b as int] == now[i]);
                        }
                    }
                    assert forall|j: int| 0 <= j < all.len() && #[trigger] taken@[j] implies exists|
                        i: int,
                    |
                        0 <= i < now.len() && #[trigger] now[i] == all[j] by {
                        if j == b {
                            assert(now[before.len() as int] == all[j]);
                        } else {
                            assert(was[j]);
                            let i = choose|i: int|
                                0 <= i < before.len() && #[trigger] before[i] == all[j];
                            assert(now[i] == all[j]);
                        }
                    }
                }
            },
            None => {
                done = true;
            },
        }
    }
    proof {
        let now = runs_of(out@);
        assert forall|i: int| 0 <= i < now.len() implies (#[trigger] now[i]).1
            == given.to_multiset().count(now[i].0) && now[i].1 > 0 by {
            let j = all.index_of(now[i]);
            assert(all[j].1 == ordered.to_multiset().count(all[j].0));
        }
        assert forall|x: Seq<char>| #[trigger] given.contains(x) implies ({
            ||| exists|i: int| 0 <= i < now.len() && (#[trigger] now[i]).0 == x
            ||| now.len() == limit && forall|i: int|
                0 <= i < now.len() ==> outranks(
                    #[trigger] now[i],
                    (x, given.to_multiset().count(x)),
                )
        }) by {
            let j = choose|j: int| 0 <= j < all.len() && (#[trigger] all[j]).0 == x;
            assert(all[j].1 == ordered.to_multiset().count(all[j].0));
            if taken@[j] {
                let i = choose|i: int| 0 <= i < now.len() && #[trigger] now[i] == all[j];
                assert(now[i].0 == x);
            } else {
                assert(!done);
                assert forall|i: int| 0 <= i < now.len() implies outranks(
                    #[trigger] now[i],
                    (x, given.to_multiset().count(x)),
                ) by {
                    assert(outranks(now[i], all[j]));
                }
            }
        }
    }
    out
}

/// Texts are ordered by their first difference, a text before those that
/// it begins.
pub proof fn texts_are_ordered_by_their_first_difference(a: Seq<char>, b: Seq<char>, i: int)
    requires
        0 <= i <= a.len(),
        i <= b.len(),
        a.take(i) == b.take(i),
    ensures
        i == a.len() ==> text_le(a, b),
        i == b.len() && i < a.len() ==> !text_le(a, b),
        i < a.len() && i < b.len() && a[i] != b[i] ==> (text_le(a, b) <==> (a[i] as u32) < (
        b[i] as u32)),
    decreases i,
{
    if i > 0 {
        assert(a[0] == a.take(i)[0]);
        assert(b[0] == b.take(i)[0]);
        assert(a.skip(1).take(i - 1) =~= a.take(i).skip(1));
        assert(b.skip(1).take(i - 1) =~= b.take(i).skip(1));
        texts_are_ordered_by_their_first_difference(a.skip(1), b.skip(1), i - 1);
    }
}

/// The more frequent source ranks first, and of two as frequent the one
/// that comes first in the order of texts.
pub proof fn frequent_sources_rank_first(a: Seq<char>, b: Seq<char>, m: nat, n: nat)
    ensures
        m > n ==> outranks((a, m), (b, n)),
        m < n ==> !outranks((a, m), (b, n)),
        m == n && a != b ==> (outranks((a, m), (b, n)) <==> text_le(a, b)),
        !outranks((a, m), (a, m)),
{
}

/// A ranking lists each source with the number of times it occurs, most
/// frequent first and those as frequent by their text; a source that it
/// leaves out ranks behind all those listed, and is left out only where
/// the ranking is full.
pub proof fn ranking_lists_the_most_frequent(
    r: Seq<Run>,
    s: Seq<Seq<char>>,
    limit: nat,
    x: Seq<char>,
    i: int,
    j: int,
)
    requires
        ranking(r, s, limit),
        s.contains(x),
        0 <= i < r.len(),
        i < j < r.len() || j == i,
    ensures
        r.len() <= limit,
        r[i].1 == s.to_multiset().count(r[i].0),
        s.contains(r[i].0),
        i < j ==> r[i].0 != r[j].0,
        i < j ==> r[i].1 > r[j].1 || (r[i].1 == r[j].1 && text_le(r[i].0, r[j].0)),
        (forall|m: int| 0 <= m < r.len() ==> (#[trigger] r[m]).0 != x) ==> r.len() == limit && (
        r[i].1 > s.to_multiset().count(x) || (r[i].1 == s.to_multiset().count(x) && text_le(
            r[i].0,
            x,
        ))),
{
    s.to_multiset_ensures();
    if i < j {
        assert(outranks(r[i], r[j]));
    }
    if forall|m: int| 0 <= m < r.len() ==> (#[trigger] r[m]).0 != x {
        assert(outranks(r[i], (x, s.to_multiset().count(x))));
    }
}

} // verus!
