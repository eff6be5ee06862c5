//! File name patterns, by which several captures are named at once.

use vstd::prelude::*;

verus! {

/// A name fits a pattern: `*` stands for any text, `?` for any one
/// character, and everything else for itself.
pub open spec fn fits(pattern: Seq<char>, name: Seq<char>) -> bool
    decreases pattern.len() + name.len(),
{
    if pattern.len() == 0 {
        name.len() == 0
    } else if pattern[0] == '*' {
        fits(pattern.skip(1), name) || (name.len() > 0 && fits(pattern, name.skip(1)))
    } else {
        name.len() > 0 && (pattern[0] == '?' || pattern[0] == name[0]) && fits(
            pattern.skip(1),
            name.skip(1),
        )
    }
}

/// Which of the rests of a name fit the rest of a pattern from `at` on,
/// given which fit the rest from `at + 1` on.
fn rests_that_fit(pattern: &Vec<char>, name: &Vec<char>, at: usize, shorter: &Vec<bool>) -> (r: Vec<
    bool,
>)
    requires
        at < pattern@.len(),
        shorter@.len() == name@.len() + 1,
        forall|j: int|
            0 <= j <= name@.len() ==> #[trigger] shorter@[j] == fits(
                pattern@.skip(at + 1),
                name@.skip(j),
            ),
    ensures
        r@.len() == name@.len() + 1,
        forall|j: int|
            0 <= j <= name@.len() ==> #[trigger] r@[j] == fits(
                pattern@.skip(at as int),
                name@.skip(j),
            ),
{
    let n: usize = name.len();
    let mut r: Vec<bool> = Vec::new();
    for j in 0..n
        invariant
            r@.len() == j,
            n == name@.len(),
    {
        r.push(false);
    }
    r.push(false);
    let ghost rest = pattern@.skip(at as int);
    assert(rest.skip(1) =~= pattern@.skip(at + 1));
    let c: char = pattern[at];
    let mut j: usize = r.len();
    while j > 0
        invariant
            n == name@.len(),
            j <= n + 1,
            at < pattern@.len(),
            c == pattern@[at as int],
            rest == pattern@.skip(at as int),
            rest.skip(1) == pattern@.skip(at + 1),
            shorter@.len() == n + 1,
            r@.len() == n + 1,
            forall|k: int|
                0 <= k <= n ==> #[trigger] shorter@[k] == fits(rest.skip(1), name@.skip(k)),
            forall|k: int| j <= k <= n ==> #[trigger] r@[k] == fits(rest, name@.skip(k)),
        decreases j,
    {
        j = j - 1;
        let fit: bool = if c == '*' {
            shorter[j] || (j < n && r[j + 1])
        } else {
            j < n && (c == '?' || c == name[j]) && shorter[j + 1]
        };
        proof {
            assert(rest[0] == c);
            if j < n {
                assert(name@.skip(j as int).skip(1) =~= name@.skip(j + 1));
                assert(name@.skip(j as int)[0] == name@[j as int]);
            }
            assert(fit == fits(rest, name@.skip(j as int)));
        }
        r.set(j, fit);
    }
    r
}

/// Whether a file name fits a pattern.
pub fn name_fits(pattern: &Vec<char>, name: &Vec<char>) -> (r: bool)
    ensures
        r == fits(pattern@, name@),
{
    let n: usize = name.len();
    let mut row: Vec<bool> = Vec::new();
    for j in 0..n
        invariant
            n == name@.len(),
            row@.len() == j,
            forall|k: int| 0 <= k < j ==> #[trigger] row@[k] == false,
    {
        row.push(false);
    }
    row.push(true);
    let mut at: usize = pattern.len();
    assert(pattern@.skip(at as int).len() == 0);
    while at > 0
        invariant
            at <= pattern@.len(),
            row@.len() == name@.len() + 1,
            forall|j: int|
                0 <= j <= name@.len() ==> #[trigger] row@[j] == fits(
                    pattern@.skip(at as int),
                    name@.skip(j),
                ),
        decreases at,
    {
        at = at - 1;
        row = rests_that_fit(pattern, name, at, &row);
    }
    assert(pattern@.skip(0) =~= pattern@);
    assert(name@.skip(0) =~= name@);
    row[0]
}

/// A pattern in two parts fits a name where the name can be cut so that
/// each part fits its piece. An empty pattern fits only the empty name, a
/// star fits every name, a question mark every name of one character,
/// and any other character only itself.
pub proof fn pattern_fits_piece_by_piece(p: Seq<char>, q: Seq<char>, name: Seq<char>, c: char)
    ensures
        fits(p + q, name) <==> exists|k: int|
            0 <= k <= name.len() && fits(p, #[trigger] name.take(k)) && fits(q, name.skip(k)),
        fits(Seq::empty(), name) <==> name.len() == 0,
        fits(seq!['*'], name),
        fits(seq!['?'], name) <==> name.len() == 1,
        c != '*' && c != '?' ==> (fits(seq![c], name) <==> name == seq![c]),
    decreases p.len() + name.len(), p.len(),
{
    lemma_star(name);
    assert(seq!['?'].skip(1) =~= Seq::<char>::empty());
    assert(seq![c].skip(1) =~= Seq::<char>::empty());
    reveal_with_fuel(fits, 2);
    assert(name.len() == 1 ==> name.skip(1).len() == 0);
    if c != '*' && c != '?' {
        if fits(seq![c], name) {
            assert(name =~= seq![c]);
        }
    }
    let pq = p + q;
    if p.len() == 0 {
        assert(pq =~= q);
        assert(name.skip(0) =~= name);
        if fits(q, name) {
            assert(fits(p, name.take(0)));
        }
    } else {
        let ps = p.skip(1);
        assert(pq.skip(1) =~= ps + q);
        assert(pq[0] == p[0]);
        if p[0] == '*' {
            pattern_fits_piece_by_piece(ps, q, name, c);
            if name.len() > 0 {
                pattern_fits_piece_by_piece(p, q, name.skip(1), c);
            }
            if fits(pq, name) {
                if fits(ps + q, name) {
                    let k = choose|k: int|
                        0 <= k <= name.len() && fits(ps, #[trigger] name.take(k)) && fits(
                            q,
                            name.skip(k),
                        );
                    assert(fits(p, name.take(k)));
                } else {
                    let rest = name.skip(1);
                    let k = choose|k: int|
                        0 <= k <= rest.len() && fits(p, #[trigger] rest.take(k)) && fits(
                            q,
                            rest.skip(k),
                        );
                    assert(name.take(k + 1).skip(1) =~= rest.take(k));
                    assert(name.skip(k + 1) =~= rest.skip(k));
                    assert(fits(p, name.take(k + 1)));
                }
            }
            if exists|k: int|
                0 <= k <= name.len() && fits(p, #[trigger] name.take(k)) && fits(q, name.skip(k)) {
                let k = choose|k: int|
                    0 <= k <= name.len() && fits(p, #[trigger] name.take(k)) && fits(
                        q,
                        name.skip(k),
                    );
                if !fits(ps, name.take(k)) {
                    let rest = name.skip(1);
                    assert(k > 0);
                    assert(name.take(k).skip(1) =~= rest.take(k - 1));
                    assert(rest.skip(k - 1) =~= name.skip(k));
                    assert(fits(p, rest.take(k - 1)));
                    assert(fits(pq, rest));
                }
            }
        } else if name.len() > 0 {
            let rest = name.skip(1);
            pattern_fits_piece_by_piece(ps, q, rest, c);
            if fits(pq, name) {
                let k = choose|k: int|
                    0 <= k <= rest.len() && fits(ps, #[trigger] rest.take(k)) && fits(
                        q,
                        rest.skip(k),
                    );
                assert(name.take(k + 1).skip(1) =~= rest.take(k));
                assert(name.skip(k + 1) =~= rest.skip(k));
                assert(name.take(k + 1)[0] == name[0]);
                assert(fits(p, name.take(k + 1)));
            }
            if exists|k: int|
                0 <= k <= name.len() && fits(p, #[trigger] name.take(k)) && fits(q, name.skip(k)) {
                let k = choose|k: int|
                    0 <= k <= name.len() && fits(p, #[trigger] name.take(k)) && fits(
                        q,
                        name.skip(k),
                    );
                assert(k > 0);
                assert(name.take(k)[0] == name[0]);
                assert(name.take(k).skip(1) =~= rest.take(k - 1));
                assert(rest.skip(k - 1) =~= name.skip(k));
                assert(fits(ps, rest.take(k - 1)));
            }
        } else {
            assert forall|k: int| 0 <= k <= name.len() implies !fits(p, #[trigger] name.take(k)) by {
                assert(name.take(k).len() == 0);
            }
        }
    }
}

proof fn lemma_star(name: Seq<char>)
    ensures
        fits(seq!['*'], name),
    decreases name.len(),
{
    assert(seq!['*'].skip(1) =~= Seq::<char>::empty());
    reveal_with_fuel(fits, 2);
    if name.len() > 0 {
        lemma_star(name.skip(1));
    }
}

} // verus!
