//! Time windows in which an entity may emit once.
//!
//! A rate limit of one message per window is kept by marking windows as
//! taken, entity by entity. Entities with a free window are listed, so
//! that one can be drawn; an entity leaves the list when its last window
//! is taken.

use rand_chacha::ChaCha8Rng;
use std::collections::HashMap;
use vstd::prelude::*;

use crate::rng;
use crate::sorting;

verus! {

broadcast use vstd::std_specs::hash::group_hash_axioms;

/// Bit `k` of a word.
pub open spec fn bit(word: u64, k: u64) -> bool {
    word & (1u64 << k) != 0
}

/// Number of taken windows.
pub open spec fn count_taken(s: Seq<bool>) -> nat
    decreases s.len(),
{
    if s.len() == 0 {
        0
    } else {
        count_taken(s.drop_last()) + if s.last() {
            1nat
        } else {
            0nat
        }
    }
}

/// The free windows, ascending.
pub open spec fn free_windows(s: Seq<bool>) -> Seq<usize>
    decreases s.len(),
{
    if s.len() == 0 {
        Seq::empty()
    } else if s.last() {
        free_windows(s.drop_last())
    } else {
        free_windows(s.drop_last()).push((s.len() - 1) as usize)
    }
}

/// No window is free.
pub open spec fn all_taken(s: Seq<bool>) -> bool {
    forall|i: int| 0 <= i < s.len() ==> #[trigger] s[i]
}

proof fn lemma_count(s: Seq<bool>)
    requires
        s.len() <= usize::MAX,
    ensures
        count_taken(s) <= s.len(),
        count_taken(s) == s.len() <==> all_taken(s),
        free_windows(s).len() + count_taken(s) == s.len(),
        forall|i: int|
            0 <= i < free_windows(s).len() ==> (#[trigger] free_windows(s)[i]) < s.len()
                && !s[free_windows(s)[i] as int],
    decreases s.len(),
{
    if s.len() > 0 {
        let init = s.drop_last();
        lemma_count(init);
        if all_taken(s) {
            assert forall|i: int| 0 <= i < init.len() implies #[trigger] init[i] by {
                assert(s[i]);
            }
            assert(s[s.len() - 1]);
        }
        if all_taken(init) && s.last() {
            assert forall|i: int| 0 <= i < s.len() implies #[trigger] s[i] by {
                if i < init.len() {
                    assert(init[i]);
                }
            }
        }
        let before = free_windows(init);
        assert forall|i: int| 0 <= i < free_windows(s).len() implies (
        #[trigger] free_windows(s)[i]) < s.len() && !s[free_windows(s)[i] as int] by {
            if i < before.len() {
                assert(free_windows(s)[i] == before[i]);
                assert(!init[before[i] as int]);
            }
        }
    }
}

proof fn lemma_take(s: Seq<bool>, i: int)
    requires
        0 <= i < s.len(),
        !s[i],
    ensures
        count_taken(s.update(i, true)) == count_taken(s) + 1,
    decreases s.len(),
{
    let now = s.update(i, true);
    if i == s.len() - 1 {
        assert(now.drop_last() =~= s.drop_last());
    } else {
        assert(now.drop_last() =~= s.drop_last().update(i, true));
        lemma_take(s.drop_last(), i);
    }
}

proof fn lemma_untaken(n: nat)
    ensures
        count_taken(Seq::new(n, |i: int| false)) == 0,
    decreases n,
{
    if n > 0 {
        let s = Seq::new(n, |i: int| false);
        assert(s.drop_last() =~= Seq::new((n - 1) as nat, |i: int| false));
        lemma_untaken((n - 1) as nat);
    }
}

/// A fixed number of windows, each free or taken, packed in words.
#[derive(Debug)]
pub struct WindowBits {
    pub words: Vec<u64>,
    pub num_windows: usize,
    /// Number of taken windows.
    pub count: usize,
}

impl WindowBits {
    /// Which windows are taken.
    pub open spec fn taken(&self) -> Seq<bool> {
        Seq::new(
            self.num_windows as nat,
            |i: int| bit(self.words@[i / 64], (i % 64) as u64),
        )
    }

    /// The words cover the windows, and the count is right.
    pub open spec fn wf(&self) -> bool {
        &&& self.num_windows <= 64 * self.words@.len()
        &&& self.count == count_taken(self.taken())
    }

    /// Windows that are all free.
    pub fn new(num_windows: usize) -> (r: Self)
        ensures
            r.wf(),
            r.num_windows == num_windows,
            r.taken() == Seq::new(num_windows as nat, |i: int| false),
    {
        let whole: usize = num_windows / 64;
        let rest: usize = num_windows % 64;
        let needed: usize = if rest > 0 {
            whole + 1
        } else {
            whole
        };
        let n_words: usize = if needed > 0 {
            needed
        } else {
            1
        };
        let mut words: Vec<u64> = Vec::new();
        for i in 0..n_words
            invariant
                words@.len() == i,
                forall|j: int| 0 <= j < i ==> #[trigger] words@[j] == 0,
        {
            words.push(0);
        }
        let r = WindowBits { words, num_windows, count: 0 };
        proof {
            assert forall|i: int| 0 <= i < num_windows implies !#[trigger] r.taken()[i] by {
                let k = (i % 64) as u64;
                assert(r.words@[i / 64] == 0);
                assert(0u64 & (1u64 << k) == 0) by (bit_vector);
            }
            assert(r.taken() =~= Seq::new(num_windows as nat, |i: int| false));
            lemma_untaken(num_windows as nat);
        }
        r
    }

    /// Whether a window is taken.
    pub fn get(&self, i: usize) -> (r: bool)
        requires
            self.wf(),
            i < self.num_windows,
        ensures
            r == self.taken()[i as int],
    {
        self.words[i / 64] & (1u64 << ((i % 64) as u64)) != 0
    }

    /// Takes a window. Taking it again changes nothing.
    pub fn set(&mut self, i: usize)
        requires
            old(self).wf(),
            i < old(self).num_windows,
        ensures
            final(self).wf(),
            final(self).num_windows == old(self).num_windows,
            final(self).taken() == old(self).taken().update(i as int, true),
    {
        let w: usize = i / 64;
        let k: u64 = (i % 64) as u64;
        let mask: u64 = 1u64 << k;
        let word: u64 = self.words[w];
        let ghost before = self.taken();
        proof {
            lemma_count(before);
        }
        if word & mask == 0 {
            proof {
                assert(!before[i as int]);
                if count_taken(before) == before.len() {
                    assert(before[i as int]);
                }
                lemma_take(before, i as int);
            }
            self.words.set(w, word | mask);
            self.count = self.count + 1;
            proof {
                assert forall|j: int| 0 <= j < self.num_windows implies #[trigger] self.taken()[j]
                    == before.update(i as int, true)[j] by {
                    let m = (j % 64) as u64;
                    if j / 64 == w {
                        lemma_set_bit(word, k, m);
                        if j != i {
                            assert(m != k);
                        }
                    }
                }
                assert(self.taken() =~= before.update(i as int, true));
            }
        } else {
            assert(before[i as int]);
            assert(before.update(i as int, true) =~= before);
        }
    }

    /// Whether every window is taken.
    pub fn is_full(&self) -> (r: bool)
        requires
            self.wf(),
        ensures
            r == all_taken(self.taken()),
    {
        proof {
            lemma_count(self.taken());
        }
        self.count >= self.num_windows
    }

    /// Draws a free window, `None` where there is none.
    pub fn random_free(&self, rng: &mut ChaCha8Rng) -> (r: Option<usize>)
        requires
            self.wf(),
        ensures
            r is None == all_taken(self.taken()),
            r is None ==> *final(rng) == *old(rng),
            r matches Some(w) ==> {
                let free = free_windows(self.taken());
                let (at, next) = rng::index_draw(*old(rng), free.len() as usize);
                at < free.len() && w == free[at as int] && *final(rng) == next && w
                    < self.num_windows && !self.taken()[w as int]
            },
    {
        proof {
            lemma_count(self.taken());
        }
        if self.is_full() {
            return None;
        }
        let mut free: Vec<usize> = Vec::new();
        assert(self.taken().take(0) =~= Seq::<bool>::empty());
        for i in 0..self.num_windows
            invariant
                self.wf(),
                free@ == free_windows(self.taken().take(i as int)),
        {
            proof {
                let s = self.taken();
                assert(s.take(i + 1).drop_last() =~= s.take(i as int));
                assert(s.take(i + 1).last() == s[i as int]);
            }
            if !self.get(i) {
                free.push(i);
            }
        }
        assert(self.taken().take(self.num_windows as int) =~= self.taken());
        let idx: usize = rng::draw_index(rng, free.len());
        Some(free[idx])
    }
}

/// Setting one bit leaves the others.
proof fn lemma_set_bit(word: u64, k: u64, m: u64)
    requires
        k < 64,
        m < 64,
    ensures
        bit(word | (1u64 << k), m) == (m == k || bit(word, m)),
{
    assert((word | (1u64 << k)) & (1u64 << m) != 0 <==> (m == k || word & (1u64 << m) != 0))
        by (bit_vector)
        requires
            k < 64,
            m < 64,
    ;
}

/// What is free: the windows of every entity, and the entities with a
/// free window in the order in which they can be drawn.
#[verifier::ext_equal]
pub struct Room {
    pub used: Map<u64, Seq<bool>>,
    pub free: Seq<u64>,
    pub windows: nat,
}

/// Without the item: the last one takes its place.
pub open spec fn swap_removed(s: Seq<u64>, x: u64) -> Seq<u64> {
    s.update(s.index_of(x), s.last()).drop_last()
}

/// Distinct items of an ordered sequence.
pub open spec fn deduped(s: Seq<u64>) -> Seq<u64>
    decreases s.len(),
{
    if s.len() == 0 {
        Seq::empty()
    } else {
        let before = deduped(s.drop_last());
        if before.len() > 0 && before.last() == s.last() {
            before
        } else {
            before.push(s.last())
        }
    }
}

impl Room {
    /// All windows of the given entities are free.
    pub open spec fn fresh(entities: Seq<u64>, windows: nat) -> Room {
        Room {
            used: Map::new(
                |e: u64| entities.contains(e),
                |e: u64| Seq::new(windows, |i: int| false),
            ),
            free: if windows == 0 {
                Seq::empty()
            } else {
                deduped(sorting::ascending(entities))
            },
            windows,
        }
    }

    /// The entity is known and has a free window.
    pub open spec fn has_room(self, e: u64) -> bool {
        self.used.dom().contains(e) && !all_taken(self.used[e])
    }

    /// The list holds exactly the entities with a free window.
    pub open spec fn wf(self) -> bool {
        &&& self.free.no_duplicates()
        &&& forall|e: u64| #[trigger] self.free.contains(e) <==> self.has_room(e)
        &&& forall|e: u64| #[trigger]
            self.used.dom().contains(e) ==> self.used[e].len() == self.windows
    }

    /// Takes window `w` of an entity.
    pub open spec fn take(self, e: u64, w: int) -> Room {
        let now = self.used[e].update(w, true);
        Room {
            used: self.used.insert(e, now),
            free: if all_taken(now) {
                swap_removed(self.free, e)
            } else {
                self.free
            },
            windows: self.windows,
        }
    }

    /// The window that an event on an entity with room gets: the preferred
    /// one, or a random free one, and whether it was moved; with the
    /// generator after the choice.
    pub open spec fn choice(self, e: u64, preferred: usize, r: ChaCha8Rng) -> (
        usize,
        bool,
        ChaCha8Rng,
    ) {
        let pref = if preferred < self.windows {
            preferred
        } else {
            (self.windows - 1) as usize
        };
        if !self.used[e][pref as int] {
            (pref, false, r)
        } else {
            let free = free_windows(self.used[e]);
            let (at, next) = rng::index_draw(r, free.len() as usize);
            (free[at as int], true, next)
        }
    }

    /// A random entity with a free window, `None` where there is none.
    pub open spec fn any_entity(self, r: ChaCha8Rng) -> (Option<u64>, ChaCha8Rng) {
        if self.free.len() == 0 {
            (None, r)
        } else {
            let (at, next) = rng::index_draw(r, self.free.len() as usize);
            (Some(self.free[at as int]), next)
        }
    }
}

proof fn lemma_swap_removed(s: Seq<u64>, x: u64)
    requires
        s.no_duplicates(),
        s.contains(x),
    ensures
        swap_removed(s, x).no_duplicates(),
        forall|y: u64| #[trigger] swap_removed(s, x).contains(y) <==> s.contains(y) && y != x,
{
    let p = s.index_of(x);
    let r = swap_removed(s, x);
    assert(s[p] == x);
    assert forall|i: int| 0 <= i < r.len() implies #[trigger] r[i] == (if i == p {
        s.last()
    } else {
        s[i]
    }) by {
    }
    assert forall|y: u64| #[trigger] r.contains(y) <==> s.contains(y) && y != x by {
        if r.contains(y) {
            let i = r.index_of(y);
            assert(r[i] == y);
            if i == p {
                assert(s[s.len() - 1] == y);
            }
        }
        if s.contains(y) && y != x {
            let i = s.index_of(y);
            if i == s.len() - 1 {
                assert(r[p] == y);
            } else {
                assert(r[i] == y);
            }
        }
    }
    assert forall|i: int, j: int| 0 <= i < r.len() && 0 <= j < r.len() && i != j implies r[i]
        != r[j] by {
        assert(s.last() == s[s.len() - 1]);
    }
}

proof fn lemma_deduped(s: Seq<u64>)
    requires
        forall|i: int, j: int| 0 <= i <= j < s.len() ==> s[i] <= s[j],
    ensures
        deduped(s).no_duplicates(),
        forall|x: u64| #[trigger] deduped(s).contains(x) <==> s.contains(x),
        forall|i: int, j: int|
            0 <= i < j < deduped(s).len() ==> #[trigger] deduped(s)[i] < #[trigger] deduped(s)[j],
        s.len() > 0 ==> deduped(s).len() > 0 && deduped(s).last() == s.last(),
    decreases s.len(),
{
    if s.len() > 0 {
        let init = s.drop_last();
        assert forall|i: int, j: int| 0 <= i <= j < init.len() implies init[i] <= init[j] by {
            assert(s[i] <= s[j]);
        }
        lemma_deduped(init);
        let before = deduped(init);
        let now = deduped(s);
        let x = s.last();
        assert(s[s.len() - 1] == x);
        assert forall|y: u64| #[trigger] now.contains(y) <==> s.contains(y) by {
            if init.contains(y) {
                assert(s[init.index_of(y)] == y);
            }
            if s.contains(y) && y != x {
                assert(init[s.index_of(y)] == y);
            }
            if before.contains(y) {
                assert(now[before.index_of(y)] == y);
            }
            if now.contains(y) && y != x {
                assert(before[now.index_of(y)] == y);
            }
            if y == x {
                assert(now[now.len() - 1] == x);
            }
            assert(before.contains(y) <==> init.contains(y));
        }
        if before.len() > 0 {
            assert(init[init.len() - 1] == init.last());
            assert(s[init.len() - 1] <= s[s.len() - 1]);
        }
        assert forall|i: int, j: int| 0 <= i < j < now.len() implies #[trigger] now[i]
            < #[trigger] now[j] by {
            if j < before.len() {
                assert(before[i] < before[j]);
            } else {
                if i < before.len() - 1 {
                    assert(before[i] < before[before.len() - 1]);
                }
            }
        }
    }
}

/// Free windows of the entities of one class.
#[derive(Debug)]
pub struct Capacity {
    pub used: HashMap<u64, WindowBits>,
    /// Entities with a free window.
    pub has_free: Vec<u64>,
    /// Where each of them stands in the list.
    pub has_free_pos: HashMap<u64, usize>,
    pub num_windows: usize,
}

impl Capacity {
    /// What is free.
    pub open spec fn room(&self) -> Room {
        Room {
            used: self.used@.map_values(|b: WindowBits| b.taken()),
            free: self.has_free@,
            windows: self.num_windows as nat,
        }
    }

    /// The parts agree with each other.
    pub open spec fn wf(&self) -> bool {
        &&& self.room().wf()
        &&& forall|e: u64| #[trigger]
            self.used@.dom().contains(e) ==> self.used@[e].wf() && self.used@[e].num_windows
                == self.num_windows
        &&& forall|e: u64| #[trigger]
            self.has_free_pos@.dom().contains(e) <==> self.has_free@.contains(e)
        &&& forall|i: int|
            0 <= i < self.has_free@.len() ==> self.has_free_pos@[#[trigger] self.has_free@[i]] == i
    }

    /// All windows of the given entities are free.
    pub fn new(entities: Vec<u64>, num_windows: usize) -> (r: Self)
        ensures
            r.wf(),
            r.room() == Room::fresh(entities@, num_windows as nat),
    {
        let ghost given = entities@;
        let mut entities = entities;
        sorting::sort(&mut entities);
        let ghost sorted = entities@;
        proof {
            sorting::lemma_ascending(given);
            lemma_deduped(sorted);
            lemma_count(Seq::new(num_windows as nat, |i: int| false));
            lemma_untaken(num_windows as nat);
        }
        let mut used: HashMap<u64, WindowBits> = HashMap::new();
        let mut has_free_pos: HashMap<u64, usize> = HashMap::new();
        let mut has_free: Vec<u64> = Vec::new();
        assert(sorted.take(0) =~= Seq::<u64>::empty());
        for i in 0..entities.len()
            invariant
                entities@ == sorted,
                forall|a: int, b: int| 0 <= a <= b < sorted.len() ==> sorted[a] <= sorted[b],
                forall|e: u64| #[trigger]
                    used@.dom().contains(e) <==> sorted.take(i as int).contains(e),
                forall|e: u64| #[trigger]
                    used@.dom().contains(e) ==> used@[e].wf() && used@[e].num_windows == num_windows
                        && used@[e].taken() == Seq::new(num_windows as nat, |j: int| false),
                num_windows > 0 ==> has_free@ == deduped(sorted.take(i as int)),
                num_windows == 0 ==> has_free@.len() == 0,
                forall|e: u64| #[trigger]
                    has_free_pos@.dom().contains(e) <==> has_free@.contains(e),
                forall|j: int|
                    0 <= j < has_free@.len() ==> has_free_pos@[#[trigger] has_free@[j]] == j,
        {
            let e: u64 = entities[i];
            let ghost part = sorted.take(i as int);
            let ghost more = sorted.take(i + 1);
            proof {
                assert(more.drop_last() =~= part);
                assert(more.last() == e);
                assert(more =~= part.push(e));
                assert forall|a: int, b: int| 0 <= a <= b < more.len() implies more[a] <= more[b] by {
                    assert(sorted[a] <= sorted[b]);
                }
                assert forall|a: int, b: int| 0 <= a <= b < part.len() implies part[a] <= part[b] by {
                    assert(sorted[a] <= sorted[b]);
                }
                lemma_deduped(part);
                lemma_deduped(more);
                assert forall|y: u64| #[trigger] more.contains(y) <==> part.contains(y) || y == e by {
                    if part.contains(y) {
                        assert(more[part.index_of(y)] == y);
                    }
                    if y == e {
                        assert(more[part.len() as int] == e);
                    }
                    if more.contains(y) && y != e {
                        assert(part[more.index_of(y)] == y);
                    }
                }
            }
            used.insert(e, WindowBits::new(num_windows));
            let repeated: bool = has_free.len() > 0 && has_free[has_free.len() - 1] == e;
            if num_windows > 0 && !repeated {
                let ghost before = has_free@;
                proof {
                    assert(deduped(more) == before.push(e));
                    assert(!before.contains(e)) by {
                        if before.contains(e) {
                            let p = before.index_of(e);
                            assert(before.push(e)[p] == before.push(e)[before.len() as int]);
                        }
                    }
                }
                has_free_pos.insert(e, has_free.len());
                has_free.push(e);
                proof {
                    assert forall|y: u64| #[trigger] has_free_pos@.dom().contains(y)
                        <==> has_free@.contains(y) by {
                        if before.contains(y) {
                            assert(has_free@[before.index_of(y)] == y);
                        }
                        if y == e {
                            assert(has_free@[before.len() as int] == e);
                        }
                        if has_free@.contains(y) && y != e {
                            assert(before[has_free@.index_of(y)] == y);
                        }
                    }
                    assert forall|j: int| 0 <= j < has_free@.len() implies has_free_pos@[
                        #[trigger] has_free@[j]
                    ] == j by {
                        if j < before.len() {
                            assert(has_free@[j] == before[j]);
                            assert(before.contains(before[j]));
                        }
                    }
                }
            }
        }
        let r = Capacity { used, has_free, has_free_pos, num_windows };
        proof {
            assert(sorted.take(sorted.len() as int) =~= sorted);
            let fresh = Room::fresh(given, num_windows as nat);
            assert(r.room().used =~= fresh.used);
            assert(r.room().free =~= fresh.free);
            assert forall|e: u64| #[trigger] r.room().free.contains(e) <==> r.room().has_room(e) by {
                if num_windows > 0 {
                    assert(r.room().used.dom().contains(e) <==> sorted.contains(e));
                }
            }
        }
        r
    }

    /// Takes an entity off the list.
    fn evict(&mut self, entity: u64)
        requires
            old(self).has_free@.no_duplicates(),
            old(self).has_free@.contains(entity),
            forall|e: u64| #[trigger]
                old(self).has_free_pos@.dom().contains(e) <==> old(self).has_free@.contains(e),
            forall|i: int|
                0 <= i < old(self).has_free@.len() ==> old(self).has_free_pos@[#[trigger] old(
                    self,
                ).has_free@[i]] == i,
        ensures
            final(self).used == old(self).used,
            final(self).num_windows == old(self).num_windows,
            final(self).has_free@ == swap_removed(old(self).has_free@, entity),
            forall|e: u64| #[trigger]
                final(self).has_free_pos@.dom().contains(e) <==> final(self).has_free@.contains(e),
            forall|i: int|
                0 <= i < final(self).has_free@.len() ==> final(self).has_free_pos@[
                    #[trigger] final(self).has_free@[i]
                ] == i,
    {
        let ghost before = self.has_free@;
        let ghost p = before.index_of(entity);
        proof {
            assert(before[p] == entity);
            lemma_swap_removed(before, entity);
        }
        match self.has_free_pos.remove(&entity) {
            Some(pos) => {
                assert(pos == p);
                self.has_free.swap_remove(pos);
                assert(self.has_free@ =~= swap_removed(before, entity));
                if pos < self.has_free.len() {
                    let moved: u64 = self.has_free[pos];
                    self.has_free_pos.insert(moved, pos);
                }
                proof {
                    let now = self.has_free@;
                    assert forall|i: int| 0 <= i < now.len() implies self.has_free_pos@[
                        #[trigger] now[i]
                    ] == i by {
                        if i != p {
                            assert(now[i] == before[i]);
                            assert(before[i] != entity);
                            assert(before.last() == before[before.len() - 1]);
                        }
                    }
                    assert forall|e: u64| #[trigger] self.has_free_pos@.dom().contains(e)
                        <==> now.contains(e) by {
                        if p < now.len() {
                            assert(now[p] == before.last());
                            assert(before[before.len() - 1] == before.last());
                        }
                    }
                }
            },
            None => {},
        }
    }

    /// Puts an event on an entity: in the preferred window, or in a random
    /// free one where that is taken. The window, and whether it is another
    /// than the preferred one; `None` where the entity is unknown or has
    /// no free window.
    pub fn try_place(&mut self, entity: u64, preferred: usize, rng: &mut ChaCha8Rng) -> (r: Option<
        (usize, bool),
    >)
        requires
            old(self).wf(),
        ensures
            final(self).wf(),
            r is Some == old(self).room().has_room(entity),
            r is None ==> final(self).room() == old(self).room() && *final(rng) == *old(rng),
            r matches Some((window, moved)) ==> (window, moved, *final(rng)) == old(
                self,
            ).room().choice(entity, preferred, *old(rng)) && final(self).room() == old(
                self,
            ).room().take(entity, window as int) && window < old(self).num_windows && !old(
                self,
            ).room().used[entity][window as int],
            final(self).num_windows == old(self).num_windows,
    {
        let ghost before = self.room();
        assert(before.used.dom().contains(entity) == self.used@.dom().contains(entity));
        let mut bits: WindowBits = match self.used.remove(&entity) {
            Some(b) => b,
            None => {
                assert(self.used@ =~= old(self).used@);
                return None;
            },
        };
        let ghost held = bits.taken();
        proof {
            assert(before.used[entity] == held);
            lemma_count(held);
        }
        if bits.is_full() {
            self.used.insert(entity, bits);
            assert(self.used@ =~= old(self).used@);
            return None;
        }
        let pref: usize = if preferred < self.num_windows {
            preferred
        } else {
            self.num_windows - 1
        };
        let (window, deferred): (usize, bool) = if !bits.get(pref) {
            (pref, false)
        } else {
            match bits.random_free(rng) {
                Some(w) => (w, true),
                None => (pref, true),
            }
        };
        bits.set(window);
        let full: bool = bits.is_full();
        let ghost now = bits.taken();
        self.used.insert(entity, bits);
        if full {
            self.evict(entity);
        }
        proof {
            let after = before.take(entity, window as int);
            assert(self.room().used =~= after.used);
            assert(self.room() =~= after);
            if full {
                lemma_swap_removed(before.free, entity);
            }
            assert forall|e: u64| #[trigger] after.free.contains(e) <==> after.has_room(e) by {
                assert(before.free.contains(e) <==> before.has_room(e));
            }
        }
        Some((window, deferred))
    }

    /// Draws an entity with a free window, `None` where there is none.
    pub fn random_entity(&self, rng: &mut ChaCha8Rng) -> (r: Option<u64>)
        requires
            self.wf(),
        ensures
            (r, *final(rng)) == self.room().any_entity(*old(rng)),
            r is None ==> self.room().free.len() == 0,
            r matches Some(e) ==> self.room().has_room(e),
    {
        if self.has_free.len() == 0 {
            None
        } else {
            let idx: usize = rng::draw_index(rng, self.has_free.len());
            assert(self.room().free.contains(self.has_free@[idx as int]));
            Some(self.has_free[idx])
        }
    }
}

/// The free windows are listed once each, in order, and no taken one
/// among them.
pub proof fn free_windows_are_the_untaken(s: Seq<bool>, w: usize)
    requires
        s.len() <= usize::MAX,
    ensures
        free_windows(s).contains(w) <==> w < s.len() && !s[w as int],
        forall|i: int, j: int|
            0 <= i < j < free_windows(s).len() ==> #[trigger] free_windows(s)[i]
                < #[trigger] free_windows(s)[j],
        count_taken(s) + free_windows(s).len() == s.len(),
    decreases s.len(),
{
    lemma_count(s);
    if s.len() > 0 {
        let init = s.drop_last();
        let before = free_windows(init);
        free_windows_are_the_untaken(init, w);
        lemma_count(init);
        if s.last() {
            assert(w < init.len() ==> s[w as int] == init[w as int]);
        } else {
            let now = free_windows(s);
            assert(now == before.push((s.len() - 1) as usize));
            if before.contains(w) {
                let p = before.index_of(w);
                assert(now[p] == w);
            }
            if w == s.len() - 1 {
                assert(now[before.len() as int] == w);
            }
            if now.contains(w) && w != s.len() - 1 {
                let p = now.index_of(w);
                assert(before[p] == w);
            }
        }
    }
}

/// Where nothing is placed yet, every entity has all its windows free,
/// and can be drawn, each once and in the order of their numbers.
pub proof fn fresh_room_is_free(entities: Seq<u64>, windows: nat, e: u64)
    ensures
        ({
            let room = Room::fresh(entities, windows);
            &&& room.windows == windows
            &&& room.used.dom().contains(e) <==> entities.contains(e)
            &&& entities.contains(e) ==> room.used[e].len() == windows && forall|w: int|
                0 <= w < windows ==> !#[trigger] room.used[e][w]
            &&& windows > 0 ==> (room.free.contains(e) <==> entities.contains(e))
            &&& windows == 0 ==> room.free.len() == 0
            &&& forall|i: int, j: int|
                0 <= i < j < room.free.len() ==> #[trigger] room.free[i] < #[trigger] room.free[j]
        }),
{
    sorting::lemma_ascending(entities);
    lemma_deduped(sorting::ascending(entities));
}

/// To take a window is to take this one alone: all others stay, and an
/// entity can be drawn as long as one of its windows is free.
pub proof fn taking_fills_one_window(room: Room, e: u64, w: int, x: u64, v: int)
    requires
        room.wf(),
        room.used.dom().contains(e),
        0 <= w < room.windows,
        !room.used[e][w],
        room.used.dom().contains(x),
        0 <= v < room.windows,
    ensures
        ({
            let now = room.take(e, w);
            &&& now.used[x][v] == (room.used[x][v] || (x == e && v == w))
            &&& now.used.dom() == room.used.dom()
            &&& now.windows == room.windows
            &&& now.free.no_duplicates()
            &&& now.free.contains(x) <==> exists|u: int|
                0 <= u < room.windows && !#[trigger] now.used[x][u]
        }),
{
    let now = room.take(e, w);
    assert(now.used.dom() =~= room.used.dom());
    assert(room.has_room(e)) by {
        assert(!room.used[e][w]);
    }
    assert(room.free.contains(e));
    lemma_swap_removed(room.free, e);
    assert(room.free.contains(x) <==> room.has_room(x));
    assert(now.used[x].len() == room.windows);
    if exists|u: int| 0 <= u < room.windows && !#[trigger] now.used[x][u] {
        let u = choose|u: int| 0 <= u < room.windows && !#[trigger] now.used[x][u];
        assert(!all_taken(now.used[x]));
        assert(!room.used[x][u]);
        assert(!all_taken(room.used[x]));
    } else {
        assert(all_taken(now.used[x]));
        if x != e {
            assert(all_taken(room.used[x]));
        }
    }
}

/// An event that prefers a free window gets it; otherwise it gets one
/// that is free, and is said to have moved. A preference past the end
/// is one for the last window.
pub proof fn preferred_window_is_taken_while_free(
    room: Room,
    e: u64,
    preferred: usize,
    r: ChaCha8Rng,
)
    requires
        rng::draws_keep_to_their_range(),
        room.wf(),
        0 < room.windows <= usize::MAX,
        room.has_room(e),
    ensures
        ({
            let (w, moved, next) = room.choice(e, preferred, r);
            let wish = if preferred < room.windows {
                preferred as int
            } else {
                room.windows - 1
            };
            &&& w < room.windows
            &&& !room.used[e][w as int]
            &&& !room.used[e][wish] ==> w == wish && next == r
            &&& moved <==> w != wish
        }),
{
    let free = free_windows(room.used[e]);
    lemma_count(room.used[e]);
    let at = rng::index_draw(r, free.len() as usize).0;
    assert(at < free.len());
    free_windows_are_the_untaken(room.used[e], free[at as int]);
    assert(free.contains(free[at as int]));
}

/// An entity is drawn where one has a free window, and it is one of
/// these.
pub proof fn drawn_entity_has_a_free_window(room: Room, r: ChaCha8Rng)
    requires
        rng::draws_keep_to_their_range(),
        room.wf(),
        room.free.len() <= usize::MAX,
    ensures
        room.any_entity(r).0 matches Some(e) ==> room.used.dom().contains(e) && exists|w: int|
            0 <= w < room.windows && !#[trigger] room.used[e][w],
        room.any_entity(r).0 is None ==> forall|e: u64, w: int|
            room.used.dom().contains(e) && 0 <= w < room.windows ==> #[trigger] room.used[e][w],
{
    if room.free.len() > 0 {
        let at = rng::index_draw(r, room.free.len() as usize).0;
        let e = room.free[at as int];
        assert(room.free.contains(e));
        assert(room.has_room(e));
        assert(room.used[e].len() == room.windows);
        let w = choose|w: int| 0 <= w < room.used[e].len() && !(#[trigger] room.used[e][w]);
        assert(0 <= w < room.windows && !room.used[e][w]);
        assert(room.any_entity(r).0 == Some(e));
    } else {
        assert forall|e: u64, w: int|
            room.used.dom().contains(e) && 0 <= w < room.windows implies #[trigger] room.used[e][w] by {
            assert(!room.free.contains(e));
            assert(!room.has_room(e));
            assert(all_taken(room.used[e]));
        }
    }
}

} // verus!
