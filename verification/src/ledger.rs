//! The Visit Ledger: the set of normalized URLs already seen, and the
//! per-pattern visit counters.  Both grow monotonically over a crawl
//! run and are discarded at its end.  A normalized URL enters the
//! frontier at most once, and a pattern key is admitted at most `limit`
//! times, however many distinct URLs fall under it.
use vstd::prelude::*;
use vstd::pervasive::VecAdditionalExecFns;
use crate::pattern::str_views;

verus! {

/// The counter a key holds in an association list: the value beside its
/// first occurrence, or 0 when it does not occur.
pub open spec fn count_in(s: Seq<(String, u64)>, k: Seq<char>) -> nat
    decreases s.len(),
{
    if s.len() == 0 {
        0
    } else if s[0].0@ == k {
        s[0].1 as nat
    } else {
        count_in(s.drop_first(), k)
    }
}

/// Whether a key occurs in an association list.
pub open spec fn has_key(s: Seq<(String, u64)>, k: Seq<char>) -> bool {
    exists|j: int| 0 <= j < s.len() && s[j].0@ == k
}

/// Entries before the first occurrence of a key can be skipped.
proof fn lemma_count_skip(s: Seq<(String, u64)>, k: Seq<char>, i: int)
    requires
        0 <= i <= s.len(),
        forall|j: int| 0 <= j < i ==> s[j].0@ != k,
    ensures
        count_in(s, k) == count_in(s.skip(i), k),
    decreases i,
{
    if i > 0 {
        lemma_count_skip(s, k, i - 1);
        let rest = s.skip(i - 1);
        assert(rest[0] == s[i - 1]);
        assert(rest.drop_first() =~= s.skip(i));
    } else {
        assert(s.skip(0) =~= s);
    }
}

/// Updating the entry at the first occurrence of its key sets that
/// key's counter and leaves every other key's counter alone.
proof fn lemma_count_update(s: Seq<(String, u64)>, i: int, e: (String, u64), k: Seq<char>)
    requires
        0 <= i < s.len(),
        e.0@ == s[i].0@,
        forall|j: int| 0 <= j < i ==> s[j].0@ != s[i].0@,
    ensures
        count_in(s.update(i, e), s[i].0@) == e.1 as nat,
        k != s[i].0@ ==> count_in(s.update(i, e), k) == count_in(s, k),
    decreases i,
{
    let u = s.update(i, e);
    if i == 0 {
        assert(u[0] == e);
        assert(u.drop_first() =~= s.drop_first());
    } else {
        assert(u[0] == s[0]);
        assert(u.drop_first() =~= s.drop_first().update(i - 1, e));
        assert(forall|j: int| 0 <= j < i - 1 ==> s.drop_first()[j] == s[j + 1]);
        lemma_count_update(s.drop_first(), i - 1, e, k);
        assert(s.drop_first()[i - 1] == s[i]);
    }
}

/// Appending an entry leaves the counter of a key that already occurs
/// alone, and gives a fresh key the appended value.
proof fn lemma_count_push(s: Seq<(String, u64)>, e: &(String, u64), k: Seq<char>)
    ensures
        has_key(s, k) ==> count_in(s.push(*e), k) == count_in(s, k),
        !has_key(s, k) && e.0@ == k ==> count_in(s.push(*e), k) == e.1 as nat,
        !has_key(s, k) && e.0@ != k ==> count_in(s.push(*e), k) == 0,
    decreases s.len(),
{
    let p = s.push(*e);
    if s.len() == 0 {
        assert(p[0] == *e);
        assert(p.drop_first() =~= Seq::<(String, u64)>::empty());
        assert(count_in(p.drop_first(), k) == 0);
        assert(e.0@ != k ==> count_in(p, k) == 0);
        assert(e.0@ == k ==> count_in(p, k) == e.1 as nat);
        assert(!has_key(s, k));
    } else {
        assert(p[0] == s[0]);
        assert(p.drop_first() =~= s.drop_first().push(*e));
        lemma_count_push(s.drop_first(), e, k);
        if s[0].0@ == k {
            assert(has_key(s, k));
        }
        if s[0].0@ != k {
            assert(has_key(s, k) == has_key(s.drop_first(), k)) by {
                if has_key(s, k) {
                    let w = choose|w: int| 0 <= w < s.len() && s[w].0@ == k;
                    assert(s.drop_first()[w - 1].0@ == k);
                }
                if has_key(s.drop_first(), k) {
                    let w = choose|w: int|
                        0 <= w < s.drop_first().len() && s.drop_first()[w].0@ == k;
                    assert(s[w + 1].0@ == k);
                }
            }
            assert(count_in(p, k) == count_in(p.drop_first(), k));
            assert(count_in(p.drop_first(), k) == count_in(s.drop_first().push(*e), k));
            assert(count_in(s, k) == count_in(s.drop_first(), k));
        } else {
            assert(count_in(p, k) == s[0].1 as nat);
            assert(count_in(s, k) == s[0].1 as nat);
        }
    }
    assert(has_key(s, k) ==> count_in(s.push(*e), k) == count_in(s, k));
    assert(!has_key(s, k) && e.0@ == k ==> count_in(s.push(*e), k) == e.1 as nat);
    assert(!has_key(s, k) && e.0@ != k ==> count_in(s.push(*e), k) == 0);
}

/// A key that does not occur holds counter 0.
proof fn lemma_count_absent(s: Seq<(String, u64)>, k: Seq<char>)
    requires
        !has_key(s, k),
    ensures
        count_in(s, k) == 0,
    decreases s.len(),
{
    if s.len() > 0 {
        assert(s[0].0@ != k);
        assert(!has_key(s.drop_first(), k)) by {
            if has_key(s.drop_first(), k) {
                let w = choose|w: int|
                    0 <= w < s.drop_first().len() && s.drop_first()[w].0@ == k;
                assert(s[w + 1].0@ == k);
            }
        }
        lemma_count_absent(s.drop_first(), k);
    }
}

/// The set of normalized URLs already seen, with the per-pattern visit
/// counters.
pub struct Ledger {
    visited: Vec<String>,
    counts: Vec<(String, u64)>,
}

impl Ledger {
    /// The visited URLs, in insertion order.
    pub closed spec fn visited_views(self) -> Seq<Seq<char>> {
        str_views(self.visited@)
    }

    /// The set of visited URLs.
    pub open spec fn visited_set(self) -> Set<Seq<char>> {
        self.visited_views().to_set()
    }

    /// The counter a pattern key currently holds.
    pub closed spec fn count_of(self, k: Seq<char>) -> nat {
        count_in(self.counts@, k)
    }

    /// The visited list holds no URL twice.
    pub closed spec fn wf(self) -> bool {
        self.visited_views().no_duplicates()
    }

    /// An empty ledger: nothing visited, every counter 0.
    pub fn new() -> (l: Ledger)
        ensures
            l.visited_views() == Seq::<Seq<char>>::empty(),
            l.visited_set() == Set::<Seq<char>>::empty(),
            forall|k: Seq<char>| #[trigger] l.count_of(k) == 0,
            l.wf(),
    {
        let l = Ledger { visited: Vec::new(), counts: Vec::new() };
        proof {
            assert(l.visited_views() =~= Seq::<Seq<char>>::empty());
            assert(l.visited_set() =~= Set::<Seq<char>>::empty());
        }
        l
    }

    /// Whether a normalized URL has been seen.
    pub fn has_visited(&self, u: &String) -> (r: bool)
        ensures
            r == self.visited_set().contains(u@),
    {
        let n: usize = self.visited.len();
        let mut i: usize = 0;
        while i < n
            invariant
                i <= n,
                n == self.visited@.len(),
                forall|j: int| 0 <= j < i ==> self.visited_views()[j] != u@,
            decreases n - i,
        {
            let x = &self.visited[i];
            if *x == *u {
                proof {
                    assert(self.visited_views()[i as int] == u@);
                    assert(self.visited_views().contains(u@));
                }
                return true;
            }
            i = i + 1;
        }
        proof {
            if self.visited_views().contains(u@) {
                let w = choose|w: int|
                    0 <= w < self.visited_views().len() && self.visited_views()[w] == u@;
                assert(false);
            }
        }
        false
    }

    /// Record a normalized URL as seen.  The visited set afterwards is
    /// the old set with this URL added; counters do not move.
    pub fn mark_visited(&mut self, u: String)
        ensures
            final(self).visited_set() == old(self).visited_set().insert(u@),
            old(self).visited_set().contains(u@) ==> final(self).visited_views() == old(
                self,
            ).visited_views(),
            !old(self).visited_set().contains(u@) ==> final(self).visited_views() == old(
                self,
            ).visited_views().push(u@),
            forall|k: Seq<char>| #[trigger] final(self).count_of(k) == old(self).count_of(k),
            old(self).wf() ==> final(self).wf(),
    {
        let present = self.has_visited(&u);
        if !present {
            let ghost old_views = self.visited_views();
            self.visited.push(u);
            proof {
                assert(self.visited_views() =~= old_views.push(u@));
                assert forall|x: Seq<char>| #[trigger] self.visited_views().contains(x) implies (
                old_views.contains(x) || x == u@) by {
                    let w = choose|w: int|
                        0 <= w < self.visited_views().len() && self.visited_views()[w] == x;
                    if w < old_views.len() {
                        assert(old_views[w] == x);
                    }
                };
                assert forall|x: Seq<char>| old_views.contains(x) implies #[trigger] self
                    .visited_views()
                    .contains(x) by {
                    let w = choose|w: int| 0 <= w < old_views.len() && old_views[w] == x;
                    assert(self.visited_views()[w] == x);
                };
                assert(self.visited_views().contains(u@)) by {
                    assert(self.visited_views().last() == u@);
                };
                assert(self.visited_set() =~= old_views.to_set().insert(u@));
                if old_views.no_duplicates() {
                    assert(self.visited_views().no_duplicates()) by {
                        if old_views.contains(u@) {
                            assert(false);
                        }
                        assert(forall|x: int, y: int|
                            0 <= x < y < self.visited_views().len() ==> self.visited_views()[x]
                                != self.visited_views()[y]);
                    }
                }
            }
        } else {
            proof {
                assert(self.visited_set() =~= self.visited_set().insert(u@));
            }
        }
    }

    /// Check-then-increment admission for a pattern key: admits and
    /// counts the key while its counter is below `limit`, and refuses,
    /// leaving every counter alone, once the counter has reached it.
    /// Other keys' counters never move, and the visited set never moves.
    pub fn try_admit(&mut self, key: &String, limit: u64) -> (r: bool)
        ensures
            r == (old(self).count_of(key@) < limit),
            r ==> final(self).count_of(key@) == old(self).count_of(key@) + 1,
            !r ==> final(self).count_of(key@) == old(self).count_of(key@),
            forall|k: Seq<char>|
                k != key@ ==> #[trigger] final(self).count_of(k) == old(self).count_of(k),
            final(self).visited_views() == old(self).visited_views(),
            final(self).visited_set() == old(self).visited_set(),
            old(self).wf() ==> final(self).wf(),
    {
        let n: usize = self.counts.len();
        let mut i: usize = 0;
        let mut found = false;
        while i < n && !found
            invariant
                i <= n,
                n == self.counts@.len(),
                found ==> i < n && self.counts@[i as int].0@ == key@,
                forall|j: int| 0 <= j < i ==> self.counts@[j].0@ != key@,
            decreases n - i + (if found { 0int } else { 1int }),
        {
            let e = &self.counts[i];
            if e.0 == *key {
                found = true;
            } else {
                i = i + 1;
            }
        }
        if found {
            proof {
                lemma_count_skip(self.counts@, key@, i as int);
                assert(self.counts@.skip(i as int)[0] == self.counts@[i as int]);
                assert(count_in(self.counts@, key@) == self.counts@[i as int].1 as nat);
            }
            let c: u64 = self.counts[i].1;
            if c < limit {
                let ghost old_counts = self.counts@;
                self.counts.set(i, (key.clone(), c + 1));
                proof {
                    assert(self.counts@[i as int].0@ == old_counts[i as int].0@);
                    lemma_count_update_all(old_counts, i as int, self.counts@[i as int]);
                }
                true
            } else {
                false
            }
        } else {
            proof {
                lemma_count_skip(self.counts@, key@, i as int);
                assert(self.counts@.skip(i as int) =~= Seq::<(String, u64)>::empty());
                assert(count_in(self.counts@, key@) == 0);
            }
            if 0 < limit {
                let ghost old_counts = self.counts@;
                self.counts.push((key.clone(), 1));
                proof {
                    assert forall|k: Seq<char>| true implies #[trigger] count_in(
                        self.counts@,
                        k,
                    ) == if has_key(old_counts, k) {
                        count_in(old_counts, k)
                    } else if k == key@ {
                        1nat
                    } else {
                        0nat
                    } by {
                        let e = self.counts@.last();
                        assert(self.counts@ == old_counts.push(e));
                        lemma_count_push(old_counts, &e, k);
                    };
                    assert(!has_key(old_counts, key@)) by {
                        if has_key(old_counts, key@) {
                            let w = choose|w: int|
                                0 <= w < old_counts.len() && old_counts[w].0@ == key@;
                            assert(false);
                        }
                    }
                    assert forall|k: Seq<char>| k != key@ implies #[trigger] count_in(
                        self.counts@,
                        k,
                    ) == count_in(old_counts, k) by {
                        if !has_key(old_counts, k) {
                            lemma_count_absent(old_counts, k);
                        }
                    };
                }
                true
            } else {
                false
            }
        }
    }

    /// How many distinct URLs have been visited.
    pub fn visited_count(&self) -> (n: usize)
        requires
            self.wf(),
        ensures
            n == self.visited_set().len(),
    {
        let n = self.visited.len();
        proof {
            self.visited_views().unique_seq_to_set();
        }
        n
    }
}

/// Updating the first occurrence of a key, keeping its key, is
/// reflected in every counter at once.
proof fn lemma_count_update_all(s: Seq<(String, u64)>, i: int, e: (String, u64))
    requires
        0 <= i < s.len(),
        e.0@ == s[i].0@,
        forall|j: int| 0 <= j < i ==> s[j].0@ != s[i].0@,
    ensures
        count_in(s.update(i, e), s[i].0@) == e.1 as nat,
        forall|k: Seq<char>|
            k != s[i].0@ ==> #[trigger] count_in(s.update(i, e), k) == count_in(s, k),
{
    assert forall|k: Seq<char>| k != s[i].0@ implies #[trigger] count_in(s.update(i, e), k)
        == count_in(s, k) by {
        lemma_count_update(s, i, e, k);
    };
    lemma_count_update(s, i, e, s[i].0@);
}

/// The visited set after marking a list of URLs, one at a time.
pub open spec fn mark_all(s: Set<Seq<char>>, us: Seq<Seq<char>>) -> Set<Seq<char>>
    decreases us.len(),
{
    if us.len() == 0 {
        s
    } else {
        mark_all(s.insert(us[0]), us.drop_first())
    }
}

/// Marking never forgets: a URL in the visited set stays in it under
/// any further marks.
pub proof fn lemma_mark_all_keeps(s: Set<Seq<char>>, us: Seq<Seq<char>>, u: Seq<char>)
    requires
        s.contains(u),
    ensures
        mark_all(s, us).contains(u),
    decreases us.len(),
{
    if us.len() > 0 {
        lemma_mark_all_keeps(s.insert(us[0]), us.drop_first(), u);
    }
}

/// Once visited, always visited: immediately after `mark_visited(u)`
/// the visited set contains `u` — so `has_visited(u)` returns true —
/// and it still does after any later sequence of marks.  `try_admit`
/// leaves the visited set unchanged, so admissions in between change
/// nothing.
pub proof fn lemma_visited_persists(s: Set<Seq<char>>, u: Seq<char>, later: Seq<Seq<char>>)
    ensures
        s.insert(u).contains(u),
        mark_all(s.insert(u), later).contains(u),
{
    lemma_mark_all_keeps(s.insert(u), later, u);
}

/// The smaller of two naturals.
pub open spec fn min_nat(a: nat, b: nat) -> nat {
    if a <= b {
        a
    } else {
        b
    }
}

/// How often a key occurs in a list of keys.
pub open spec fn occ_of(keys: Seq<Seq<char>>, p: Seq<char>) -> nat
    decreases keys.len(),
{
    if keys.len() == 0 {
        0
    } else {
        ((if keys[0] == p {
            1nat
        } else {
            0nat
        }) + occ_of(keys.drop_first(), p)) as nat
    }
}

/// How many of a sequence of `try_admit` calls, one per key in `keys`
/// and all with the same `limit`, return true for the key `p`.  The
/// counter state is the function from keys to counters that
/// `Ledger::count_of` gives; each step is exactly what `try_admit`'s
/// contract states: admitted while the counter is below the limit, the
/// admitted key's counter up by one, every other counter unchanged.
pub open spec fn admits_of(
    counts: spec_fn(Seq<char>) -> nat,
    keys: Seq<Seq<char>>,
    limit: nat,
    p: Seq<char>,
) -> nat
    decreases keys.len(),
{
    if keys.len() == 0 {
        0
    } else {
        let k = keys[0];
        let admitted = counts(k) < limit;
        let next = if admitted {
            (|k2: Seq<char>|
                if k2 == k {
                    (counts(k) + 1) as nat
                } else {
                    counts(k2)
                })
        } else {
            counts
        };
        ((if admitted && k == p {
            1nat
        } else {
            0nat
        }) + admits_of(next, keys.drop_first(), limit, p)) as nat
    }
}

/// From a counter standing at `c`, a key is admitted exactly
/// `limit - c` more times, however the calls interleave with other
/// keys.
pub proof fn lemma_admits_from(
    counts: spec_fn(Seq<char>) -> nat,
    keys: Seq<Seq<char>>,
    limit: nat,
    p: Seq<char>,
)
    requires
        counts(p) <= limit,
    ensures
        admits_of(counts, keys, limit, p) == min_nat(
            (limit - counts(p)) as nat,
            occ_of(keys, p),
        ),
    decreases keys.len(),
{
    if keys.len() > 0 {
        let k = keys[0];
        let admitted = counts(k) < limit;
        let next = if admitted {
            (|k2: Seq<char>|
                if k2 == k {
                    (counts(k) + 1) as nat
                } else {
                    counts(k2)
                })
        } else {
            counts
        };
        assert(next(p) == if admitted && k == p {
            (counts(p) + 1) as nat
        } else {
            counts(p)
        });
        lemma_admits_from(next, keys.drop_first(), limit, p);
    }
}

/// Starting from fresh counters, `try_admit(p, limit)` returns true
/// exactly `limit` times for a fixed key `p` — or as often as `p` is
/// asked for, if that is fewer — and false thereafter, whatever other
/// keys are interleaved.
pub proof fn lemma_admit_exactly_limit(keys: Seq<Seq<char>>, limit: nat, p: Seq<char>)
    ensures
        admits_of((|k: Seq<char>| 0nat), keys, limit, p) == min_nat(limit, occ_of(keys, p)),
{
    let z = (|k: Seq<char>| 0nat);
    assert(z(p) == 0);
    lemma_admits_from(z, keys, limit, p);
}

} // verus!
