//! Sparse multisets of leaf symbols.
use vstd::prelude::*;

verus! {

/// How often each leaf symbol occurs.
pub type Counts = spec_fn(u32) -> nat;

/// No leaf at all.
pub open spec fn none_at_all() -> Counts {
    |s: u32| 0
}

/// The leaves of both.
pub open spec fn plus(a: Counts, b: Counts) -> Counts {
    |s: u32| a(s) + b(s)
}

/// One leaf more.
pub open spec fn one_more(a: Counts, word: u32) -> Counts {
    |s: u32| if s == word { a(s) + 1 } else { a(s) }
}

/// The leaves that both have.
pub open spec fn meet(a: Counts, b: Counts) -> Counts {
    |s: u32| if a(s) <= b(s) { a(s) } else { b(s) }
}

/// Whether `a` has no leaf more often than `b`.
pub open spec fn at_most(a: Counts, b: Counts) -> bool {
    forall|s: u32| #[trigger] a(s) <= b(s)
}

/// Whether every count fits the number type of a bag.
pub open spec fn fits(a: Counts) -> bool {
    forall|s: u32| #[trigger] a(s) <= u32::MAX
}

/// The count that the last entry of a symbol gives.
pub open spec fn count_in(entries: Seq<(u32, u32)>, s: u32) -> nat
    decreases entries.len(),
{
    if entries.len() == 0 {
        0
    } else if entries.last().0 == s {
        entries.last().1 as nat
    } else {
        count_in(entries.drop_last(), s)
    }
}

/// The sum of all counts.
pub open spec fn total(entries: Seq<(u32, u32)>) -> nat
    decreases entries.len(),
{
    if entries.len() == 0 {
        0
    } else {
        total(entries.drop_last()) + entries.last().1 as nat
    }
}

/// Whether the symbols increase and every count is positive.
pub open spec fn canonical(entries: Seq<(u32, u32)>) -> bool {
    &&& forall|i: int, j: int| 0 <= i < j < entries.len() ==> entries[i].0 < entries[j].0
    &&& forall|i: int| 0 <= i < entries.len() ==> (#[trigger] entries[i]).1 > 0
}

/// An entry gives the count of its symbol.
pub proof fn lemma_entry(entries: Seq<(u32, u32)>, i: int)
    requires
        canonical(entries),
        0 <= i < entries.len(),
    ensures
        count_in(entries, entries[i].0) == entries[i].1,
    decreases entries.len(),
{
    if i < entries.len() - 1 {
        assert(entries.last().0 != entries[i].0);
        assert(entries.drop_last()[i] == entries[i]);
        assert(canonical(entries.drop_last())) by {
            assert forall|j: int| 0 <= j < entries.drop_last().len() implies (
            #[trigger] entries.drop_last()[j]).1 > 0 by {
                assert(entries.drop_last()[j] == entries[j]);
            }
        }
        lemma_entry(entries.drop_last(), i);
    }
}

/// A symbol without an entry does not occur.
pub proof fn lemma_no_entry(entries: Seq<(u32, u32)>, s: u32)
    requires
        forall|i: int| 0 <= i < entries.len() ==> (#[trigger] entries[i]).0 != s,
    ensures
        count_in(entries, s) == 0,
    decreases entries.len(),
{
    if entries.len() > 0 {
        assert(entries[entries.len() - 1].0 != s);
        assert forall|i: int| 0 <= i < entries.drop_last().len() implies (
        #[trigger] entries.drop_last()[i]).0 != s by {
            assert(entries.drop_last()[i] == entries[i]);
        }
        lemma_no_entry(entries.drop_last(), s);
    }
}

/// A symbol that occurs has an entry.
pub proof fn lemma_some_entry(entries: Seq<(u32, u32)>, s: u32) -> (i: int)
    requires
        count_in(entries, s) > 0,
    ensures
        0 <= i < entries.len(),
        entries[i].0 == s,
{
    if forall|i: int| 0 <= i < entries.len() ==> (#[trigger] entries[i]).0 != s {
        lemma_no_entry(entries, s);
    }
    choose|i: int| 0 <= i < entries.len() && (#[trigger] entries[i]).0 == s
}

/// Inserting a new symbol at its place counts it and changes nothing else.
proof fn lemma_insert(entries: Seq<(u32, u32)>, k: int, s: u32, n: u32)
    requires
        canonical(entries),
        n > 0,
        0 <= k <= entries.len(),
        forall|i: int| 0 <= i < k ==> (#[trigger] entries[i]).0 < s,
        forall|i: int| k <= i < entries.len() ==> (#[trigger] entries[i]).0 > s,
    ensures
        canonical(entries.insert(k, (s, n))),
        forall|t: u32| #[trigger]
            count_in(entries.insert(k, (s, n)), t) == if t == s {
                n as nat
            } else {
                count_in(entries, t)
            },
{
    let after = entries.insert(k, (s, n));
    assert(canonical(after)) by {
        assert forall|i: int, j: int| 0 <= i < j < after.len() implies after[i].0 < after[j].0 by {
            let a = if i < k { entries[i] } else { entries[i - 1] };
            let b = if j < k { entries[j] } else { entries[j - 1] };
        }
    }
    assert forall|t: u32| #[trigger] count_in(after, t) == if t == s {
        n as nat
    } else {
        count_in(entries, t)
    } by {
        if t == s {
            assert(after[k] == (s, n));
            lemma_entry(after, k);
        } else if count_in(after, t) > 0 {
            let i = lemma_some_entry(after, t);
            lemma_entry(after, i);
            let j = if i < k { i } else { i - 1 };
            assert(after[i] == entries[j]);
            lemma_entry(entries, j);
        } else if count_in(entries, t) > 0 {
            let j = lemma_some_entry(entries, t);
            let i = if j < k { j } else { j + 1 };
            assert(after[i] == entries[j]);
            lemma_entry(after, i);
            lemma_entry(entries, j);
        }
    }
}

/// Changing the count of an entry changes nothing else.
proof fn lemma_update(entries: Seq<(u32, u32)>, k: int, n: u32)
    requires
        canonical(entries),
        n > 0,
        0 <= k < entries.len(),
    ensures
        canonical(entries.update(k, (entries[k].0, n))),
        forall|t: u32| #[trigger]
            count_in(entries.update(k, (entries[k].0, n)), t) == if t == entries[k].0 {
                n as nat
            } else {
                count_in(entries, t)
            },
{
    let after = entries.update(k, (entries[k].0, n));
    assert forall|t: u32| #[trigger] count_in(after, t) == if t == entries[k].0 {
        n as nat
    } else {
        count_in(entries, t)
    } by {
        if t == entries[k].0 {
            lemma_entry(after, k);
        } else if count_in(after, t) > 0 {
            let i = lemma_some_entry(after, t);
            lemma_entry(after, i);
            lemma_entry(entries, i);
        } else if count_in(entries, t) > 0 {
            let i = lemma_some_entry(entries, t);
            lemma_entry(entries, i);
            lemma_entry(after, i);
        }
    }
}

/// A sparse leaf multiset: symbols with their counts, by symbol.
#[derive(Debug, PartialEq, Eq)]
pub struct Bag {
    entries: Vec<(u32, u32)>,
}

impl View for Bag {
    type V = Counts;

    open spec fn view(&self) -> Counts {
        |s: u32| count_in(self.listing(), s)
    }
}

impl Bag {
    /// The symbols that occur with their counts, by symbol.
    pub closed spec fn listing(&self) -> Seq<(u32, u32)> {
        self.entries@
    }

    #[verifier::type_invariant]
    spec fn wf(&self) -> bool {
        canonical(self.entries@)
    }

    /// A bag without leaves.
    pub fn new() -> (r: Self)
        ensures
            r@ == none_at_all(),
            r.listing() == Seq::<(u32, u32)>::empty(),
    {
        let r = Bag { entries: Vec::new() };
        assert(r@ =~= none_at_all());
        assert(r.listing() =~= Seq::<(u32, u32)>::empty());
        r
    }

    /// The symbols that occur with their counts, by symbol.
    pub fn entries(&self) -> (r: &Vec<(u32, u32)>)
        ensures
            r@ == self.listing(),
            canonical(r@),
    {
        proof {
            use_type_invariant(self);
        }
        &self.entries
    }

    /// Whether no leaf occurs.
    pub fn is_empty(&self) -> (r: bool)
        ensures
            r == (self@ == none_at_all()),
    {
        proof {
            use_type_invariant(self);
            if self.entries@.len() == 0 {
                assert(self@ =~= none_at_all());
            } else {
                lemma_entry(self.entries@, 0);
                assert(self@(self.entries@[0].0) > 0);
                assert(none_at_all()(self.entries@[0].0) == 0);
            }
        }
        self.entries.len() == 0
    }

    /// A copy.
    pub fn copy(&self) -> (r: Self)
        ensures
            r@ == self@,
            r.listing() == self.listing(),
    {
        proof {
            use_type_invariant(self);
        }
        let mut entries: Vec<(u32, u32)> = Vec::new();
        let mut i: usize = 0;
        while i < self.entries.len()
            invariant
                i <= self.entries@.len(),
                entries@ == self.entries@.take(i as int),
            decreases self.entries@.len() - i,
        {
            let entry: (u32, u32) = self.entries[i];
            entries.push(entry);
            i += 1;
            assert(entries@ =~= self.entries@.take(i as int));
        }
        assert(entries@ =~= self.entries@);
        let r = Bag { entries };
        assert(r@ =~= self@);
        r
    }

    /// The place of a symbol: how many entries have smaller ones.
    fn place(&self, s: u32) -> (k: usize)
        ensures
            k <= self.listing().len(),
            forall|i: int| 0 <= i < k ==> (#[trigger] self.listing()[i]).0 < s,
            forall|i: int| k <= i < self.listing().len() ==> (#[trigger] self.listing()[i]).0 >= s,
    {
        proof {
            use_type_invariant(self);
        }
        let mut k: usize = 0;
        while k < self.entries.len() && self.entries[k].0 < s
            invariant
                k <= self.entries@.len(),
                forall|i: int| 0 <= i < k ==> (#[trigger] self.entries@[i]).0 < s,
            decreases self.entries@.len() - k,
        {
            k += 1;
        }
        k
    }

    /// How often a symbol occurs.
    pub fn count(&self, s: u32) -> (n: u32)
        ensures
            n == self@(s),
    {
        proof {
            use_type_invariant(self);
        }
        let k: usize = self.place(s);
        if k < self.entries.len() && self.entries[k].0 == s {
            proof {
                lemma_entry(self.entries@, k as int);
            }
            self.entries[k].1
        } else {
            proof {
                assert forall|i: int| 0 <= i < self.entries@.len() implies (
                #[trigger] self.entries@[i]).0 != s by {
                    assert(self.listing()[i] == self.entries@[i]);
                    if i >= k {
                        assert(self.entries@[k as int].0 >= s) by {
                            assert(self.listing()[k as int].0 >= s);
                        }
                    }
                }
                lemma_no_entry(self.entries@, s);
            }
            0
        }
    }

    /// Adds `n` occurrences of a symbol; refuses a count that gets too large.
    pub fn raise(&mut self, s: u32, n: u32) -> (done: bool)
        requires
            n > 0,
        ensures
            done == (old(self)@(s) + n <= u32::MAX),
            done ==> final(self)@ == (|t: u32|
                if t == s {
                    old(self)@(t) + n as nat
                } else {
                    old(self)@(t)
                }),
            !done ==> final(self)@ == old(self)@,
    {
        proof {
            use_type_invariant(&*self);
        }
        let ghost before = self.entries@;
        let k: usize = self.place(s);
        let found = k < self.entries.len() && self.entries[k].0 == s;
        let mut entries: Vec<(u32, u32)> = Vec::new();
        if found {
            proof {
                lemma_entry(before, k as int);
            }
            let count: u32 = self.entries[k].1;
            if count > u32::MAX - n {
                return false;
            }
            std::mem::swap(&mut entries, &mut self.entries);
            entries.set(k, (s, count + n));
            proof {
                lemma_update(before, k as int, (count + n) as u32);
                assert(entries@ =~= before.update(k as int, (before[k as int].0, (count + n) as u32)));
            }
        } else {
            proof {
                assert forall|i: int| k <= i < before.len() implies (#[trigger] before[i]).0 > s by {
                    assert(self.listing()[i] == before[i]);
                    assert(self.listing()[k as int] == before[k as int]);
                }
                assert forall|i: int| 0 <= i < before.len() implies (#[trigger] before[i]).0 != s by {
                    assert(self.listing()[i] == before[i]);
                }
                lemma_no_entry(before, s);
                assert forall|i: int| 0 <= i < k implies (#[trigger] before[i]).0 < s by {
                    assert(self.listing()[i] == before[i]);
                }
                lemma_insert(before, k as int, s, n);
            }
            std::mem::swap(&mut entries, &mut self.entries);
            entries.insert(k, (s, n));
        }
        self.entries = entries;
        proof {
            assert(self@ =~= (|t: u32|
                if t == s {
                    old(self)@(t) + n as nat
                } else {
                    old(self)@(t)
                }));
        }
        true
    }

    /// Adds the leaves of another bag; gives up where a count gets too large.
    pub fn absorb(&mut self, other: &Bag) -> (done: bool)
        ensures
            done == fits(plus(old(self)@, other@)),
            done ==> final(self)@ == plus(old(self)@, other@),
    {
        proof {
            use_type_invariant(other);
        }
        let ghost start = self@;
        let ghost all = other.entries@;
        let mut i: usize = 0;
        proof {
            assert(self@ =~= plus(start, |s: u32| count_in(all.take(0), s)));
            use_type_invariant(&*self);
            assert forall|s: u32| #[trigger] start(s) <= u32::MAX by {
                lemma_small(self.entries@, s);
            }
        }
        while i < other.entries.len()
            invariant
                i <= all.len(),
                all == other.entries@,
                canonical(all),
                start == old(self)@,
                self@ == plus(start, |s: u32| count_in(all.take(i as int), s)),
                fits(plus(start, |s: u32| count_in(all.take(i as int), s))),
            decreases all.len() - i,
        {
            let ghost part = all.take(i as int);
            let (s, n): (u32, u32) = other.entries[i];
            proof {
                assert(all.take(i + 1).drop_last() =~= part);
                assert(all[i as int] == (s, n));
                lemma_no_entry(part, s);
                lemma_entry(all, i as int);
                assert(self@(s) == start(s));
            }
            if !self.raise(s, n) {
                proof {
                    assert(other@(s) == n);
                    assert(!(plus(start, other@)(s) <= u32::MAX));
                }
                return false;
            }
            i += 1;
            proof {
                let now = plus(start, |t: u32| count_in(all.take(i as int), t));
                assert(self@ =~= now);
                assert forall|t: u32| #[trigger] now(t) <= u32::MAX by {
                    lemma_small(self.entries@, t);
                    assert(now(t) == self@(t));
                }
            }
        }
        proof {
            assert(all.take(i as int) =~= all);
            assert(plus(start, other@) =~= plus(start, |s: u32| count_in(all.take(i as int), s)));
        }
        true
    }

    /// The leaves that both bags have, and whether that is less than this bag has.
    pub fn met(&self, other: &Bag) -> (r: (Bag, bool))
        ensures
            r.0@ == meet(self@, other@),
            r.1 == !at_most(self@, other@),
            r.1 ==> total(r.0.listing()) < total(self.listing()),
            !r.1 ==> r.0@ == self@ && total(r.0.listing()) == total(self.listing()),
    {
        proof {
            use_type_invariant(self);
            use_type_invariant(other);
        }
        let ghost all = self.entries@;
        let mut entries: Vec<(u32, u32)> = Vec::new();
        let mut less = false;
        let mut i: usize = 0;
        assert(all.take(0) =~= Seq::<(u32, u32)>::empty());
        while i < self.entries.len()
            invariant
                i <= all.len(),
                all == self.entries@,
                canonical(all),
                canonical(entries@),
                forall|j: int|
                    0 <= j < entries@.len() && i < all.len() ==> (#[trigger] entries@[j]).0
                        < all[i as int].0,
                forall|s: u32| #[trigger]
                    count_in(entries@, s) == meet(
                        |t: u32| count_in(all.take(i as int), t),
                        other@,
                    )(s),
                total(entries@) <= total(all.take(i as int)),
                less ==> total(entries@) < total(all.take(i as int)),
                !less ==> total(entries@) == total(all.take(i as int)),
                less == exists|j: int|
                    0 <= j < i && (#[trigger] all[j]).1 > other@(all[j].0),
            decreases all.len() - i,
        {
            let ghost part = all.take(i as int);
            let ghost so_far = entries@;
            let (s, n): (u32, u32) = self.entries[i];
            let have: u32 = other.count(s);
            let low: u32 = if n <= have { n } else { have };
            proof {
                assert(all.take(i + 1).drop_last() =~= part);
                assert(all[i as int] == (s, n));
                lemma_no_entry(part, s);
                assert forall|j: int| 0 <= j < so_far.len() implies (#[trigger] so_far[j]).0
                    != s by {}
                lemma_no_entry(so_far, s);
                assert(other@(s) == have);
            }
            if low < n {
                less = true;
            }
            if low > 0 {
                entries.push((s, low));
                proof {
                    assert(entries@.drop_last() =~= so_far);
                }
            }
            i += 1;
            proof {
                assert forall|t: u32| #[trigger] count_in(entries@, t) == meet(
                    |u: u32| count_in(all.take(i as int), u),
                    other@,
                )(t) by {
                    assert(count_in(so_far, t) == meet(|u: u32| count_in(part, u), other@)(t));
                }
                assert forall|j: int| 0 <= j < entries@.len() && i < all.len() implies (
                #[trigger] entries@[j]).0 < all[i as int].0 by {
                    assert(all[i - 1].0 < all[i as int].0);
                    if j < so_far.len() {
                        assert(so_far[j].0 < all[i - 1].0);
                    }
                }
                if low < n {
                    assert(all[i - 1].1 > other@(all[i - 1].0));
                }
            }
        }
        assert(all.take(i as int) =~= all);
        let r = Bag { entries };
        proof {
            assert(r@ =~= meet(self@, other@));
            if less {
                let j = choose|j: int| 0 <= j < i && (#[trigger] all[j]).1 > other@(all[j].0);
                lemma_entry(all, j);
                assert(!(self@(all[j].0) <= other@(all[j].0)));
            } else {
                assert forall|s: u32| #[trigger] self@(s) <= other@(s) by {
                    if self@(s) > 0 {
                        let j = lemma_some_entry(all, s);
                        lemma_entry(all, j);
                        assert(!(all[j].1 > other@(all[j].0)));
                    }
                }
                assert(meet(self@, other@) =~= self@);
            }
        }
        (r, less)
    }
}

/// Counts fit the number type of a bag.
pub proof fn lemma_small(entries: Seq<(u32, u32)>, s: u32)
    ensures
        count_in(entries, s) <= u32::MAX,
    decreases entries.len(),
{
    if entries.len() > 0 {
        lemma_small(entries.drop_last(), s);
    }
}

} // verus!
