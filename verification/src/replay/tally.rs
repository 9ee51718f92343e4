//! What a replay counts.
use vstd::prelude::*;

verus! {

/// The counters of a replay.
#[derive(Clone, Copy, PartialEq, Eq, Structural, Debug)]
pub struct Tally {
    /// How often the index was asked.
    pub calls: usize,
    /// How many rules it found.
    pub matches: usize,
    /// How many products were looked up.
    pub lookups: usize,
    /// How many edges a search would consider.
    pub candidates: usize,
    /// How many it would not.
    pub rejected: usize,
    /// The greatest number of rules found at once.
    pub peak: usize,
}

/// The counters of a replay.
pub struct TallyModel {
    pub calls: nat,
    pub matches: nat,
    pub lookups: nat,
    pub candidates: nat,
    pub rejected: nat,
    pub peak: nat,
}

impl View for Tally {
    type V = TallyModel;

    open spec fn view(&self) -> TallyModel {
        TallyModel {
            calls: self.calls as nat,
            matches: self.matches as nat,
            lookups: self.lookups as nat,
            candidates: self.candidates as nat,
            rejected: self.rejected as nat,
            peak: self.peak as nat,
        }
    }
}

/// Nothing counted.
pub open spec fn nothing() -> TallyModel {
    TallyModel { calls: 0, matches: 0, lookups: 0, candidates: 0, rejected: 0, peak: 0 }
}

/// The greater of two numbers.
pub open spec fn greater(a: nat, b: nat) -> nat {
    if a > b {
        a
    } else {
        b
    }
}

/// Two counts together.
pub open spec fn plus(a: TallyModel, b: TallyModel) -> TallyModel {
    TallyModel {
        calls: a.calls + b.calls,
        matches: a.matches + b.matches,
        lookups: a.lookups + b.lookups,
        candidates: a.candidates + b.candidates,
        rejected: a.rejected + b.rejected,
        peak: greater(a.peak, b.peak),
    }
}

/// All counts together.
pub open spec fn total(list: Seq<TallyModel>) -> TallyModel
    decreases list.len(),
{
    if list.len() == 0 {
        nothing()
    } else {
        plus(total(list.drop_last()), list.last())
    }
}

/// Whether the counters can hold a count.
pub open spec fn fits(t: TallyModel) -> bool {
    &&& t.calls <= usize::MAX
    &&& t.matches <= usize::MAX
    &&& t.lookups <= usize::MAX
    &&& t.candidates <= usize::MAX
    &&& t.rejected <= usize::MAX
    &&& t.peak <= usize::MAX
}

impl Tally {
    /// Counters at zero.
    pub fn zero() -> (t: Self)
        ensures
            t@ == nothing(),
    {
        Tally { calls: 0, matches: 0, lookups: 0, candidates: 0, rejected: 0, peak: 0 }
    }

    /// Adds a count; says whether the counters can hold it.
    pub fn absorb(&mut self, other: &Tally) -> (done: bool)
        ensures
            done == fits(plus(old(self)@, other@)),
            done ==> final(self)@ == plus(old(self)@, other@),
    {
        if self.calls > usize::MAX - other.calls || self.matches > usize::MAX - other.matches
            || self.lookups > usize::MAX - other.lookups || self.candidates > usize::MAX
            - other.candidates || self.rejected > usize::MAX - other.rejected {
            return false;
        }
        self.calls = self.calls + other.calls;
        self.matches = self.matches + other.matches;
        self.lookups = self.lookups + other.lookups;
        self.candidates = self.candidates + other.candidates;
        self.rejected = self.rejected + other.rejected;
        if other.peak > self.peak {
            self.peak = other.peak;
        }
        true
    }
}

/// Counting nothing changes nothing.
pub proof fn lemma_plus_nothing(a: TallyModel)
    ensures
        plus(a, nothing()) == a,
        plus(nothing(), a) == a,
{
}

/// The order in which counts are added does not matter.
pub proof fn lemma_plus_associative(a: TallyModel, b: TallyModel, c: TallyModel)
    ensures
        plus(plus(a, b), c) == plus(a, plus(b, c)),
        plus(a, b) == plus(b, a),
{
}

/// What a part does not fit, the whole does not.
pub proof fn lemma_fits(a: TallyModel, b: TallyModel)
    requires
        fits(plus(a, b)),
    ensures
        fits(a),
        fits(b),
{
}

/// The total of one more count.
pub proof fn lemma_total_push(list: Seq<TallyModel>, t: TallyModel)
    ensures
        total(list.push(t)) == plus(total(list), t),
{
    assert(list.push(t).drop_last() =~= list);
}

/// A total of some counts is part of the total of all.
pub proof fn lemma_total_take(list: Seq<TallyModel>, n: int)
    requires
        0 <= n <= list.len(),
    ensures
        exists|rest: TallyModel| total(list) == #[trigger] plus(total(list.take(n)), rest),
    decreases list.len() - n,
{
    if n == list.len() {
        assert(list.take(n) =~= list);
        lemma_plus_nothing(total(list));
        assert(total(list) == plus(total(list.take(n)), nothing()));
    } else {
        lemma_total_take(list, n + 1);
        let rest = choose|rest: TallyModel|
            total(list) == #[trigger] plus(total(list.take(n + 1)), rest);
        assert(list.take(n + 1) =~= list.take(n).push(list[n]));
        lemma_total_push(list.take(n), list[n]);
        lemma_plus_associative(total(list.take(n)), list[n], rest);
        assert(total(list) == plus(total(list.take(n)), plus(list[n], rest)));
    }
}

/// Where some of the counts do not fit beside a start, all do not.
pub proof fn lemma_overflow(start: TallyModel, list: Seq<TallyModel>, n: int)
    requires
        0 <= n <= list.len(),
        !fits(plus(start, total(list.take(n)))),
    ensures
        !fits(plus(start, total(list))),
{
    lemma_total_take(list, n);
    let rest = choose|rest: TallyModel|
        total(list) == #[trigger] plus(total(list.take(n)), rest);
    lemma_plus_associative(start, total(list.take(n)), rest);
    if fits(plus(start, total(list))) {
        lemma_fits(plus(start, total(list.take(n))), rest);
    }
}

} // verus!
