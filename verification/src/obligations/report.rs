//! How far obligatory leaves reach: coverage of the states, sizes and ranking.
use crate::bench::parse_bench;
use crate::bench::parse_bench::sorted;
use crate::obligations::bag;
use crate::obligations::bag::Bag;
use crate::obligations::filter::ObligationTables;
use vstd::prelude::*;

verus! {

/// The positions of the marks, in increasing order.
pub open spec fn marked(marks: Seq<bool>) -> Seq<usize>
    decreases marks.len(),
{
    if marks.len() == 0 {
        Seq::empty()
    } else if marks.last() {
        marked(marks.drop_last()).push((marks.len() - 1) as usize)
    } else {
        marked(marks.drop_last())
    }
}

/// Lists the positions of the marks.
fn positions(marks: &Vec<bool>) -> (r: Vec<usize>)
    ensures
        r@ == marked(marks@),
{
    let mut r: Vec<usize> = Vec::new();
    let mut i: usize = 0;
    assert(marks@.take(0) =~= Seq::empty());
    while i < marks.len()
        invariant
            i <= marks@.len(),
            r@ == marked(marks@.take(i as int)),
        decreases marks@.len() - i,
    {
        proof {
            assert(marks@.take(i + 1).drop_last() =~= marks@.take(i as int));
            assert(marks@.take(i + 1).last() == marks@[i as int]);
        }
        if marks[i] {
            r.push(i);
        }
        i += 1;
    }
    assert(marks@.take(i as int) =~= marks@);
    r
}

/// Whether an entry demands some leaf.
pub open spec fn demands(entry: Option<Bag>) -> bool {
    entry matches Some(b) && b@ != bag::none_at_all()
}

/// Whether an entry demands some leaf.
fn is_demanding(entry: &Option<Bag>) -> (r: bool)
    ensures
        r == demands(*entry),
{
    match entry {
        Some(b) => !b.is_empty(),
        None => false,
    }
}

/// What is asked of a state.
#[derive(Clone, Copy, PartialEq, Eq, Structural, Debug)]
pub enum Trait {
    /// Some derivation ends in it.
    Productive,
    /// Some completion exists.
    Reachable,
    /// Both.
    Eligible,
    /// Both, and every derivation has some leaf.
    Inside,
    /// Both, and every completion has some leaf to the left.
    Left,
    /// Both, and every completion has some leaf to the right.
    Right,
    /// Both, and every completion has some leaf on one side.
    Beside,
}

impl ObligationTables {
    /// Whether the tables speak of the same states.
    pub open spec fn even(&self) -> bool {
        self.req_left@.len() == self.mic@.len() && self.req_right@.len() == self.mic@.len()
    }

    /// Whether state `x` is as asked.
    pub open spec fn shows(&self, x: int, asked: Trait) -> bool {
        let productive = self.mic@[x] is Some;
        let reachable = self.req_left@[x] is Some || self.req_right@[x] is Some;
        let eligible = productive && reachable;
        match asked {
            Trait::Productive => productive,
            Trait::Reachable => reachable,
            Trait::Eligible => eligible,
            Trait::Inside => eligible && demands(self.mic@[x]),
            Trait::Left => eligible && demands(self.req_left@[x]),
            Trait::Right => eligible && demands(self.req_right@[x]),
            Trait::Beside => eligible && (demands(self.req_left@[x]) || demands(
                self.req_right@[x],
            )),
        }
    }

    /// For every state, whether it is as asked.
    pub open spec fn marks(&self, asked: Trait) -> Seq<bool> {
        Seq::new(self.mic@.len(), |x: int| self.shows(x, asked))
    }

    /// The states that are as asked, in increasing order.
    pub fn states_with(&self, asked: Trait) -> (r: Vec<usize>)
        requires
            self.even(),
        ensures
            r@ == marked(self.marks(asked)),
    {
        let mut marks: Vec<bool> = Vec::new();
        let mut x: usize = 0;
        while x < self.mic.len()
            invariant
                x <= self.mic@.len(),
                self.even(),
                marks@.len() == x,
                forall|y: int| 0 <= y < x ==> #[trigger] marks@[y] == self.shows(y, asked),
            decreases self.mic@.len() - x,
        {
            let productive = self.mic[x].is_some();
            let reachable = self.req_left[x].is_some() || self.req_right[x].is_some();
            let eligible = productive && reachable;
            let mark = match asked {
                Trait::Productive => productive,
                Trait::Reachable => reachable,
                Trait::Eligible => eligible,
                Trait::Inside => eligible && is_demanding(&self.mic[x]),
                Trait::Left => eligible && is_demanding(&self.req_left[x]),
                Trait::Right => eligible && is_demanding(&self.req_right[x]),
                Trait::Beside => eligible && (is_demanding(&self.req_left[x]) || is_demanding(
                    &self.req_right[x],
                )),
            };
            marks.push(mark);
            x += 1;
        }
        assert(marks@ =~= self.marks(asked));
        positions(&marks)
    }
}

/// How many different leaves an entry demands.
pub open spec fn distinct_in(entry: Option<Bag>) -> nat {
    match entry {
        Some(b) => b.listing().len(),
        None => 0,
    }
}

/// How many leaves an entry demands.
pub open spec fn total_in(entry: Option<Bag>) -> nat {
    match entry {
        Some(b) => bag::total(b.listing()),
        None => 0,
    }
}

/// Counts the different leaves and the leaves that an entry demands.
fn entry_sizes(entry: &Option<Bag>) -> (r: (u128, u128))
    ensures
        r.0 == distinct_in(*entry),
        r.1 == total_in(*entry),
        r.0 <= usize::MAX,
        r.1 <= usize::MAX * u32::MAX,
{
    match entry {
        Some(b) => {
            let entries = b.entries();
            let mut total: u128 = 0;
            let mut i: usize = 0;
            assert(entries@.take(0) =~= Seq::empty());
            while i < entries.len()
                invariant
                    i <= entries@.len(),
                    total == bag::total(entries@.take(i as int)),
                    total <= i * u32::MAX,
                decreases entries@.len() - i,
            {
                proof {
                    assert(entries@.take(i + 1).drop_last() =~= entries@.take(i as int));
                    assert(i * u32::MAX + u32::MAX <= usize::MAX * u32::MAX) by (nonlinear_arith)
                        requires
                            i < usize::MAX,
                    ;
                    assert((i + 1) * u32::MAX == i * u32::MAX + u32::MAX) by (nonlinear_arith);
                    assert(usize::MAX * u32::MAX + u32::MAX <= u128::MAX) by (nonlinear_arith)
                        requires
                            usize::MAX <= 0xffff_ffff_ffff_ffff,
                    ;
                }
                let n: u32 = entries[i].1;
                total = total + n as u128;
                i += 1;
            }
            proof {
                assert(entries@.take(i as int) =~= entries@);
                assert(i * u32::MAX <= usize::MAX * u32::MAX) by (nonlinear_arith)
                    requires
                        i <= usize::MAX,
                ;
            }
            (entries.len() as u128, total)
        },
        None => (0, 0),
    }
}

/// How many leaves the completions of state `x` must have: different ones, or in all.
pub open spec fn size_beside(tables: &ObligationTables, x: int, distinct: bool) -> nat {
    if distinct {
        distinct_in(tables.req_left@[x]) + distinct_in(tables.req_right@[x])
    } else {
        total_in(tables.req_left@[x]) + total_in(tables.req_right@[x])
    }
}

/// The sizes of the obligations of the listed states.
pub open spec fn sizes_beside(
    tables: &ObligationTables,
    states: Seq<usize>,
    distinct: bool,
) -> Seq<u128> {
    Seq::new(states.len(), |i: int| size_beside(tables, states[i] as int, distinct) as u128)
}

/// The sizes of the obligations of the listed states, sorted.
pub fn obligation_sizes(
    tables: &ObligationTables,
    states: &Vec<usize>,
    distinct: bool,
) -> (r: Vec<u128>)
    requires
        tables.even(),
        forall|i: int| 0 <= i < states@.len() ==> (#[trigger] states@[i]) < tables.mic@.len(),
    ensures
        parse_bench::ascending(r@),
        r@.to_multiset() =~= sizes_beside(tables, states@, distinct).to_multiset(),
        r@.len() == states@.len(),
{
    let mut sizes: Vec<u128> = Vec::new();
    let mut i: usize = 0;
    while i < states.len()
        invariant
            i <= states@.len(),
            tables.even(),
            forall|j: int| 0 <= j < states@.len() ==> (#[trigger] states@[j]) < tables.mic@.len(),
            sizes@.len() == i,
            forall|j: int|
                0 <= j < i ==> #[trigger] sizes@[j] == size_beside(
                    tables,
                    states@[j] as int,
                    distinct,
                ),
        decreases states@.len() - i,
    {
        let x: usize = states[i];
        let (dl, tl): (u128, u128) = entry_sizes(&tables.req_left[x]);
        let (dr, tr): (u128, u128) = entry_sizes(&tables.req_right[x]);
        proof {
            assert(usize::MAX * u32::MAX + usize::MAX * u32::MAX <= u128::MAX) by (nonlinear_arith)
                requires
                    usize::MAX <= 0xffff_ffff_ffff_ffff,
            ;
        }
        let size: u128 = if distinct {
            dl + dr
        } else {
            tl + tr
        };
        sizes.push(size);
        i += 1;
    }
    assert(sizes@ =~= sizes_beside(tables, states@, distinct));
    sorted(&sizes)
}

/// Smallest, median, ninetieth percentile and largest of sorted sizes.
pub fn size_summary(sizes: &Vec<u128>) -> (r: (u128, u128, u128, u128))
    requires
        0 < sizes@.len(),
        parse_bench::ascending(sizes@),
    ensures
        r.0 == sizes@[0],
        r.1 == sizes@[(sizes@.len() / 2) as int],
        r.2 == sizes@[(sizes@.len() * 9 / 10) as int],
        r.3 == sizes@.last(),
        r.0 <= r.1 <= r.2 <= r.3,
{
    let n: usize = sizes.len();
    let late: usize = (n as u128 * 9 / 10) as usize;
    (sizes[0], sizes[n / 2], sizes[late], sizes[n - 1])
}

/// One if the entry demands the leaf.
pub open spec fn asks_for(entry: Option<Bag>, s: u32) -> nat {
    if entry matches Some(b) && b@(s) > 0 {
        1
    } else {
        0
    }
}

/// How many of the bags beside the listed states demand the leaf.
pub open spec fn demand_for(tables: &ObligationTables, states: Seq<usize>, s: u32) -> nat
    decreases states.len(),
{
    if states.len() == 0 {
        0
    } else {
        demand_for(tables, states.drop_last(), s) + asks_for(
            tables.req_left@[states.last() as int],
            s,
        ) + asks_for(tables.req_right@[states.last() as int], s)
    }
}

/// Notes every leaf that an entry demands.
fn note(noted: &mut Bag, entry: &Option<Bag>)
    ensures
        forall|s: u32|
            #[trigger] final(noted)@(s) > 0 <==> (old(noted)@(s) > 0 || asks_for(*entry, s) > 0),
{
    let b = match entry {
        Some(b) => b,
        None => {
            return;
        },
    };
    let entries = b.entries();
    let ghost start = noted@;
    let mut i: usize = 0;
    assert(entries@.take(0) =~= Seq::empty());
    while i < entries.len()
        invariant
            i <= entries@.len(),
            entries@ == b.listing(),
            bag::canonical(entries@),
            forall|s: u32| #[trigger]
                noted@(s) > 0 <==> (start(s) > 0 || bag::count_in(entries@.take(i as int), s) > 0),
        decreases entries@.len() - i,
    {
        let s: u32 = entries[i].0;
        let ghost before = noted@;
        proof {
            assert(entries@.take(i + 1).drop_last() =~= entries@.take(i as int));
            assert(entries@[i as int].1 > 0);
        }
        let _ = noted.raise(s, 1);
        i += 1;
        proof {
            assert forall|t: u32| #[trigger] noted@(t) > 0 <==> (start(t) > 0 || bag::count_in(
                entries@.take(i as int),
                t,
            ) > 0) by {
                assert(before(t) > 0 <==> (start(t) > 0 || bag::count_in(
                    entries@.take(i - 1),
                    t,
                ) > 0));
            }
        }
    }
    assert(entries@.take(i as int) =~= entries@);
}

/// How many of the bags beside the listed states demand a leaf.
fn count_demand(tables: &ObligationTables, states: &Vec<usize>, s: u32) -> (n: u128)
    requires
        tables.even(),
        forall|i: int| 0 <= i < states@.len() ==> (#[trigger] states@[i]) < tables.mic@.len(),
    ensures
        n == demand_for(tables, states@, s),
{
    let mut n: u128 = 0;
    let mut i: usize = 0;
    assert(states@.take(0) =~= Seq::empty());
    while i < states.len()
        invariant
            i <= states@.len(),
            tables.even(),
            forall|j: int| 0 <= j < states@.len() ==> (#[trigger] states@[j]) < tables.mic@.len(),
            n == demand_for(tables, states@.take(i as int), s),
            n <= 2 * i,
        decreases states@.len() - i,
    {
        let x: usize = states[i];
        assert(states@.take(i + 1).drop_last() =~= states@.take(i as int));
        if let Some(b) = &tables.req_left[x] {
            if b.count(s) > 0 {
                n = n + 1;
            }
        }
        if let Some(b) = &tables.req_right[x] {
            if b.count(s) > 0 {
                n = n + 1;
            }
        }
        i += 1;
    }
    assert(states@.take(i as int) =~= states@);
    n
}

/// Whether the ranking does not increase.
pub open spec fn descending(list: Seq<(u32, u128)>) -> bool {
    forall|i: int, j: int| 0 <= i <= j < list.len() ==> list[i].1 >= list[j].1
}

/// Inserts an entry behind those that rank as high.
fn insert_ranked(list: &mut Vec<(u32, u128)>, entry: (u32, u128))
    requires
        descending(old(list)@),
    ensures
        descending(final(list)@),
        final(list)@.to_multiset() =~= old(list)@.to_multiset().insert(entry),
{
    let mut i: usize = list.len();
    while i > 0 && list[i - 1].1 < entry.1
        invariant
            i <= list@.len(),
            list@ == old(list)@,
            descending(list@),
            forall|j: int| i <= j < list@.len() ==> (#[trigger] list@[j]).1 < entry.1,
        decreases i,
    {
        i -= 1;
    }
    proof {
        list@.to_multiset_ensures();
        vstd::seq_lib::to_multiset_insert(list@, i as int, entry);
    }
    list.insert(i, entry);
}

/// Whether `entries` lists the leaves that are demanded beside the states, with the
/// number of bags that demand them, by symbol.
pub open spec fn lists_demand(
    tables: &ObligationTables,
    states: Seq<usize>,
    entries: Seq<(u32, u128)>,
) -> bool {
    &&& forall|i: int, j: int| 0 <= i < j < entries.len() ==> entries[i].0 < entries[j].0
    &&& forall|i: int|
        0 <= i < entries.len() ==> (#[trigger] entries[i]).1 > 0 && entries[i].1 == demand_for(
            tables,
            states,
            entries[i].0,
        )
    &&& forall|s: u32| #[trigger]
        demand_for(tables, states, s) > 0 ==> exists|i: int|
            0 <= i < entries.len() && (#[trigger] entries[i]).0 == s
}

/// The leaves that are demanded beside the listed states with the number of bags that
/// demand them, the most demanded first.
pub fn ranked_leaves(tables: &ObligationTables, states: &Vec<usize>) -> (r: Vec<(u32, u128)>)
    requires
        tables.even(),
        forall|i: int| 0 <= i < states@.len() ==> (#[trigger] states@[i]) < tables.mic@.len(),
    ensures
        descending(r@),
        exists|entries: Seq<(u32, u128)>| #[trigger]
            lists_demand(tables, states@, entries) && r@.to_multiset() =~= entries.to_multiset(),
{
    let mut noted = Bag::new();
    let mut i: usize = 0;
    assert(states@.take(0) =~= Seq::empty());
    while i < states.len()
        invariant
            i <= states@.len(),
            tables.even(),
            forall|j: int| 0 <= j < states@.len() ==> (#[trigger] states@[j]) < tables.mic@.len(),
            forall|s: u32| #[trigger]
                noted@(s) > 0 <==> demand_for(tables, states@.take(i as int), s) > 0,
        decreases states@.len() - i,
    {
        let x: usize = states[i];
        let ghost before = noted@;
        assert(states@.take(i + 1).drop_last() =~= states@.take(i as int));
        note(&mut noted, &tables.req_left[x]);
        let ghost middle = noted@;
        note(&mut noted, &tables.req_right[x]);
        i += 1;
        proof {
            assert forall|s: u32| #[trigger] noted@(s) > 0 <==> demand_for(
                tables,
                states@.take(i as int),
                s,
            ) > 0 by {
                assert(before(s) > 0 <==> demand_for(tables, states@.take(i - 1), s) > 0);
                assert(middle(s) > 0 <==> (before(s) > 0 || asks_for(
                    tables.req_left@[x as int],
                    s,
                ) > 0));
            }
        }
    }
    assert(states@.take(i as int) =~= states@);
    let keys = noted.entries();
    let ghost mut entries: Seq<(u32, u128)> = Seq::empty();
    let mut r: Vec<(u32, u128)> = Vec::new();
    let mut k: usize = 0;
    assert(r@ =~= entries);
    while k < keys.len()
        invariant
            k <= keys@.len(),
            tables.even(),
            forall|j: int| 0 <= j < states@.len() ==> (#[trigger] states@[j]) < tables.mic@.len(),
            entries.len() == k,
            forall|j: int|
                0 <= j < k ==> (#[trigger] entries[j]).0 == keys@[j].0 && entries[j].1
                    == demand_for(tables, states@, keys@[j].0),
            descending(r@),
            r@.to_multiset() =~= entries.to_multiset(),
        decreases keys@.len() - k,
    {
        let s: u32 = keys[k].0;
        let n: u128 = count_demand(tables, states, s);
        insert_ranked(&mut r, (s, n));
        proof {
            entries.to_multiset_ensures();
            entries = entries.push((s, n));
        }
        k += 1;
    }
    proof {
        assert forall|i: int| 0 <= i < entries.len() implies (#[trigger] entries[i]).1 > 0
            && entries[i].1 == demand_for(tables, states@, entries[i].0) by {
            bag::lemma_entry(keys@, i);
            assert(noted@(keys@[i].0) > 0);
        }
        assert forall|s: u32| #[trigger] demand_for(tables, states@, s) > 0 implies exists|i: int|
            0 <= i < entries.len() && (#[trigger] entries[i]).0 == s by {
            assert(noted@(s) > 0);
            let i = bag::lemma_some_entry(keys@, s);
            assert(entries[i].0 == s);
        }
        assert(lists_demand(tables, states@, entries));
    }
    r
}

/// What the coverage says about an obligatory-leaf filter.
#[derive(Clone, Copy, PartialEq, Eq, Structural, Debug)]
pub enum Verdict {
    /// At least three states in ten have obligations beside them.
    Proceed,
    /// At most one state in twenty has.
    Stop,
    Inconclusive,
}

/// The verdict on `beside` of `universe` states.
pub fn verdict(beside: usize, universe: usize) -> (r: Verdict)
    requires
        0 < universe,
    ensures
        r == (if 10 * beside >= 3 * universe {
            Verdict::Proceed
        } else if 20 * beside <= universe {
            Verdict::Stop
        } else {
            Verdict::Inconclusive
        }),
{
    let b: u128 = beside as u128;
    let u: u128 = universe as u128;
    if 10 * b >= 3 * u {
        Verdict::Proceed
    } else if 20 * b <= u {
        Verdict::Stop
    } else {
        Verdict::Inconclusive
    }
}

impl Verdict {
    /// The verdict in words.
    pub open spec fn words(self) -> Seq<char> {
        match self {
            Verdict::Proceed => "PROCEED to Step 2 (strong coverage)"@,
            Verdict::Stop => "STOP \u{2014} coverage too low for F to help"@,
            Verdict::Inconclusive =>
                "INCONCLUSIVE \u{2014} proceed to Step 2 to measure real pruning"@,
        }
    }

    /// The verdict in words.
    pub fn text(self) -> (r: &'static str)
        ensures
            r@ == self.words(),
    {
        match self {
            Verdict::Proceed => "PROCEED to Step 2 (strong coverage)",
            Verdict::Stop => "STOP \u{2014} coverage too low for F to help",
            Verdict::Inconclusive =>
                "INCONCLUSIVE \u{2014} proceed to Step 2 to measure real pruning",
        }
    }
}

} // verus!
