//! What the filter counts and what a report lists, in terms of words and tables.
use crate::arguments;
use crate::obligations::bag;
use crate::obligations::bag::Bag;
use crate::obligations::filter;
use crate::obligations::filter::ObligationTables;
use crate::obligations::needs::Need;
use crate::obligations::report;
use crate::obligations::report::Trait;
use crate::obligations::settings;
use vstd::prelude::*;

verus! {

/// A word occurs as often as the words hold it.
pub proof fn law_occurrences_are_counted(words: Seq<u32>, s: u32)
    ensures
        filter::occurrences(words, s) == words.to_multiset().count(s),
    decreases words.len(),
{
    words.to_multiset_ensures();
    if words.len() > 0 {
        let front = words.drop_last();
        law_occurrences_are_counted(front, s);
        front.to_multiset_ensures();
        assert(front.push(words.last()) =~= words);
        assert(words.to_multiset() =~= front.to_multiset().insert(words.last()));
    }
}

/// The words before a place of a sentence.
pub open spec fn words_before(words: Seq<u32>, place: usize) -> Seq<u32> {
    if place < words.len() {
        words.subrange(0, place as int)
    } else {
        words
    }
}

/// The words from a place of a sentence on.
pub open spec fn words_from(words: Seq<u32>, place: usize) -> Seq<u32> {
    if place < words.len() {
        words.subrange(place as int, words.len() as int)
    } else {
        Seq::empty()
    }
}

/// Whether words hold every leaf as often as an entry of a table needs it.
pub open spec fn holds_needed(words: Seq<u32>, table: Seq<Need>, x: int) -> bool {
    x < table.len() ==> (table[x] matches Some(need) ==> forall|s: u32| #[trigger]
        need(s) <= words.to_multiset().count(s))
}

proof fn lemma_supplies(words: Seq<u32>, table: Seq<Need>, x: int)
    ensures
        filter::entry_supplied(table, x, words) == holds_needed(words, table, x),
{
    assert forall|s: u32| filter::occurrences(words, s) == #[trigger] words.to_multiset().count(
        s,
    ) by {
        law_occurrences_are_counted(words, s);
    }
    if x < table.len() && table[x] is Some {
        let need = table[x]->0;
        if filter::supplies(words, need) {
            assert forall|s: u32| #[trigger] need(s) <= words.to_multiset().count(s) by {
                law_occurrences_are_counted(words, s);
            }
        }
        if holds_needed(words, table, x) {
            assert forall|s: u32| #[trigger] need(s) <= filter::occurrences(words, s) by {
                law_occurrences_are_counted(words, s);
            }
        }
    }
}

/// A state over a span is admitted exactly where the words before the span hold what must
/// stand to its left as often as it must, and the words behind it what must stand to its
/// right.
pub proof fn law_admission_counts_words(
    x: int,
    start: usize,
    end: usize,
    words: Seq<u32>,
    left: Seq<Need>,
    right: Seq<Need>,
)
    ensures
        filter::is_admitted(x, start, end, words, left, right) <==> holds_needed(
            words_before(words, start),
            left,
            x,
        ) && holds_needed(words_from(words, end), right, x),
{
    let a = words.take(filter::capped(start, words.len()));
    let b = words.skip(filter::capped(end, words.len()));
    assert(a =~= words_before(words, start));
    assert(b =~= words_from(words, end));
    lemma_supplies(a, left, x);
    lemma_supplies(b, right, x);
}

/// Whether every derivation or completion that an entry speaks of has some leaf.
pub open spec fn has_leaf(entry: Option<Bag>) -> bool {
    entry matches Some(b) && exists|s: u32| #[trigger] b@(s) > 0
}

/// Whether a state is as asked.
pub open spec fn is_as_asked(t: &ObligationTables, x: int, asked: Trait) -> bool {
    let derives = t.mic@[x] is Some;
    let completes = t.req_left@[x] is Some || t.req_right@[x] is Some;
    match asked {
        Trait::Productive => derives,
        Trait::Reachable => completes,
        Trait::Eligible => derives && completes,
        Trait::Inside => derives && completes && has_leaf(t.mic@[x]),
        Trait::Left => derives && completes && has_leaf(t.req_left@[x]),
        Trait::Right => derives && completes && has_leaf(t.req_right@[x]),
        Trait::Beside => derives && completes && (has_leaf(t.req_left@[x]) || has_leaf(
            t.req_right@[x],
        )),
    }
}

proof fn lemma_has_leaf(entry: Option<Bag>)
    ensures
        report::demands(entry) == has_leaf(entry),
{
    if let Some(b) = entry {
        let none = bag::none_at_all();
        if b@ != none && !has_leaf(entry) {
            assert(b@ =~= none);
        }
        if b@ == none {
            assert(forall|s: u32| #[trigger] b@(s) == none(s));
        }
    }
}

proof fn lemma_marked(marks: Seq<bool>)
    requires
        marks.len() <= usize::MAX,
    ensures
        forall|i: int, j: int|
            0 <= i < j < report::marked(marks).len() ==> (#[trigger] report::marked(marks)[i]) < (
            #[trigger] report::marked(marks)[j]),
        forall|x: usize| #[trigger]
            report::marked(marks).contains(x) <==> x < marks.len() && marks[x as int],
    decreases marks.len(),
{
    if marks.len() > 0 {
        let n = marks.len() - 1;
        let front = marks.drop_last();
        lemma_marked(front);
        let before = report::marked(front);
        let all = report::marked(marks);
        assert forall|i: int, j: int| 0 <= i < j < all.len() implies (#[trigger] all[i]) < (
        #[trigger] all[j]) by {
            assert(all[i] == before[i]);
            assert(before.contains(before[i]));
            if j < before.len() {
                assert(all[j] == before[j]);
            }
        }
        assert forall|x: usize| #[trigger] all.contains(x) <==> x < marks.len()
            && marks[x as int] by {
            if all.contains(x) {
                let k = choose|k: int| 0 <= k < all.len() && all[k] == x;
                if k < before.len() {
                    assert(before[k] == x);
                    assert(before.contains(x));
                    assert(front[x as int] == marks[x as int]);
                }
            }
            if x < marks.len() && marks[x as int] {
                if x < n {
                    assert(front[x as int]);
                    assert(before.contains(x));
                    let k = choose|k: int| 0 <= k < before.len() && before[k] == x;
                    assert(all[k] == x);
                } else {
                    assert(all[all.len() - 1] == x);
                }
            }
        }
    }
}

/// A report lists the states that are as asked, each once, in increasing order.
pub proof fn law_states_as_asked_are_listed(t: &ObligationTables, asked: Trait)
    requires
        t.mic@.len() <= usize::MAX,
    ensures
        forall|i: int, j: int|
            0 <= i < j < report::marked(t.marks(asked)).len() ==> (#[trigger] report::marked(
                t.marks(asked),
            )[i]) < (#[trigger] report::marked(t.marks(asked))[j]),
        forall|x: usize| #[trigger]
            report::marked(t.marks(asked)).contains(x) <==> x < t.mic@.len() && is_as_asked(
                t,
                x as int,
                asked,
            ),
{
    lemma_marked(t.marks(asked));
    assert forall|x: usize| #[trigger] report::marked(t.marks(asked)).contains(x) <==> x
        < t.mic@.len() && is_as_asked(t, x as int, asked) by {
        lemma_has_leaf(t.mic@[x as int]);
        lemma_has_leaf(t.req_left@[x as int]);
        lemma_has_leaf(t.req_right@[x as int]);
    }
}

/// Whether an entry needs a leaf.
pub open spec fn needs_leaf(entry: Option<Bag>, s: u32) -> bool {
    entry matches Some(b) && b@(s) > 0
}

/// The demand for a leaf beside listed states adds up, state by state: a state adds one for
/// each of its sides that needs the leaf.
pub proof fn law_demand_adds_up(t: &ObligationTables, a: Seq<usize>, b: Seq<usize>, s: u32)
    ensures
        report::demand_for(t, a + b, s) == report::demand_for(t, a, s) + report::demand_for(
            t,
            b,
            s,
        ),
        forall|x: usize| #[trigger]
            report::demand_for(t, seq![x], s) == (if needs_leaf(t.req_left@[x as int], s) {
                1int
            } else {
                0
            }) + (if needs_leaf(t.req_right@[x as int], s) {
                1int
            } else {
                0
            }),
    decreases b.len(),
{
    if b.len() == 0 {
        assert(a + b =~= a);
    } else {
        law_demand_adds_up(t, a, b.drop_last(), s);
        assert((a + b).drop_last() =~= a + b.drop_last());
        assert((a + b).last() == b.last());
    }
    assert forall|x: usize| #[trigger]
        report::demand_for(t, seq![x], s) == (if needs_leaf(t.req_left@[x as int], s) {
            1int
        } else {
            0
        }) + (if needs_leaf(t.req_right@[x as int], s) {
            1int
        } else {
            0
        }) by {
        let one = seq![x];
        assert(one.drop_last() =~= Seq::empty());
        assert(one.last() == x);
        assert(report::demand_for(t, Seq::empty(), s) == 0);
    }
}

/// The counts of entries.
pub open spec fn entry_counts(entries: Seq<(u32, u32)>) -> Seq<int> {
    entries.map_values(|e: (u32, u32)| e.1 as int)
}

/// The sum of numbers.
pub open spec fn added(numbers: Seq<int>) -> int {
    numbers.fold_left(0, |sum: int, n: int| sum + n)
}

/// A bag has as many leaves as its entries say, added up.
pub proof fn law_bag_sizes(entries: Seq<(u32, u32)>)
    ensures
        bag::total(entries) == added(entry_counts(entries)),
    decreases entries.len(),
{
    if entries.len() > 0 {
        law_bag_sizes(entries.drop_last());
        assert(entry_counts(entries).drop_last() =~= entry_counts(entries.drop_last()));
        assert(entry_counts(entries).last() == entries.last().1);
    }
}

/// The entries of a bag, none where there is no bag.
pub open spec fn entries_of(entry: Option<Bag>) -> Seq<(u32, u32)> {
    match entry {
        Some(b) => b.listing(),
        None => Seq::empty(),
    }
}

/// The obligations beside a state are those on its left and on its right: as many different
/// leaves as both bags have entries, or as many leaves as the entries say.
pub proof fn law_sizes_beside(t: &ObligationTables, x: int)
    ensures
        report::size_beside(t, x, true) == entries_of(t.req_left@[x]).len() + entries_of(
            t.req_right@[x],
        ).len(),
        report::size_beside(t, x, false) == added(entry_counts(entries_of(t.req_left@[x])))
            + added(entry_counts(entries_of(t.req_right@[x]))),
{
    law_bag_sizes(entries_of(t.req_left@[x]));
    law_bag_sizes(entries_of(t.req_right@[x]));
    assert(bag::total(Seq::<(u32, u32)>::empty()) == 0);
}

proof fn lemma_no_limit(args: Seq<Seq<char>>, limit: nat)
    requires
        !args.contains("--examples"@),
    ensures
        settings::example_limit(args, limit) == limit,
    decreases args.len(),
{
    if args.len() > 0 {
        assert(args.contains(args[0]));
        let rest = args.skip(1);
        assert forall|i: int| 0 <= i < rest.len() implies rest[i] != "--examples"@ by {
            assert(rest[i] == args[i + 1]);
            assert(args.contains(args[i + 1]));
        }
        lemma_no_limit(rest, limit);
    }
}

/// The number behind `--examples` says how many examples are shown, wherever it stands;
/// what is no number counts as ten, and so does an option that is not given.
pub proof fn law_examples_are_as_asked(before: Seq<Seq<char>>, s: Seq<char>, after: Seq<Seq<char>>)
    requires
        !before.contains("--examples"@),
        !after.contains("--examples"@),
    ensures
        settings::example_limit(before + seq!["--examples"@, s] + after, 10) == (
        match arguments::spelled_number(s) {
            Some(n) => n,
            None => 10,
        }),
        settings::example_limit(before, 10) == 10,
    decreases before.len(),
{
    let all = before + seq!["--examples"@, s] + after;
    lemma_no_limit(before, 10);
    if before.len() == 0 {
        assert(all[0] == "--examples"@);
        assert(all[1] == s);
        assert(all.skip(2) =~= after);
        let n = match arguments::spelled_number(s) {
            Some(n) => n,
            None => 10,
        };
        lemma_no_limit(after, n);
    } else {
        assert(all[0] == before[0]);
        assert(before.contains(before[0]));
        let rest = before.skip(1);
        assert(all.skip(1) =~= rest + seq!["--examples"@, s] + after);
        assert forall|i: int| 0 <= i < rest.len() implies rest[i] != "--examples"@ by {
            assert(rest[i] == before[i + 1]);
            assert(before.contains(before[i + 1]));
        }
        law_examples_are_as_asked(rest, s, after);
    }
}

} // verus!
