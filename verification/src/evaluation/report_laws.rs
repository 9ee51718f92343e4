//! What an evaluation counts, dates and selects, in terms of what it is given.
use crate::evaluation::calendar;
use crate::evaluation::run_plan;
use crate::evaluation::run_plan::{RunFault, RunPlan};
use crate::evaluation::settings::{Algorithm, EvalArgs, Heuristic};
use crate::evaluation::strategies;
use crate::evaluation::tally;
use crate::evaluation::tally::{SentenceOutcome, Tally};
use crate::text;
use crate::text_laws;
use vstd::prelude::*;

verus! {

proof fn lemma_totals_add(
    a: Seq<SentenceOutcome>,
    b: Seq<SentenceOutcome>,
    part: spec_fn(SentenceOutcome) -> nat,
)
    ensures
        tally::total(a + b, part) == tally::total(a, part) + tally::total(b, part),
    decreases b.len(),
{
    if b.len() == 0 {
        assert(a + b =~= a);
    } else {
        lemma_totals_add(a, b.drop_last(), part);
        assert((a + b).drop_last() =~= a + b.drop_last());
        assert((a + b).last() == b.last());
    }
}

/// What two corpora come to is what they come to together.
pub proof fn law_tallies_add(
    a: Seq<SentenceOutcome>,
    b: Seq<SentenceOutcome>,
    ta: Tally,
    tb: Tally,
    t: Tally,
)
    requires
        tally::is_tally(a, ta),
        tally::is_tally(b, tb),
        tally::is_tally(a + b, t),
    ensures
        t.parsed == ta.parsed + tb.parsed,
        t.scored == ta.scored + tb.scored,
        t.skipped == ta.skipped + tb.skipped,
        t.gold == ta.gold + tb.gold,
        t.predicted == ta.predicted + tb.predicted,
        t.matched_labeled == ta.matched_labeled + tb.matched_labeled,
        t.matched_unlabeled == ta.matched_unlabeled + tb.matched_unlabeled,
{
    lemma_totals_add(a, b, tally::parsed_part());
    lemma_totals_add(a, b, tally::scored_part());
    lemma_totals_add(a, b, tally::skipped_part());
    lemma_totals_add(a, b, tally::gold_part());
    lemma_totals_add(a, b, tally::predicted_part());
    lemma_totals_add(a, b, tally::labeled_part());
    lemma_totals_add(a, b, tally::unlabeled_part());
}

/// One sentence counts once: as parsed where it was parsed, and with its constituents where
/// it has a score; a refused score counts as skipped and brings no constituents.
pub proof fn law_one_sentence_counts_once(s: SentenceOutcome, t: Tally)
    requires
        tally::is_tally(seq![s], t),
    ensures
        t.parsed == 1 <==> s.parsed,
        t.parsed == 0 <==> !s.parsed,
        match s.score {
            Some(Ok(counts)) => {
                &&& t.scored == 1
                &&& t.skipped == 0
                &&& t.gold == counts.gold
                &&& t.predicted == counts.predicted
                &&& t.matched_labeled == counts.matched_labeled
                &&& t.matched_unlabeled == counts.matched_unlabeled
            },
            Some(Err(_)) => {
                &&& t.scored == 0
                &&& t.skipped == 1
                &&& t.gold == 0 && t.predicted == 0
                &&& t.matched_labeled == 0 && t.matched_unlabeled == 0
            },
            None => {
                &&& t.scored == 0 && t.skipped == 0
                &&& t.gold == 0 && t.predicted == 0
                &&& t.matched_labeled == 0 && t.matched_unlabeled == 0
            },
        },
{
    let list = seq![s];
    assert(list.drop_last() =~= Seq::empty());
    assert(list.last() == s);
    let none: Seq<SentenceOutcome> = Seq::empty();
    assert(tally::total(none, tally::parsed_part()) == 0);
    assert(tally::total(none, tally::scored_part()) == 0);
    assert(tally::total(none, tally::skipped_part()) == 0);
    assert(tally::total(none, tally::gold_part()) == 0);
    assert(tally::total(none, tally::predicted_part()) == 0);
    assert(tally::total(none, tally::labeled_part()) == 0);
    assert(tally::total(none, tally::unlabeled_part()) == 0);
}

/// The last day of a month of a year of the Gregorian calendar.
pub open spec fn last_day(y: int, m: int) -> int {
    if m == 2 {
        if y % 4 == 0 && (y % 100 != 0 || y % 400 == 0) {
            29
        } else {
            28
        }
    } else if m == 4 || m == 6 || m == 9 || m == 11 {
        30
    } else {
        31
    }
}

/// The day after a date.
pub open spec fn next_day(y: int, m: int, d: int) -> (int, int, int) {
    if d < last_day(y, m) {
        (y, m, d + 1)
    } else if m < 12 {
        (y, m + 1, 1int)
    } else {
        (y + 1, 1int, 1int)
    }
}

/// Days are counted from 1 January 1970, one after another: the day after a date has the
/// next number, and the dates that exist are those of the calendar.
pub proof fn law_days_are_counted(y: int, m: int, d: int)
    requires
        y >= 0,
        1 <= m <= 12,
        1 <= d <= last_day(y, m),
    ensures
        calendar::day_number(1970, 1, 1) == 0,
        calendar::is_date(y, m, d),
        ({
            let (y1, m1, d1) = next_day(y, m, d);
            calendar::is_date(y1, m1, d1) && calendar::day_number(y1, m1, d1)
                == calendar::day_number(y, m, d) + 1
        }),
{
    calendar::lemma_months(1970);
    calendar::lemma_months(y);
    calendar::lemma_months(y + 1);
    lemma_years(y);
}

/// A year has 365 days, and one more in a leap year.
proof fn lemma_years(y: int)
    requires
        y >= 0,
    ensures
        calendar::days_before_year(y + 1) == calendar::days_before_year(y) + 337 + last_day(y, 2),
{
    let q = y / 400;
    let r = y % 400;
    assert(y == 400 * q + r);
    assert((y + 3) / 4 == 100 * q + (r + 3) / 4);
    assert((y + 4) / 4 == 100 * q + (r + 4) / 4);
    assert((y + 99) / 100 == 4 * q + (r + 99) / 100);
    assert((y + 100) / 100 == 4 * q + (r + 100) / 100);
    assert((y + 399) / 400 == q + (r + 399) / 400);
    assert((y + 400) / 400 == q + 1);
}

/// A time is written with two digits for each part behind the year, and what is written
/// reads back as the time.
pub proof fn law_times_read_back(n: nat, width: nat)
    ensures
        calendar::padded(n, width).len() >= width,
        crate::alto_ast::read_decimal(calendar::padded(n, width)) == n,
{
    let digits = crate::alto_ast::decimal(n);
    crate::alto_ast::law_decimal_reads_back(n);
    if digits.len() < width {
        lemma_zeros((width - digits.len()) as nat, digits);
    }
}

proof fn lemma_zeros(k: nat, digits: Seq<char>)
    ensures
        crate::alto_ast::read_decimal(Seq::new(k, |i: int| '0') + digits)
            == crate::alto_ast::read_decimal(digits),
    decreases digits.len(), k,
{
    let all = Seq::new(k, |i: int| '0') + digits;
    if digits.len() > 0 {
        lemma_zeros(k, digits.drop_last());
        assert(all.drop_last() =~= Seq::new(k, |i: int| '0') + digits.drop_last());
        assert(all.last() == digits.last());
    } else if k > 0 {
        lemma_zeros((k - 1) as nat, digits);
        assert(all.drop_last() =~= Seq::new((k - 1) as nat, |i: int| '0') + digits);
        assert(all.last() == '0');
    } else {
        assert(all =~= digits);
    }
}

/// Whether numbers increase.
pub open spec fn increase(at: Seq<int>) -> bool {
    forall|k: int, l: int| 0 <= k < l < at.len() ==> (#[trigger] at[k]) < (#[trigger] at[l])
}

/// Whether a list has exactly the marked names, in their order; `at` are their places.
pub open spec fn selects(
    names: Seq<Seq<char>>,
    marks: Seq<bool>,
    chosen: Seq<Seq<char>>,
    at: Seq<int>,
) -> bool {
    &&& at.len() == chosen.len()
    &&& increase(at)
    &&& forall|k: int|
        0 <= k < at.len() ==> 0 <= (#[trigger] at[k]) < names.len() && marks[at[k]] && chosen[k]
            == names[at[k]]
    &&& forall|i: int| 0 <= i < names.len() && #[trigger] marks[i] ==> at.contains(i)
}

proof fn lemma_selects(names: Seq<Seq<char>>, marks: Seq<bool>) -> (at: Seq<int>)
    requires
        names.len() == marks.len(),
    ensures
        selects(names, marks, run_plan::marked_names(names, marks), at),
    decreases names.len(),
{
    if names.len() == 0 {
        Seq::empty()
    } else {
        let n = names.len() as int;
        let front = names.drop_last();
        let at = lemma_selects(front, marks.drop_last());
        let before = run_plan::marked_names(front, marks.drop_last());
        let all = if marks.last() {
            at.push(n - 1)
        } else {
            at
        };
        assert forall|k: int| 0 <= k < all.len() implies 0 <= (#[trigger] all[k]) < names.len()
            && marks[all[k]] && run_plan::marked_names(names, marks)[k] == names[all[k]] by {
            if k < at.len() {
                assert(all[k] == at[k]);
                assert(front[at[k]] == names[at[k]]);
                assert(marks.drop_last()[at[k]] == marks[at[k]]);
                assert(run_plan::marked_names(names, marks)[k] == before[k]);
            }
        }
        assert forall|i: int| 0 <= i < names.len() && #[trigger] marks[i] implies all.contains(
            i,
        ) by {
            if i < n - 1 {
                assert(marks.drop_last()[i] == marks[i]);
                assert(at.contains(i));
                let k = choose|k: int| 0 <= k < at.len() && at[k] == i;
                assert(all[k] == i);
            } else {
                assert(all[all.len() - 1] == n - 1);
            }
        }
        assert forall|k: int, l: int| 0 <= k < l < all.len() implies (#[trigger] all[k]) < (
        #[trigger] all[l]) by {
            assert(all[k] == at[k]);
        }
        all
    }
}

/// Whether a name is marked.
pub open spec fn is_marked(names: Seq<Seq<char>>, marks: Seq<bool>, name: Seq<char>) -> bool {
    exists|i: int| 0 <= i < names.len() && marks[i] && #[trigger] names[i] == name
}

/// An evaluation parses the marked interpretations of a corpus, all of them and in their
/// order. The one that was asked for sets the length of a sentence; without one it is
/// `english`, else `i`, else the first that can be parsed.
pub proof fn law_plan_parses_what_is_marked(
    args: EvalArgs,
    order: Seq<Seq<char>>,
    marks: Seq<bool>,
    plan: RunPlan,
)
    requires
        order.len() == marks.len(),
        run_plan::planned(args, order, marks, Ok::<RunPlan, RunFault>(plan)),
    ensures
        exists|at: Seq<int>| #[trigger]
            selects(order, marks, text::texts(plan.inputable@), at) && at.len() > 0 && plan.primary@
                == (match args.input {
                Some(s) => s@,
                None => if is_marked(order, marks, "english"@) {
                    "english"@
                } else if is_marked(order, marks, "i"@) {
                    "i"@
                } else {
                    order[at[0]]
                },
            }),
        args.parseval matches Some(s) ==> exists|i: int|
            0 <= i < order.len() && #[trigger] order[i] == s@,
        args.algorithm == Algorithm::Astar && (args.heuristic == Heuristic::Sx || args.heuristic
            == Heuristic::Sxf) ==> is_marked(order, marks, plan.primary@),
{
    let chosen = run_plan::marked_names(order, marks);
    let at = lemma_selects(order, marks);
    assert(text::texts(plan.inputable@) == chosen);
    let f = seq!["english"@, "i"@];
    assert(run_plan::evaluation_favourites() =~= f);
    assert(f.skip(1) =~= seq!["i"@]);
    assert(f.skip(1).skip(1) =~= Seq::<Seq<char>>::empty());
    reveal_with_fuel(run_plan::preferred, 4);
    lemma_listed_is_marked(order, marks, at, "english"@);
    lemma_listed_is_marked(order, marks, at, "i"@);
    lemma_listed_is_marked(order, marks, at, plan.primary@);
    assert(chosen[0] == order[at[0]]);
}

proof fn lemma_listed_is_marked(
    order: Seq<Seq<char>>,
    marks: Seq<bool>,
    at: Seq<int>,
    name: Seq<char>,
)
    requires
        selects(order, marks, run_plan::marked_names(order, marks), at),
    ensures
        run_plan::has_name(run_plan::marked_names(order, marks), name) == is_marked(
            order,
            marks,
            name,
        ),
{
    let chosen = run_plan::marked_names(order, marks);
    if run_plan::has_name(chosen, name) {
        let k = choose|k: int| 0 <= k < chosen.len() && #[trigger] chosen[k] == name;
        assert(order[at[k]] == name);
    }
    if is_marked(order, marks, name) {
        let i = choose|i: int| 0 <= i < order.len() && marks[i] && #[trigger] order[i] == name;
        assert(marks[i]);
        let k = choose|k: int| 0 <= k < at.len() && at[k] == i;
        assert(at[k] == i);
        assert(chosen[k] == name);
    }
}

/// An evaluation is refused for one of four reasons, each of which is one: the scored
/// interpretation is not declared, nothing is declared, nothing can be parsed, or the
/// length is to be that of an interpretation that cannot be parsed.
pub proof fn law_refused_plans(
    args: EvalArgs,
    order: Seq<Seq<char>>,
    marks: Seq<bool>,
    fault: RunFault,
)
    requires
        order.len() == marks.len(),
        run_plan::planned(args, order, marks, Err::<RunPlan, RunFault>(fault)),
    ensures
        match fault {
            RunFault::UndeclaredParseval(s) => args.parseval is Some && s@ == args.parseval->0@
                && forall|i: int| 0 <= i < order.len() ==> #[trigger] order[i] != s@,
            RunFault::NoInterpretations => order.len() == 0,
            RunFault::NothingToParse => order.len() > 0 && forall|i: int|
                0 <= i < order.len() ==> !#[trigger] marks[i],
            RunFault::NotInputable(s) => args.algorithm == Algorithm::Astar && (args.heuristic
                == Heuristic::Sx || args.heuristic == Heuristic::Sxf) && !is_marked(
                order,
                marks,
                s@,
            ),
        },
{
    let at = lemma_selects(order, marks);
    if let RunFault::NothingToParse = fault {
        assert forall|i: int| 0 <= i < order.len() implies !#[trigger] marks[i] by {
            if marks[i] {
                assert(at.contains(i));
            }
        }
    }
    if let RunFault::NotInputable(s) = fault {
        lemma_listed_is_marked(order, marks, at, s@);
    }
}

/// Whether sentences are the lines that are not blank, in their order, trimmed and numbered
/// from one; `at` are their places.
pub open spec fn numbers_lines(
    lines: Seq<Seq<char>>,
    sentences: Seq<(int, Seq<char>)>,
    at: Seq<int>,
) -> bool {
    &&& at.len() == sentences.len()
    &&& increase(at)
    &&& forall|k: int|
        0 <= k < at.len() ==> 0 <= (#[trigger] at[k]) < lines.len() && sentences[k].0 == k + 1
            && text_laws::is_trimmed(lines[at[k]], sentences[k].1) && sentences[k].1.len() > 0
    &&& forall|i: int|
        0 <= i < lines.len() && !text_laws::is_blank(#[trigger] lines[i]) ==> at.contains(i)
}

/// Sentences are the lines that are not blank: none is lost, each is trimmed, and they are
/// numbered from one in their order.
pub proof fn law_sentences_are_numbered(lines: Seq<Seq<char>>) -> (at: Seq<int>)
    ensures
        numbers_lines(lines, strategies::numbered(lines), at),
    decreases lines.len(),
{
    if lines.len() == 0 {
        Seq::empty()
    } else {
        let n = lines.len() as int;
        let front = lines.drop_last();
        let at = law_sentences_are_numbered(front);
        let before = strategies::numbered(front);
        let now = strategies::numbered(lines);
        let all = if text::trim(lines.last()).len() == 0 {
            at
        } else {
            at.push(n - 1)
        };
        text_laws::law_trim(lines.last());
        assert forall|k: int| 0 <= k < all.len() implies 0 <= (#[trigger] all[k]) < lines.len()
            && now[k].0 == k + 1 && text_laws::is_trimmed(lines[all[k]], now[k].1) && now[k].1.len()
            > 0 by {
            if k < at.len() {
                assert(all[k] == at[k]);
                assert(front[at[k]] == lines[at[k]]);
                assert(now[k] == before[k]);
            }
        }
        assert forall|i: int|
            0 <= i < lines.len() && !text_laws::is_blank(#[trigger] lines[i]) implies all.contains(
            i,
        ) by {
            if i < n - 1 {
                assert(front[i] == lines[i]);
                assert(at.contains(i));
                let k = choose|k: int| 0 <= k < at.len() && at[k] == i;
                assert(all[k] == i);
            } else {
                assert(all[all.len() - 1] == n - 1);
            }
        }
        assert forall|k: int, l: int| 0 <= k < l < all.len() implies (#[trigger] all[k]) < (
        #[trigger] all[l]) by {
            assert(all[k] == at[k]);
        }
        all
    }
}

} // verus!
