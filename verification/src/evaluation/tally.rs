//! What the sentences of a corpus come to: how many were parsed and scored, and what their
//! constituents add up to.
use crate::alto_ast;
use crate::alto_ast::decimal_text;
use crate::arena;
use crate::arena::parse_text_tree;
use crate::corpus;
use crate::corpus::{GoldDerivation, GoldModel, Instance, InstanceModel};
use vstd::prelude::*;
use vstd::string::StringExecFns;

verus! {

/// The constituents of one sentence.
#[derive(Clone, Copy, PartialEq, Eq, Structural, Debug)]
pub struct ParsevalCounts {
    pub gold: usize,
    pub predicted: usize,
    pub matched_labeled: usize,
    pub matched_unlabeled: usize,
}

/// Why a sentence has no score.
#[derive(Clone, Copy, PartialEq, Eq, Structural, Debug)]
pub enum ParsevalSkip {
    /// The trees have different numbers of words.
    LengthMismatch { predicted: usize, gold: usize },
    /// The sentence is longer than sentences may be.
    Cutoff { length: usize, cutoff: usize },
}

impl ParsevalSkip {
    /// The reason in a report.
    pub open spec fn reason(self) -> Seq<char> {
        match self {
            ParsevalSkip::LengthMismatch { predicted, gold } => "length-mismatch predicted="@
                + alto_ast::decimal(predicted as nat) + " gold="@ + alto_ast::decimal(gold as nat),
            ParsevalSkip::Cutoff { length, cutoff } => "cutoff normalized-length="@
                + alto_ast::decimal(length as nat) + " limit="@ + alto_ast::decimal(cutoff as nat),
        }
    }

    /// The reason in a report.
    pub fn text(self) -> (s: String)
        ensures
            s@ == self.reason(),
    {
        match self {
            ParsevalSkip::LengthMismatch { predicted, gold } => {
                let mut s = "length-mismatch predicted=".to_owned();
                s.append(decimal_text(predicted).as_str());
                s.append(" gold=");
                s.append(decimal_text(gold).as_str());
                s
            },
            ParsevalSkip::Cutoff { length, cutoff } => {
                let mut s = "cutoff normalized-length=".to_owned();
                s.append(decimal_text(length).as_str());
                s.append(" limit=");
                s.append(decimal_text(cutoff).as_str());
                s
            },
        }
    }
}

/// What became of a sentence. There is no score where none was asked for.
#[derive(Clone, Copy, Debug)]
pub struct SentenceOutcome {
    pub parsed: bool,
    pub score: Option<Result<ParsevalCounts, ParsevalSkip>>,
}

/// What the sentences of a corpus come to.
#[derive(Clone, Copy, PartialEq, Eq, Structural, Debug)]
pub struct Tally {
    pub parsed: usize,
    pub scored: usize,
    pub skipped: usize,
    pub gold: u128,
    pub predicted: u128,
    pub matched_labeled: u128,
    pub matched_unlabeled: u128,
}

/// The sum of a number that is read from each sentence.
pub open spec fn total(list: Seq<SentenceOutcome>, part: spec_fn(SentenceOutcome) -> nat) -> nat
    decreases list.len(),
{
    if list.len() == 0 {
        0
    } else {
        total(list.drop_last(), part) + part(list.last())
    }
}

/// One for each sentence that was parsed.
pub open spec fn parsed_part() -> spec_fn(SentenceOutcome) -> nat {
    |s: SentenceOutcome|
        if s.parsed {
            1nat
        } else {
            0nat
        }
}

/// One for each sentence that was scored.
pub open spec fn scored_part() -> spec_fn(SentenceOutcome) -> nat {
    |s: SentenceOutcome|
        if s.score matches Some(Ok(_)) {
            1nat
        } else {
            0nat
        }
}

/// One for each sentence that was skipped.
pub open spec fn skipped_part() -> spec_fn(SentenceOutcome) -> nat {
    |s: SentenceOutcome|
        if s.score matches Some(Err(_)) {
            1nat
        } else {
            0nat
        }
}

/// The counts of a sentence; nothing where it has no score.
pub open spec fn counts_of(s: SentenceOutcome) -> ParsevalCounts {
    match s.score {
        Some(Ok(counts)) => counts,
        _ => ParsevalCounts { gold: 0, predicted: 0, matched_labeled: 0, matched_unlabeled: 0 },
    }
}

/// The gold constituents of a sentence.
pub open spec fn gold_part() -> spec_fn(SentenceOutcome) -> nat {
    |s: SentenceOutcome| counts_of(s).gold as nat
}

/// The predicted constituents of a sentence.
pub open spec fn predicted_part() -> spec_fn(SentenceOutcome) -> nat {
    |s: SentenceOutcome| counts_of(s).predicted as nat
}

/// The constituents of a sentence that match with their labels.
pub open spec fn labeled_part() -> spec_fn(SentenceOutcome) -> nat {
    |s: SentenceOutcome| counts_of(s).matched_labeled as nat
}

/// The constituents of a sentence that match without their labels.
pub open spec fn unlabeled_part() -> spec_fn(SentenceOutcome) -> nat {
    |s: SentenceOutcome| counts_of(s).matched_unlabeled as nat
}

/// Whether a tally says what sentences come to.
pub open spec fn is_tally(list: Seq<SentenceOutcome>, t: Tally) -> bool {
    &&& t.parsed == total(list, parsed_part())
    &&& t.scored == total(list, scored_part())
    &&& t.skipped == total(list, skipped_part())
    &&& t.gold == total(list, gold_part())
    &&& t.predicted == total(list, predicted_part())
    &&& t.matched_labeled == total(list, labeled_part())
    &&& t.matched_unlabeled == total(list, unlabeled_part())
}

/// A sum of numbers that are at most `top`.
proof fn lemma_total(list: Seq<SentenceOutcome>, part: spec_fn(SentenceOutcome) -> nat, top: nat)
    requires
        forall|s: SentenceOutcome| #[trigger] part(s) <= top,
    ensures
        total(list, part) <= list.len() * top,
    decreases list.len(),
{
    if list.len() > 0 {
        let n = list.len();
        lemma_total(list.drop_last(), part, top);
        assert(part(list.last()) <= top);
        assert((n - 1) * top + top == n * top) by (nonlinear_arith);
    }
}

/// A sum of counts fits.
proof fn lemma_fits(list: Seq<SentenceOutcome>, part: spec_fn(SentenceOutcome) -> nat)
    requires
        list.len() <= usize::MAX,
        forall|s: SentenceOutcome| #[trigger] part(s) <= usize::MAX,
    ensures
        total(list, part) <= u128::MAX,
{
    let n = list.len();
    let top = usize::MAX as nat;
    lemma_total(list, part, top);
    assert(n * top <= u128::MAX) by (nonlinear_arith)
        requires
            n <= top,
            top <= 0xffff_ffff_ffff_ffff,
    ;
}

/// Counts what sentences come to.
pub fn tally(list: &Vec<SentenceOutcome>) -> (t: Tally)
    ensures
        is_tally(list@, t),
{
    let mut t = Tally {
        parsed: 0,
        scored: 0,
        skipped: 0,
        gold: 0,
        predicted: 0,
        matched_labeled: 0,
        matched_unlabeled: 0,
    };
    let mut i: usize = 0;
    let count: usize = list.len();
    while i < count
        invariant
            i <= count,
            count == list@.len(),
            is_tally(list@.take(i as int), t),
        decreases count - i,
    {
        let ghost now = list@.take(i + 1);
        proof {
            assert(now.drop_last() =~= list@.take(i as int));
            assert(now.last() == list@[i as int]);
            lemma_total(now, parsed_part(), 1);
            lemma_total(now, scored_part(), 1);
            lemma_total(now, skipped_part(), 1);
            lemma_fits(now, gold_part());
            lemma_fits(now, predicted_part());
            lemma_fits(now, labeled_part());
            lemma_fits(now, unlabeled_part());
        }
        let s: SentenceOutcome = list[i];
        if s.parsed {
            t.parsed = t.parsed + 1;
        }
        match s.score {
            Some(Ok(counts)) => {
                t.scored = t.scored + 1;
                t.gold = t.gold + counts.gold as u128;
                t.predicted = t.predicted + counts.predicted as u128;
                t.matched_labeled = t.matched_labeled + counts.matched_labeled as u128;
                t.matched_unlabeled = t.matched_unlabeled + counts.matched_unlabeled as u128;
            },
            Some(Err(_)) => {
                t.skipped = t.skipped + 1;
            },
            None => {},
        }
        i += 1;
    }
    assert(list@.take(i as int) =~= list@);
    t
}

/// Where a score was asked for, every sentence is scored or skipped.
pub proof fn law_scored_or_skipped(list: Seq<SentenceOutcome>)
    requires
        forall|i: int| 0 <= i < list.len() ==> (#[trigger] list[i]).score is Some,
    ensures
        total(list, scored_part()) + total(list, skipped_part()) == list.len(),
    decreases list.len(),
{
    if list.len() > 0 {
        let front = list.drop_last();
        assert forall|i: int| 0 <= i < front.len() implies (#[trigger] front[i]).score is Some by {
            assert(list[i].score is Some);
        }
        law_scored_or_skipped(front);
        assert(list[list.len() - 1].score is Some);
    }
}

/// Why an instance has no gold tree.
#[derive(Debug)]
pub enum GoldError {
    /// The instance lacks the interpretation.
    Missing,
    /// The text is no tree; the message says why.
    NotATree(String),
}

/// The gold tree of an instance: what the text of an interpretation spells.
pub open spec fn gold_tree(instance: InstanceModel, interpretation: Seq<char>) -> Option<
    Result<GoldModel, Seq<char>>,
> {
    match corpus::text_of(instance.objects, interpretation) {
        Some(text) => Some(arena::spelled_tree(text)),
        None => None,
    }
}

/// Reads the gold tree of an instance.
pub fn read_gold_tree(instance: &Instance, interpretation: &str) -> (r: Result<
    GoldDerivation,
    GoldError,
>)
    ensures
        match r {
            Ok(tree) => gold_tree(instance@, interpretation@) == Some(
                Ok::<GoldModel, Seq<char>>(tree@),
            ),
            Err(GoldError::Missing) => gold_tree(instance@, interpretation@) is None,
            Err(GoldError::NotATree(message)) => gold_tree(instance@, interpretation@) == Some(
                Err::<GoldModel, Seq<char>>(message@),
            ),
        },
{
    match instance.text(interpretation) {
        Some(text) => match parse_text_tree(text) {
            Ok((arena, root)) => Ok(GoldDerivation { arena, root }),
            Err(message) => Err(GoldError::NotATree(message)),
        },
        None => Err(GoldError::Missing),
    }
}

} // verus!
